//! Turns an animated indexed-color image into a two-color mask animation:
//! per frame, the background region 4-connected to any canvas corner is
//! painted white, everything else black.
//!
//! The library holds the verified core: palette classification, canvas
//! accumulation across partial frames, the four-corner flood erase, and
//! sub-frame extraction. Container decoding and encoding stay outside.

mod canvas;
mod compose;
mod flood;
mod palette;

pub use canvas::Canvas;
pub use canvas::FrameRecord;
pub use canvas::apply_frame;
pub use canvas::composed;
pub use canvas::composed_at;
pub use canvas::lemma_fully_transparent_frame_preserves_canvas;
pub use compose::canvas_after;
pub use compose::crop_at;
pub use compose::crop_mask;
pub use compose::cropped;
pub use compose::frame_mask;
pub use compose::initial_canvas;
pub use compose::lemma_crop_pointwise;
pub use compose::lemma_cropped_congruent;
pub use compose::process_frame;
pub use compose::process_frames;
pub use flood::adjacent;
pub use flood::any_corner_reachable;
pub use flood::corner_seed;
pub use flood::erase_closed;
pub use flood::erase_consistent;
pub use flood::eraser;
pub use flood::flood_erase_mask;
pub use flood::in_rect;
pub use flood::is_bg_at;
pub use flood::is_path;
pub use flood::lemma_all_background_mask_white;
pub use flood::lemma_all_background_reachable;
pub use flood::lemma_classified_background;
pub use flood::lemma_diagonal_not_adjacent;
pub use flood::lemma_no_background_corner_mask_black;
pub use flood::lemma_reachable_ends;
pub use flood::lemma_reachable_self;
pub use flood::lemma_reachable_step;
pub use flood::lemma_ring_blocks;
pub use flood::lemma_ring_interior_mask_black;
pub use flood::lemma_wall_seed_reaches_nothing;
pub use flood::lemma_wall_stays_black;
pub use flood::mask_spec_at;
pub use flood::on_ring;
pub use flood::reachable;
pub use flood::strictly_inside;
pub use flood::valid_pos;
pub use palette::PaletteError;
pub use palette::classify_alphas;
pub use palette::classify_prefix;
pub use palette::entry_count;
pub use palette::is_bg_entry;
pub use palette::lemma_classify_prefix_contains;
