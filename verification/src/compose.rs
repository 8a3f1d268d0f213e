//! Sub-frame extraction and the per-frame pipeline.
//!
//! After the canvas is updated and the flood erase has produced a mask, the
//! output frame is the row-major crop of the mask over the input frame's
//! rectangle, with the input frame's timing and disposal metadata copied
//! verbatim.

use vstd::prelude::*;

use crate::canvas::Canvas;
use crate::canvas::FrameRecord;
use crate::canvas::apply_frame;
use crate::canvas::composed;
use crate::canvas::lemma_linear_index;
use crate::flood::flood_erase_mask;
use crate::flood::mask_spec_at;

verus! {

/// The mask value sampled by output cell `k` of a crop whose rectangle
/// starts at (`left`, `top`) and is `fw` cells wide.
pub open spec fn crop_at(mask: Seq<u8>, width: int, left: int, top: int, fw: int, k: int) -> u8 {
    mask[(top + k / fw) * width + (left + k % fw)]
}

/// The row-major crop of `mask` over the rectangle (`left`, `top`, `fw`, `fh`).
pub open spec fn cropped(
    mask: Seq<u8>,
    width: int,
    left: int,
    top: int,
    fw: int,
    fh: int,
) -> Seq<u8> {
    Seq::new((fw * fh) as nat, |k: int| crop_at(mask, width, left, top, fw, k))
}

/// Every sampled position of a crop lies inside the mask.
pub proof fn lemma_crop_index_bounds(
    width: int,
    height: int,
    left: int,
    top: int,
    fw: int,
    fh: int,
    k: int,
)
    requires
        width > 0,
        fw > 0,
        0 <= left,
        0 <= top,
        left + fw <= width,
        top + fh <= height,
        0 <= k < fw * fh,
    ensures
        0 <= k / fw < fh,
        0 <= k % fw < fw,
        0 <= (top + k / fw) * width + (left + k % fw) < width * height,
        (top + k / fw) * width + (left + k % fw) < (top + k / fw + 1) * width,
        (top + k / fw) * width >= 0,
{
    vstd::arithmetic::div_mod::lemma_fundamental_div_mod(k, fw);
    vstd::arithmetic::div_mod::lemma_mod_bound(k, fw);
    vstd::arithmetic::div_mod::lemma_div_pos_is_pos(k, fw);
    let y = k / fw;
    if y >= fh {
        vstd::arithmetic::mul::lemma_mul_inequality(fh, y, fw);
        vstd::arithmetic::mul::lemma_mul_is_commutative(fh, fw);
        vstd::arithmetic::mul::lemma_mul_is_commutative(fw, y);
        assert(false);
    }
    let x = k % fw;
    let row = top + y;
    assert(0 <= row < height);
    vstd::arithmetic::mul::lemma_mul_inequality(0, row, width);
    vstd::arithmetic::mul::lemma_mul_inequality(row + 1, height, width);
    assert((row + 1) * width == row * width + width) by (nonlinear_arith);
    vstd::arithmetic::mul::lemma_mul_is_commutative(height, width);
    assert(row * width + (left + x) < row * width + width);
}

/// Crop correctness in coordinates: output cell (`x`, `y`) of the crop holds
/// the mask value at canvas cell (`left + x`, `top + y`).
pub proof fn lemma_crop_pointwise(
    mask: Seq<u8>,
    width: int,
    left: int,
    top: int,
    fw: int,
    fh: int,
    x: int,
    y: int,
)
    requires
        fw > 0,
        0 <= x < fw,
        0 <= y < fh,
    ensures
        cropped(mask, width, left, top, fw, fh)[y * fw + x] == mask[(top + y) * width + (left
            + x)],
{
    lemma_linear_index(fw, y, x);
    vstd::arithmetic::mul::lemma_mul_inequality(y + 1, fh, fw);
    assert((y + 1) * fw == y * fw + fw) by (nonlinear_arith);
    assert(fh * fw == fw * fh) by (nonlinear_arith);
    vstd::arithmetic::mul::lemma_mul_inequality(0, y, fw);
}

/// Two masks equal on the whole canvas crop to the same sub-frame.
pub proof fn lemma_cropped_congruent(
    m1: Seq<u8>,
    m2: Seq<u8>,
    width: int,
    height: int,
    left: int,
    top: int,
    fw: int,
    fh: int,
)
    requires
        width > 0,
        0 <= left,
        0 <= top,
        left + fw <= width,
        top + fh <= height,
        0 <= fw,
        0 <= fh,
        forall|p: int| 0 <= p < width * height ==> #[trigger] m1[p] == m2[p],
    ensures
        cropped(m1, width, left, top, fw, fh) == cropped(m2, width, left, top, fw, fh),
{
    assert forall|k: int| 0 <= k < fw * fh implies crop_at(m1, width, left, top, fw, k) == crop_at(
        m2,
        width,
        left,
        top,
        fw,
        k,
    ) by {
        if fw > 0 {
            lemma_crop_index_bounds(width, height, left, top, fw, fh, k);
        } else {
            assert(fw * fh == 0) by (nonlinear_arith)
                requires
                    fw == 0,
            ;
        }
    }
    assert(cropped(m1, width, left, top, fw, fh) =~= cropped(m2, width, left, top, fw, fh));
}

/// Row-major crop of the mask over a frame rectangle that fits the canvas.
pub fn crop_mask(
    mask: &Vec<u8>,
    width: usize,
    height: usize,
    left: usize,
    top: usize,
    fw: usize,
    fh: usize,
) -> (out: Vec<u8>)
    requires
        mask@.len() == width * height,
        width > 0,
        left + fw <= width,
        top + fh <= height,
        fw * fh <= usize::MAX,
    ensures
        out@ == cropped(mask@, width as int, left as int, top as int, fw as int, fh as int),
        out@.len() == fw * fh,
{
    let ghost wi = width as int;
    let mut out: Vec<u8> = Vec::new();
    if fw == 0 || fh == 0 {
        proof {
            assert(fw * fh == 0) by (nonlinear_arith)
                requires
                    fw == 0 || fh == 0,
            ;
            assert(out@ =~= cropped(mask@, wi, left as int, top as int, fw as int, fh as int));
        }
        return out;
    }
    let total = fw * fh;
    proof {
        assert(mask.len() == mask@.len());
    }
    let mut k: usize = 0;
    while k < total
        invariant
            mask@.len() == width * height,
            width * height <= usize::MAX,
            width > 0,
            fw > 0,
            left + fw <= width,
            top + fh <= height,
            total == fw * fh,
            0 <= k <= total,
            out@.len() == k,
            forall|j: int|
                0 <= j < k ==> (#[trigger] out@[j]) == crop_at(
                    mask@,
                    width as int,
                    left as int,
                    top as int,
                    fw as int,
                    j,
                ),
        decreases total - k,
    {
        proof {
            lemma_crop_index_bounds(
                width as int,
                height as int,
                left as int,
                top as int,
                fw as int,
                fh as int,
                k as int,
            );
        }
        let y = k / fw;
        let x = k % fw;
        let idx = (top + y) * width + (left + x);
        out.push(mask[idx]);
        k += 1;
    }
    proof {
        assert(out@ =~= cropped(mask@, wi, left as int, top as int, fw as int, fh as int));
    }
    out
}

/// Run one frame through the pipeline: fold it onto the canvas, flood-erase
/// from the four corners, and emit the crop of the mask over the frame's
/// rectangle under the frame's own metadata.
pub fn process_frame(
    canvas: &mut Canvas,
    alphas: &Vec<u8>,
    mask: &mut Vec<u8>,
    visited: &mut Vec<bool>,
    frame: &FrameRecord,
) -> (out: FrameRecord)
    requires
        old(canvas).wf(),
        old(canvas).width > 0,
        old(canvas).height > 0,
        frame.wf(),
        frame.fits(old(canvas).width as int, old(canvas).height as int),
        old(mask)@.len() == old(canvas).width * old(canvas).height,
        old(visited)@.len() == old(canvas).width * old(canvas).height,
    ensures
        final(canvas).wf(),
        final(canvas).width == old(canvas).width,
        final(canvas).height == old(canvas).height,
        final(canvas).cells@ == composed(old(canvas).cells@, *frame, old(canvas).width as int),
        final(mask)@.len() == old(mask)@.len(),
        final(visited)@.len() == old(visited)@.len(),
        forall|p: int|
            0 <= p < old(canvas).width * old(canvas).height ==> (#[trigger] final(mask)@[p])
                == mask_spec_at(
                old(canvas).width as int,
                old(canvas).height as int,
                final(canvas).cells@,
                alphas@,
                p,
            ),
        out.same_metadata(*frame),
        out.wf(),
        out.buffer@ == cropped(
            final(mask)@,
            old(canvas).width as int,
            frame.left as int,
            frame.top as int,
            frame.width as int,
            frame.height as int,
        ),
{
    apply_frame(canvas, frame);
    flood_erase_mask(canvas, alphas, mask, visited);
    proof {
        assert(frame.buffer.len() == frame.buffer@.len());
    }
    let buffer = crop_mask(
        mask,
        canvas.width,
        canvas.height,
        frame.left as usize,
        frame.top as usize,
        frame.width as usize,
        frame.height as usize,
    );
    FrameRecord {
        left: frame.left,
        top: frame.top,
        width: frame.width,
        height: frame.height,
        buffer,
        transparent: frame.transparent,
        delay: frame.delay,
        dispose: frame.dispose,
    }
}

/// The all-zero canvas the pipeline starts from.
pub open spec fn initial_canvas(w: int, h: int) -> Seq<u8> {
    Seq::new((w * h) as nat, |p: int| 0u8)
}

/// Canvas contents after the first `n` frames have been folded in.
pub open spec fn canvas_after(frames: Seq<FrameRecord>, w: int, h: int, n: int) -> Seq<u8>
    decreases n,
{
    if n <= 0 {
        initial_canvas(w, h)
    } else {
        composed(canvas_after(frames, w, h, n - 1), frames[n - 1], w)
    }
}

/// The full-canvas mask of given canvas contents.
pub open spec fn frame_mask(w: int, h: int, cells: Seq<u8>, alphas: Seq<u8>) -> Seq<u8> {
    Seq::new((w * h) as nat, |p: int| mask_spec_at(w, h, cells, alphas, p))
}

proof fn lemma_canvas_after_len(frames: Seq<FrameRecord>, w: int, h: int, n: int)
    requires
        w >= 0,
        h >= 0,
    ensures
        canvas_after(frames, w, h, n).len() == w * h,
    decreases n,
{
    if n > 0 {
        lemma_canvas_after_len(frames, w, h, n - 1);
    }
}

/// Drive the whole pipeline over a frame sequence: one output frame per
/// input frame, each with the input frame's metadata and the crop of the
/// cumulative canvas's flood mask over the input frame's rectangle.
pub fn process_frames(
    width: usize,
    height: usize,
    alphas: &Vec<u8>,
    frames: &Vec<FrameRecord>,
) -> (out: Vec<FrameRecord>)
    requires
        width > 0,
        height > 0,
        width * height <= usize::MAX,
        forall|i: int|
            0 <= i < frames@.len() ==> (#[trigger] frames@[i]).wf() && frames@[i].fits(
                width as int,
                height as int,
            ),
    ensures
        out@.len() == frames@.len(),
        forall|i: int|
            0 <= i < frames@.len() ==> (#[trigger] out@[i]).same_metadata(frames@[i]),
        forall|i: int|
            0 <= i < frames@.len() ==> (#[trigger] out@[i]).buffer@ == cropped(
                frame_mask(
                    width as int,
                    height as int,
                    canvas_after(frames@, width as int, height as int, i + 1),
                    alphas@,
                ),
                width as int,
                frames@[i].left as int,
                frames@[i].top as int,
                frames@[i].width as int,
                frames@[i].height as int,
            ),
{
    let ghost wi = width as int;
    let ghost hi = height as int;
    let mut canvas = Canvas::new(width, height);
    proof {
        assert(canvas.cells@ =~= initial_canvas(wi, hi));
    }
    let area = canvas.cells.len();
    let mut mask: Vec<u8> = Vec::new();
    let mut visited: Vec<bool> = Vec::new();
    let mut k: usize = 0;
    while k < area
        invariant
            0 <= k <= area,
            mask@.len() == k,
            visited@.len() == k,
        decreases area - k,
    {
        mask.push(1);
        visited.push(false);
        k += 1;
    }
    let mut out: Vec<FrameRecord> = Vec::new();
    let mut i: usize = 0;
    while i < frames.len()
        invariant
            wi == width as int,
            hi == height as int,
            width > 0,
            height > 0,
            canvas.wf(),
            canvas.width == width,
            canvas.height == height,
            mask@.len() == width * height,
            visited@.len() == width * height,
            0 <= i <= frames@.len(),
            forall|j: int|
                0 <= j < frames@.len() ==> (#[trigger] frames@[j]).wf() && frames@[j].fits(wi, hi),
            canvas.cells@ == canvas_after(frames@, wi, hi, i as int),
            out@.len() == i,
            forall|j: int| 0 <= j < i ==> (#[trigger] out@[j]).same_metadata(frames@[j]),
            forall|j: int|
                0 <= j < i ==> (#[trigger] out@[j]).buffer@ == cropped(
                    frame_mask(wi, hi, canvas_after(frames@, wi, hi, j + 1), alphas@),
                    wi,
                    frames@[j].left as int,
                    frames@[j].top as int,
                    frames@[j].width as int,
                    frames@[j].height as int,
                ),
        decreases frames@.len() - i,
    {
        let frame = &frames[i];
        let result = process_frame(&mut canvas, alphas, &mut mask, &mut visited, frame);
        proof {
            assert(canvas.cells@ == canvas_after(frames@, wi, hi, i + 1));
            lemma_canvas_after_len(frames@, wi, hi, i + 1);
            assert(frame_mask(wi, hi, canvas.cells@, alphas@).len() == wi * hi);
            assert forall|p: int| 0 <= p < wi * hi implies #[trigger] mask@[p] == frame_mask(
                wi,
                hi,
                canvas.cells@,
                alphas@,
            )[p] by {
                assert(mask@[p] == mask_spec_at(wi, hi, canvas.cells@, alphas@, p));
            }
            lemma_cropped_congruent(
                mask@,
                frame_mask(wi, hi, canvas.cells@, alphas@),
                wi,
                hi,
                frame.left as int,
                frame.top as int,
                frame.width as int,
                frame.height as int,
            );
        }
        out.push(result);
        i += 1;
    }
    out
}

} // verus!
