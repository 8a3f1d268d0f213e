use gifmask::Canvas;
use gifmask::FrameRecord;
use gifmask::apply_frame;
use gifmask::classify_alphas;
use gifmask::crop_mask;
use gifmask::eraser;
use gifmask::flood_erase_mask;
use gifmask::process_frames;

fn full_frame(width: u16, height: u16, buffer: Vec<u8>, transparent: Option<u8>) -> FrameRecord {
    FrameRecord {
        left: 0,
        top: 0,
        width,
        height,
        buffer,
        transparent,
        delay: 0,
        dispose: 0,
    }
}

fn run_mask(width: usize, height: usize, cells: Vec<u8>, alphas: Vec<u8>) -> Vec<u8> {
    let canvas = Canvas {
        width,
        height,
        cells,
    };
    let mut mask = vec![9u8; width * height];
    let mut visited = vec![true; width * height];
    flood_erase_mask(&canvas, &alphas, &mut mask, &mut visited);
    mask
}

#[test]
fn all_background_canvas_gives_all_white_mask() {
    let mask = run_mask(3, 3, vec![1; 9], vec![1]);
    assert_eq!(mask, vec![0; 9]);
}

#[test]
fn no_background_corner_gives_all_black_mask() {
    let mask = run_mask(3, 3, vec![0; 9], vec![1]);
    assert_eq!(mask, vec![1; 9]);
}

#[test]
fn diagonal_bridge_does_not_transfer_erasure() {
    // corners are background but isolated: connectivity is 4-, not
    // 8-neighborhood, so the background center stays black
    let cells = vec![1, 0, 1, 0, 1, 0, 1, 0, 1];
    let mask = run_mask(3, 3, cells, vec![1]);
    assert_eq!(mask, vec![0, 1, 0, 1, 1, 1, 0, 1, 0]);
}

#[test]
fn solid_ring_blocks_interior() {
    // a ring of non-background cells encloses a background center: the
    // exterior is erased, the ring and the enclosed center are not
    let cells = vec![
        1, 1, 1, 1, 1, //
        1, 0, 0, 0, 1, //
        1, 0, 1, 0, 1, //
        1, 0, 0, 0, 1, //
        1, 1, 1, 1, 1,
    ];
    let mask = run_mask(5, 5, cells, vec![1]);
    let expected = vec![
        0, 0, 0, 0, 0, //
        0, 1, 1, 1, 0, //
        0, 1, 1, 1, 0, //
        0, 1, 1, 1, 0, //
        0, 0, 0, 0, 0,
    ];
    assert_eq!(mask, expected);
}

#[test]
fn eraser_erases_run_from_seed() {
    let input = vec![1, 1, 0];
    let mut visited = vec![false; 3];
    let mut output = vec![1u8; 3];
    let alphas = vec![1];
    eraser(0, 3, 1, &mut visited, &input, &mut output, &alphas);
    assert_eq!(output, vec![0, 0, 1]);
}

#[test]
fn eraser_on_wall_seed_erases_nothing() {
    let input = vec![0, 1, 1];
    let mut visited = vec![false; 3];
    let mut output = vec![1u8; 3];
    let alphas = vec![1];
    eraser(0, 3, 1, &mut visited, &input, &mut output, &alphas);
    assert_eq!(output, vec![1, 1, 1]);
}

#[test]
fn accumulator_overwrites_inside_rectangle_only() {
    let mut canvas = Canvas::new(4, 4);
    let frame = FrameRecord {
        left: 1,
        top: 2,
        width: 2,
        height: 1,
        buffer: vec![7, 8],
        transparent: None,
        delay: 0,
        dispose: 0,
    };
    apply_frame(&mut canvas, &frame);
    let mut expected = vec![0u8; 16];
    expected[2 * 4 + 1] = 7;
    expected[2 * 4 + 2] = 8;
    assert_eq!(canvas.cells, expected);
}

#[test]
fn accumulator_preserves_transparent_cells() {
    let mut canvas = Canvas::new(2, 2);
    apply_frame(&mut canvas, &full_frame(2, 2, vec![3, 1, 1, 3], Some(1)));
    // cells where the buffer holds the transparent index 1 keep the old 0
    assert_eq!(canvas.cells, vec![3, 0, 0, 3]);
}

#[test]
fn fully_transparent_frame_changes_nothing() {
    // the accumulator run with a frame whose buffer is all its transparent
    // index leaves the canvas exactly as it was
    let mut canvas = Canvas::new(2, 2);
    apply_frame(&mut canvas, &full_frame(2, 2, vec![1; 4], None));
    let after_first = canvas.cells.clone();
    assert_eq!(after_first, vec![1; 4]);
    apply_frame(&mut canvas, &full_frame(2, 2, vec![1; 4], Some(1)));
    assert_eq!(canvas.cells, after_first);
}

#[test]
fn crop_samples_exactly_the_rectangle() {
    let mask = vec![
        10, 11, 12, 13, //
        14, 15, 16, 17, //
        18, 19, 20, 21, //
        22, 23, 24, 25,
    ];
    let out = crop_mask(&mask, 4, 4, 1, 1, 2, 2);
    assert_eq!(out, vec![15, 16, 19, 20]);
}

#[test]
fn crop_of_full_rectangle_is_identity() {
    let mask = vec![5, 6, 7, 8, 9, 10];
    let out = crop_mask(&mask, 3, 2, 0, 0, 3, 2);
    assert_eq!(out, mask);
}

#[test]
fn single_full_frame_all_background() {
    // 4x4 canvas, one frame covering it, black-and-white palette, buffer all
    // white: the whole mask is white
    let alphas = classify_alphas(&[0, 0, 0, 255, 255, 255]).unwrap();
    let frames = vec![full_frame(4, 4, vec![1; 16], None)];
    let out = process_frames(4, 4, &alphas, &frames);
    assert_eq!(out.len(), 1);
    assert_eq!(out[0].buffer, vec![0u8; 16]);
}

#[test]
fn border_of_background_around_foreground_block() {
    // border of 1s around a 2x2 block of 0s: the block is not background and
    // stays black; everything else is erased
    let alphas = classify_alphas(&[0, 0, 0, 255, 255, 255]).unwrap();
    let buffer = vec![
        1, 1, 1, 1, //
        1, 0, 0, 1, //
        1, 0, 0, 1, //
        1, 1, 1, 1,
    ];
    let frames = vec![full_frame(4, 4, buffer, None)];
    let out = process_frames(4, 4, &alphas, &frames);
    let expected = vec![
        0, 0, 0, 0, //
        0, 1, 1, 0, //
        0, 1, 1, 0, //
        0, 0, 0, 0,
    ];
    assert_eq!(out[0].buffer, expected);
}

#[test]
fn checkerboard_corners_stay_isolated() {
    // 3x3 checkerboard: the four background corners are erased, the
    // background center is unreachable through 4-neighborhood
    let alphas = classify_alphas(&[0, 0, 0, 255, 255, 255]).unwrap();
    let buffer = vec![1, 0, 1, 0, 1, 0, 1, 0, 1];
    let frames = vec![full_frame(3, 3, buffer, None)];
    let out = process_frames(3, 3, &alphas, &frames);
    assert_eq!(out[0].buffer, vec![0, 1, 0, 1, 1, 1, 0, 1, 0]);
}

#[test]
fn transparent_second_frame_keeps_canvas_and_mask() {
    // frame 0 fills the canvas with white; frame 1 is fully transparent: the
    // canvas stays all white and both output frames are all white
    let alphas = classify_alphas(&[0, 0, 0, 255, 255, 255]).unwrap();
    let frames = vec![
        full_frame(2, 2, vec![1; 4], None),
        full_frame(2, 2, vec![1; 4], Some(1)),
    ];
    let out = process_frames(2, 2, &alphas, &frames);
    assert_eq!(out.len(), 2);
    assert_eq!(out[0].buffer, vec![0u8; 4]);
    assert_eq!(out[1].buffer, vec![0u8; 4]);
}

#[test]
fn output_metadata_matches_input() {
    let alphas = classify_alphas(&[0, 0, 0, 255, 255, 255]).unwrap();
    let frames = vec![
        FrameRecord {
            left: 1,
            top: 0,
            width: 2,
            height: 3,
            buffer: vec![1; 6],
            transparent: Some(0),
            delay: 12,
            dispose: 2,
        },
        FrameRecord {
            left: 0,
            top: 1,
            width: 3,
            height: 1,
            buffer: vec![0, 1, 0],
            transparent: None,
            delay: 7,
            dispose: 1,
        },
    ];
    let out = process_frames(3, 3, &alphas, &frames);
    assert_eq!(out.len(), frames.len());
    for (o, f) in out.iter().zip(frames.iter()) {
        assert_eq!(o.left, f.left);
        assert_eq!(o.top, f.top);
        assert_eq!(o.width, f.width);
        assert_eq!(o.height, f.height);
        assert_eq!(o.delay, f.delay);
        assert_eq!(o.dispose, f.dispose);
        assert_eq!(o.transparent, f.transparent);
        assert_eq!(o.buffer.len(), (f.width as usize) * (f.height as usize));
    }
}

#[test]
fn partial_frame_sees_persistent_canvas() {
    // frame 0 fills the canvas with background; frame 1 paints one wall cell
    // in a 1x1 rectangle: the wall blocks nothing else but itself
    let alphas = classify_alphas(&[0, 0, 0, 255, 255, 255]).unwrap();
    let frames = vec![
        full_frame(3, 3, vec![1; 9], None),
        FrameRecord {
            left: 1,
            top: 1,
            width: 1,
            height: 1,
            buffer: vec![0],
            transparent: None,
            delay: 0,
            dispose: 0,
        },
    ];
    let out = process_frames(3, 3, &alphas, &frames);
    assert_eq!(out[0].buffer, vec![0u8; 9]);
    // second frame's output is the crop over its 1x1 rectangle: the center,
    // which now holds a wall cell
    assert_eq!(out[1].buffer, vec![1u8]);
}
