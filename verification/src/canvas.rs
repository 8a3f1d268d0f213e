//! The persistent canvas and the accumulation of partial frames onto it.
//!
//! The canvas is a dense row-major grid of palette indices. Each input frame
//! covers a rectangle of it; inside that rectangle a buffer value overwrites
//! the canvas cell unless it equals the frame's transparent index, in which
//! case the cell is preserved. Cells outside the rectangle are untouched.

use vstd::prelude::*;

verus! {

/// A full-size row-major grid of palette indices, `width * height` cells.
pub struct Canvas {
    pub width: usize,
    pub height: usize,
    pub cells: Vec<u8>,
}

impl Canvas {
    /// The cell vector has exactly one byte per grid position.
    pub open spec fn wf(self) -> bool {
        self.cells@.len() == self.width * self.height
    }

    /// A canvas of the given size with every cell at index 0.
    pub fn new(width: usize, height: usize) -> (c: Canvas)
        requires
            width * height <= usize::MAX,
        ensures
            c.wf(),
            c.width == width,
            c.height == height,
            forall|p: int| 0 <= p < c.cells@.len() ==> c.cells@[p] == 0u8,
    {
        let area = width * height;
        let mut cells: Vec<u8> = Vec::new();
        let mut k: usize = 0;
        while k < area
            invariant
                0 <= k <= area,
                cells@.len() == k,
                forall|p: int| 0 <= p < k ==> cells@[p] == 0u8,
            decreases area - k,
        {
            cells.push(0);
            k += 1;
        }
        Canvas { width, height, cells }
    }
}

/// One decoded input frame: a rectangle within the canvas, its row-major
/// buffer of palette indices, an optional transparent index, and the timing
/// and disposal metadata carried through to the output unchanged.
pub struct FrameRecord {
    pub left: u16,
    pub top: u16,
    pub width: u16,
    pub height: u16,
    pub buffer: Vec<u8>,
    pub transparent: Option<u8>,
    pub delay: u16,
    pub dispose: u8,
}

impl FrameRecord {
    /// The buffer holds exactly one byte per rectangle position.
    pub open spec fn wf(self) -> bool {
        self.buffer@.len() == self.width * self.height
    }

    /// The frame's rectangle lies within a `w` by `h` canvas.
    pub open spec fn fits(self, w: int, h: int) -> bool {
        self.left + self.width <= w && self.top + self.height <= h
    }

    /// The frame's rectangle covers linear canvas position `p` of a canvas
    /// `w` cells wide.
    pub open spec fn covers(self, w: int, p: int) -> bool {
        self.top <= p / w < self.top + self.height && self.left <= p % w < self.left + self.width
    }

    /// The buffer value the frame supplies for covered canvas position `p`.
    pub open spec fn buffer_at(self, w: int, p: int) -> u8 {
        self.buffer@[(p / w - self.top) * self.width + (p % w - self.left)]
    }

    /// The output metadata of `self` equals that of `other`: same rectangle,
    /// delay, disposal, and transparent index.
    pub open spec fn same_metadata(self, other: FrameRecord) -> bool {
        &&& self.left == other.left
        &&& self.top == other.top
        &&& self.width == other.width
        &&& self.height == other.height
        &&& self.delay == other.delay
        &&& self.dispose == other.dispose
        &&& self.transparent == other.transparent
    }
}

/// The value canvas position `p` holds after `frame` is applied to a canvas
/// with contents `cells` and width `w`: the buffer value where the frame
/// covers `p` and does not declare it transparent, the old value otherwise.
pub open spec fn composed_at(cells: Seq<u8>, frame: FrameRecord, w: int, p: int) -> u8 {
    if frame.covers(w, p) {
        let v = frame.buffer_at(w, p);
        if frame.transparent == Some(v) {
            cells[p]
        } else {
            v
        }
    } else {
        cells[p]
    }
}

/// The whole canvas contents after `frame` is applied to `cells`.
pub open spec fn composed(cells: Seq<u8>, frame: FrameRecord, w: int) -> Seq<u8> {
    Seq::new(cells.len(), |p: int| composed_at(cells, frame, w, p))
}

/// Splitting a linear index into row and column: for a column inside the row
/// width, `r * w + c` sits at row `r`, column `c`.
pub proof fn lemma_linear_index(w: int, r: int, c: int)
    requires
        w > 0,
        0 <= c < w,
        0 <= r,
    ensures
        (r * w + c) / w == r,
        (r * w + c) % w == c,
{
    vstd::arithmetic::div_mod::lemma_fundamental_div_mod_converse(r * w + c, w, r, c);
}

/// Apply one frame to the canvas: inside the frame's rectangle each cell
/// takes the buffer value unless that value is the frame's transparent
/// index; every other cell keeps its old value.
pub fn apply_frame(canvas: &mut Canvas, frame: &FrameRecord)
    requires
        old(canvas).wf(),
        old(canvas).width > 0,
        frame.wf(),
        frame.fits(old(canvas).width as int, old(canvas).height as int),
    ensures
        final(canvas).wf(),
        final(canvas).width == old(canvas).width,
        final(canvas).height == old(canvas).height,
        final(canvas).cells@ == composed(old(canvas).cells@, *frame, old(canvas).width as int),
{
    let w = canvas.width;
    let fw = frame.width as usize;
    let fh = frame.height as usize;
    let left = frame.left as usize;
    let top = frame.top as usize;
    let ghost orig = canvas.cells@;
    let ghost wi = w as int;

    proof {
        vstd::arithmetic::mul::lemma_mul_inequality(
            frame.top + frame.height,
            old(canvas).height as int,
            wi,
        );
        assert(canvas.cells.len() == orig.len());
        assert(frame.buffer.len() == frame.buffer@.len());
    }

    let mut y: usize = 0;
    while y < fh
        invariant
            canvas.width == w,
            canvas.height == old(canvas).height,
            wi == w as int,
            w > 0,
            canvas.cells@.len() == orig.len(),
            orig == old(canvas).cells@,
            orig.len() == w * canvas.height,
            orig.len() <= usize::MAX,
            frame.buffer@.len() <= usize::MAX,
            fw == frame.width,
            fh == frame.height,
            left == frame.left,
            top == frame.top,
            frame.wf(),
            frame.fits(wi, canvas.height as int),
            0 <= y <= fh,
            (top + fh) * w <= orig.len(),
            forall|p: int|
                0 <= p < orig.len() ==> canvas.cells@[p] == (if frame.covers(wi, p) && p / wi
                    - frame.top < y {
                    composed_at(orig, *frame, wi, p)
                } else {
                    orig[p]
                }),
        decreases fh - y,
    {
        proof {
            vstd::arithmetic::mul::lemma_mul_inequality(top + y + 1, top + fh, wi);
            assert((top + y + 1) * wi == (top + y) * wi + wi) by (nonlinear_arith);
        }
        let row_base = (top + y) * w;
        assert(row_base + w <= orig.len());
        let mut x: usize = 0;
        while x < fw
            invariant
                canvas.width == w,
                canvas.height == old(canvas).height,
                wi == w as int,
                w > 0,
                canvas.cells@.len() == orig.len(),
                orig == old(canvas).cells@,
                orig.len() == w * canvas.height,
                orig.len() <= usize::MAX,
                frame.buffer@.len() <= usize::MAX,
                fw == frame.width,
                fh == frame.height,
                left == frame.left,
                top == frame.top,
                frame.wf(),
                frame.fits(wi, canvas.height as int),
                0 <= y < fh,
                0 <= x <= fw,
                row_base == (top + y) * w,
                row_base + w <= orig.len(),
                forall|p: int|
                    0 <= p < orig.len() ==> canvas.cells@[p] == (if frame.covers(wi, p) && (p / wi
                        - frame.top < y || (p / wi - frame.top == y && p % wi - frame.left
                        < x)) {
                        composed_at(orig, *frame, wi, p)
                    } else {
                        orig[p]
                    }),
            decreases fw - x,
        {
            let ghost pre = canvas.cells@;
            proof {
                assert(forall|p: int|
                    0 <= p < orig.len() ==> pre[p] == (if frame.covers(wi, p) && (p / wi
                        - frame.top < y || (p / wi - frame.top == y && p % wi - frame.left
                        < x)) {
                        composed_at(orig, *frame, wi, p)
                    } else {
                        orig[p]
                    }));
            }
            let i = row_base + left + x;
            proof {
                lemma_linear_index(wi, top + y, left + x);
                assert(i as int / wi == top + y && i as int % wi == left + x);
                assert(frame.covers(wi, i as int));
                vstd::arithmetic::mul::lemma_mul_inequality(y as int, fh - 1, fw as int);
                assert((fh - 1) * (fw as int) + fw == fh * (fw as int)) by (nonlinear_arith);
                assert(fh * (fw as int) == (fw as int) * fh) by (nonlinear_arith);
                assert(y * fw + x < frame.buffer@.len());
            }
            let v = frame.buffer[y * fw + x];
            let keep = match frame.transparent {
                Some(alpha) => alpha == v,
                None => false,
            };
            assert(frame.buffer_at(wi, i as int) == v);
            if !keep {
                canvas.cells[i] = v;
            }
            assert(canvas.cells@[i as int] == composed_at(orig, *frame, wi, i as int));
            proof {
                assert forall|p: int| 0 <= p < orig.len() implies canvas.cells@[p] == (if frame.covers(
                    wi,
                    p,
                ) && (p / wi - frame.top < y || (p / wi - frame.top == y && p % wi - frame.left < x
                    + 1)) {
                    composed_at(orig, *frame, wi, p)
                } else {
                    orig[p]
                }) by {
                    if p != i {
                        assert(canvas.cells@[p] == pre[p]);
                        assert(pre[p] == (if frame.covers(wi, p) && (p / wi - frame.top < y || (p
                            / wi - frame.top == y && p % wi - frame.left < x)) {
                            composed_at(orig, *frame, wi, p)
                        } else {
                            orig[p]
                        }));
                        if frame.covers(wi, p) && p / wi - frame.top == y && p % wi - frame.left
                            == x {
                            vstd::arithmetic::div_mod::lemma_fundamental_div_mod(p, wi);
                            vstd::arithmetic::mul::lemma_mul_is_commutative(wi, top + y);
                            assert(p == (top + y) * wi + (left + x));
                            assert(false);
                        }
                    } else {
                        assert(canvas.cells@[p] == composed_at(orig, *frame, wi, p));
                    }
                }
            }
            x += 1;
        }
        let ghost y_prev = y as int;
        y += 1;
        proof {
            assert forall|p: int| 0 <= p < orig.len() implies canvas.cells@[p] == (if frame.covers(
                wi,
                p,
            ) && p / wi - frame.top < y {
                composed_at(orig, *frame, wi, p)
            } else {
                orig[p]
            }) by {
                if frame.covers(wi, p) && p / wi - frame.top == y_prev {
                    assert(p % wi - frame.left < fw);
                }
                assert(canvas.cells@[p] == (if frame.covers(wi, p) && (p / wi - frame.top < y_prev
                    || (p / wi - frame.top == y_prev && p % wi - frame.left < x)) {
                    composed_at(orig, *frame, wi, p)
                } else {
                    orig[p]
                }));
            }
        }
    }
    proof {
        assert forall|p: int| 0 <= p < orig.len() implies canvas.cells@[p] == composed_at(
            orig,
            *frame,
            wi,
            p,
        ) by {
            if frame.covers(wi, p) {
                assert(p / wi - frame.top < fh);
            }
        }
        assert(canvas.cells@ =~= composed(orig, *frame, wi));
    }
}

/// Frame persistence: a frame whose buffer is entirely its own transparent
/// index changes nothing — every canvas position keeps its old value.
pub proof fn lemma_fully_transparent_frame_preserves_canvas(
    cells: Seq<u8>,
    frame: FrameRecord,
    w: int,
    h: int,
)
    requires
        w > 0,
        h > 0,
        cells.len() == w * h,
        frame.wf(),
        frame.fits(w, h),
        frame.transparent matches Some(t) && forall|k: int|
            0 <= k < frame.buffer@.len() ==> frame.buffer@[k] == t,
    ensures
        composed(cells, frame, w) == cells,
{
    assert forall|p: int| 0 <= p < cells.len() implies composed_at(cells, frame, w, p)
        == cells[p] by {
        if frame.covers(w, p) {
            let r = p / w - frame.top;
            let c = p % w - frame.left;
            vstd::arithmetic::mul::lemma_mul_inequality(r, frame.height - 1, frame.width as int);
            assert((frame.height - 1) * (frame.width as int) + frame.width == frame.height
                * (frame.width as int)) by (nonlinear_arith);
            assert(frame.height * (frame.width as int) == (frame.width as int)
                * frame.height) by (nonlinear_arith);
            assert(r * frame.width + c < frame.buffer@.len());
        }
    }
    assert(composed(cells, frame, w) =~= cells);
}

} // verus!
