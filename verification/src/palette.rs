//! Palette classification: which palette indices count as background.
//!
//! The palette is a flat byte sequence of (R,G,B) triples. An entry is
//! background-eligible when its first channel is strictly above 203; the
//! inputs are assumed grayscale, so the first channel stands for intensity.

use vstd::prelude::*;

verus! {

/// Entry `i` of the palette exists and is background-eligible: its first
/// channel is strictly greater than 203.
pub open spec fn is_bg_entry(palette: Seq<u8>, i: int) -> bool {
    0 <= i && 3 * i < palette.len() && palette[3 * i] > 203
}

/// Number of palette entries: the indices `i` with `3*i < len`, so trailing
/// bytes of a length that is not a multiple of 3 still begin an entry.
pub open spec fn entry_count(palette: Seq<u8>) -> int {
    (palette.len() + 2) as int / 3
}

/// The background-eligible indices among the first `n` palette entries, in
/// ascending order.
pub open spec fn classify_prefix(palette: Seq<u8>, n: int) -> Seq<u8>
    decreases n,
{
    if n <= 0 {
        Seq::empty()
    } else if is_bg_entry(palette, n - 1) {
        classify_prefix(palette, n - 1).push((n - 1) as u8)
    } else {
        classify_prefix(palette, n - 1)
    }
}

/// Classification fails only when a background-eligible index does not fit
/// in one byte, which a conforming indexed image cannot produce.
#[derive(Clone, Copy, Debug, PartialEq, Eq, Structural)]
pub enum PaletteError {
    IndexOutOfByteRange,
}

/// The background-eligible indices of `palette`, ascending.
///
/// Succeeds exactly when every background-eligible index fits in a byte, and
/// then returns exactly the indices `i` with `palette[3*i] > 203`.
pub fn classify_alphas(palette: &[u8]) -> (r: Result<Vec<u8>, PaletteError>)
    ensures
        (r is Ok) <==> (forall|i: int| is_bg_entry(palette@, i) ==> i < 256),
        r matches Ok(v) ==> v@ == classify_prefix(palette@, entry_count(palette@)),
{
    let len = palette.len();
    let n: usize = len / 3 + (if len % 3 != 0 { 1 } else { 0 });
    assert(n == entry_count(palette@));
    let mut result: Vec<u8> = Vec::new();
    let mut i: usize = 0;
    while i < n
        invariant
            n == entry_count(palette@),
            len == palette@.len(),
            0 <= i <= n,
            result@ == classify_prefix(palette@, i as int),
            forall|j: int| is_bg_entry(palette@, j) && j < i ==> j < 256,
        decreases n - i,
    {
        assert(3 * i < len);
        if palette[3 * i] > 203 {
            if i > 255 {
                assert(is_bg_entry(palette@, i as int) && i >= 256);
                return Err(PaletteError::IndexOutOfByteRange);
            }
            result.push(i as u8);
        }
        i += 1;
    }
    assert(forall|j: int| is_bg_entry(palette@, j) ==> j < n);
    Ok(result)
}

/// The classifier returns exactly the background-eligible indices: a byte is
/// in `classify_prefix(palette, n)` if and only if it names an eligible entry
/// below `n`. With `n = entry_count(palette)` this is the threshold law for
/// whole palettes.
pub proof fn lemma_classify_prefix_contains(palette: Seq<u8>, n: int, b: u8)
    requires
        n <= 256,
    ensures
        classify_prefix(palette, n).contains(b) <==> (b < n && is_bg_entry(palette, b as int)),
    decreases n,
{
    if n <= 0 {
        assert(!classify_prefix(palette, n).contains(b));
    } else {
        lemma_classify_prefix_contains(palette, n - 1, b);
        let prev = classify_prefix(palette, n - 1);
        if is_bg_entry(palette, n - 1) {
            let cur = prev.push((n - 1) as u8);
            assert(cur[cur.len() - 1] == (n - 1) as u8);
            if b < n && is_bg_entry(palette, b as int) {
                if b == n - 1 {
                    assert(cur.contains(b));
                } else {
                    let k = choose|k: int| 0 <= k < prev.len() && prev[k] == b;
                    assert(cur[k] == b);
                }
            }
            if cur.contains(b) {
                let k = choose|k: int| 0 <= k < cur.len() && cur[k] == b;
                if k < prev.len() {
                    assert(prev[k] == b);
                }
            }
        }
    }
}

} // verus!
