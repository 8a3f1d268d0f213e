//! The four-corner flood erase.
//!
//! From each canvas corner, every cell 4-connected to it through
//! background-eligible values is erased: its mask cell is set to 0 (white).
//! Cells not reached keep the mask's initial value 1 (black). Reachability
//! is defined by paths of background cells; the eraser is proved to erase
//! exactly the reachable cells.

use vstd::prelude::*;

use crate::canvas::Canvas;
use crate::canvas::lemma_linear_index;

verus! {

/// `p` is a linear position inside a `w` by `h` grid.
pub open spec fn valid_pos(w: int, h: int, p: int) -> bool {
    0 <= p < w * h
}

/// 4-neighborhood: `a` and `b` differ by exactly one in exactly one of row
/// and column. Rows and columns come from the linear index: row `p / w`,
/// column `p % w`.
pub open spec fn adjacent(w: int, h: int, a: int, b: int) -> bool {
    &&& valid_pos(w, h, a)
    &&& valid_pos(w, h, b)
    &&& ((a / w == b / w && (b % w == a % w + 1 || b % w == a % w - 1)) || (a % w == b % w && (b
        / w == a / w + 1 || b / w == a / w - 1)))
}

/// The canvas value at `p` is one of the background-eligible indices.
pub open spec fn is_bg_at(canvas: Seq<u8>, alphas: Seq<u8>, p: int) -> bool {
    alphas.contains(canvas[p])
}

/// A nonempty sequence of positions, each valid and background-eligible,
/// each adjacent to its predecessor.
pub open spec fn is_path(w: int, h: int, canvas: Seq<u8>, alphas: Seq<u8>, path: Seq<int>) -> bool {
    &&& path.len() > 0
    &&& (forall|k: int|
        0 <= k < path.len() ==> valid_pos(w, h, #[trigger] path[k]) && is_bg_at(
            canvas,
            alphas,
            path[k],
        ))
    &&& (forall|k: int| 1 <= k < path.len() ==> adjacent(w, h, path[k - 1], #[trigger] path[k]))
}

/// `p` is 4-connected to the seed `s` through background-eligible cells;
/// both endpoints included, so `s` itself must be background-eligible.
pub open spec fn reachable(w: int, h: int, canvas: Seq<u8>, alphas: Seq<u8>, s: int, p: int) -> bool {
    exists|path: Seq<int>|
        is_path(w, h, canvas, alphas, path) && path.first() == s && path.last() == p
}

/// A background-eligible cell reaches itself.
pub proof fn lemma_reachable_self(w: int, h: int, canvas: Seq<u8>, alphas: Seq<u8>, s: int)
    requires
        valid_pos(w, h, s),
        is_bg_at(canvas, alphas, s),
    ensures
        reachable(w, h, canvas, alphas, s, s),
{
    let path = seq![s];
    assert(is_path(w, h, canvas, alphas, path));
    assert(path.first() == s && path.last() == s);
}

/// Reachability extends across one step to an adjacent background cell.
pub proof fn lemma_reachable_step(
    w: int,
    h: int,
    canvas: Seq<u8>,
    alphas: Seq<u8>,
    s: int,
    p: int,
    q: int,
)
    requires
        reachable(w, h, canvas, alphas, s, p),
        adjacent(w, h, p, q),
        is_bg_at(canvas, alphas, q),
    ensures
        reachable(w, h, canvas, alphas, s, q),
{
    let path = choose|path: Seq<int>|
        is_path(w, h, canvas, alphas, path) && path.first() == s && path.last() == p;
    let path2 = path.push(q);
    assert(path2[path2.len() - 1] == q);
    assert forall|k: int| 0 <= k < path2.len() implies valid_pos(w, h, #[trigger] path2[k])
        && is_bg_at(canvas, alphas, path2[k]) by {
        if k < path.len() {
            assert(path2[k] == path[k]);
        }
    }
    assert forall|k: int| 1 <= k < path2.len() implies adjacent(w, h, path2[k - 1], #[trigger] path2[k]) by {
        if k < path.len() {
            assert(path2[k] == path[k] && path2[k - 1] == path[k - 1]);
        } else {
            assert(path2[k - 1] == path[path.len() - 1] && path2[k] == q);
        }
    }
    assert(is_path(w, h, canvas, alphas, path2));
    assert(path2.first() == s && path2.last() == q);
}

/// Both ends of a reachability claim are valid background cells.
pub proof fn lemma_reachable_ends(
    w: int,
    h: int,
    canvas: Seq<u8>,
    alphas: Seq<u8>,
    s: int,
    p: int,
)
    requires
        reachable(w, h, canvas, alphas, s, p),
    ensures
        valid_pos(w, h, s) && is_bg_at(canvas, alphas, s),
        valid_pos(w, h, p) && is_bg_at(canvas, alphas, p),
{
    let path = choose|path: Seq<int>|
        is_path(w, h, canvas, alphas, path) && path.first() == s && path.last() == p;
    assert(path[0] == s && path[path.len() - 1] == p);
}

/// The mask and visited grid agree: a mask cell is erased exactly when it
/// was visited and is background-eligible.
pub open spec fn erase_consistent(
    w: int,
    h: int,
    canvas: Seq<u8>,
    alphas: Seq<u8>,
    visited: Seq<bool>,
    mask: Seq<u8>,
) -> bool {
    forall|p: int|
        0 <= p < w * h ==> ((#[trigger] mask[p]) == 0 <==> (visited[p] && is_bg_at(
            canvas,
            alphas,
            p,
        )))
}

/// Every background cell adjacent to an erased cell has been visited: the
/// erased region cannot grow further.
pub open spec fn erase_closed(
    w: int,
    h: int,
    canvas: Seq<u8>,
    alphas: Seq<u8>,
    visited: Seq<bool>,
    mask: Seq<u8>,
) -> bool {
    forall|a: int, b: int|
        valid_pos(w, h, a) && mask[a] == 0 && #[trigger] adjacent(w, h, a, b) && is_bg_at(
            canvas,
            alphas,
            b,
        ) ==> visited[b]
}

/// Walking a path whose start is erased through a consistent, closed state
/// keeps every position on the path erased.
proof fn lemma_path_stays_erased(
    w: int,
    h: int,
    canvas: Seq<u8>,
    alphas: Seq<u8>,
    visited: Seq<bool>,
    mask: Seq<u8>,
    path: Seq<int>,
)
    requires
        mask.len() == w * h,
        erase_consistent(w, h, canvas, alphas, visited, mask),
        erase_closed(w, h, canvas, alphas, visited, mask),
        is_path(w, h, canvas, alphas, path),
        mask[path.first()] == 0,
    ensures
        mask[path.last()] == 0,
    decreases path.len(),
{
    if path.len() > 1 {
        let prefix = path.drop_last();
        assert forall|k: int| 0 <= k < prefix.len() implies valid_pos(w, h, #[trigger] prefix[k])
            && is_bg_at(canvas, alphas, prefix[k]) by {
            assert(prefix[k] == path[k]);
        }
        assert forall|k: int| 1 <= k < prefix.len() implies adjacent(
            w,
            h,
            prefix[k - 1],
            #[trigger] prefix[k],
        ) by {
            assert(prefix[k] == path[k] && prefix[k - 1] == path[k - 1]);
        }
        assert(is_path(w, h, canvas, alphas, prefix));
        assert(prefix.first() == path.first());
        lemma_path_stays_erased(w, h, canvas, alphas, visited, mask, prefix);
        let a = path[path.len() - 2];
        let b = path[path.len() - 1];
        assert(prefix.last() == a);
        assert(adjacent(w, h, a, b));
        assert(is_bg_at(canvas, alphas, b));
        assert(visited[b]);
    }
}

/// In a consistent, closed state where the seed has been visited, every cell
/// reachable from the seed is erased.
pub proof fn lemma_reachable_is_erased(
    w: int,
    h: int,
    canvas: Seq<u8>,
    alphas: Seq<u8>,
    visited: Seq<bool>,
    mask: Seq<u8>,
    s: int,
    p: int,
)
    requires
        mask.len() == w * h,
        erase_consistent(w, h, canvas, alphas, visited, mask),
        erase_closed(w, h, canvas, alphas, visited, mask),
        visited[s],
        reachable(w, h, canvas, alphas, s, p),
    ensures
        mask[p] == 0,
{
    lemma_reachable_ends(w, h, canvas, alphas, s, p);
    assert(mask[s] == 0);
    let path = choose|path: Seq<int>|
        is_path(w, h, canvas, alphas, path) && path.first() == s && path.last() == p;
    lemma_path_stays_erased(w, h, canvas, alphas, visited, mask, path);
}

/// The four candidate linear moves at `pos`, with their guards, are exactly
/// the 4-neighbors of `pos`.
pub proof fn lemma_neighbors(w: int, h: int, pos: int)
    requires
        w > 0,
        h > 0,
        valid_pos(w, h, pos),
    ensures
        0 <= pos / w < h,
        0 <= pos % w < w,
        pos == (pos / w) * w + (pos % w),
        pos % w > 0 ==> adjacent(w, h, pos, pos - 1),
        pos % w + 1 < w ==> adjacent(w, h, pos, pos + 1),
        pos / w > 0 ==> adjacent(w, h, pos, pos - w),
        pos / w + 1 < h ==> adjacent(w, h, pos, pos + w),
        forall|q: int|
            #[trigger] adjacent(w, h, pos, q) ==> ((q == pos - 1 && pos % w > 0) || (q == pos + 1
                && pos % w + 1 < w) || (q == pos - w && pos / w > 0) || (q == pos + w && pos / w
                + 1 < h)),
{
    vstd::arithmetic::div_mod::lemma_fundamental_div_mod(pos, w);
    vstd::arithmetic::mul::lemma_mul_is_commutative(w, pos / w);
    vstd::arithmetic::div_mod::lemma_mod_bound(pos, w);
    vstd::arithmetic::div_mod::lemma_div_pos_is_pos(pos, w);
    let r = pos / w;
    let c = pos % w;
    assert(pos == r * w + c);
    if r >= h {
        vstd::arithmetic::mul::lemma_mul_inequality(h, r, w);
        vstd::arithmetic::mul::lemma_mul_is_commutative(h, w);
        assert(false);
    }
    if c > 0 {
        lemma_linear_index(w, r, c - 1);
        assert(adjacent(w, h, pos, pos - 1));
    }
    if c + 1 < w {
        lemma_linear_index(w, r, c + 1);
        assert((r + 1) * w == r * w + w) by (nonlinear_arith);
        vstd::arithmetic::mul::lemma_mul_inequality(r + 1, h, w);
        vstd::arithmetic::mul::lemma_mul_is_commutative(h, w);
        assert(valid_pos(w, h, pos + 1));
        assert(adjacent(w, h, pos, pos + 1));
    }
    if r > 0 {
        lemma_linear_index(w, r - 1, c);
        assert((r - 1) * w == r * w - w) by (nonlinear_arith);
        assert((r - 1) * w + c >= 0) by (nonlinear_arith)
            requires
                r >= 1 && w > 0 && c >= 0,
        ;
        assert(adjacent(w, h, pos, pos - w));
    }
    if r + 1 < h {
        lemma_linear_index(w, r + 1, c);
        assert((r + 1) * w == r * w + w) by (nonlinear_arith);
        assert((r + 1) * w + c < w * h) by (nonlinear_arith)
            requires
                r + 1 < h && 0 <= c < w,
        ;
        assert(adjacent(w, h, pos, pos + w));
    }
    assert forall|q: int| #[trigger] adjacent(w, h, pos, q) implies ((q == pos - 1 && pos % w > 0)
        || (q == pos + 1 && pos % w + 1 < w) || (q == pos - w && pos / w > 0) || (q == pos + w
        && pos / w + 1 < h)) by {
        vstd::arithmetic::div_mod::lemma_fundamental_div_mod(q, w);
        vstd::arithmetic::mul::lemma_mul_is_commutative(w, q / w);
        vstd::arithmetic::div_mod::lemma_mod_bound(q, w);
        vstd::arithmetic::div_mod::lemma_div_pos_is_pos(q, w);
        assert(q == (q / w) * w + (q % w));
        if q / w == r {
            assert(q == r * w + q % w);
        } else if q / w == r + 1 {
            assert((r + 1) * w == r * w + w) by (nonlinear_arith);
            assert(q == pos + w);
        } else if q / w == r - 1 {
            assert((r - 1) * w == r * w - w) by (nonlinear_arith);
            assert(q == pos - w);
        }
    }
}

/// A stack entry is the seed or a neighbor of some cell already known
/// reachable from the seed.
pub open spec fn stack_elem_ok(
    w: int,
    h: int,
    canvas: Seq<u8>,
    alphas: Seq<u8>,
    seed: int,
    q: int,
) -> bool {
    q == seed || exists|e: int|
        reachable(w, h, canvas, alphas, seed, e) && #[trigger] adjacent(w, h, e, q)
}

/// Every stack entry is a valid position satisfying `stack_elem_ok`.
pub open spec fn stack_ok(
    w: int,
    h: int,
    canvas: Seq<u8>,
    alphas: Seq<u8>,
    seed: int,
    stack: Seq<usize>,
) -> bool {
    forall|k: int|
        0 <= k < stack.len() ==> valid_pos(w, h, (#[trigger] stack[k]) as int) && stack_elem_ok(
            w,
            h,
            canvas,
            alphas,
            seed,
            stack[k] as int,
        )
}

/// Every background cell adjacent to an erased cell is visited or still on
/// the work stack.
pub open spec fn stack_closed(
    w: int,
    h: int,
    canvas: Seq<u8>,
    alphas: Seq<u8>,
    visited: Seq<bool>,
    mask: Seq<u8>,
    stack: Seq<usize>,
) -> bool {
    forall|a: int, b: int|
        valid_pos(w, h, a) && mask[a] == 0 && #[trigger] adjacent(w, h, a, b) && is_bg_at(
            canvas,
            alphas,
            b,
        ) ==> visited[b] || stack.contains(b as usize)
}

/// Number of unvisited entries among the first `n`.
pub open spec fn count_unvisited(v: Seq<bool>, n: int) -> int
    decreases n,
{
    if n <= 0 {
        0
    } else {
        count_unvisited(v, n - 1) + (if v[n - 1] {
            0int
        } else {
            1int
        })
    }
}

proof fn lemma_count_unvisited_nonneg(v: Seq<bool>, n: int)
    ensures
        count_unvisited(v, n) >= 0,
    decreases n,
{
    if n > 0 {
        lemma_count_unvisited_nonneg(v, n - 1);
    }
}

proof fn lemma_count_unvisited_update(v: Seq<bool>, p: int, n: int)
    requires
        0 <= p < v.len(),
        n <= v.len(),
        !v[p],
    ensures
        count_unvisited(v.update(p, true), n) == count_unvisited(v, n) - (if p < n {
            1int
        } else {
            0int
        }),
    decreases n,
{
    if n > 0 {
        lemma_count_unvisited_update(v, p, n - 1);
    }
}

/// Popping the last element keeps every other occupant findable: an element
/// of the stack is in the popped remainder or was the popped element.
proof fn lemma_pop_contains(st: Seq<usize>, x: usize)
    requires
        st.len() > 0,
        st.contains(x),
    ensures
        st.subrange(0, st.len() - 1).contains(x) || x == st[st.len() - 1],
{
    let k = choose|k: int| 0 <= k < st.len() && st[k] == x;
    if k < st.len() - 1 {
        assert(st.subrange(0, st.len() - 1)[k] == x);
    }
}

/// Whether `x` occurs in `hay`.
fn contains_byte(hay: &Vec<u8>, x: u8) -> (r: bool)
    ensures
        r == hay@.contains(x),
{
    let mut i: usize = 0;
    while i < hay.len()
        invariant
            0 <= i <= hay@.len(),
            forall|k: int| 0 <= k < i ==> hay@[k] != x,
        decreases hay@.len() - i,
    {
        if hay[i] == x {
            return true;
        }
        i += 1;
    }
    proof {
        if hay@.contains(x) {
            let k = choose|k: int| 0 <= k < hay@.len() && hay@[k] == x;
            assert(hay@[k] != x);
        }
    }
    false
}
/// The mask cells that are 0 were 0 before or are reachable from the seed.
pub open spec fn mask_sound(
    w: int,
    h: int,
    canvas: Seq<u8>,
    alphas: Seq<u8>,
    seed: int,
    orig: Seq<u8>,
    mask: Seq<u8>,
) -> bool {
    forall|p: int|
        0 <= p < w * h && (#[trigger] mask[p]) == 0 ==> orig[p] == 0 || reachable(
            w,
            h,
            canvas,
            alphas,
            seed,
            p,
        )
}

/// Mask cells that are not 0 hold their original value.
pub open spec fn mask_preserves(n: int, orig: Seq<u8>, mask: Seq<u8>) -> bool {
    forall|p: int| 0 <= p < n && (#[trigger] mask[p]) != 0 ==> mask[p] == orig[p]
}

/// No visited flag is ever cleared.
pub open spec fn visited_monotone(n: int, before: Seq<bool>, after: Seq<bool>) -> bool {
    forall|p: int| 0 <= p < n && (#[trigger] before[p]) ==> after[p]
}

/// Popping an already-visited position keeps every traversal invariant.
#[verifier::rlimit(50)]
proof fn lemma_pop_visited(
    w: int,
    h: int,
    canvas: Seq<u8>,
    alphas: Seq<u8>,
    seed: int,
    visited: Seq<bool>,
    mask: Seq<u8>,
    st_pre: Seq<usize>,
)
    requires
        w * h <= usize::MAX,
        0 <= seed < w * h,
        st_pre.len() > 0,
        visited[st_pre[st_pre.len() - 1] as int],
        stack_ok(w, h, canvas, alphas, seed, st_pre),
        stack_closed(w, h, canvas, alphas, visited, mask, st_pre),
        visited[seed] || st_pre.contains(seed as usize),
    ensures
        stack_ok(w, h, canvas, alphas, seed, st_pre.subrange(0, st_pre.len() - 1)),
        stack_closed(w, h, canvas, alphas, visited, mask, st_pre.subrange(0, st_pre.len() - 1)),
        visited[seed] || st_pre.subrange(0, st_pre.len() - 1).contains(seed as usize),
{
    let st1 = st_pre.subrange(0, st_pre.len() - 1);
    let pos = st_pre[st_pre.len() - 1] as int;
    assert forall|k: int| 0 <= k < st1.len() implies valid_pos(w, h, (#[trigger] st1[k]) as int)
        && stack_elem_ok(w, h, canvas, alphas, seed, st1[k] as int) by {
        assert(st1[k] == st_pre[k]);
    }
    assert forall|a: int, b: int|
        valid_pos(w, h, a) && mask[a] == 0 && #[trigger] adjacent(w, h, a, b) && is_bg_at(
            canvas,
            alphas,
            b,
        ) implies visited[b] || st1.contains(b as usize) by {
        if !visited[b] {
            assert(valid_pos(w, h, b) && 0 <= b <= usize::MAX);
            assert(st_pre.contains(b as usize));
            lemma_pop_contains(st_pre, b as usize);
            if !st1.contains(b as usize) {
                assert(b == pos);
            }
        }
    }
    if !visited[seed] && st_pre.contains(seed as usize) {
        lemma_pop_contains(st_pre, seed as usize);
    }
}

/// Visiting a popped non-background cell: it is marked visited, erases
/// nothing, and blocks propagation.
#[verifier::rlimit(50)]
proof fn lemma_visit_wall(
    w: int,
    h: int,
    canvas: Seq<u8>,
    alphas: Seq<u8>,
    seed: int,
    v_pre: Seq<bool>,
    mask: Seq<u8>,
    st_pre: Seq<usize>,
)
    requires
        w * h <= usize::MAX,
        v_pre.len() == w * h,
        st_pre.len() > 0,
        valid_pos(w, h, st_pre[st_pre.len() - 1] as int),
        !v_pre[st_pre[st_pre.len() - 1] as int],
        !is_bg_at(canvas, alphas, st_pre[st_pre.len() - 1] as int),
        erase_consistent(w, h, canvas, alphas, v_pre, mask),
        stack_ok(w, h, canvas, alphas, seed, st_pre),
        stack_closed(w, h, canvas, alphas, v_pre, mask, st_pre),
        v_pre[seed] || st_pre.contains(seed as usize),
        0 <= seed < w * h,
    ensures
        erase_consistent(
            w,
            h,
            canvas,
            alphas,
            v_pre.update(st_pre[st_pre.len() - 1] as int, true),
            mask,
        ),
        stack_ok(w, h, canvas, alphas, seed, st_pre.subrange(0, st_pre.len() - 1)),
        stack_closed(
            w,
            h,
            canvas,
            alphas,
            v_pre.update(st_pre[st_pre.len() - 1] as int, true),
            mask,
            st_pre.subrange(0, st_pre.len() - 1),
        ),
        v_pre.update(st_pre[st_pre.len() - 1] as int, true)[seed] || st_pre.subrange(
            0,
            st_pre.len() - 1,
        ).contains(seed as usize),
        visited_monotone(w * h, v_pre, v_pre.update(st_pre[st_pre.len() - 1] as int, true)),
{
    let pos = st_pre[st_pre.len() - 1] as int;
    let st1 = st_pre.subrange(0, st_pre.len() - 1);
    let vn = v_pre.update(pos, true);
    assert forall|p: int| 0 <= p < w * h implies ((#[trigger] mask[p]) == 0 <==> (vn[p] && is_bg_at(
        canvas,
        alphas,
        p,
    ))) by {
        if p != pos {
            assert(vn[p] == v_pre[p]);
        }
    }
    assert forall|k: int| 0 <= k < st1.len() implies valid_pos(w, h, (#[trigger] st1[k]) as int)
        && stack_elem_ok(w, h, canvas, alphas, seed, st1[k] as int) by {
        assert(st1[k] == st_pre[k]);
    }
    assert forall|a: int, b: int|
        valid_pos(w, h, a) && mask[a] == 0 && #[trigger] adjacent(w, h, a, b) && is_bg_at(
            canvas,
            alphas,
            b,
        ) implies vn[b] || st1.contains(b as usize) by {
        if !v_pre[b] && !vn[b] {
            assert(valid_pos(w, h, b) && 0 <= b <= usize::MAX);
            assert(st_pre.contains(b as usize));
            lemma_pop_contains(st_pre, b as usize);
            if !st1.contains(b as usize) {
                assert(b == pos);
            }
        }
    }
    if !vn[seed] && st_pre.contains(seed as usize) {
        lemma_pop_contains(st_pre, seed as usize);
    }
}

/// Appending the guarded linear moves of `pos` to the stack yields a stack
/// that extends the old one by neighbors of `pos` only, and covers every
/// 4-neighbor of `pos`.
#[verifier::rlimit(50)]
proof fn lemma_pushed_neighbors(
    w: int,
    h: int,
    pos: int,
    st1: Seq<usize>,
    s_a: Seq<usize>,
    s_b: Seq<usize>,
    s_c: Seq<usize>,
    stn: Seq<usize>,
)
    requires
        w > 0,
        h > 0,
        valid_pos(w, h, pos),
        w * h <= usize::MAX,
        s_a == (if pos % w > 0 {
            st1.push((pos - 1) as usize)
        } else {
            st1
        }),
        s_b == (if pos % w + 1 < w {
            s_a.push((pos + 1) as usize)
        } else {
            s_a
        }),
        s_c == (if pos / w > 0 {
            s_b.push((pos - w) as usize)
        } else {
            s_b
        }),
        stn == (if pos / w + 1 < h {
            s_c.push((pos + w) as usize)
        } else {
            s_c
        }),
    ensures
        stn.len() >= st1.len(),
        forall|k: int| 0 <= k < st1.len() ==> #[trigger] stn[k] == st1[k],
        forall|k: int|
            st1.len() <= k < stn.len() ==> adjacent(w, h, pos, (#[trigger] stn[k]) as int),
        forall|q: int| #[trigger] adjacent(w, h, pos, q) ==> stn.contains(q as usize),
{
    lemma_neighbors(w, h, pos);
    assert forall|q: int| #[trigger] adjacent(w, h, pos, q) implies stn.contains(q as usize) by {
        if pos % w > 0 && q == pos - 1 {
            assert(s_a[st1.len() as int] == (pos - 1) as usize);
            assert(s_b[st1.len() as int] == (pos - 1) as usize);
            assert(s_c[st1.len() as int] == (pos - 1) as usize);
            assert(stn[st1.len() as int] == (pos - 1) as usize);
        } else if pos % w + 1 < w && q == pos + 1 {
            assert(s_b[s_a.len() as int] == (pos + 1) as usize);
            assert(s_c[s_a.len() as int] == (pos + 1) as usize);
            assert(stn[s_a.len() as int] == (pos + 1) as usize);
        } else if pos / w > 0 && q == pos - w {
            assert(s_c[s_b.len() as int] == (pos - w) as usize);
            assert(stn[s_b.len() as int] == (pos - w) as usize);
        } else {
            assert(pos / w + 1 < h && q == pos + w);
            assert(stn[s_c.len() as int] == (pos + w) as usize);
        }
    }
}

/// Visiting a popped background cell: it is erased, and the work stack is
/// extended with every 4-neighbor of it.
#[verifier::rlimit(100)]
proof fn lemma_visit_background(
    w: int,
    h: int,
    canvas: Seq<u8>,
    alphas: Seq<u8>,
    seed: int,
    v_pre: Seq<bool>,
    m_pre: Seq<u8>,
    m_orig: Seq<u8>,
    st_pre: Seq<usize>,
    stn: Seq<usize>,
)
    requires
        w * h <= usize::MAX,
        v_pre.len() == w * h,
        m_pre.len() == w * h,
        st_pre.len() > 0,
        valid_pos(w, h, st_pre[st_pre.len() - 1] as int),
        !v_pre[st_pre[st_pre.len() - 1] as int],
        is_bg_at(canvas, alphas, st_pre[st_pre.len() - 1] as int),
        reachable(w, h, canvas, alphas, seed, st_pre[st_pre.len() - 1] as int),
        erase_consistent(w, h, canvas, alphas, v_pre, m_pre),
        stack_ok(w, h, canvas, alphas, seed, st_pre),
        stack_closed(w, h, canvas, alphas, v_pre, m_pre, st_pre),
        v_pre[seed] || st_pre.contains(seed as usize),
        0 <= seed < w * h,
        mask_sound(w, h, canvas, alphas, seed, m_orig, m_pre),
        mask_preserves(w * h, m_orig, m_pre),
        stn.len() >= st_pre.len() - 1,
        forall|k: int| 0 <= k < st_pre.len() - 1 ==> #[trigger] stn[k] == st_pre[k],
        forall|k: int|
            st_pre.len() - 1 <= k < stn.len() ==> adjacent(
                w,
                h,
                st_pre[st_pre.len() - 1] as int,
                (#[trigger] stn[k]) as int,
            ),
        forall|q: int|
            #[trigger] adjacent(w, h, st_pre[st_pre.len() - 1] as int, q) ==> stn.contains(
                q as usize,
            ),
    ensures
        erase_consistent(
            w,
            h,
            canvas,
            alphas,
            v_pre.update(st_pre[st_pre.len() - 1] as int, true),
            m_pre.update(st_pre[st_pre.len() - 1] as int, 0u8),
        ),
        stack_ok(w, h, canvas, alphas, seed, stn),
        stack_closed(
            w,
            h,
            canvas,
            alphas,
            v_pre.update(st_pre[st_pre.len() - 1] as int, true),
            m_pre.update(st_pre[st_pre.len() - 1] as int, 0u8),
            stn,
        ),
        v_pre.update(st_pre[st_pre.len() - 1] as int, true)[seed] || stn.contains(seed as usize),
        visited_monotone(w * h, v_pre, v_pre.update(st_pre[st_pre.len() - 1] as int, true)),
        mask_sound(
            w,
            h,
            canvas,
            alphas,
            seed,
            m_orig,
            m_pre.update(st_pre[st_pre.len() - 1] as int, 0u8),
        ),
        mask_preserves(w * h, m_orig, m_pre.update(st_pre[st_pre.len() - 1] as int, 0u8)),
{
    let pos = st_pre[st_pre.len() - 1] as int;
    let st1 = st_pre.subrange(0, st_pre.len() - 1);
    let vn = v_pre.update(pos, true);
    let mn = m_pre.update(pos, 0u8);
    assert forall|p: int| 0 <= p < w * h implies ((#[trigger] mn[p]) == 0 <==> (vn[p] && is_bg_at(
        canvas,
        alphas,
        p,
    ))) by {
        if p != pos {
            assert(vn[p] == v_pre[p] && mn[p] == m_pre[p]);
        }
    }
    assert forall|k: int| 0 <= k < stn.len() implies valid_pos(w, h, (#[trigger] stn[k]) as int)
        && stack_elem_ok(w, h, canvas, alphas, seed, stn[k] as int) by {
        if k < st_pre.len() - 1 {
            assert(stn[k] == st_pre[k]);
        } else {
            assert(adjacent(w, h, pos, stn[k] as int));
        }
    }
    assert forall|a: int, b: int|
        valid_pos(w, h, a) && mn[a] == 0 && #[trigger] adjacent(w, h, a, b) && is_bg_at(
            canvas,
            alphas,
            b,
        ) implies vn[b] || stn.contains(b as usize) by {
        if a == pos {
            assert(stn.contains(b as usize));
        } else {
            assert(mn[a] == m_pre[a]);
            if !v_pre[b] && !vn[b] {
                assert(valid_pos(w, h, b) && 0 <= b <= usize::MAX);
                assert(st_pre.contains(b as usize));
                lemma_pop_contains(st_pre, b as usize);
                if st1.contains(b as usize) {
                    let k = choose|k: int| 0 <= k < st1.len() && st1[k] == b as usize;
                    assert(stn[k] == st_pre[k]);
                    assert(stn.contains(b as usize));
                } else {
                    assert(b == pos);
                }
            }
        }
    }
    if !vn[seed] && st_pre.contains(seed as usize) {
        lemma_pop_contains(st_pre, seed as usize);
        if seed != pos {
            let k = choose|k: int| 0 <= k < st1.len() && st1[k] == seed as usize;
            assert(stn[k] == st_pre[k]);
            assert(stn.contains(seed as usize));
        }
    }
    assert forall|p: int| 0 <= p < w * h && (#[trigger] mn[p]) == 0 implies m_orig[p] == 0
        || reachable(w, h, canvas, alphas, seed, p) by {
        if p != pos {
            assert(mn[p] == m_pre[p]);
        }
    }
    assert forall|p: int| 0 <= p < w * h && (#[trigger] mn[p]) != 0 implies mn[p] == m_orig[p] by {
        assert(mn[p] == m_pre[p]);
    }
}

/// Flood erase from one seed with an explicit work stack.
///
/// The visited grid is shared across seeds; on entry the mask and visited
/// grid must be consistent and closed (a fresh all-false grid beside a mask
/// with no erased cell is both). On exit the erased region has grown by
/// exactly the cells reachable from the seed.
#[verifier::rlimit(100)]
pub fn eraser(
    seed: usize,
    width: usize,
    height: usize,
    visited: &mut Vec<bool>,
    input: &Vec<u8>,
    output: &mut Vec<u8>,
    alphas: &Vec<u8>,
)
    requires
        width > 0,
        height > 0,
        input@.len() == width * height,
        old(visited)@.len() == width * height,
        old(output)@.len() == width * height,
        seed < width * height,
        erase_consistent(
            width as int,
            height as int,
            input@,
            alphas@,
            old(visited)@,
            old(output)@,
        ),
        erase_closed(width as int, height as int, input@, alphas@, old(visited)@, old(output)@),
    ensures
        final(visited)@.len() == width * height,
        final(output)@.len() == width * height,
        visited_monotone(width * height, old(visited)@, final(visited)@),
        erase_consistent(
            width as int,
            height as int,
            input@,
            alphas@,
            final(visited)@,
            final(output)@,
        ),
        erase_closed(width as int, height as int, input@, alphas@, final(visited)@, final(output)@),
        forall|p: int|
            0 <= p < width * height ==> (#[trigger] final(output)@[p]) == (if old(output)@[p] == 0
                || reachable(width as int, height as int, input@, alphas@, seed as int, p) {
                0u8
            } else {
                old(output)@[p]
            }),
{
    let ghost wi = width as int;
    let ghost hi = height as int;
    let ghost c = input@;
    let ghost al = alphas@;
    let area = input.len();
    let mut stack: Vec<usize> = Vec::new();
    stack.push(seed);
    proof {
        lemma_count_unvisited_nonneg(visited@, area as int);
        assert(stack@[0] == seed);
        assert(stack@.contains(seed));
    }
    while stack.len() > 0
        invariant
            wi == width as int,
            hi == height as int,
            c == input@,
            al == alphas@,
            width > 0,
            height > 0,
            area == input@.len(),
            area == width * height,
            visited@.len() == area,
            output@.len() == area,
            seed < area,
            visited_monotone(area as int, old(visited)@, visited@),
            erase_consistent(wi, hi, c, al, visited@, output@),
            stack_ok(wi, hi, c, al, seed as int, stack@),
            stack_closed(wi, hi, c, al, visited@, output@, stack@),
            visited@[seed as int] || stack@.contains(seed),
            mask_sound(wi, hi, c, al, seed as int, old(output)@, output@),
            mask_preserves(area as int, old(output)@, output@),
        decreases 5 * count_unvisited(visited@, area as int) + stack@.len(),
    {
        let ghost v_pre = visited@;
        let ghost m_pre = output@;
        let ghost st_pre = stack@;
        proof {
            lemma_count_unvisited_nonneg(visited@, area as int);
        }
        let pos = stack.pop().unwrap();
        let ghost st1 = stack@;
        proof {
            assert(st1 == st_pre.subrange(0, st_pre.len() - 1));
            assert(pos == st_pre[st_pre.len() - 1]);
            assert(valid_pos(wi, hi, pos as int));
        }
        if !visited[pos] {
            visited[pos] = true;
            proof {
                lemma_count_unvisited_update(v_pre, pos as int, area as int);
                lemma_count_unvisited_nonneg(visited@, area as int);
            }
            let value = input[pos];
            if contains_byte(alphas, value) {
                // a background cell first reached now: erase it and queue its
                // neighbors
                proof {
                    assert(is_bg_at(c, al, pos as int));
                    assert(stack_elem_ok(wi, hi, c, al, seed as int, pos as int));
                    if pos as int == seed as int {
                        lemma_reachable_self(wi, hi, c, al, seed as int);
                    } else {
                        let e = choose|e: int|
                            reachable(wi, hi, c, al, seed as int, e) && #[trigger] adjacent(
                                wi,
                                hi,
                                e,
                                pos as int,
                            );
                        lemma_reachable_step(wi, hi, c, al, seed as int, e, pos as int);
                    }
                    assert(reachable(wi, hi, c, al, seed as int, pos as int));
                    lemma_neighbors(wi, hi, pos as int);
                }
                output[pos] = 0;
                let r = pos / width;
                let cl = pos % width;
                if cl > 0 {
                    stack.push(pos - 1);
                }
                let ghost s_a = stack@;
                if cl + 1 < width {
                    stack.push(pos + 1);
                }
                let ghost s_b = stack@;
                if r > 0 {
                    stack.push(pos - width);
                }
                let ghost s_c = stack@;
                if r + 1 < height {
                    stack.push(pos + width);
                }
                proof {
                    let stn = stack@;
                    lemma_pushed_neighbors(wi, hi, pos as int, st1, s_a, s_b, s_c, stn);
                    lemma_visit_background(
                        wi,
                        hi,
                        c,
                        al,
                        seed as int,
                        v_pre,
                        m_pre,
                        old(output)@,
                        st_pre,
                        stn,
                    );
                }
            } else {
                // a wall cell: mark visited so traversal stops here
                proof {
                    assert(!is_bg_at(c, al, pos as int));
                    lemma_visit_wall(wi, hi, c, al, seed as int, v_pre, m_pre, st_pre);
                }
            }
        } else {
            // already explored earlier, possibly from another seed
            proof {
                lemma_pop_visited(wi, hi, c, al, seed as int, visited@, output@, st_pre);
            }
        }
    }
    proof {
        assert(visited@[seed as int]);
        assert forall|a: int, b: int|
            valid_pos(wi, hi, a) && output@[a] == 0 && #[trigger] adjacent(wi, hi, a, b)
                && is_bg_at(c, al, b) implies visited@[b] by {
            assert(!stack@.contains(b as usize));
        }
        assert forall|p: int| 0 <= p < width * height implies (#[trigger] output@[p]) == (if old(
            output,
        )@[p] == 0 || reachable(wi, hi, c, al, seed as int, p) {
            0u8
        } else {
            old(output)@[p]
        }) by {
            if reachable(wi, hi, c, al, seed as int, p) {
                lemma_reachable_is_erased(wi, hi, c, al, visited@, output@, seed as int, p);
            } else if old(output)@[p] == 0 {
                if output@[p] != 0 {
                    assert(output@[p] == old(output)@[p]);
                }
            }
        }
    }
}

/// The linear position of corner `k`: top-left, top-right, bottom-left,
/// bottom-right.
pub open spec fn corner_seed(w: int, h: int, k: int) -> int {
    if k == 0 {
        0
    } else if k == 1 {
        w - 1
    } else if k == 2 {
        (h - 1) * w
    } else {
        w * h - 1
    }
}

/// `p` is reachable from at least one of the four canvas corners.
pub open spec fn any_corner_reachable(
    w: int,
    h: int,
    canvas: Seq<u8>,
    alphas: Seq<u8>,
    p: int,
) -> bool {
    exists|k: int| 0 <= k < 4 && reachable(w, h, canvas, alphas, corner_seed(w, h, k), p)
}

/// The mask value the flood erase leaves at `p`: white (0) where a corner
/// reaches `p` through background cells, black (1) everywhere else.
pub open spec fn mask_spec_at(w: int, h: int, canvas: Seq<u8>, alphas: Seq<u8>, p: int) -> u8 {
    if any_corner_reachable(w, h, canvas, alphas, p) {
        0u8
    } else {
        1u8
    }
}

/// Run the flood erase from all four corners into a reused mask and visited
/// grid: the mask becomes exactly `mask_spec_at` at every position.
#[verifier::rlimit(100)]
pub fn flood_erase_mask(
    canvas: &Canvas,
    alphas: &Vec<u8>,
    mask: &mut Vec<u8>,
    visited: &mut Vec<bool>,
)
    requires
        canvas.wf(),
        canvas.width > 0,
        canvas.height > 0,
        old(mask)@.len() == canvas.width * canvas.height,
        old(visited)@.len() == canvas.width * canvas.height,
    ensures
        final(mask)@.len() == canvas.width * canvas.height,
        final(visited)@.len() == canvas.width * canvas.height,
        forall|p: int|
            0 <= p < canvas.width * canvas.height ==> (#[trigger] final(mask)@[p]) == mask_spec_at(
                canvas.width as int,
                canvas.height as int,
                canvas.cells@,
                alphas@,
                p,
            ),
{
    let ghost wi = canvas.width as int;
    let ghost hi = canvas.height as int;
    let ghost c = canvas.cells@;
    let ghost al = alphas@;
    let width = canvas.width;
    let height = canvas.height;
    let area = canvas.cells.len();
    proof {
        assert(wi * hi >= wi && wi * hi >= hi && wi * hi >= 1) by (nonlinear_arith)
            requires
                wi >= 1 && hi >= 1,
        ;
        assert((hi - 1) * wi == hi * wi - wi) by (nonlinear_arith);
        assert(hi * wi == wi * hi) by (nonlinear_arith);
    }
    let mut k: usize = 0;
    while k < area
        invariant
            0 <= k <= area,
            mask@.len() == area,
            visited@.len() == area,
            forall|p: int| 0 <= p < k ==> (#[trigger] mask@[p]) == 1u8,
            forall|p: int| 0 <= p < k ==> !(#[trigger] visited@[p]),
        decreases area - k,
    {
        mask[k] = 1;
        visited[k] = false;
        k += 1;
    }
    proof {
        assert(erase_consistent(wi, hi, c, al, visited@, mask@));
        assert(erase_closed(wi, hi, c, al, visited@, mask@));
    }
    let ghost m0 = mask@;
    eraser(0, width, height, visited, &canvas.cells, mask, alphas);
    let ghost m1 = mask@;
    eraser(width - 1, width, height, visited, &canvas.cells, mask, alphas);
    let ghost m2 = mask@;
    eraser(area - width, width, height, visited, &canvas.cells, mask, alphas);
    let ghost m3 = mask@;
    eraser(area - 1, width, height, visited, &canvas.cells, mask, alphas);
    proof {
        assert forall|p: int| 0 <= p < width * height implies (#[trigger] mask@[p]) == mask_spec_at(
            wi,
            hi,
            c,
            al,
            p,
        ) by {
            assert(m0[p] == 1u8);
            assert(corner_seed(wi, hi, 0) == 0);
            assert(corner_seed(wi, hi, 1) == wi - 1);
            assert(corner_seed(wi, hi, 2) == (hi - 1) * wi == area - width);
            assert(corner_seed(wi, hi, 3) == wi * hi - 1 == area - 1);
            if mask@[p] == 0 {
                assert(m3[p] == 0 || reachable(wi, hi, c, al, area - 1, p));
                assert(m2[p] == 0 || m3[p] != 0 || reachable(wi, hi, c, al, area - width, p));
                assert(m1[p] == 0 || m2[p] != 0 || reachable(wi, hi, c, al, wi - 1, p));
                assert(m1[p] != 0 || reachable(wi, hi, c, al, 0, p));
                assert(any_corner_reachable(wi, hi, c, al, p));
            } else {
                assert(mask@[p] == 1u8);
                if any_corner_reachable(wi, hi, c, al, p) {
                    let j = choose|j: int|
                        0 <= j < 4 && reachable(wi, hi, c, al, corner_seed(wi, hi, j), p);
                    if j == 0 {
                        assert(m1[p] == 0);
                    } else if j == 1 {
                        assert(m2[p] == 0);
                    } else if j == 2 {
                        assert(m3[p] == 0);
                    }
                    assert(mask@[p] == 0u8);
                }
            }
        }
    }
}

/// On a canvas whose every cell is background-eligible, every position is
/// reachable from the top-left corner: the mask comes out all white.
pub proof fn lemma_all_background_reachable(
    w: int,
    h: int,
    canvas: Seq<u8>,
    alphas: Seq<u8>,
    p: int,
)
    requires
        w > 0,
        h > 0,
        canvas.len() == w * h,
        valid_pos(w, h, p),
        forall|q: int| 0 <= q < w * h ==> is_bg_at(canvas, alphas, q),
    ensures
        reachable(w, h, canvas, alphas, 0, p),
    decreases p,
{
    lemma_neighbors(w, h, p);
    if p == 0 {
        lemma_reachable_self(w, h, canvas, alphas, 0);
    } else if p % w > 0 {
        lemma_all_background_reachable(w, h, canvas, alphas, p - 1);
        assert(adjacent(w, h, p, p - 1));
        assert(adjacent(w, h, p - 1, p));
        lemma_reachable_step(w, h, canvas, alphas, 0, p - 1, p);
    } else {
        if p / w <= 0 {
            assert((p / w) * w <= 0) by (nonlinear_arith)
                requires
                    p / w <= 0 && w > 0,
            ;
            assert(false);
        }
        lemma_all_background_reachable(w, h, canvas, alphas, p - w);
        assert(adjacent(w, h, p, p - w));
        assert(adjacent(w, h, p - w, p));
        lemma_reachable_step(w, h, canvas, alphas, 0, p - w, p);
    }
}

/// All-background canvas: the flood mask is white everywhere.
pub proof fn lemma_all_background_mask_white(
    w: int,
    h: int,
    canvas: Seq<u8>,
    alphas: Seq<u8>,
    p: int,
)
    requires
        w > 0,
        h > 0,
        canvas.len() == w * h,
        valid_pos(w, h, p),
        forall|q: int| 0 <= q < w * h ==> is_bg_at(canvas, alphas, q),
    ensures
        mask_spec_at(w, h, canvas, alphas, p) == 0,
{
    lemma_all_background_reachable(w, h, canvas, alphas, p);
    assert(corner_seed(w, h, 0) == 0);
    assert(any_corner_reachable(w, h, canvas, alphas, p));
}

/// Nothing is reachable from a seed that is not itself background-eligible.
pub proof fn lemma_wall_seed_reaches_nothing(
    w: int,
    h: int,
    canvas: Seq<u8>,
    alphas: Seq<u8>,
    s: int,
    p: int,
)
    requires
        !is_bg_at(canvas, alphas, s),
    ensures
        !reachable(w, h, canvas, alphas, s, p),
{
    if reachable(w, h, canvas, alphas, s, p) {
        lemma_reachable_ends(w, h, canvas, alphas, s, p);
    }
}

/// If no corner cell is background-eligible, the flood mask is black
/// everywhere.
pub proof fn lemma_no_background_corner_mask_black(
    w: int,
    h: int,
    canvas: Seq<u8>,
    alphas: Seq<u8>,
    p: int,
)
    requires
        w > 0,
        h > 0,
        !is_bg_at(canvas, alphas, 0),
        !is_bg_at(canvas, alphas, w - 1),
        !is_bg_at(canvas, alphas, (h - 1) * w),
        !is_bg_at(canvas, alphas, w * h - 1),
    ensures
        mask_spec_at(w, h, canvas, alphas, p) == 1,
{
    if any_corner_reachable(w, h, canvas, alphas, p) {
        let k = choose|k: int|
            0 <= k < 4 && reachable(w, h, canvas, alphas, corner_seed(w, h, k), p);
        lemma_reachable_ends(w, h, canvas, alphas, corner_seed(w, h, k), p);
    }
}

/// A cell that is not background-eligible is never erased: walls stay black
/// in the mask, whatever surrounds them.
pub proof fn lemma_wall_stays_black(w: int, h: int, canvas: Seq<u8>, alphas: Seq<u8>, p: int)
    requires
        !is_bg_at(canvas, alphas, p),
    ensures
        mask_spec_at(w, h, canvas, alphas, p) == 1,
{
    if any_corner_reachable(w, h, canvas, alphas, p) {
        let k = choose|k: int|
            0 <= k < 4 && reachable(w, h, canvas, alphas, corner_seed(w, h, k), p);
        lemma_reachable_ends(w, h, canvas, alphas, corner_seed(w, h, k), p);
    }
}

/// Connectivity is 4-neighborhood, not 8: a cell one row and one column away
/// is not adjacent, so erasure never crosses a purely diagonal bridge.
pub proof fn lemma_diagonal_not_adjacent(w: int, h: int, a: int, b: int)
    requires
        b / w == a / w + 1 || b / w == a / w - 1,
        b % w == a % w + 1 || b % w == a % w - 1,
    ensures
        !adjacent(w, h, a, b),
{
}

/// With the background set produced by the palette classifier, a canvas
/// cell is background-eligible exactly when the palette entry it names is.
pub proof fn lemma_classified_background(
    palette: Seq<u8>,
    alphas: Seq<u8>,
    canvas: Seq<u8>,
    p: int,
)
    requires
        palette.len() <= 3 * 256,
        alphas == crate::palette::classify_prefix(palette, crate::palette::entry_count(palette)),
        0 <= p < canvas.len(),
    ensures
        is_bg_at(canvas, alphas, p) <==> crate::palette::is_bg_entry(palette, canvas[p] as int),
{
    crate::palette::lemma_classify_prefix_contains(
        palette,
        crate::palette::entry_count(palette),
        canvas[p],
    );
}

/// `q` lies in the closed rectangle of rows `r0..=r1`, columns `c0..=c1`.
pub open spec fn in_rect(w: int, r0: int, c0: int, r1: int, c1: int, q: int) -> bool {
    r0 <= q / w <= r1 && c0 <= q % w <= c1
}

/// `q` lies on the boundary ring of the closed rectangle.
pub open spec fn on_ring(w: int, r0: int, c0: int, r1: int, c1: int, q: int) -> bool {
    in_rect(w, r0, c0, r1, c1, q) && (q / w == r0 || q / w == r1 || q % w == c0 || q % w == c1)
}

/// `q` lies strictly inside the rectangle, off its boundary ring.
pub open spec fn strictly_inside(w: int, r0: int, c0: int, r1: int, c1: int, q: int) -> bool {
    r0 < q / w < r1 && c0 < q % w < c1
}

/// A path from outside a rectangle to a cell inside it passes over the
/// rectangle's boundary ring.
proof fn lemma_path_crosses_ring(
    w: int,
    h: int,
    canvas: Seq<u8>,
    alphas: Seq<u8>,
    r0: int,
    c0: int,
    r1: int,
    c1: int,
    path: Seq<int>,
)
    requires
        is_path(w, h, canvas, alphas, path),
        !in_rect(w, r0, c0, r1, c1, path.first()),
        in_rect(w, r0, c0, r1, c1, path.last()),
    ensures
        exists|k: int| 0 <= k < path.len() && on_ring(w, r0, c0, r1, c1, #[trigger] path[k]),
    decreases path.len(),
{
    let n = path.len() as int;
    if n == 1 {
        assert(path.first() == path.last());
    } else {
        let last = path[n - 1];
        let prev = path[n - 2];
        if in_rect(w, r0, c0, r1, c1, prev) {
            let prefix = path.drop_last();
            assert forall|k: int| 0 <= k < prefix.len() implies valid_pos(
                w,
                h,
                #[trigger] prefix[k],
            ) && is_bg_at(canvas, alphas, prefix[k]) by {
                assert(prefix[k] == path[k]);
            }
            assert forall|k: int| 1 <= k < prefix.len() implies adjacent(
                w,
                h,
                prefix[k - 1],
                #[trigger] prefix[k],
            ) by {
                assert(prefix[k] == path[k] && prefix[k - 1] == path[k - 1]);
            }
            assert(is_path(w, h, canvas, alphas, prefix));
            assert(prefix.first() == path.first() && prefix.last() == prev);
            lemma_path_crosses_ring(w, h, canvas, alphas, r0, c0, r1, c1, prefix);
            let k = choose|k: int|
                0 <= k < prefix.len() && on_ring(w, r0, c0, r1, c1, #[trigger] prefix[k]);
            assert(path[k] == prefix[k]);
            assert(on_ring(w, r0, c0, r1, c1, path[k]));
        } else {
            // the step from outside into the rectangle lands on the ring: a
            // single 4-step cannot jump over a boundary row or column
            assert(adjacent(w, h, prev, last));
            if !on_ring(w, r0, c0, r1, c1, last) {
                assert(r0 < last / w < r1 && c0 < last % w < c1);
                assert(in_rect(w, r0, c0, r1, c1, prev));
            }
            assert(on_ring(w, r0, c0, r1, c1, path[n - 1]));
        }
    }
}

/// Non-background walls block propagation: a solid ring of non-background
/// cells encloses its interior, so no seed outside the rectangle reaches a
/// cell strictly inside it.
pub proof fn lemma_ring_blocks(
    w: int,
    h: int,
    canvas: Seq<u8>,
    alphas: Seq<u8>,
    r0: int,
    c0: int,
    r1: int,
    c1: int,
    s: int,
    p: int,
)
    requires
        forall|q: int|
            valid_pos(w, h, q) && #[trigger] on_ring(w, r0, c0, r1, c1, q) ==> !is_bg_at(
                canvas,
                alphas,
                q,
            ),
        !in_rect(w, r0, c0, r1, c1, s),
        in_rect(w, r0, c0, r1, c1, p),
    ensures
        !reachable(w, h, canvas, alphas, s, p),
{
    if reachable(w, h, canvas, alphas, s, p) {
        let path = choose|path: Seq<int>|
            is_path(w, h, canvas, alphas, path) && path.first() == s && path.last() == p;
        lemma_path_crosses_ring(w, h, canvas, alphas, r0, c0, r1, c1, path);
        let k = choose|k: int|
            0 <= k < path.len() && on_ring(w, r0, c0, r1, c1, #[trigger] path[k]);
        assert(valid_pos(w, h, path[k]) && is_bg_at(canvas, alphas, path[k]));
    }
}

/// A solid non-background ring strictly inside the canvas leaves every cell
/// it encloses black in the flood mask.
pub proof fn lemma_ring_interior_mask_black(
    w: int,
    h: int,
    canvas: Seq<u8>,
    alphas: Seq<u8>,
    r0: int,
    c0: int,
    r1: int,
    c1: int,
    p: int,
)
    requires
        w > 0,
        h > 0,
        0 < r0 && r1 < h - 1,
        0 < c0 && c1 < w - 1,
        forall|q: int|
            valid_pos(w, h, q) && #[trigger] on_ring(w, r0, c0, r1, c1, q) ==> !is_bg_at(
                canvas,
                alphas,
                q,
            ),
        strictly_inside(w, r0, c0, r1, c1, p),
    ensures
        mask_spec_at(w, h, canvas, alphas, p) == 1,
{
    lemma_linear_index(w, 0, 0);
    lemma_linear_index(w, 0, w - 1);
    lemma_linear_index(w, h - 1, 0);
    lemma_linear_index(w, h - 1, w - 1);
    assert((h - 1) * w + (w - 1) == w * h - 1) by (nonlinear_arith);
    if any_corner_reachable(w, h, canvas, alphas, p) {
        let k = choose|k: int|
            0 <= k < 4 && reachable(w, h, canvas, alphas, corner_seed(w, h, k), p);
        let s = corner_seed(w, h, k);
        assert(!in_rect(w, r0, c0, r1, c1, s));
        lemma_ring_blocks(w, h, canvas, alphas, r0, c0, r1, c1, s, p);
    }
}

} // verus!
