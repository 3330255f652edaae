//! The growth engine: a frontier of empty cells adjacent to colored cells is
//! maintained while palette colors are committed one by one, each at the
//! frontier cell whose colored neighbors match it best.

use vstd::prelude::*;
use vstd::multiset::Multiset;
use rayon::iter::IntoParallelIterator;
use rayon::iter::ParallelIterator;
use crate::color::Rgb;
use crate::color::color_dist;
use crate::color::color_dist_spec;
use crate::image::Image;
use crate::image::adjacent;
use crate::image::cell_index;
use crate::image::in_bounds;
use crate::image::lemma_cell_index_bounds;
use crate::image::lemma_cell_index_injective;

verus! {

broadcast use vstd::multiset::group_multiset_axioms;

/// Is the cell at `p` already colored?
pub open spec fn seen_at(seen: Seq<bool>, w: int, p: (usize, usize)) -> bool {
    seen[cell_index(w, p)]
}

/// Does `p` have at least one in-bounds neighbor that is already colored?
pub open spec fn has_seen_neighbor(seen: Seq<bool>, w: int, h: int, p: (usize, usize)) -> bool {
    exists|q: (usize, usize)| in_bounds(w, h, q) && adjacent(p, q) && #[trigger] seen_at(seen, w, q)
}

/// The frontier invariant: every listed coordinate is an in-bounds, not yet
/// colored cell with at least one colored neighbor; every such cell is
/// listed; and no coordinate is listed twice.
pub open spec fn frontier_ok(free: Seq<(usize, usize)>, seen: Seq<bool>, w: int, h: int) -> bool {
    &&& (forall|i: int|
        0 <= i < free.len() ==> {
            &&& in_bounds(w, h, #[trigger] free[i])
            &&& !seen_at(seen, w, free[i])
            &&& has_seen_neighbor(seen, w, h, free[i])
        })
    &&& (forall|q: (usize, usize)|
        in_bounds(w, h, q) && !seen_at(seen, w, q) && #[trigger] has_seen_neighbor(seen, w, h, q)
            ==> free.contains(q))
    &&& free.no_duplicates()
}

/// How many cells are marked as colored.
pub open spec fn count_seen(seen: Seq<bool>) -> nat
    decreases seen.len(),
{
    if seen.len() == 0 {
        0
    } else {
        count_seen(seen.drop_last()) + (if seen.last() {
            1nat
        } else {
            0nat
        })
    }
}

pub proof fn lemma_count_seen_le_len(seen: Seq<bool>)
    ensures
        count_seen(seen) <= seen.len(),
    decreases seen.len(),
{
    if seen.len() > 0 {
        lemma_count_seen_le_len(seen.drop_last());
    }
}

/// Marking one unmarked cell raises the count by exactly one.
pub proof fn lemma_count_seen_update(seen: Seq<bool>, j: int)
    requires
        0 <= j < seen.len(),
        !seen[j],
    ensures
        count_seen(seen.update(j, true)) == count_seen(seen) + 1,
    decreases seen.len(),
{
    let s2 = seen.update(j, true);
    if j == seen.len() - 1 {
        assert(s2.drop_last() =~= seen.drop_last());
        assert(s2.last());
    } else {
        assert(s2.drop_last() =~= seen.drop_last().update(j, true));
        lemma_count_seen_update(seen.drop_last(), j);
        assert(s2.last() == seen.last());
    }
}

/// A full count means every cell is marked.
pub proof fn lemma_count_seen_full(seen: Seq<bool>)
    requires
        count_seen(seen) == seen.len(),
    ensures
        forall|j: int| 0 <= j < seen.len() ==> seen[j],
    decreases seen.len(),
{
    if seen.len() > 0 {
        lemma_count_seen_le_len(seen.drop_last());
        assert(seen.last());
        lemma_count_seen_full(seen.drop_last());
        assert forall|j: int| 0 <= j < seen.len() implies seen[j] by {
            if j < seen.len() - 1 {
                assert(seen.drop_last()[j]);
            }
        }
    }
}

/// A positive count means some cell is marked.
pub proof fn lemma_count_seen_pos(seen: Seq<bool>)
    requires
        count_seen(seen) >= 1,
    ensures
        exists|j: int| 0 <= j < seen.len() && #[trigger] seen[j],
    decreases seen.len(),
{
    if seen.last() {
        assert(seen[seen.len() - 1]);
    } else {
        lemma_count_seen_pos(seen.drop_last());
        let j = choose|j: int| 0 <= j < seen.drop_last().len() && #[trigger] seen.drop_last()[j];
        assert(seen[j]);
    }
}

/// A count short of full means some cell is unmarked.
pub proof fn lemma_count_seen_partial(seen: Seq<bool>)
    requires
        count_seen(seen) < seen.len(),
    ensures
        exists|j: int| 0 <= j < seen.len() && !(#[trigger] seen[j]),
    decreases seen.len(),
{
    if !seen.last() {
        assert(!seen[seen.len() - 1]);
    } else {
        lemma_count_seen_partial(seen.drop_last());
        let j = choose|j: int| 0 <= j < seen.drop_last().len() && !(#[trigger] seen.drop_last()[j]);
        assert(!seen[j]);
    }
}

/// The multiset of elements of a color sequence.
pub open spec fn color_mset(s: Seq<Rgb>) -> Multiset<Rgb>
    decreases s.len(),
{
    if s.len() == 0 {
        Multiset::empty()
    } else {
        color_mset(s.drop_last()).insert(s.last())
    }
}

/// Every element of a sequence occurs in its multiset.
pub proof fn lemma_color_mset_count_pos(s: Seq<Rgb>, i: int)
    requires
        0 <= i < s.len(),
    ensures
        color_mset(s).count(s[i]) > 0,
    decreases s.len(),
{
    if i < s.len() - 1 {
        lemma_color_mset_count_pos(s.drop_last(), i);
        assert(s.drop_last()[i] == s[i]);
    }
}

/// The multiset of colors committed to marked cells: cell `j` contributes
/// `img[j]` when `seen[j]` holds.
pub open spec fn placed_mset(img: Seq<Rgb>, seen: Seq<bool>) -> Multiset<Rgb>
    recommends
        img.len() <= seen.len(),
    decreases img.len(),
{
    if img.len() == 0 {
        Multiset::empty()
    } else if seen[img.len() - 1] {
        placed_mset(img.drop_last(), seen).insert(img.last())
    } else {
        placed_mset(img.drop_last(), seen)
    }
}

/// The placed multiset depends only on the marks of cells that exist.
pub proof fn lemma_placed_mset_seen_agree(img: Seq<Rgb>, s1: Seq<bool>, s2: Seq<bool>)
    requires
        forall|k: int| 0 <= k < img.len() ==> s1[k] == s2[k],
    ensures
        placed_mset(img, s1) == placed_mset(img, s2),
    decreases img.len(),
{
    if img.len() > 0 {
        lemma_placed_mset_seen_agree(img.drop_last(), s1, s2);
    }
}

/// Committing color `c` to an unmarked cell adds exactly `c` to the placed
/// multiset.
pub proof fn lemma_placed_mset_place(img: Seq<Rgb>, seen: Seq<bool>, j: int, c: Rgb)
    requires
        0 <= j < img.len(),
        img.len() <= seen.len(),
        !seen[j],
    ensures
        placed_mset(img.update(j, c), seen.update(j, true)) == placed_mset(img, seen).insert(c),
    decreases img.len(),
{
    let img2 = img.update(j, c);
    let seen2 = seen.update(j, true);
    if j == img.len() - 1 {
        assert(img2.drop_last() =~= img.drop_last());
        assert(seen2[img.len() - 1]);
        assert(img2.last() == c);
        lemma_placed_mset_seen_agree(img.drop_last(), seen2, seen);
    } else {
        assert(img2.drop_last() =~= img.drop_last().update(j, c));
        lemma_placed_mset_place(img.drop_last(), seen, j, c);
        assert(seen2[img.len() - 1] == seen[img.len() - 1]);
        assert(img2.last() == img.last());
        if seen[img.len() - 1] {
            assert(placed_mset(img.drop_last(), seen).insert(c).insert(img.last()) =~= placed_mset(
                img.drop_last(),
                seen,
            ).insert(img.last()).insert(c));
        }
    }
}

/// Once every cell is marked, the placed multiset is the multiset of the
/// whole grid.
pub proof fn lemma_placed_mset_all_seen(img: Seq<Rgb>, seen: Seq<bool>)
    requires
        forall|k: int| 0 <= k < img.len() ==> seen[k],
    ensures
        placed_mset(img, seen) == color_mset(img),
    decreases img.len(),
{
    if img.len() > 0 {
        lemma_placed_mset_all_seen(img.drop_last(), seen);
    }
}

/// One when the cell at `p` is marked, zero otherwise.
pub open spec fn nbr_seen(seen: Seq<bool>, w: int, p: (usize, usize)) -> int {
    if seen_at(seen, w, p) {
        1
    } else {
        0
    }
}

/// How many of the in-bounds neighbors of `p` are already colored.
pub open spec fn seen_neighbor_count(seen: Seq<bool>, w: int, h: int, p: (usize, usize)) -> int {
    (if p.0 + 1 < w {
        nbr_seen(seen, w, ((p.0 + 1) as usize, p.1))
    } else {
        0
    }) + (if p.0 > 0 {
        nbr_seen(seen, w, ((p.0 - 1) as usize, p.1))
    } else {
        0
    }) + (if p.1 + 1 < h {
        nbr_seen(seen, w, (p.0, (p.1 + 1) as usize))
    } else {
        0
    }) + (if p.1 > 0 {
        nbr_seen(seen, w, (p.0, (p.1 - 1) as usize))
    } else {
        0
    })
}

/// Distance between `c` and the colored neighbor at `q`, or zero.
pub open spec fn nbr_dist(img: Seq<Rgb>, seen: Seq<bool>, w: int, q: (usize, usize), c: Rgb) -> int {
    if seen_at(seen, w, q) {
        color_dist_spec(c, img[cell_index(w, q)])
    } else {
        0
    }
}

/// Total squared distance between `c` and the colored neighbors of `p`.
pub open spec fn neighbor_dist_sum(
    img: Seq<Rgb>,
    seen: Seq<bool>,
    w: int,
    h: int,
    p: (usize, usize),
    c: Rgb,
) -> int {
    (if p.0 + 1 < w {
        nbr_dist(img, seen, w, ((p.0 + 1) as usize, p.1), c)
    } else {
        0
    }) + (if p.0 > 0 {
        nbr_dist(img, seen, w, ((p.0 - 1) as usize, p.1), c)
    } else {
        0
    }) + (if p.1 + 1 < h {
        nbr_dist(img, seen, w, (p.0, (p.1 + 1) as usize), c)
    } else {
        0
    }) + (if p.1 > 0 {
        nbr_dist(img, seen, w, (p.0, (p.1 - 1) as usize), c)
    } else {
        0
    })
}

/// The score of frontier cell `p` for color `c`: the average squared distance
/// between `c` and the colors of the already colored neighbors of `p`, with
/// flooring division.
pub open spec fn score_spec(
    img: Seq<Rgb>,
    seen: Seq<bool>,
    w: int,
    h: int,
    p: (usize, usize),
    c: Rgb,
) -> int {
    neighbor_dist_sum(img, seen, w, h, p, c) / seen_neighbor_count(seen, w, h, p)
}

/// A cell has a colored neighbor exactly when its colored-neighbor count is
/// positive.
pub proof fn lemma_seen_neighbor_count_pos(seen: Seq<bool>, w: int, h: int, p: (usize, usize))
    requires
        in_bounds(w, h, p),
        w <= usize::MAX,
        h <= usize::MAX,
    ensures
        has_seen_neighbor(seen, w, h, p) <==> seen_neighbor_count(seen, w, h, p) > 0,
{
    if has_seen_neighbor(seen, w, h, p) {
        let q = choose|q: (usize, usize)|
            in_bounds(w, h, q) && adjacent(p, q) && #[trigger] seen_at(seen, w, q);
        if q.1 == p.1 && q.0 == p.0 + 1 {
            assert(nbr_seen(seen, w, ((p.0 + 1) as usize, p.1)) == 1);
        } else if q.1 == p.1 && q.0 + 1 == p.0 {
            assert(nbr_seen(seen, w, ((p.0 - 1) as usize, p.1)) == 1);
        } else if q.0 == p.0 && q.1 == p.1 + 1 {
            assert(nbr_seen(seen, w, (p.0, (p.1 + 1) as usize)) == 1);
        } else {
            assert(q.0 == p.0 && q.1 + 1 == p.1);
            assert(nbr_seen(seen, w, (p.0, (p.1 - 1) as usize)) == 1);
        }
    }
    if seen_neighbor_count(seen, w, h, p) > 0 {
        if p.0 + 1 < w && seen_at(seen, w, ((p.0 + 1) as usize, p.1)) {
            assert(in_bounds(w, h, ((p.0 + 1) as usize, p.1)) && adjacent(
                p,
                ((p.0 + 1) as usize, p.1),
            ) && seen_at(seen, w, ((p.0 + 1) as usize, p.1)));
        } else if p.0 > 0 && seen_at(seen, w, ((p.0 - 1) as usize, p.1)) {
            assert(in_bounds(w, h, ((p.0 - 1) as usize, p.1)) && adjacent(
                p,
                ((p.0 - 1) as usize, p.1),
            ) && seen_at(seen, w, ((p.0 - 1) as usize, p.1)));
        } else if p.1 + 1 < h && seen_at(seen, w, (p.0, (p.1 + 1) as usize)) {
            assert(in_bounds(w, h, (p.0, (p.1 + 1) as usize)) && adjacent(
                p,
                (p.0, (p.1 + 1) as usize),
            ) && seen_at(seen, w, (p.0, (p.1 + 1) as usize)));
        } else {
            assert(p.1 > 0 && seen_at(seen, w, (p.0, (p.1 - 1) as usize)));
            assert(in_bounds(w, h, (p.0, (p.1 - 1) as usize)) && adjacent(
                p,
                (p.0, (p.1 - 1) as usize),
            ) && seen_at(seen, w, (p.0, (p.1 - 1) as usize)));
        }
    }
}

/// Average squared distance between `c` and the colored neighbors of `(x, y)`.
pub fn score(img: &Image<Rgb>, seen: &Image<bool>, x: usize, y: usize, c: Rgb) -> (s: u32)
    requires
        img.wf(),
        seen.wf(),
        seen.spec_width() == img.spec_width(),
        seen.spec_height() == img.spec_height(),
        x < img.spec_width(),
        y < img.spec_height(),
        has_seen_neighbor(seen@, img.spec_width() as int, img.spec_height() as int, (x, y)),
    ensures
        s == score_spec(
            img@,
            seen@,
            img.spec_width() as int,
            img.spec_height() as int,
            (x, y),
            c,
        ),
{
    let ghost w = img.spec_width() as int;
    let ghost h = img.spec_height() as int;
    let mut cnt: u32 = 0;
    let mut total: u32 = 0;
    if x + 1 < img.width() {
        if seen.get(x + 1, y) {
            cnt = cnt + 1;
            total = total + color_dist(c, img.get(x + 1, y)) as u32;
        }
    }
    if x > 0 {
        if seen.get(x - 1, y) {
            cnt = cnt + 1;
            total = total + color_dist(c, img.get(x - 1, y)) as u32;
        }
    }
    if y + 1 < img.height() {
        if seen.get(x, y + 1) {
            cnt = cnt + 1;
            total = total + color_dist(c, img.get(x, y + 1)) as u32;
        }
    }
    if y > 0 {
        if seen.get(x, y - 1) {
            cnt = cnt + 1;
            total = total + color_dist(c, img.get(x, y - 1)) as u32;
        }
    }
    proof {
        lemma_seen_neighbor_count_pos(seen@, w, h, (x, y));
        assert(cnt == seen_neighbor_count(seen@, w, h, (x, y)));
        assert(total == neighbor_dist_sum(img@, seen@, w, h, (x, y), c));
    }
    total / cnt
}

/// A colored neighbor keeps being one as cells only ever gain their mark.
proof fn lemma_seen_monotone(s1: Seq<bool>, s2: Seq<bool>, w: int, h: int, p: (usize, usize))
    requires
        has_seen_neighbor(s1, w, h, p),
        s1.len() == s2.len(),
        s1.len() == w * h,
        forall|j: int| 0 <= j < s1.len() && s1[j] ==> s2[j],
    ensures
        has_seen_neighbor(s2, w, h, p),
{
    let q = choose|q: (usize, usize)|
        in_bounds(w, h, q) && adjacent(p, q) && #[trigger] seen_at(s1, w, q);
    lemma_cell_index_bounds(w, h, q);
    assert(seen_at(s2, w, q));
}

/// The cell of row-major index `j`.
pub open spec fn coords_of(w: int, j: int) -> (usize, usize) {
    ((j % w) as usize, (j / w) as usize)
}

proof fn lemma_coords_of(w: int, h: int, j: int)
    requires
        0 < w <= usize::MAX,
        0 < h <= usize::MAX,
        0 <= j < w * h,
    ensures
        in_bounds(w, h, coords_of(w, j)),
        cell_index(w, coords_of(w, j)) == j,
{
    vstd::arithmetic::div_mod::lemma_fundamental_div_mod(j, w);
    vstd::arithmetic::div_mod::lemma_mod_pos_bound(j, w);
    vstd::arithmetic::div_mod::lemma_div_pos_is_pos(j, w);
    vstd::arithmetic::div_mod::lemma_multiply_divide_lt(j, w, h);
    let p = coords_of(w, j);
    assert(p.0 == j % w && p.1 == j / w);
    assert(w * (j / w) == (j / w) * w) by (nonlinear_arith);
    assert(cell_index(w, p) == (j / w) * w + (j % w));
}

/// Wherever one cell is colored and another is not, some uncolored cell has a
/// colored neighbor: the grid is connected, so growth can always continue.
pub proof fn lemma_growth_possible(
    seen: Seq<bool>,
    w: int,
    h: int,
    s: (usize, usize),
    u: (usize, usize),
)
    requires
        0 <= w <= usize::MAX,
        0 <= h <= usize::MAX,
        in_bounds(w, h, s),
        in_bounds(w, h, u),
        seen_at(seen, w, s),
        !seen_at(seen, w, u),
    ensures
        exists|q: (usize, usize)|
            in_bounds(w, h, q) && !seen_at(seen, w, q) && #[trigger] has_seen_neighbor(
                seen,
                w,
                h,
                q,
            ),
    decreases (if s.0 <= u.0 {
        u.0 - s.0
    } else {
        s.0 - u.0
    }) + (if s.1 <= u.1 {
        u.1 - s.1
    } else {
        s.1 - u.1
    }),
{
    assert(s != u);
    let m: (usize, usize) = if s.0 < u.0 {
        ((s.0 + 1) as usize, s.1)
    } else if u.0 < s.0 {
        ((s.0 - 1) as usize, s.1)
    } else if s.1 < u.1 {
        (s.0, (s.1 + 1) as usize)
    } else {
        (s.0, (s.1 - 1) as usize)
    };
    assert(in_bounds(w, h, m));
    assert(adjacent(m, s));
    if !seen_at(seen, w, m) {
        assert(has_seen_neighbor(seen, w, h, m));
    } else {
        lemma_growth_possible(seen, w, h, m, u);
    }
}

/// While colors remain to be placed, the frontier cannot be empty.
pub proof fn lemma_frontier_nonempty(free: Seq<(usize, usize)>, seen: Seq<bool>, w: int, h: int)
    requires
        0 <= w <= usize::MAX,
        0 <= h <= usize::MAX,
        seen.len() == w * h,
        frontier_ok(free, seen, w, h),
        count_seen(seen) >= 1,
        count_seen(seen) < seen.len(),
    ensures
        free.len() > 0,
{
    lemma_count_seen_pos(seen);
    lemma_count_seen_partial(seen);
    let js = choose|j: int| 0 <= j < seen.len() && #[trigger] seen[j];
    let ju = choose|j: int| 0 <= j < seen.len() && !(#[trigger] seen[j]);
    assert(0 < w && 0 < h);
    lemma_coords_of(w, h, js);
    lemma_coords_of(w, h, ju);
    lemma_growth_possible(seen, w, h, coords_of(w, js), coords_of(w, ju));
    let q = choose|q: (usize, usize)|
        in_bounds(w, h, q) && !seen_at(seen, w, q) && #[trigger] has_seen_neighbor(seen, w, h, q);
    assert(free.contains(q));
}

/// No more distinct in-bounds coordinates exist than the grid has cells.
pub proof fn lemma_distinct_coords_bounded(s: Seq<(usize, usize)>, w: int, h: int)
    requires
        0 <= w,
        0 <= h,
        s.no_duplicates(),
        forall|i: int| 0 <= i < s.len() ==> in_bounds(w, h, #[trigger] s[i]),
    ensures
        s.len() <= w * h,
{
    let t = Seq::new(s.len(), |i: int| cell_index(w, s[i]));
    assert(t.no_duplicates()) by {
        assert forall|i: int, j: int|
            0 <= i < t.len() && 0 <= j < t.len() && i != j implies t[i] != t[j] by {
            if cell_index(w, s[i]) == cell_index(w, s[j]) {
                lemma_cell_index_injective(w, h, s[i], s[j]);
            }
        }
    }
    t.unique_seq_to_set();
    vstd::set_lib::lemma_int_range(0, w * h);
    assert(t.to_set().subset_of(vstd::set_lib::set_int_range(0, w * h))) by {
        assert forall|x: int| t.to_set().contains(x) implies vstd::set_lib::set_int_range(
            0,
            w * h,
        ).contains(x) by {
            let i = choose|i: int| 0 <= i < t.len() && t[i] == x;
            lemma_cell_index_bounds(w, h, s[i]);
        }
    }
    vstd::set_lib::lemma_len_subset(t.to_set(), vstd::set_lib::set_int_range(0, w * h));
}

/// Is `p` one of the listed coordinates?
fn contains_coord(v: &Vec<(usize, usize)>, p: (usize, usize)) -> (b: bool)
    ensures
        b == v@.contains(p),
{
    let mut k: usize = 0;
    while k < v.len()
        invariant
            k <= v@.len(),
            forall|j: int| 0 <= j < k ==> v@[j] != p,
        decreases v@.len() - k,
    {
        let q = v[k];
        if q.0 == p.0 && q.1 == p.1 {
            assert(v@[k as int] == p);
            return true;
        }
        k = k + 1;
    }
    assert(!v@.contains(p));
    false
}

/// Take `p` out of the list if it is there.
fn remove_coord(v: &mut Vec<(usize, usize)>, p: (usize, usize))
    requires
        old(v)@.no_duplicates(),
    ensures
        final(v)@.no_duplicates(),
        !final(v)@.contains(p),
        forall|q: (usize, usize)| q != p ==> (final(v)@.contains(q) <==> old(v)@.contains(q)),
        forall|i: int| 0 <= i < final(v)@.len() ==> old(v)@.contains(#[trigger] final(v)@[i]),
{
    let o = Ghost(v@);
    let mut k: usize = 0;
    while k < v.len()
        invariant
            v@ == o@,
            o@ == old(v)@,
            o@.no_duplicates(),
            k <= v@.len(),
            forall|j: int| 0 <= j < k ==> v@[j] != p,
        decreases v@.len() - k,
    {
        let q = v[k];
        if q.0 == p.0 && q.1 == p.1 {
            assert(o@[k as int] == p);
            v.remove(k);
            proof {
                let f = v@;
                let ki = k as int;
                o@.remove_ensures(ki);
                assert forall|i: int, j: int|
                    0 <= i < f.len() && 0 <= j < f.len() && i != j implies f[i] != f[j] by {
                    let oi = if i < ki { i } else { i + 1 };
                    let oj = if j < ki { j } else { j + 1 };
                    assert(f[i] == o@[oi] && f[j] == o@[oj]);
                }
                assert forall|i: int| 0 <= i < f.len() implies f[i] != p by {
                    let oi = if i < ki { i } else { i + 1 };
                    assert(f[i] == o@[oi]);
                    assert(o@[oi] != o@[ki]);
                }
                assert forall|q2: (usize, usize)| q2 != p implies (f.contains(q2) <==> o@.contains(
                    q2,
                )) by {
                    if f.contains(q2) {
                        let i = choose|i: int| 0 <= i < f.len() && f[i] == q2;
                        let oi = if i < ki { i } else { i + 1 };
                        assert(o@[oi] == q2);
                    }
                    if o@.contains(q2) {
                        let i = choose|i: int| 0 <= i < o@.len() && o@[i] == q2;
                        let fi = if i < ki { i } else { i - 1 };
                        assert(f[fi] == q2);
                    }
                }
                assert forall|i: int| 0 <= i < f.len() implies o@.contains(#[trigger] f[i]) by {
                    let oi = if i < ki { i } else { i + 1 };
                    assert(o@[oi] == f[i]);
                }
            }
            return;
        }
        k = k + 1;
    }
    assert(!v@.contains(p));
}

/// Commit color `c` to the uncolored cell `(x, y)`: write it, mark the cell,
/// drop the cell from the frontier, and add its still-uncolored neighbors to
/// the frontier. The frontier invariant is preserved.
#[verifier::loop_isolation(false)]
fn place(
    img: &mut Image<Rgb>,
    seen: &mut Image<bool>,
    free: &mut Vec<(usize, usize)>,
    x: usize,
    y: usize,
    c: Rgb,
)
    requires
        old(img).wf(),
        old(seen).wf(),
        old(seen).spec_width() == old(img).spec_width(),
        old(seen).spec_height() == old(img).spec_height(),
        x < old(img).spec_width(),
        y < old(img).spec_height(),
        !seen_at(old(seen)@, old(img).spec_width() as int, (x, y)),
        frontier_ok(
            old(free)@,
            old(seen)@,
            old(img).spec_width() as int,
            old(img).spec_height() as int,
        ),
    ensures
        final(img).wf(),
        final(seen).wf(),
        final(img).spec_width() == old(img).spec_width(),
        final(img).spec_height() == old(img).spec_height(),
        final(seen).spec_width() == old(seen).spec_width(),
        final(seen).spec_height() == old(seen).spec_height(),
        final(img)@ == old(img)@.update(cell_index(old(img).spec_width() as int, (x, y)), c),
        final(seen)@ == old(seen)@.update(cell_index(old(img).spec_width() as int, (x, y)), true),
        frontier_ok(
            final(free)@,
            final(seen)@,
            old(img).spec_width() as int,
            old(img).spec_height() as int,
        ),
{
    let ghost w = img.spec_width() as int;
    let ghost h = img.spec_height() as int;
    let ghost s_old = seen@;
    let ghost f_old = free@;
    proof {
        lemma_cell_index_bounds(w, h, (x, y));
    }
    remove_coord(free, (x, y));
    let ghost f_base = free@;
    img.set(x, y, c);
    seen.set(x, y, true);
    let ghost s_new = seen@;
    proof {
        assert(seen_at(s_new, w, (x, y)));
        assert forall|i: int| 0 <= i < f_base.len() implies {
            &&& in_bounds(w, h, #[trigger] f_base[i])
            &&& !seen_at(s_new, w, f_base[i])
            &&& has_seen_neighbor(s_new, w, h, f_base[i])
        } by {
            let e = f_base[i];
            assert(f_old.contains(e));
            let j = choose|j: int| 0 <= j < f_old.len() && f_old[j] == e;
            assert(f_old[j] == e);
            assert(in_bounds(w, h, e) && !seen_at(s_old, w, e) && has_seen_neighbor(
                s_old,
                w,
                h,
                e,
            ));
            assert(e != (x, y));
            lemma_cell_index_bounds(w, h, e);
            if cell_index(w, e) == cell_index(w, (x, y)) {
                lemma_cell_index_injective(w, h, e, (x, y));
            }
            assert(!seen_at(s_new, w, e));
            lemma_seen_monotone(s_old, s_new, w, h, e);
        }
    }
    let nbrs = seen.neighbors(x, y);
    let mut k: usize = 0;
    while k < nbrs.len()
        invariant
            k <= nbrs@.len(),
            free@.no_duplicates(),
            forall|i: int|
                0 <= i < free@.len() ==> {
                    &&& in_bounds(w, h, #[trigger] free@[i])
                    &&& !seen_at(s_new, w, free@[i])
                    &&& has_seen_neighbor(s_new, w, h, free@[i])
                },
            forall|q: (usize, usize)| f_base.contains(q) ==> free@.contains(q),
            forall|j: int|
                0 <= j < k ==> (!seen_at(s_new, w, #[trigger] nbrs@[j]) ==> free@.contains(
                    nbrs@[j],
                )),
        decreases nbrs@.len() - k,
    {
        let q = nbrs[k];
        proof {
            assert(nbrs@.contains(nbrs@[k as int]));
            assert(in_bounds(w, h, q));
        }
        if !seen.get(q.0, q.1) {
            if !contains_coord(free, q) {
                let ghost prev = free@;
                free.push(q);
                proof {
                    assert(adjacent(q, (x, y)));
                    assert(has_seen_neighbor(s_new, w, h, q));
                    assert forall|i: int, j: int|
                        0 <= i < free@.len() && 0 <= j < free@.len() && i != j implies free@[i]
                        != free@[j] by {
                        if i < prev.len() && j < prev.len() {
                            assert(prev[i] != prev[j]);
                        } else if i < prev.len() {
                            assert(prev[i] != q);
                        } else {
                            assert(prev[j] != q);
                        }
                    }
                    assert forall|q2: (usize, usize)| prev.contains(q2) implies free@.contains(
                        q2,
                    ) by {
                        let i = choose|i: int| 0 <= i < prev.len() && prev[i] == q2;
                        assert(free@[i] == q2);
                    }
                    assert(free@[prev.len() as int] == q);
                    assert(free@.contains(q));
                }
            }
        }
        k = k + 1;
    }
    proof {
        assert forall|q: (usize, usize)|
            in_bounds(w, h, q) && !seen_at(s_new, w, q) && #[trigger] has_seen_neighbor(
                s_new,
                w,
                h,
                q,
            ) implies free@.contains(q) by {
            let q0 = choose|q0: (usize, usize)|
                in_bounds(w, h, q0) && adjacent(q, q0) && #[trigger] seen_at(s_new, w, q0);
            lemma_cell_index_bounds(w, h, q0);
            lemma_cell_index_bounds(w, h, q);
            if q0 == (x, y) {
                assert(nbrs@.contains(q));
                let j = choose|j: int| 0 <= j < nbrs@.len() && nbrs@[j] == q;
                assert(!seen_at(s_new, w, nbrs@[j]));
                assert(free@.contains(q));
            } else {
                if cell_index(w, q0) == cell_index(w, (x, y)) {
                    lemma_cell_index_injective(w, h, q0, (x, y));
                }
                assert(seen_at(s_old, w, q0));
                assert(has_seen_neighbor(s_old, w, h, q));
                assert(q != (x, y));
                if cell_index(w, q) == cell_index(w, (x, y)) {
                    lemma_cell_index_injective(w, h, q, (x, y));
                }
                assert(!seen_at(s_old, w, q));
                assert(f_old.contains(q));
                assert(f_base.contains(q));
                assert(free@.contains(q));
            }
        }
    }
}

/// Relies on rayon's `ParallelIterator::min_by_key` over the frontier
/// indices: the index it returns holds a cell whose score for `c` is no
/// greater than any other frontier cell's score. Which index wins a tie is
/// left open, as rayon's reduction order is unspecified.
#[verifier::external_body]
fn par_select_min(free: &Vec<(usize, usize)>, img: &Image<Rgb>, seen: &Image<bool>, c: Rgb) -> (r:
    usize)
    requires
        free@.len() > 0,
        img.wf(),
        seen.wf(),
        seen.spec_width() == img.spec_width(),
        seen.spec_height() == img.spec_height(),
        forall|i: int|
            0 <= i < free@.len() ==> in_bounds(
                img.spec_width() as int,
                img.spec_height() as int,
                #[trigger] free@[i],
            ) && has_seen_neighbor(
                seen@,
                img.spec_width() as int,
                img.spec_height() as int,
                free@[i],
            ),
    ensures
        r < free@.len(),
        forall|i: int|
            0 <= i < free@.len() ==> score_spec(
                img@,
                seen@,
                img.spec_width() as int,
                img.spec_height() as int,
                free@[r as int],
                c,
            ) <= score_spec(
                img@,
                seen@,
                img.spec_width() as int,
                img.spec_height() as int,
                #[trigger] free@[i],
                c,
            ),
{
    (0..free.len())
        .into_par_iter()
        .min_by_key(|&i: &usize| score(img, seen, free[i].0, free[i].1, c))
        .unwrap()
}

/// An unmarked grid has a count of zero.
proof fn lemma_count_seen_none(s: Seq<bool>)
    requires
        forall|j: int| 0 <= j < s.len() ==> !s[j],
    ensures
        count_seen(s) == 0,
    decreases s.len(),
{
    if s.len() > 0 {
        lemma_count_seen_none(s.drop_last());
    }
}

/// An unmarked grid has placed nothing.
proof fn lemma_placed_mset_none(img: Seq<Rgb>, seen: Seq<bool>)
    requires
        forall|j: int| 0 <= j < img.len() ==> !seen[j],
    ensures
        placed_mset(img, seen) == Multiset::<Rgb>::empty(),
    decreases img.len(),
{
    if img.len() > 0 {
        lemma_placed_mset_none(img.drop_last(), seen);
    }
}

/// One growth run: the color grid, the mark grid, the frontier, and the
/// colors still to be placed, consumed from the back.
pub struct Engine {
    img: Image<Rgb>,
    seen: Image<bool>,
    free: Vec<(usize, usize)>,
    colors: Vec<Rgb>,
}

impl Engine {
    /// The colors of all cells, assigned or not.
    pub closed spec fn img_view(&self) -> Seq<Rgb> {
        self.img@
    }

    /// Which cells are already colored.
    pub closed spec fn seen_view(&self) -> Seq<bool> {
        self.seen@
    }

    /// The frontier coordinates.
    pub closed spec fn frontier_view(&self) -> Seq<(usize, usize)> {
        self.free@
    }

    /// The colors not yet placed.
    pub closed spec fn colors_view(&self) -> Seq<Rgb> {
        self.colors@
    }

    /// The grid width.
    pub closed spec fn w(&self) -> int {
        self.img.spec_width() as int
    }

    /// The grid height.
    pub closed spec fn h(&self) -> int {
        self.img.spec_height() as int
    }

    /// Both grids are well-formed and share the same dimensions.
    pub closed spec fn dims_ok(&self) -> bool {
        &&& self.img.wf()
        &&& self.seen.wf()
        &&& self.seen.spec_width() == self.img.spec_width()
        &&& self.seen.spec_height() == self.img.spec_height()
    }

    /// The multiset of colors already committed to cells.
    pub open spec fn placed(&self) -> Multiset<Rgb> {
        placed_mset(self.img_view(), self.seen_view())
    }

    /// Well-formedness: matching grids, the frontier invariant, at least one
    /// colored cell, and exactly one uncolored cell per remaining color.
    pub open spec fn wf(&self) -> bool {
        &&& self.dims_ok()
        &&& self.img_view().len() == self.w() * self.h()
        &&& self.seen_view().len() == self.w() * self.h()
        &&& frontier_ok(self.frontier_view(), self.seen_view(), self.w(), self.h())
        &&& count_seen(self.seen_view()) + self.colors_view().len() == self.w() * self.h()
        &&& count_seen(self.seen_view()) >= 1
    }

    /// Set up a run: color each seed with a color popped off the end of the
    /// palette, and start the frontier around the seeds.
    #[verifier::loop_isolation(false)]
    pub fn new(colors: Vec<Rgb>, dims: (usize, usize), seeds: &Vec<(usize, usize)>) -> (e: Engine)
        requires
            colors@.len() == dims.0 * dims.1,
            seeds@.len() > 0,
            forall|i: int|
                0 <= i < seeds@.len() ==> in_bounds(
                    dims.0 as int,
                    dims.1 as int,
                    #[trigger] seeds@[i],
                ),
            seeds@.no_duplicates(),
        ensures
            e.wf(),
            e.w() == dims.0,
            e.h() == dims.1,
            e.colors_view() == colors@.take(colors@.len() - seeds@.len()),
            count_seen(e.seen_view()) == seeds@.len(),
            e.placed().add(color_mset(e.colors_view())) == color_mset(colors@),
            forall|i: int|
                0 <= i < seeds@.len() ==> seen_at(e.seen_view(), e.w(), #[trigger] seeds@[i])
                    && e.img_view()[cell_index(e.w(), seeds@[i])] == colors@[colors@.len() - 1
                    - i],
    {
        let ghost palette0 = colors@;
        let ghost w = dims.0 as int;
        let ghost h = dims.1 as int;
        proof {
            lemma_distinct_coords_bounded(seeds@, w, h);
        }
        let total = colors.len();
        let img0 = Image::new((0u8, 0u8, 0u8), dims.0, dims.1);
        let seen0 = Image::new(false, dims.0, dims.1);
        let mut img = img0;
        let mut seen = seen0;
        let mut free: Vec<(usize, usize)> = Vec::new();
        let mut colors = colors;
        proof {
            lemma_count_seen_none(seen@);
            lemma_placed_mset_none(img@, seen@);
            assert(Multiset::<Rgb>::empty().add(color_mset(colors@)) =~= color_mset(colors@));
            assert(colors@ =~= palette0.take(palette0.len() as int));
            assert forall|q: (usize, usize)| in_bounds(w, h, q) implies !seen_at(seen@, w, q) by {
                lemma_cell_index_bounds(w, h, q);
            }
            assert forall|q: (usize, usize)|
                in_bounds(w, h, q) && !seen_at(seen@, w, q) && #[trigger] has_seen_neighbor(
                    seen@,
                    w,
                    h,
                    q,
                ) implies free@.contains(q) by {
                let q0 = choose|q0: (usize, usize)|
                    in_bounds(w, h, q0) && adjacent(q, q0) && #[trigger] seen_at(seen@, w, q0);
                lemma_cell_index_bounds(w, h, q0);
                assert(false);
            }
        }
        let mut i: usize = 0;
        while i < seeds.len()
            invariant
                i <= seeds@.len(),
                img.wf(),
                seen.wf(),
                img.spec_width() == dims.0,
                img.spec_height() == dims.1,
                seen.spec_width() == dims.0,
                seen.spec_height() == dims.1,
                colors@ == palette0.take(palette0.len() - i),
                frontier_ok(free@, seen@, w, h),
                count_seen(seen@) == i,
                placed_mset(img@, seen@).add(color_mset(colors@)) == color_mset(palette0),
                forall|q: (usize, usize)|
                    in_bounds(w, h, q) ==> (seen_at(seen@, w, q) <==> exists|m: int|
                        0 <= m < i && #[trigger] seeds@[m] == q),
                forall|m: int|
                    0 <= m < i ==> img@[cell_index(w, #[trigger] seeds@[m])] == palette0[
                        palette0.len() - 1 - m],
            decreases seeds@.len() - i,
        {
            let s = seeds[i];
            proof {
                assert(in_bounds(w, h, s));
                if seen_at(seen@, w, s) {
                    let m = choose|m: int| 0 <= m < i && #[trigger] seeds@[m] == s;
                    assert(seeds@[m] == seeds@[i as int]);
                    assert(false);
                }
                assert(colors@.len() > 0);
            }
            let ghost img_prev = img@;
            let ghost seen_prev = seen@;
            let ghost colors_prev = colors@;
            let c = colors.pop().unwrap();
            place(&mut img, &mut seen, &mut free, s.0, s.1, c);
            proof {
                let j = cell_index(w, s);
                lemma_cell_index_bounds(w, h, s);
                lemma_count_seen_update(seen_prev, j);
                lemma_placed_mset_place(img_prev, seen_prev, j, c);
                assert(color_mset(colors_prev) == color_mset(colors@).insert(c));
                assert(placed_mset(img@, seen@).add(color_mset(colors@)) =~= placed_mset(
                    img_prev,
                    seen_prev,
                ).add(color_mset(colors_prev)));
                assert(colors@ =~= palette0.take(palette0.len() - (i + 1)));
                assert(c == palette0[palette0.len() - 1 - i as int]);
                assert forall|q: (usize, usize)| in_bounds(w, h, q) implies (seen_at(seen@, w, q)
                    <==> exists|m: int| 0 <= m < i + 1 && #[trigger] seeds@[m] == q) by {
                    lemma_cell_index_bounds(w, h, q);
                    if cell_index(w, q) == j {
                        lemma_cell_index_injective(w, h, q, s);
                        assert(seeds@[i as int] == q);
                    } else {
                        assert(seen_at(seen@, w, q) == seen_at(seen_prev, w, q));
                        if exists|m: int| 0 <= m < i + 1 && #[trigger] seeds@[m] == q {
                            let m = choose|m: int| 0 <= m < i + 1 && #[trigger] seeds@[m] == q;
                            assert(m < i);
                        }
                    }
                }
                assert forall|m: int| 0 <= m < i + 1 implies img@[cell_index(
                    w,
                    #[trigger] seeds@[m],
                )] == palette0[palette0.len() - 1 - m] by {
                    lemma_cell_index_bounds(w, h, seeds@[m]);
                    if m < i {
                        if cell_index(w, seeds@[m]) == j {
                            lemma_cell_index_injective(w, h, seeds@[m], s);
                            assert(false);
                        }
                        assert(img@[cell_index(w, seeds@[m])] == img_prev[cell_index(
                            w,
                            seeds@[m],
                        )]);
                    }
                }
            }
            i = i + 1;
        }
        proof {
            assert(count_seen(seen@) == seeds@.len());
            assert(colors@.len() == palette0.len() - seeds@.len());
        }
        Engine { img, seen, free, colors }
    }

    /// One growth step: pop the next color, commit it to a frontier cell
    /// whose colored neighbors match it best, and advance the frontier.
    pub fn step(&mut self)
        requires
            old(self).wf(),
            old(self).colors_view().len() > 0,
        ensures
            final(self).wf(),
            final(self).w() == old(self).w(),
            final(self).h() == old(self).h(),
            final(self).colors_view() == old(self).colors_view().drop_last(),
            count_seen(final(self).seen_view()) == count_seen(old(self).seen_view()) + 1,
            final(self).placed() == old(self).placed().insert(old(self).colors_view().last()),
            forall|j: int|
                0 <= j < old(self).seen_view().len() && old(self).seen_view()[j] ==> final(self).seen_view()[j] && final(self).img_view()[j] == old(self).img_view()[j],
            step_commits(*old(self), *final(self), old(self).colors_view().last()),
    {
        let ghost pre = *self;
        proof {
            lemma_count_seen_le_len(self.seen@);
            lemma_frontier_nonempty(self.free@, self.seen@, self.w(), self.h());
        }
        let c = self.colors.pop().unwrap();
        let r = par_select_min(&self.free, &self.img, &self.seen, c);
        let p = self.free[r];
        proof {
            assert(self.free@[r as int] == p);
            assert(self.free@.contains(p));
            assert(min_score_choice(pre, p, c));
        }
        let ghost img_prev = self.img@;
        let ghost seen_prev = self.seen@;
        place(&mut self.img, &mut self.seen, &mut self.free, p.0, p.1, c);
        proof {
            let j = cell_index(pre.w(), p);
            lemma_cell_index_bounds(pre.w(), pre.h(), p);
            lemma_count_seen_update(seen_prev, j);
            lemma_placed_mset_place(img_prev, seen_prev, j, c);
            assert(commits(pre, *self, p, c));
            assert(step_commits(pre, *self, c));
        }
    }

    /// Run the growth loop until every color is placed.
    #[verifier::loop_isolation(false)]
    pub fn run(&mut self)
        requires
            old(self).wf(),
        ensures
            final(self).wf(),
            final(self).w() == old(self).w(),
            final(self).h() == old(self).h(),
            final(self).colors_view().len() == 0,
            final(self).placed() == old(self).placed().add(color_mset(old(self).colors_view())),
            forall|j: int|
                0 <= j < old(self).seen_view().len() && old(self).seen_view()[j] ==> final(self).seen_view()[j] && final(self).img_view()[j] == old(self).img_view()[j],
    {
        let ghost pre = *self;
        while self.colors.len() > 0
            invariant
                self.wf(),
                self.w() == pre.w(),
                self.h() == pre.h(),
                self.placed().add(color_mset(self.colors_view())) == pre.placed().add(
                    color_mset(pre.colors_view()),
                ),
                forall|j: int|
                    0 <= j < pre.seen_view().len() && pre.seen_view()[j] ==> self.seen_view()[j]
                        && self.img_view()[j] == pre.img_view()[j],
            decreases self.colors_view().len(),
        {
            let ghost before = *self;
            self.step();
            proof {
                let c = before.colors_view().last();
                assert(color_mset(before.colors_view()) == color_mset(self.colors_view()).insert(
                    c,
                ));
                assert(self.placed().add(color_mset(self.colors_view())) =~= before.placed().add(
                    color_mset(before.colors_view()),
                ));
            }
        }
        proof {
            assert(self.placed().add(color_mset(self.colors_view())) =~= self.placed());
        }
    }

    /// The grid width.
    pub fn width(&self) -> (r: usize)
        ensures
            r == self.w(),
    {
        self.img.width()
    }

    /// The grid height.
    pub fn height(&self) -> (r: usize)
        ensures
            r == self.h(),
    {
        self.img.height()
    }

    /// How many colors are still to be placed.
    pub fn remaining(&self) -> (r: usize)
        ensures
            r == self.colors_view().len(),
    {
        self.colors.len()
    }

    /// How many cells are colored so far.
    pub fn seen_count(&self) -> (r: usize)
        requires
            self.wf(),
        ensures
            r == count_seen(self.seen_view()),
    {
        let total = self.seen.len();
        proof {
            lemma_count_seen_le_len(self.seen@);
        }
        total - self.colors.len()
    }

    /// Is the cell at `(x, y)` colored yet?
    pub fn is_seen(&self, x: usize, y: usize) -> (r: bool)
        requires
            self.wf(),
            x < self.w(),
            y < self.h(),
        ensures
            r == seen_at(self.seen_view(), self.w(), (x, y)),
    {
        self.seen.get(x, y)
    }

    /// The color currently stored at `(x, y)`; meaningful once the cell is
    /// colored.
    pub fn color_at(&self, x: usize, y: usize) -> (r: Rgb)
        requires
            self.wf(),
            x < self.w(),
            y < self.h(),
        ensures
            r == self.img_view()[cell_index(self.w(), (x, y))],
    {
        self.img.get(x, y)
    }

    /// The frontier cells.
    pub fn frontier(&self) -> (r: &Vec<(usize, usize)>)
        ensures
            r@ == self.frontier_view(),
    {
        &self.free
    }

    /// Hand the color grid over.
    pub fn into_image(self) -> (r: Image<Rgb>)
        requires
            self.wf(),
        ensures
            r.wf(),
            r@ == self.img_view(),
            r.spec_width() == self.w(),
            r.spec_height() == self.h(),
    {
        self.img
    }
}

/// Grow a full image: place every palette color, starting from the seeds.
/// Afterwards every cell holds a color and, taken together, the cells hold
/// exactly the palette's multiset of colors; seed `i` holds the color that
/// stood `i` places from the palette's end.
pub fn generate(colors: Vec<Rgb>, dims: (usize, usize), seeds: Vec<(usize, usize)>) -> (img: Image<
    Rgb,
>)
    requires
        colors@.len() == dims.0 * dims.1,
        seeds@.len() > 0,
        forall|i: int|
            0 <= i < seeds@.len() ==> in_bounds(dims.0 as int, dims.1 as int, #[trigger] seeds@[i]),
        seeds@.no_duplicates(),
    ensures
        img.wf(),
        img.spec_width() == dims.0,
        img.spec_height() == dims.1,
        color_mset(img@) == color_mset(colors@),
        forall|i: int|
            0 <= i < seeds@.len() ==> img@[cell_index(dims.0 as int, #[trigger] seeds@[i])]
                == colors@[colors@.len() - 1 - i],
        forall|j: int| 0 <= j < img@.len() ==> color_mset(colors@).count(#[trigger] img@[j]) > 0,
{
    let ghost palette0 = colors@;
    let ghost w = dims.0 as int;
    let ghost h = dims.1 as int;
    let mut e = Engine::new(colors, dims, &seeds);
    let ghost e0 = e;
    e.run();
    proof {
        assert(count_seen(e.seen_view()) == e.w() * e.h());
        lemma_count_seen_full(e.seen_view());
        lemma_placed_mset_all_seen(e.img_view(), e.seen_view());
        assert(color_mset(e.img_view()) == color_mset(palette0));
        assert forall|i: int| 0 <= i < seeds@.len() implies e.img_view()[cell_index(
            w,
            #[trigger] seeds@[i],
        )] == palette0[palette0.len() - 1 - i] by {
            lemma_cell_index_bounds(w, h, seeds@[i]);
            assert(seen_at(e0.seen_view(), w, seeds@[i]));
        }
        assert forall|j: int| 0 <= j < e.img_view().len() implies color_mset(palette0).count(
            #[trigger] e.img_view()[j],
        ) > 0 by {
            lemma_color_mset_count_pos(e.img_view(), j);
        }
    }
    e.into_image()
}

/// Check the inputs, then grow. `None` comes back exactly when the palette
/// size does not match the grid, no seed is given, a seed is out of bounds,
/// or two seeds coincide; nothing is built in that case.
#[verifier::loop_isolation(false)]
pub fn try_generate(colors: Vec<Rgb>, dims: (usize, usize), seeds: Vec<(usize, usize)>) -> (res:
    Option<Image<Rgb>>)
    ensures
        match res {
            Some(img) => {
                &&& colors@.len() == dims.0 * dims.1
                &&& seeds@.len() > 0
                &&& (forall|i: int|
                    0 <= i < seeds@.len() ==> in_bounds(
                        dims.0 as int,
                        dims.1 as int,
                        #[trigger] seeds@[i],
                    ))
                &&& seeds@.no_duplicates()
                &&& img.wf()
                &&& img.spec_width() == dims.0
                &&& img.spec_height() == dims.1
                &&& color_mset(img@) == color_mset(colors@)
                &&& (forall|i: int|
                    0 <= i < seeds@.len() ==> img@[cell_index(dims.0 as int, #[trigger] seeds@[i])]
                        == colors@[colors@.len() - 1 - i])
            },
            None => !(colors@.len() == dims.0 * dims.1 && seeds@.len() > 0 && (forall|i: int|
                0 <= i < seeds@.len() ==> in_bounds(
                    dims.0 as int,
                    dims.1 as int,
                    #[trigger] seeds@[i],
                )) && seeds@.no_duplicates()),
        },
{
    let n = seeds.len();
    if n == 0 {
        return None;
    }
    let n_colors = colors.len();
    let sized = match dims.0.checked_mul(dims.1) {
        Some(t) => n_colors == t,
        None => false,
    };
    if !sized {
        return None;
    }
    let mut i: usize = 0;
    while i < n
        invariant
            i <= n,
            forall|j: int|
                0 <= j < i ==> in_bounds(dims.0 as int, dims.1 as int, #[trigger] seeds@[j]),
        decreases n - i,
    {
        let s = seeds[i];
        if !(s.0 < dims.0 && s.1 < dims.1) {
            proof {
                assert(!in_bounds(dims.0 as int, dims.1 as int, seeds@[i as int]));
            }
            return None;
        }
        i = i + 1;
    }
    let mut a: usize = 0;
    while a < n
        invariant
            a <= n,
            forall|i2: int, j2: int|
                0 <= i2 < a && i2 < j2 < n ==> #[trigger] seeds@[i2] != #[trigger] seeds@[j2],
        decreases n - a,
    {
        let sa = seeds[a];
        let mut b: usize = a + 1;
        while b < n
            invariant
                a < b <= n,
                forall|j2: int| a < j2 < b ==> seeds@[a as int] != #[trigger] seeds@[j2],
            decreases n - b,
        {
            let sb = seeds[b];
            if sa.0 == sb.0 && sa.1 == sb.1 {
                proof {
                    assert(seeds@[a as int] == seeds@[b as int]);
                    assert(!seeds@.no_duplicates());
                }
                return None;
            }
            b = b + 1;
        }
        a = a + 1;
    }
    proof {
        assert forall|i2: int, j2: int|
            0 <= i2 < seeds@.len() && 0 <= j2 < seeds@.len() && i2 != j2 implies seeds@[i2]
            != seeds@[j2] by {
            if i2 < j2 {
                assert(seeds@[i2] != seeds@[j2]);
            } else {
                assert(seeds@[j2] != seeds@[i2]);
            }
        }
        assert(seeds@.no_duplicates());
    }
    Some(generate(colors, dims, seeds))
}


/// Some best-scoring frontier cell of `pre` received color `c`, and nothing
/// else changed in the grids.
pub open spec fn step_commits(pre: Engine, post: Engine, c: Rgb) -> bool {
    exists|p: (usize, usize)| #[trigger] min_score_choice(pre, p, c) && commits(pre, post, p, c)
}

/// Color `c` was committed at `p`, and nothing else changed in the grids.
pub open spec fn commits(pre: Engine, post: Engine, p: (usize, usize), c: Rgb) -> bool {
    &&& in_bounds(pre.w(), pre.h(), p)
    &&& !seen_at(pre.seen_view(), pre.w(), p)
    &&& post.img_view() == pre.img_view().update(cell_index(pre.w(), p), c)
    &&& post.seen_view() == pre.seen_view().update(cell_index(pre.w(), p), true)
}

/// `p` is a frontier cell of `e` whose score for `c` is least.
pub open spec fn min_score_choice(e: Engine, p: (usize, usize), c: Rgb) -> bool {
    &&& e.frontier_view().contains(p)
    &&& forall|i: int|
        0 <= i < e.frontier_view().len() ==> score_spec(
            e.img_view(),
            e.seen_view(),
            e.w(),
            e.h(),
            p,
            c,
        ) <= score_spec(
            e.img_view(),
            e.seen_view(),
            e.w(),
            e.h(),
            #[trigger] e.frontier_view()[i],
            c,
        )
}

} // verus!
