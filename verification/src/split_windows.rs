//! Sliding windows over a chain of items cut into slices: each slice is a
//! pair `(first, end)` whose items are `first`, `next(first)`, ... up to
//! but not including `end`. For every window of three consecutive items
//! of the slices taken in order, the items before it, in it and after it
//! are each given back as a list of such pairs.
use vstd::prelude::*;
use crate::solution2::steps_to_end;

verus! {

/// The items before, in and after one window, each as a list of slices.
#[derive(Debug, Clone)]
pub struct SlicesSplit {
    /// Slices of the items before the window.
    pub left: Vec<(usize, usize)>,
    /// Slices of the items of the window.
    pub mid: Vec<(usize, usize)>,
    /// Slices of the items after the window.
    pub right: Vec<(usize, usize)>,
}

/// Receives the splits of the windows, one call per window.
pub trait Slices3Handler {
    /// Handles the split of one window.
    fn call(&mut self, split: &SlicesSplit);
}

/// `next` gives at most one result for each item.
pub open spec fn functional<F: Fn(usize) -> usize>(next: F) -> bool {
    forall|x: usize, y1: usize, y2: usize|
        #[trigger] call_ensures(next, (x,), y1) && #[trigger] call_ensures(next, (x,), y2) ==> y1 == y2
}

/// The slice `(first, end)` is a finite chain by `next`.
pub open spec fn slice_ends<F: Fn(usize) -> usize>(next: F, p: (usize, usize)) -> bool {
    exists|xs: Seq<usize>| #[trigger] steps_to_end(next, p.0, p.1, xs)
}

/// The items of the slice `p` (its chain without the end).
pub open spec fn slice_items<F: Fn(usize) -> usize>(next: F, p: (usize, usize)) -> Seq<usize> {
    (choose|xs: Seq<usize>| #[trigger] steps_to_end(next, p.0, p.1, xs)).drop_last()
}

/// The items of a list of slices, one slice after the other.
pub open spec fn items_of<F: Fn(usize) -> usize>(next: F, ps: Seq<(usize, usize)>) -> Seq<usize>
    decreases ps.len(),
{
    if ps.len() == 0 {
        Seq::empty()
    } else {
        items_of(next, ps.drop_last()) + slice_items(next, ps.last())
    }
}

/// With a functional `next`, two chains from one start to one end are the
/// same.
pub proof fn lemma_chain_unique<F: Fn(usize) -> usize>(next: F, a: usize, b: usize, xs: Seq<usize>, ys: Seq<usize>)
    requires
        functional(next),
        steps_to_end(next, a, b, xs),
        steps_to_end(next, a, b, ys),
    ensures
        xs == ys,
{
    assert forall|i: int| 0 <= i < xs.len() && 0 <= i < ys.len() implies xs[i] == ys[i] by {
        lemma_chain_prefix(next, a, b, xs, ys, i);
    }
    if xs.len() < ys.len() {
        let n = xs.len() - 1;
        lemma_chain_prefix(next, a, b, xs, ys, n);
        assert(ys[n] == b);
    } else if ys.len() < xs.len() {
        let n = ys.len() - 1;
        lemma_chain_prefix(next, a, b, xs, ys, n);
        assert(xs[n] == b);
    }
    assert(xs =~= ys);
}

proof fn lemma_chain_prefix<F: Fn(usize) -> usize>(next: F, a: usize, b: usize, xs: Seq<usize>, ys: Seq<usize>, i: int)
    requires
        functional(next),
        steps_to_end(next, a, b, xs),
        steps_to_end(next, a, b, ys),
        0 <= i < xs.len(),
        i < ys.len(),
    ensures
        xs[i] == ys[i],
    decreases i,
{
    if i > 0 {
        lemma_chain_prefix(next, a, b, xs, ys, i - 1);
        assert(call_ensures(next, (xs[i - 1],), xs[i]));
        assert(call_ensures(next, (ys[i - 1],), ys[i]));
    }
}

/// In a chain, items `s` steps after equal items are equal.
proof fn lemma_chain_shift<F: Fn(usize) -> usize>(next: F, a: usize, b: usize, xs: Seq<usize>, t: int, u: int, s: int)
    requires
        functional(next),
        steps_to_end(next, a, b, xs),
        0 <= t < u,
        0 <= s,
        u + s < xs.len(),
        xs[t] == xs[u],
    ensures
        xs[t + s] == xs[u + s],
    decreases s,
{
    if s > 0 {
        lemma_chain_shift(next, a, b, xs, t, u, s - 1);
        assert(call_ensures(next, (xs[t + s - 1],), xs[t + s]));
        assert(call_ensures(next, (xs[u + s - 1],), xs[u + s]));
    }
}

/// The items of a chain are distinct.
proof fn lemma_chain_distinct<F: Fn(usize) -> usize>(next: F, a: usize, b: usize, xs: Seq<usize>, t: int, u: int)
    requires
        functional(next),
        steps_to_end(next, a, b, xs),
        0 <= t < u < xs.len(),
    ensures
        xs[t] != xs[u],
{
    if xs[t] == xs[u] {
        let n = xs.len() - 1;
        lemma_chain_shift(next, a, b, xs, t, u, n - u);
        assert(xs[t + n - u] == b);
    }
}

/// A piece `lo..=hi` of a chain is a chain from its first to its last item,
/// and its items are what `slice_items` gives for them.
proof fn lemma_sub_chain<F: Fn(usize) -> usize>(next: F, a: usize, b: usize, xs: Seq<usize>, lo: int, hi: int)
    requires
        functional(next),
        steps_to_end(next, a, b, xs),
        0 <= lo <= hi < xs.len(),
    ensures
        steps_to_end(next, xs[lo], xs[hi], xs.subrange(lo, hi + 1)),
        slice_items(next, (xs[lo], xs[hi])) == xs.subrange(lo, hi),
{
    let ys = xs.subrange(lo, hi + 1);
    assert forall|i: int| 0 <= i < ys.len() - 1 implies #[trigger] ys[i] != xs[hi] by {
        lemma_chain_distinct(next, a, b, xs, lo + i, hi);
    }
    assert forall|i: int| 0 <= i < ys.len() - 1 implies call_ensures(next, (#[trigger] ys[i],), ys[i + 1]) by {
        assert(ys[i] == xs[lo + i]);
        assert(ys[i + 1] == xs[lo + i + 1]);
    }
    assert(steps_to_end(next, xs[lo], xs[hi], ys));
    let zs = choose|zs: Seq<usize>| #[trigger] steps_to_end(next, xs[lo], xs[hi], zs);
    lemma_chain_unique(next, xs[lo], xs[hi], ys, zs);
    assert(ys.drop_last() =~= xs.subrange(lo, hi));
}

/// Walks the slice `p` by `next`: its chain, end included.
fn walk_slice<F: Fn(usize) -> usize>(next: &F, p: (usize, usize)) -> (r: Vec<usize>)
    requires
        functional(*next),
        forall|x: usize| #[trigger] call_requires(*next, (x,)),
        slice_ends(*next, p),
    ensures
        steps_to_end(*next, p.0, p.1, r@),
{
    let ghost xs = choose|xs: Seq<usize>| #[trigger] steps_to_end(*next, p.0, p.1, xs);
    let mut chain: Vec<usize> = Vec::new();
    let mut cur = p.0;
    let ghost mut i: int = 0;
    while cur != p.1
        invariant
            functional(*next),
            forall|x: usize| #[trigger] call_requires(*next, (x,)),
            steps_to_end(*next, p.0, p.1, xs),
            0 <= i < xs.len(),
            cur == xs[i],
            chain@ == xs.take(i),
        decreases xs.len() - i,
    {
        chain.push(cur);
        assert(i < xs.len() - 1);
        let nx = next(cur);
        proof {
            assert(call_ensures(*next, (xs[i],), xs[i + 1]));
            assert(chain@ =~= xs.take(i + 1));
            i = i + 1;
        }
        cur = nx;
    }
    chain.push(cur);
    proof {
        assert(i == xs.len() - 1) by {
            if i < xs.len() - 1 {
                assert(xs[i] != p.1);
            }
        }
        assert(chain@ =~= xs);
    }
    chain
}

/// The items of the first `j` chains (each without its end), one chain
/// after the other.
pub open spec fn flat(cs: Seq<Seq<usize>>, j: int) -> Seq<usize>
    decreases j,
{
    if j <= 0 {
        Seq::empty()
    } else {
        flat(cs, j - 1) + cs[j - 1].drop_last()
    }
}

proof fn lemma_flat_prefix(cs: Seq<Seq<usize>>, j: int, k: int)
    requires
        0 <= j <= k,
        forall|i: int| 0 <= i < cs.len() ==> cs[i].len() >= 1,
        k <= cs.len(),
    ensures
        flat(cs, k).len() >= flat(cs, j).len(),
        flat(cs, k).take(flat(cs, j).len() as int) == flat(cs, j),
    decreases k - j,
{
    if j < k {
        lemma_flat_prefix(cs, j, k - 1);
        let f = flat(cs, k - 1);
        assert(flat(cs, k) == f + cs[k - 1].drop_last());
        assert((f + cs[k - 1].drop_last()).take(flat(cs, j).len() as int) =~= f.take(flat(cs, j).len() as int));
    } else {
        assert(flat(cs, k).take(flat(cs, j).len() as int) =~= flat(cs, j));
    }
}

/// Within chain `j`, a range of the flat items is a range of that chain.
proof fn lemma_flat_range(cs: Seq<Seq<usize>>, j: int, lo: int, hi: int)
    requires
        0 <= j < cs.len(),
        forall|i: int| 0 <= i < cs.len() ==> cs[i].len() >= 1,
        flat(cs, j).len() <= lo <= hi <= flat(cs, j + 1).len(),
    ensures
        flat(cs, cs.len() as int).subrange(lo, hi) == cs[j].drop_last().subrange(
            lo - flat(cs, j).len(),
            hi - flat(cs, j).len(),
        ),
{
    lemma_flat_prefix(cs, j + 1, cs.len() as int);
    let all = flat(cs, cs.len() as int);
    let o = flat(cs, j).len() as int;
    let f1 = flat(cs, j + 1);
    assert(f1 == flat(cs, j) + cs[j].drop_last());
    assert forall|t: int| 0 <= t < hi - lo implies #[trigger] all.subrange(lo, hi)[t] == cs[j].drop_last().subrange(
        lo - o,
        hi - o,
    )[t] by {
        assert(all[lo + t] == all.take(f1.len() as int)[lo + t]);
        assert(f1[lo + t] == cs[j].drop_last()[lo + t - o]);
    }
    assert(all.subrange(lo, hi) =~= cs[j].drop_last().subrange(lo - o, hi - o));
}

/// The slices of the flat items `a..b` of the chains `cs` (chain `j`
/// starting at flat position `offs[j]`): the part of each chain in the
/// range, where not empty.
fn range_slices<F: Fn(usize) -> usize>(
    next: &F,
    cs: &Vec<Vec<usize>>,
    offs: &Vec<usize>,
    a: usize,
    b: usize,
) -> (r: Vec<(usize, usize)>)
    requires
        functional(*next),
        cs@.len() == 4,
        offs@.len() == 5,
        forall|j: int| 0 <= j < 4 ==> steps_to_end(*next, cs@[j]@[0], cs@[j]@.last(), #[trigger] cs@[j]@),
        forall|j: int| 0 <= j <= 4 ==> #[trigger] offs@[j] == flat(cs@.map_values(|c: Vec<usize>| c@), j).len(),
        a <= b <= offs@[4],
    ensures
        items_of(*next, r@) == flat(cs@.map_values(|c: Vec<usize>| c@), 4).subrange(a as int, b as int),
{
    let ghost css = cs@.map_values(|c: Vec<usize>| c@);
    let ghost all = flat(css, 4);
    let mut list: Vec<(usize, usize)> = Vec::new();
    let mut j: usize = 0;
    proof {
        assert(items_of(*next, list@) =~= all.subrange(a as int, a as int));
    }
    while j < 4
        invariant
            functional(*next),
            cs@.len() == 4,
            offs@.len() == 5,
            css == cs@.map_values(|c: Vec<usize>| c@),
            all == flat(css, 4),
            forall|j: int| 0 <= j < 4 ==> steps_to_end(*next, cs@[j]@[0], cs@[j]@.last(), #[trigger] cs@[j]@),
            forall|j: int| 0 <= j <= 4 ==> #[trigger] offs@[j] == flat(css, j).len(),
            a <= b <= offs@[4],
            0 <= j <= 4,
            ({
                let c = if b < offs@[j as int] { b as int } else { offs@[j as int] as int };
                let c2 = if c < a { a as int } else { c };
                items_of(*next, list@) == all.subrange(a as int, c2)
            }),
        decreases 4 - j,
    {
        let chain = &cs[j];
        proof {
            assert(forall|i: int| 0 <= i < css.len() ==> css[i].len() >= 1) by {
                assert forall|i: int| 0 <= i < css.len() implies css[i].len() >= 1 by {
                    assert(css[i] == cs@[i]@);
                    assert(steps_to_end(*next, cs@[i]@[0], cs@[i]@.last(), cs@[i]@));
                }
            }
            lemma_flat_prefix(css, j as int, j as int + 1);
            assert(css[j as int] == chain@);
            assert(flat(css, j as int + 1) == flat(css, j as int) + chain@.drop_last());
            assert(offs@[j as int + 1] == offs@[j as int] + chain@.len() - 1);
        }
        let off = offs[j];
        let end = offs[j + 1];
        let lo = if a < off { off } else { a };
        let hi = if b < end { b } else { end };
        let ghost before = list@;
        if lo < hi {
            let p = (chain[lo - off], chain[hi - off]);
            list.push(p);
            proof {
                assert(steps_to_end(*next, cs@[j as int]@[0], cs@[j as int]@.last(), cs@[j as int]@));
                lemma_portion(*next, css, j as int, chain@, lo as int, hi as int, a as int);
                assert(list@.drop_last() =~= before);
            }
        }
        j = j + 1;
    }
    proof {
        assert(all.subrange(a as int, b as int) == items_of(*next, list@));
    }
    list
}

/// For every window of three consecutive items of the four slices taken in
/// order, the slices of the items before it, in it and after it (in that
/// order of windows). Fewer than three items give no window.
pub fn split_windows_4<F: Fn(usize) -> usize>(next: F, slices: [(usize, usize); 4]) -> (r: Vec<SlicesSplit>)
    requires
        functional(next),
        forall|x: usize| #[trigger] call_requires(next, (x,)),
        forall|j: int| 0 <= j < 4 ==> slice_ends(next, #[trigger] slices@[j]),
        items_of(next, slices@).len() < usize::MAX,
    ensures
        ({
            let s = items_of(next, slices@);
            &&& r@.len() == if s.len() >= 3 { s.len() - 2 } else { 0 }
            &&& forall|k: int|
                0 <= k < r@.len() ==> {
                    &&& items_of(next, (#[trigger] r@[k]).left@) == s.subrange(0, k)
                    &&& items_of(next, r@[k].mid@) == s.subrange(k, k + 3)
                    &&& items_of(next, r@[k].right@) == s.subrange(k + 3, s.len() as int)
                }
        }),
{
    let mut cs: Vec<Vec<usize>> = Vec::new();
    let mut offs: Vec<usize> = Vec::new();
    offs.push(0);
    let mut total: usize = 0;
    let mut j: usize = 0;
    let ghost mut gcs: Seq<Seq<usize>> = Seq::empty();
    proof {
        assert(slices@.take(0) =~= Seq::<(usize, usize)>::empty());
    }
    while j < 4
        invariant
            functional(next),
            forall|x: usize| #[trigger] call_requires(next, (x,)),
            forall|j: int| 0 <= j < 4 ==> slice_ends(next, #[trigger] slices@[j]),
            items_of(next, slices@).len() < usize::MAX,
            0 <= j <= 4,
            cs@.len() == j,
            gcs.len() == j,
            offs@.len() == j + 1,
            forall|i: int| 0 <= i < j ==> (#[trigger] cs@[i])@ == gcs[i],
            forall|i: int| 0 <= i < j ==> steps_to_end(next, gcs[i][0], gcs[i].last(), #[trigger] gcs[i]),
            forall|i: int| 0 <= i <= j ==> #[trigger] offs@[i] == flat(gcs, i).len(),
            flat(gcs, j as int) == items_of(next, slices@.take(j as int)),
            total == offs@[j as int],
        decreases 4 - j,
    {
        let chain = walk_slice(&next, slices[j]);
        proof {
            lemma_step(next, slices@, gcs, chain@, j as int);
        }
        let len = chain.len() - 1;
        total = total + len;
        let ghost cs0 = cs@;
        cs.push(chain);
        offs.push(total);
        proof {
            let g0 = gcs;
            gcs = gcs.push(chain@);
            assert forall|i: int| 0 <= i < j + 1 implies (#[trigger] cs@[i])@ == gcs[i] by {
                if i < j {
                    assert(cs@[i] == cs0[i]);
                }
            }
            assert forall|i: int| 0 <= i < j + 1 implies steps_to_end(next, gcs[i][0], gcs[i].last(), #[trigger] gcs[i]) by {
                if i < j {
                    assert(gcs[i] == g0[i]);
                }
            }
            assert forall|i: int| 0 <= i <= j + 1 implies #[trigger] offs@[i] == flat(gcs, i).len() by {
                if i <= j {
                    assert(flat(gcs, i) == flat(g0, i));
                }
            }
        }
        j = j + 1;
    }
    proof {
        assert(slices@.take(4) =~= slices@);
        assert(cs@.map_values(|c: Vec<usize>| c@) =~= gcs);
    }
    let ghost css = cs@.map_values(|c: Vec<usize>| c@);
    let ghost s = items_of(next, slices@);
    proof {
        assert(slices@.take(4) =~= slices@);
    }
    let mut r: Vec<SlicesSplit> = Vec::new();
    if total < 3 {
        return r;
    }
    let count = total - 2;
    let mut k: usize = 0;
    while k < count
        invariant
            functional(next),
            cs@.len() == 4,
            offs@.len() == 5,
            css == cs@.map_values(|c: Vec<usize>| c@),
            s == flat(css, 4),
            forall|j: int| 0 <= j < 4 ==> steps_to_end(next, cs@[j]@[0], cs@[j]@.last(), #[trigger] cs@[j]@),
            forall|j: int| 0 <= j <= 4 ==> #[trigger] offs@[j] == flat(css, j).len(),
            total == offs@[4],
            total == s.len(),
            count == total - 2,
            0 <= k <= count,
            r@.len() == k,
            forall|q: int|
                0 <= q < k ==> {
                    &&& items_of(next, (#[trigger] r@[q]).left@) == s.subrange(0, q)
                    &&& items_of(next, r@[q].mid@) == s.subrange(q, q + 3)
                    &&& items_of(next, r@[q].right@) == s.subrange(q + 3, s.len() as int)
                },
        decreases count - k,
    {
        let left = range_slices(&next, &cs, &offs, 0, k);
        let mid = range_slices(&next, &cs, &offs, k, k + 3);
        let right = range_slices(&next, &cs, &offs, k + 3, total);
        r.push(SlicesSplit { left, mid, right });
        k = k + 1;
    }
    r
}

/// Hands the split of every window of three items of the four slices to
/// `h`, in order (see `split_windows_4`).
pub fn split_windows_4_to<H: Slices3Handler, F: Fn(usize) -> usize>(h: &mut H, next: F, slices: [(usize, usize); 4])
    requires
        functional(next),
        forall|x: usize| #[trigger] call_requires(next, (x,)),
        forall|j: int| 0 <= j < 4 ==> slice_ends(next, #[trigger] slices@[j]),
        items_of(next, slices@).len() < usize::MAX,
{
    let windows = split_windows_4(next, slices);
    let mut k: usize = 0;
    while k < windows.len()
        decreases windows.len() - k,
    {
        h.call(&windows[k]);
        k = k + 1;
    }
}

/// The items of a prefix of a list of slices are a prefix of its items.
proof fn lemma_items_prefix_len<F: Fn(usize) -> usize>(next: F, ps: Seq<(usize, usize)>, j: int)
    requires
        0 <= j <= ps.len(),
    ensures
        items_of(next, ps.take(j)).len() <= items_of(next, ps).len(),
    decreases ps.len() - j,
{
    if j < ps.len() {
        lemma_items_prefix_len(next, ps, j + 1);
        assert(ps.take(j + 1).drop_last() =~= ps.take(j));
    } else {
        assert(ps.take(j) =~= ps);
    }
}

/// `flat` of the first `i` chains depends on those chains only.
proof fn lemma_flat_same(a: Seq<Seq<usize>>, b: Seq<Seq<usize>>, i: int)
    requires
        0 <= i <= b.len() <= a.len(),
        forall|t: int| 0 <= t < b.len() ==> a[t] == b[t],
    ensures
        flat(a, i) == flat(b, i),
    decreases i,
{
    if i > 0 {
        lemma_flat_same(a, b, i - 1);
    }
}

/// Adding the chain of slice `j` to the chains of the slices before it.
proof fn lemma_step<F: Fn(usize) -> usize>(next: F, slices: Seq<(usize, usize)>, gcs: Seq<Seq<usize>>, c: Seq<usize>, j: int)
    requires
        functional(next),
        0 <= j < slices.len(),
        gcs.len() == j,
        steps_to_end(next, slices[j].0, slices[j].1, c),
        flat(gcs, j) == items_of(next, slices.take(j)),
    ensures
        flat(gcs.push(c), j + 1) == items_of(next, slices.take(j + 1)),
        forall|i: int| 0 <= i <= j ==> #[trigger] flat(gcs.push(c), i) == flat(gcs, i),
        items_of(next, slices.take(j + 1)).len() <= items_of(next, slices).len(),
        c.len() >= 1,
        flat(gcs.push(c), j + 1) == flat(gcs, j) + c.drop_last(),
{
    lemma_sub_chain(next, slices[j].0, slices[j].1, c, 0, c.len() - 1);
    assert(c[0] == slices[j].0);
    assert(c[c.len() - 1] == slices[j].1);
    assert(c.subrange(0, c.len() - 1) =~= c.drop_last());
    assert(slice_items(next, slices[j]) == c.drop_last());
    assert(slices.take(j + 1).drop_last() =~= slices.take(j));
    assert(slices.take(j + 1).last() == slices[j]);
    assert(items_of(next, slices.take(j + 1)) == items_of(next, slices.take(j)) + slice_items(next, slices[j]));
    lemma_items_prefix_len(next, slices, j + 1);
    assert forall|i: int| 0 <= i <= j implies #[trigger] flat(gcs.push(c), i) == flat(gcs, i) by {
        lemma_flat_same(gcs.push(c), gcs, i);
    }
    assert(gcs.push(c)[j] == c);
    assert(flat(gcs.push(c), j + 1) == flat(gcs.push(c), j) + c.drop_last());
}

/// The slice of the part `lo..hi` of chain `j` (in flat positions) has
/// the flat items `lo..hi`, and follows those from `a` to `lo`.
proof fn lemma_portion<F: Fn(usize) -> usize>(next: F, css: Seq<Seq<usize>>, j: int, c: Seq<usize>, lo: int, hi: int, a: int)
    requires
        functional(next),
        0 <= j < css.len(),
        forall|i: int| 0 <= i < css.len() ==> css[i].len() >= 1,
        css[j] == c,
        steps_to_end(next, c[0], c.last(), c),
        flat(css, j).len() <= lo < hi <= flat(css, j + 1).len(),
        flat(css, j + 1) == flat(css, j) + c.drop_last(),
        0 <= a <= lo,
    ensures
        ({
            let o = flat(css, j).len() as int;
            let all = flat(css, css.len() as int);
            &&& slice_items(next, (c[lo - o], c[hi - o])) == all.subrange(lo, hi)
            &&& all.subrange(a, lo) + all.subrange(lo, hi) == all.subrange(a, hi)
        }),
{
    let o = flat(css, j).len() as int;
    let all = flat(css, css.len() as int);
    lemma_sub_chain(next, c[0], c.last(), c, lo - o, hi - o);
    assert(c.subrange(lo - o, hi - o) =~= c.drop_last().subrange(lo - o, hi - o));
    lemma_flat_range(css, j, lo, hi);
    lemma_flat_prefix(css, j + 1, css.len() as int);
    assert(all.subrange(a, lo) + all.subrange(lo, hi) =~= all.subrange(a, hi));
}

} // verus!
