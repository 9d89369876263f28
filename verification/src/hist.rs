use vstd::prelude::*;
use crate::cv::tally;
use crate::engine::sum_all;
use crate::random_effects::count_equal;

verus! {

/// Split of a histogram-tree node on one binned feature.
#[derive(Debug, Clone)]
pub enum BinSplit {
    /// The observations in bins up to and including this bin go left.
    UpTo(u8),
    /// The observations in the listed category bins go left.
    Categories(Vec<u8>),
}

impl BinSplit {
    /// Whether an observation in bin `bin` goes to the left child.
    pub open spec fn sends_left(&self, bin: u8) -> bool {
        match self {
            BinSplit::UpTo(b) => bin <= *b,
            BinSplit::Categories(c) => c@.contains(bin),
        }
    }

    /// Whether an observation in bin `bin` goes to the left child.
    pub fn goes_left(&self, bin: u8) -> (r: bool)
        ensures
            r == self.sends_left(bin),
    {
        match self {
            BinSplit::UpTo(b) => bin <= *b,
            BinSplit::Categories(c) => {
                let mut k: usize = 0;
                while k < c.len()
                    invariant
                        k <= c@.len(),
                        self.sends_left(bin) == c@.contains(bin),
                        forall|j: int| 0 <= j < k ==> c@[j] != bin,
                    decreases c@.len() - k,
                {
                    if c[k] == bin {
                        assert(c@[k as int] == bin);
                        return true;
                    }
                    k = k + 1;
                }
                false
            },
        }
    }
}

/// A bin-threshold split sends a bin left exactly when the bin is at most
/// the threshold; a categorical split exactly when the bin is one of the
/// listed categories.
pub proof fn law_split_direction(split: BinSplit, bin: u8)
    ensures
        split matches BinSplit::UpTo(b) ==> (split.sends_left(bin) <==> bin <= b),
        split matches BinSplit::Categories(c) ==> (split.sends_left(bin) <==> exists|k: int| 0 <= k < c@.len() && c@[k] == bin),
{
}

/// The rows of `rows`, in their order, whose bin goes left under `split`.
pub open spec fn left_rows(rows: Seq<usize>, bins: Seq<u8>, split: BinSplit) -> Seq<usize> {
    rows.filter(|i: usize| split.sends_left(bins[i as int]))
}

/// The rows of `rows`, in their order, whose bin goes right under `split`.
pub open spec fn right_rows(rows: Seq<usize>, bins: Seq<u8>, split: BinSplit) -> Seq<usize> {
    rows.filter(|i: usize| !split.sends_left(bins[i as int]))
}

/// Filtering a prefix one element longer adds that element when it passes.
proof fn lemma_filter_take<A>(s: Seq<A>, p: spec_fn(A) -> bool, t: int)
    requires
        0 <= t < s.len(),
    ensures
        s.take(t + 1).filter(p) == (if p(s[t]) { s.take(t).filter(p).push(s[t]) } else { s.take(t).filter(p) }),
{
    reveal(Seq::filter);
    assert(s.take(t + 1).drop_last() =~= s.take(t));
}

/// The observations `rows` of a node split into those that go left and those
/// that go right, each in the order of `rows`; `bins[i]` is the bin of
/// observation `i`.
pub fn split_rows(rows: &Vec<usize>, bins: &Vec<u8>, split: &BinSplit) -> (r: (Vec<usize>, Vec<usize>))
    requires
        forall|k: int| 0 <= k < rows@.len() ==> #[trigger] rows@[k] < bins@.len(),
    ensures
        r.0@ == left_rows(rows@, bins@, *split),
        r.1@ == right_rows(rows@, bins@, *split),
{
    let ghost pl = |i: usize| split.sends_left(bins@[i as int]);
    let ghost pr = |i: usize| !split.sends_left(bins@[i as int]);
    let mut left: Vec<usize> = Vec::new();
    let mut right: Vec<usize> = Vec::new();
    let mut t: usize = 0;
    while t < rows.len()
        invariant
            t <= rows@.len(),
            forall|k: int| 0 <= k < rows@.len() ==> #[trigger] rows@[k] < bins@.len(),
            pl == (|i: usize| split.sends_left(bins@[i as int])),
            pr == (|i: usize| !split.sends_left(bins@[i as int])),
            left@ == rows@.take(t as int).filter(pl),
            right@ == rows@.take(t as int).filter(pr),
        decreases rows@.len() - t,
    {
        let i = rows[t];
        proof {
            lemma_filter_take(rows@, pl, t as int);
            lemma_filter_take(rows@, pr, t as int);
        }
        if split.goes_left(bins[i]) {
            left.push(i);
        } else {
            right.push(i);
        }
        t = t + 1;
    }
    assert(rows@.take(rows@.len() as int) =~= rows@);
    (left, right)
}

/// Every row of a node goes to exactly one child: the children's sizes add
/// up to the node's, a row is in the left child exactly when its bin goes
/// left, and in the right child exactly when it does not.
pub proof fn law_split_rows_partition(rows: Seq<usize>, bins: Seq<u8>, split: BinSplit)
    ensures
        left_rows(rows, bins, split).len() + right_rows(rows, bins, split).len() == rows.len(),
        forall|k: int| 0 <= k < rows.len() ==> (left_rows(rows, bins, split).contains(#[trigger] rows[k])
            <==> split.sends_left(bins[rows[k] as int])),
        forall|k: int| 0 <= k < rows.len() ==> (right_rows(rows, bins, split).contains(#[trigger] rows[k])
            <==> !split.sends_left(bins[rows[k] as int])),
    decreases rows.len(),
{
    let pl = |i: usize| split.sends_left(bins[i as int]);
    let pr = |i: usize| !split.sends_left(bins[i as int]);
    broadcast use vstd::seq_lib::group_filter_ensures;
    if rows.len() > 0 {
        law_split_rows_partition(rows.drop_last(), bins, split);
        reveal(Seq::filter);
        assert(rows.filter(pl) == (if pl(rows.last()) { rows.drop_last().filter(pl).push(rows.last()) } else { rows.drop_last().filter(pl) }));
        assert(rows.filter(pr) == (if pr(rows.last()) { rows.drop_last().filter(pr).push(rows.last()) } else { rows.drop_last().filter(pr) }));
    } else {
        reveal(Seq::filter);
    }
    assert forall|k: int| 0 <= k < rows.len() implies (left_rows(rows, bins, split).contains(#[trigger] rows[k])
        <==> split.sends_left(bins[rows[k] as int])) by {
        if rows.filter(pl).contains(rows[k]) {
            let j = choose|j: int| 0 <= j < rows.filter(pl).len() && rows.filter(pl)[j] == rows[k];
            assert(pl(rows.filter(pl)[j]));
        }
        if pl(rows[k]) {
            assert(rows.filter(pl).contains(rows[k]));
        }
    }
    assert forall|k: int| 0 <= k < rows.len() implies (right_rows(rows, bins, split).contains(#[trigger] rows[k])
        <==> !split.sends_left(bins[rows[k] as int])) by {
        if rows.filter(pr).contains(rows[k]) {
            let j = choose|j: int| 0 <= j < rows.filter(pr).len() && rows.filter(pr)[j] == rows[k];
            assert(pr(rows.filter(pr)[j]));
        }
        if pr(rows[k]) {
            assert(rows.filter(pr).contains(rows[k]));
        }
    }
}

/// The bins of the observations `rows`, in the order of `rows`.
pub open spec fn row_bins(rows: Seq<usize>, bins: Seq<u8>) -> Seq<usize> {
    rows.map_values(|i: usize| bins[i as int] as usize)
}

/// How many of the observations `rows` fall in each of the bins `0..slots`;
/// `bins[i]` is the bin of observation `i`.
pub fn bin_counts(rows: &Vec<usize>, bins: &Vec<u8>, slots: usize) -> (c: Vec<usize>)
    requires
        forall|k: int| 0 <= k < rows@.len() ==> #[trigger] rows@[k] < bins@.len(),
        forall|k: int| 0 <= k < rows@.len() ==> #[trigger] bins@[rows@[k] as int] < slots,
    ensures
        c@.len() == slots,
        forall|b: int| 0 <= b < slots ==> #[trigger] c@[b] == count_equal(row_bins(rows@, bins@), b),
        sum_all(c@) == rows@.len(),
{
    let mut rb: Vec<usize> = Vec::new();
    let mut t: usize = 0;
    while t < rows.len()
        invariant
            t <= rows@.len(),
            forall|k: int| 0 <= k < rows@.len() ==> #[trigger] rows@[k] < bins@.len(),
            forall|k: int| 0 <= k < rows@.len() ==> #[trigger] bins@[rows@[k] as int] < slots,
            rb@.len() == t,
            forall|k: int| 0 <= k < t ==> #[trigger] rb@[k] == bins@[rows@[k] as int] as usize,
        decreases rows@.len() - t,
    {
        let i = rows[t];
        let b: usize = bins[i] as usize;
        rb.push(b);
        t = t + 1;
    }
    assert(rb@ =~= row_bins(rows@, bins@));
    assert forall|k: int| 0 <= k < rb@.len() implies #[trigger] rb@[k] < slots by {
        assert(bins@[rows@[k] as int] < slots);
    }
    tally(slots, &rb)
}

/// The bins among `0..used` that hold at least one observation by `counts`,
/// in increasing order.
pub open spec fn occupied(counts: Seq<usize>, used: nat) -> Seq<u8> {
    Seq::new(used, |b: int| b as u8).filter(|b: u8| counts[b as int] > 0)
}

/// The bins among `0..used` whose count is positive, in increasing order:
/// the categories that a categorical split can put on either side.
pub fn occupied_bins(counts: &Vec<usize>, used: usize) -> (r: Vec<u8>)
    requires
        used <= counts@.len(),
        used <= 256,
    ensures
        r@ == occupied(counts@, used as nat),
        forall|b: int| 0 <= b < used ==> (r@.contains(b as u8) <==> counts@[b] > 0),
        forall|k: int| 0 <= k < r@.len() ==> r@[k] < used,
        forall|i: int, j: int| 0 <= i < j < r@.len() ==> r@[i] < r@[j],
{
    proof {
        law_occupied_bins(counts@, used as nat);
    }
    let ghost all = Seq::new(used as nat, |b: int| b as u8);
    let ghost p = |b: u8| counts@[b as int] > 0;
    let mut r: Vec<u8> = Vec::new();
    let mut b: usize = 0;
    while b < used
        invariant
            b <= used <= 256,
            used <= counts@.len(),
            all == Seq::new(used as nat, |b: int| b as u8),
            p == (|b: u8| counts@[b as int] > 0),
            r@ == all.take(b as int).filter(p),
        decreases used - b,
    {
        proof {
            lemma_filter_take(all, p, b as int);
        }
        let x: u8 = b as u8;
        assert(all[b as int] == x);
        if counts[b] > 0 {
            r.push(x);
        }
        b = b + 1;
    }
    assert(all.take(used as int) =~= all);
    r
}

/// A bin below `used` is listed exactly when its count is positive, every
/// listed bin is below `used`, and the bins are listed in strictly
/// increasing order (so each at most once).
pub proof fn law_occupied_bins(counts: Seq<usize>, used: nat)
    requires
        used <= 256,
        used <= counts.len(),
    ensures
        forall|b: int| 0 <= b < used ==> (occupied(counts, used).contains(b as u8) <==> counts[b] > 0),
        forall|k: int| 0 <= k < occupied(counts, used).len() ==> occupied(counts, used)[k] < used,
        forall|i: int, j: int| 0 <= i < j < occupied(counts, used).len() ==> occupied(counts, used)[i] < occupied(counts, used)[j],
    decreases used,
{
    let p = |b: u8| counts[b as int] > 0;
    let o = occupied(counts, used);
    if used == 0 {
        reveal(Seq::filter);
        assert(Seq::new(0, |b: int| b as u8) =~= Seq::<u8>::empty());
        assert(o.len() == 0);
    } else {
        let u = (used - 1) as nat;
        law_occupied_bins(counts, u);
        let prev = occupied(counts, u);
        let all = Seq::new(used, |b: int| b as u8);
        assert(all.drop_last() =~= Seq::new(u, |b: int| b as u8));
        let x = all.last();
        assert(x == u as u8);
        assert(x as int == u);
        reveal(Seq::filter);
        assert(o == (if p(x) { prev.push(x) } else { prev }));
        assert forall|b: int| 0 <= b < used implies (o.contains(b as u8) <==> counts[b] > 0) by {
            if b < u {
                assert((b as u8) as int == b);
                if o.contains(b as u8) {
                    let k = choose|k: int| 0 <= k < o.len() && o[k] == b as u8;
                    if k < prev.len() {
                        assert(prev.contains(b as u8));
                    } else {
                        assert(o[k] == x);
                    }
                }
                if prev.contains(b as u8) {
                    let k = choose|k: int| 0 <= k < prev.len() && prev[k] == b as u8;
                    assert(o[k] == b as u8);
                }
            } else {
                assert(b == u);
                if p(x) {
                    assert(o[o.len() - 1] == x);
                } else if o.contains(b as u8) {
                    let k = choose|k: int| 0 <= k < o.len() && o[k] == b as u8;
                    assert(prev[k] < u);
                }
            }
        }
    }
}

/// Sum of the counts in `rb` of the bins `0..=b`.
pub open spec fn count_up_to(rb: Seq<usize>, b: int) -> int
    decreases b + 1,
{
    if b < 0 {
        0
    } else {
        count_up_to(rb, b - 1) + count_equal(rb, b)
    }
}

/// Sum of the counts in `rb` of the bins listed in `c`.
pub open spec fn count_listed(rb: Seq<usize>, c: Seq<u8>) -> int
    decreases c.len(),
{
    if c.len() == 0 {
        0
    } else {
        count_listed(rb, c.drop_last()) + count_equal(rb, c.last() as int)
    }
}

/// The number of observations that a split sends left, read off the bin
/// counts `rb` of the node: the counts of the bins up to the split bin, or
/// of the listed category bins.
pub open spec fn left_count(rb: Seq<usize>, split: BinSplit) -> int {
    match split {
        BinSplit::UpTo(b) => count_up_to(rb, b as int),
        BinSplit::Categories(c) => count_listed(rb, c@),
    }
}

/// One more observation in bin `y` raises the count of bin `y` by one.
proof fn lemma_count_equal_push(s: Seq<usize>, y: usize, v: int)
    ensures
        count_equal(s.push(y), v) == count_equal(s, v) + (if y == v { 1int } else { 0int }),
{
    assert(s.push(y).drop_last() =~= s);
}

/// One more observation in bin `y` raises `count_up_to` by one when `y <= b`.
proof fn lemma_count_up_to_push(s: Seq<usize>, y: usize, b: int)
    ensures
        count_up_to(s.push(y), b) == count_up_to(s, b) + (if 0 <= y <= b { 1int } else { 0int }),
    decreases b + 1,
{
    if b >= 0 {
        lemma_count_up_to_push(s, y, b - 1);
        lemma_count_equal_push(s, y, b);
    }
}

/// One more observation in bin `y` raises `count_listed` by one when `y` is
/// listed (once).
proof fn lemma_count_listed_push(s: Seq<usize>, y: u8, c: Seq<u8>)
    requires
        c.no_duplicates(),
    ensures
        count_listed(s.push(y as usize), c) == count_listed(s, c) + (if c.contains(y) { 1int } else { 0int }),
    decreases c.len(),
{
    if c.len() > 0 {
        let d = c.drop_last();
        assert(d.no_duplicates());
        lemma_count_listed_push(s, y, d);
        lemma_count_equal_push(s, y as usize, c.last() as int);
        if c.contains(y) {
            let k = choose|k: int| 0 <= k < c.len() && c[k] == y;
            if k < c.len() - 1 {
                assert(d[k] == y);
                assert(c.last() != y);
            }
        }
        if d.contains(y) {
            let k = choose|k: int| 0 <= k < d.len() && d[k] == y;
            assert(c[k] == y);
        }
        if c.last() == y {
            assert(c[c.len() - 1] == y);
        }
    }
}

/// The size of the left child equals the sum of the node's bin counts over
/// the bins that go left; for a categorical split the listed bins must be
/// distinct.
pub proof fn law_left_size_from_counts(rows: Seq<usize>, bins: Seq<u8>, split: BinSplit)
    requires
        forall|k: int| 0 <= k < rows.len() ==> #[trigger] rows[k] < bins.len(),
        split matches BinSplit::Categories(c) ==> c@.no_duplicates(),
    ensures
        left_rows(rows, bins, split).len() == left_count(row_bins(rows, bins), split),
    decreases rows.len(),
{
    let pl = |i: usize| split.sends_left(bins[i as int]);
    if rows.len() == 0 {
        reveal(Seq::filter);
        assert(row_bins(rows, bins) =~= Seq::<usize>::empty());
        match split {
            BinSplit::UpTo(b) => {
                lemma_count_up_to_empty(b as int);
            },
            BinSplit::Categories(c) => {
                lemma_count_listed_empty(c@);
            },
        }
    } else {
        let rest = rows.drop_last();
        let x = rows.last();
        let bx = bins[x as int];
        assert(x == rows[rows.len() - 1]);
        law_left_size_from_counts(rest, bins, split);
        reveal(Seq::filter);
        assert(rows.filter(pl) == (if pl(x) { rest.filter(pl).push(x) } else { rest.filter(pl) }));
        assert(row_bins(rows, bins) =~= row_bins(rest, bins).push(bx as usize));
        match split {
            BinSplit::UpTo(b) => {
                lemma_count_up_to_push(row_bins(rest, bins), bx as usize, b as int);
            },
            BinSplit::Categories(c) => {
                lemma_count_listed_push(row_bins(rest, bins), bx, c@);
            },
        }
    }
}

/// No observation, no count.
proof fn lemma_count_up_to_empty(b: int)
    ensures
        count_up_to(Seq::<usize>::empty(), b) == 0,
    decreases b + 1,
{
    if b >= 0 {
        lemma_count_up_to_empty(b - 1);
    }
}

/// No observation, no count.
proof fn lemma_count_listed_empty(c: Seq<u8>)
    ensures
        count_listed(Seq::<usize>::empty(), c) == 0,
    decreases c.len(),
{
    if c.len() > 0 {
        lemma_count_listed_empty(c.drop_last());
    }
}

} // verus!
