use vstd::prelude::*;
use crate::lemmas::lemma_to_set_push;

verus! {

/// The largest element of a non-empty sequence.
pub open spec fn seq_max(s: Seq<usize>) -> usize
    decreases s.len(),
{
    if s.len() <= 1 {
        s[0]
    } else {
        let rest = seq_max(s.drop_last());
        if s.last() > rest { s.last() } else { rest }
    }
}

/// `seq_max` bounds every element and is itself an element.
pub proof fn lemma_seq_max(s: Seq<usize>)
    requires
        s.len() > 0,
    ensures
        forall|i: int| 0 <= i < s.len() ==> s[i] <= seq_max(s),
        s.contains(seq_max(s)),
    decreases s.len(),
{
    if s.len() > 1 {
        lemma_seq_max(s.drop_last());
        assert(forall|i: int| 0 <= i < s.len() - 1 ==> s[i] == s.drop_last()[i]);
        if s.last() <= seq_max(s.drop_last()) {
            let j = choose|j: int| 0 <= j < s.len() - 1 && s.drop_last()[j] == seq_max(s.drop_last());
            assert(s[j] == seq_max(s));
        } else {
            assert(s[s.len() - 1] == seq_max(s));
        }
    } else {
        assert(s[0] == seq_max(s));
    }
}

/// The packed bin of `b`: the number of distinct bins in `bins` below `b`.
pub open spec fn packed_rank(bins: Seq<usize>, b: usize) -> nat {
    bins.to_set().filter(|x: usize| x < b).len()
}

/// Packs bins so that they become consecutive while keeping their order,
/// e.g. `[0, 2, 2, 3, 5]` becomes `[0, 1, 1, 2, 3]`.
pub fn pack(bins: &[usize]) -> (packed: Vec<usize>)
    ensures
        packed@.len() == bins@.len(),
        forall|i: int| 0 <= i < bins@.len() ==> packed@[i] == packed_rank(bins@, bins@[i]),
{
    // The distinct bins, in increasing order.
    let mut distinct: Vec<usize> = Vec::new();
    let mut i: usize = 0;
    while i < bins.len()
        invariant
            i <= bins@.len(),
            strictly_increasing(distinct@),
            distinct@.to_set() == bins@.take(i as int).to_set(),
        decreases bins@.len() - i,
    {
        let b = bins[i];
        let mut pos: usize = 0;
        while pos < distinct.len() && distinct[pos] < b
            invariant
                pos <= distinct@.len(),
                forall|j: int| 0 <= j < pos ==> #[trigger] distinct@[j] < b,
            decreases distinct@.len() - pos,
        {
            pos = pos + 1;
        }
        let ghost before = distinct@;
        proof {
            assert(bins@.take(i + 1) =~= bins@.take(i as int).push(b));
            lemma_to_set_push(bins@.take(i as int), b);
        }
        if pos == distinct.len() || distinct[pos] != b {
            distinct.insert(pos, b);
            proof {
                before.insert_ensures(pos as int, b);
                assert forall|a: int, c: int| 0 <= a < c < distinct@.len() implies distinct@[a] < distinct@[c] by {
                    if c < pos {
                    } else if c == pos {
                    } else if a < pos {
                        assert(before[a] < before[pos as int] || a == pos as int);
                    } else if a == pos {
                        assert(before[pos as int] > b);
                        assert(before[pos as int] <= before[c - 1]);
                    }
                }
                assert forall|x: usize| distinct@.to_set().contains(x) <==> before.to_set().insert(b).contains(x) by {
                    if distinct@.to_set().contains(x) {
                        let k = choose|k: int| 0 <= k < distinct@.len() && distinct@[k] == x;
                        if k < pos { assert(before[k] == x); } else if k > pos { assert(before[k - 1] == x); }
                    }
                    if before.to_set().contains(x) {
                        let k = choose|k: int| 0 <= k < before.len() && before[k] == x;
                        if k < pos { assert(distinct@[k] == x); } else { assert(distinct@[k + 1] == x); }
                    }
                    if x == b { assert(distinct@[pos as int] == b); }
                }
                assert(distinct@.to_set() =~= before.to_set().insert(b));
            }
        } else {
            proof {
                assert(before.to_set().contains(b));
                assert(before.to_set().insert(b) =~= before.to_set());
            }
        }
        i = i + 1;
    }
    assert(bins@.take(bins@.len() as int) =~= bins@);
    // Each bin becomes its position among the distinct bins.
    let mut packed: Vec<usize> = Vec::new();
    let mut i: usize = 0;
    while i < bins.len()
        invariant
            i <= bins@.len(),
            strictly_increasing(distinct@),
            distinct@.to_set() == bins@.to_set(),
            packed@.len() == i,
            forall|j: int| 0 <= j < i ==> packed@[j] == packed_rank(bins@, bins@[j]),
        decreases bins@.len() - i,
    {
        let b = bins[i];
        let mut pos: usize = 0;
        while pos < distinct.len() && distinct[pos] < b
            invariant
                pos <= distinct@.len(),
                forall|j: int| 0 <= j < pos ==> #[trigger] distinct@[j] < b,
            decreases distinct@.len() - pos,
        {
            pos = pos + 1;
        }
        proof {
            assert(bins@.to_set().contains(b)) by { assert(bins@[i as int] == b); }
            lemma_rank(distinct@, bins@, b, pos as int);
        }
        packed.push(pos);
        i = i + 1;
    }
    packed
}

/// A strictly increasing sequence.
pub open spec fn strictly_increasing(s: Seq<usize>) -> bool {
    forall|i: int, j: int| 0 <= i < j < s.len() ==> s[i] < s[j]
}

/// In the sorted distinct values, the position of `b` is its packed rank.
proof fn lemma_rank(distinct: Seq<usize>, bins: Seq<usize>, b: usize, pos: int)
    requires
        strictly_increasing(distinct),
        distinct.to_set() == bins.to_set(),
        bins.to_set().contains(b),
        0 <= pos <= distinct.len(),
        forall|j: int| 0 <= j < pos ==> #[trigger] distinct[j] < b,
        pos == distinct.len() || !(distinct[pos] < b),
    ensures
        pos == packed_rank(bins, b),
{
    let below = bins.to_set().filter(|x: usize| x < b);
    let pre = distinct.take(pos);
    assert forall|x: usize| below.contains(x) <==> pre.to_set().contains(x) by {
        if below.contains(x) {
            assert(distinct.to_set().contains(x));
            let k = choose|k: int| 0 <= k < distinct.len() && distinct[k] == x;
            if k >= pos {
                assert(distinct[pos] <= distinct[k]);
            }
            assert(pre[k] == x);
        }
        if pre.to_set().contains(x) {
            let k = choose|k: int| 0 <= k < pre.len() && pre[k] == x;
            assert(distinct[k] == x);
            assert(distinct.to_set().contains(x));
        }
    }
    assert(below =~= pre.to_set());
    assert(pre.no_duplicates()) by {
        assert forall|a: int, c: int| 0 <= a < pre.len() && 0 <= c < pre.len() && a != c implies pre[a] != pre[c] by {
            if a < c { assert(distinct[a] < distinct[c]); } else { assert(distinct[c] < distinct[a]); }
        }
    }
    pre.unique_seq_to_set();
}

/// Packing keeps the order of bins and only closes the gaps between them:
/// any two bins compare the same way before and after packing.
pub proof fn law_pack_preserves_order(bins: Seq<usize>, i: int, j: int)
    requires
        0 <= i < bins.len(),
        0 <= j < bins.len(),
    ensures
        bins[i] < bins[j] <==> packed_rank(bins, bins[i]) < packed_rank(bins, bins[j]),
        bins[i] == bins[j] <==> packed_rank(bins, bins[i]) == packed_rank(bins, bins[j]),
{
    assert(bins.to_set().contains(bins[i]));
    assert(bins.to_set().contains(bins[j]));
    if bins[i] < bins[j] {
        lemma_rank_lt(bins, bins[i], bins[j]);
    } else if bins[j] < bins[i] {
        lemma_rank_lt(bins, bins[j], bins[i]);
    }
}

proof fn lemma_rank_lt(bins: Seq<usize>, a: usize, b: usize)
    requires
        a < b,
        bins.to_set().contains(a),
    ensures
        packed_rank(bins, a) < packed_rank(bins, b),
{
    vstd::seq_lib::seq_to_set_is_finite(bins);
    let s = bins.to_set();
    let below_a = s.filter(|x: usize| x < a);
    let below_b = s.filter(|x: usize| x < b);
    s.lemma_len_filter(|x: usize| x < b);
    assert(below_b.finite()) by {
        vstd::set_lib::lemma_len_subset(below_b, s);
    }
    assert(below_a.subset_of(below_b.remove(a)));
    vstd::set_lib::lemma_len_subset(below_a, below_b.remove(a));
    assert(below_b.contains(a));
}

/// The bins flipped: each becomes the largest bin minus itself.
pub open spec fn flipped_bins(bins: Seq<usize>) -> Seq<usize> {
    Seq::new(bins.len(), |i: int| (seq_max(bins) - bins[i]) as usize)
}

/// Flipping twice gives the bins back when the smallest bin is 0, as it is
/// for packed bins.
pub proof fn law_flip_twice(bins: Seq<usize>)
    requires
        bins.len() > 0,
        bins.contains(0),
    ensures
        flipped_bins(flipped_bins(bins)) == bins,
{
    lemma_seq_max(bins);
    let f = flipped_bins(bins);
    let m = seq_max(bins);
    let k = choose|k: int| 0 <= k < bins.len() && bins[k] == 0;
    assert(f[k] == m);
    lemma_seq_max(f);
    assert(seq_max(f) == m) by {
        assert(f[k] <= seq_max(f));
        let q = choose|q: int| 0 <= q < f.len() && f[q] == seq_max(f);
        assert(f[q] <= m);
    }
    assert(flipped_bins(f) =~= bins);
}

/// Flips bins so that the largest bin becomes 0 and bin 0 becomes the largest,
/// e.g. `[0, 2, 2, 3, 5]` becomes `[5, 3, 3, 2, 0]`.
pub fn flip(bins: &[usize]) -> (flipped: Vec<usize>)
    requires
        bins@.len() > 0,
    ensures
        flipped@.len() == bins@.len(),
        flipped@ == flipped_bins(bins@),
{
    let mut max: usize = bins[0];
    let mut k: usize = 1;
    while k < bins.len()
        invariant
            1 <= k <= bins@.len(),
            max == seq_max(bins@.take(k as int)),
        decreases bins@.len() - k,
    {
        assert(bins@.take(k + 1).drop_last() =~= bins@.take(k as int));
        if bins[k] > max {
            max = bins[k];
        }
        k = k + 1;
    }
    assert(bins@.take(bins@.len() as int) =~= bins@);
    proof {
        lemma_seq_max(bins@);
    }
    let mut flipped: Vec<usize> = Vec::new();
    let mut i: usize = 0;
    while i < bins.len()
        invariant
            i <= bins@.len(),
            max == seq_max(bins@),
            forall|j: int| 0 <= j < bins@.len() ==> bins@[j] <= max,
            flipped@.len() == i,
            forall|j: int| 0 <= j < i ==> flipped@[j] == max - bins@[j],
        decreases bins@.len() - i,
    {
        flipped.push(max - bins[i]);
        i = i + 1;
    }
    assert(flipped@ =~= flipped_bins(bins@));
    flipped
}

} // verus!
