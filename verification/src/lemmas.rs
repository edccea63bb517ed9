//! General facts about sequences used across the library.
use vstd::prelude::*;

verus! {

/// Elements of a filtered sequence satisfy the predicate and come from the
/// sequence that was filtered.
pub proof fn lemma_filter_elem<A>(s: Seq<A>, p: spec_fn(A) -> bool, i: int)
    requires
        0 <= i < s.filter(p).len(),
    ensures
        p(s.filter(p)[i]),
        s.contains(s.filter(p)[i]),
    decreases s.len(),
{
    reveal_with_fuel(Seq::filter, 1);
    if s.len() > 0 {
        let t = s.drop_last();
        if p(s.last()) && i == t.filter(p).len() {
            assert(s[s.len() - 1] == s.filter(p)[i]);
        } else {
            lemma_filter_elem(t, p, i);
            let k = choose|k: int| 0 <= k < t.len() && t[k] == t.filter(p)[i];
            assert(s[k] == t[k]);
        }
    }
}

pub proof fn lemma_filter_no_dup<A>(s: Seq<A>, p: spec_fn(A) -> bool)
    requires
        s.no_duplicates(),
    ensures
        s.filter(p).no_duplicates(),
    decreases s.len(),
{
    reveal_with_fuel(Seq::filter, 1);
    if s.len() > 0 {
        let t = s.drop_last();
        assert(t.no_duplicates());
        lemma_filter_no_dup(t, p);
        if p(s.last()) {
            let f = t.filter(p).push(s.last());
            assert forall|i: int, j: int| 0 <= i < f.len() && 0 <= j < f.len() && i != j implies f[i] != f[j] by {
                if i == f.len() - 1 || j == f.len() - 1 {
                    let o = if i == f.len() - 1 { j } else { i };
                    lemma_filter_elem(t, p, o);
                    let k = choose|k: int| 0 <= k < t.len() && t[k] == t.filter(p)[o];
                    assert(s[k] != s[s.len() - 1]);
                }
            }
        }
    }
}

pub proof fn lemma_filter_contains_index<A>(s: Seq<A>, p: spec_fn(A) -> bool, k: int)
    requires
        0 <= k < s.len(),
        p(s[k]),
    ensures
        s.filter(p).contains(s[k]),
{
    broadcast use vstd::seq_lib::group_filter_ensures;
    assert(s.contains(s[k]));
}

/// Filtering then mapping is mapping then filtering with a matching predicate.
pub proof fn lemma_filter_map_commute<A, B>(s: Seq<A>, pa: spec_fn(A) -> bool, pb: spec_fn(B) -> bool, f: spec_fn(A) -> B)
    requires
        forall|i: int| 0 <= i < s.len() ==> pa(#[trigger] s[i]) == pb(f(s[i])),
    ensures
        s.filter(pa).map_values(f) == s.map_values(f).filter(pb),
    decreases s.len(),
{
    reveal_with_fuel(Seq::filter, 1);
    if s.len() > 0 {
        let t = s.drop_last();
        lemma_filter_map_commute(t, pa, pb, f);
        assert(s.map_values(f).drop_last() =~= t.map_values(f));
        if pa(s.last()) {
            assert(s.filter(pa).map_values(f) =~= t.filter(pa).map_values(f).push(f(s.last())));
        } else {
            assert(s.filter(pa).map_values(f) =~= t.filter(pa).map_values(f));
        }
    } else {
        assert(s.filter(pa).map_values(f) =~= Seq::<B>::empty());
        assert(s.map_values(f).filter(pb) =~= Seq::<B>::empty());
    }
}

pub proof fn lemma_multiset_insert<A>(s: Seq<A>, i: int, a: A)
    requires
        0 <= i <= s.len(),
    ensures
        s.insert(i, a).to_multiset() == s.to_multiset().insert(a),
{
    broadcast use vstd::seq_lib::group_to_multiset_ensures;
    let t = s.insert(i, a);
    s.insert_ensures(i, a);
    assert(t.remove(i) =~= s);
    assert(t.remove(i).to_multiset() =~= t.to_multiset().remove(a));
    assert(t.to_multiset().count(a) > 0) by {
        assert(t.contains(a)) by { assert(t[i] == a); }
    }
    assert(t.to_multiset() =~= s.to_multiset().insert(a));
}

pub proof fn lemma_to_set_push<A>(s: Seq<A>, a: A)
    ensures
        s.push(a).to_set() == s.to_set().insert(a),
{
    assert forall|x: A| s.push(a).to_set().contains(x) <==> s.to_set().insert(a).contains(x) by {
        if s.push(a).to_set().contains(x) && x != a {
            let i = choose|i: int| 0 <= i < s.push(a).len() && s.push(a)[i] == x;
            assert(s[i] == x);
        }
        if s.to_set().contains(x) {
            let i = choose|i: int| 0 <= i < s.len() && s[i] == x;
            assert(s.push(a)[i] == x);
        }
        if x == a {
            assert(s.push(a)[s.len() as int] == a);
        }
    }
    assert(s.push(a).to_set() =~= s.to_set().insert(a));
}

/// A sequence without duplicates whose members lie in a finite set is no
/// longer than the set.
pub proof fn lemma_no_dup_len_le<A>(s: Seq<A>, set: Set<A>)
    requires
        s.no_duplicates(),
        set.finite(),
        forall|j: int| 0 <= j < s.len() ==> set.contains(#[trigger] s[j]),
    ensures
        s.len() <= set.len(),
{
    s.unique_seq_to_set();
    assert(s.to_set().subset_of(set));
    vstd::set_lib::lemma_len_subset(s.to_set(), set);
}

} // verus!
