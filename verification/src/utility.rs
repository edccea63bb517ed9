use vstd::prelude::*;
use itertools::Itertools;
use vstd::arithmetic::power2::pow2;

verus! {

/// The `k`-element subsequences of `s` (elements keep their order), listed
/// in lexicographic order of the positions they are taken from.
pub open spec fn combinations<T>(s: Seq<T>, k: nat) -> Seq<Seq<T>>
    decreases s.len(),
{
    if k == 0 {
        seq![Seq::empty()]
    } else if s.len() == 0 {
        Seq::empty()
    } else {
        combinations(s.drop_first(), (k - 1) as nat).map_values(|c: Seq<T>| seq![s[0]] + c)
            + combinations(s.drop_first(), k)
    }
}

/// The subsequences of `s` with at most `k` elements, by size, then as
/// `combinations` lists them.
pub open spec fn subsequences_upto<T>(s: Seq<T>, k: nat) -> Seq<Seq<T>>
    decreases k,
{
    if k == 0 {
        combinations(s, 0)
    } else {
        subsequences_upto(s, (k - 1) as nat) + combinations(s, k)
    }
}

/// All subsequences of `s`, by size.
pub open spec fn power_set_spec<T>(s: Seq<T>) -> Seq<Seq<T>> {
    subsequences_upto(s, s.len())
}

/// The values behind a sequence of references.
pub open spec fn deref_all<T>(s: Seq<&T>) -> Seq<T> {
    s.map_values(|r: &T| *r)
}

/// Trusted: calls `Itertools::combinations` on the slice's items and collects
/// the combinations.  The crate documents the `k`-length combinations in a
/// reliable order; its source produces them in lexicographic order of the
/// chosen positions, which `combinations` states.
#[verifier::external_body]
fn combinations_of<'a, T>(items: &'a [T], k: usize) -> (combos: Vec<Vec<&'a T>>)
    ensures
        combos@.map_values(|c: Vec<&'a T>| deref_all(c@)) == combinations(items@, k as nat),
{
    items.iter().combinations(k).collect()
}

/// All subsets of `leafs` (as references, keeping their order), from the
/// empty one up to the whole slice, grouped by size.
pub fn power_set<T>(leafs: &[T]) -> (subsets: Vec<Vec<&T>>)
    ensures
        subsets@.map_values(|c: Vec<&T>| deref_all(c@)) == power_set_spec(leafs@),
{
    let mut subsets: Vec<Vec<&T>> = Vec::new();
    let n = leafs.len();
    let mut i: usize = 0;
    loop
        invariant_except_break
            i <= n,
            i == 0 ==> subsets@.len() == 0,
            i > 0 ==> subsets@.map_values(|c: Vec<&T>| deref_all(c@)) == subsequences_upto(leafs@, (i - 1) as nat),
        invariant
            n == leafs@.len(),
        ensures
            subsets@.map_values(|c: Vec<&T>| deref_all(c@)) == subsequences_upto(leafs@, n as nat),
        decreases n - i,
    {
        let mut combos = combinations_of(leafs, i);
        let ghost before = subsets@;
        subsets.append(&mut combos);
        proof {
            let f = |c: Vec<&T>| deref_all(c@);
            assert(subsets@.map_values(f) =~= before.map_values(f) + combinations(leafs@, i as nat));
            if i == 0 {
                assert(subsets@.map_values(f) =~= subsequences_upto(leafs@, 0));
            }
            assert(subsets@.map_values(f) == subsequences_upto(leafs@, i as nat));
        }
        if i == n {
            break;
        }
        i = i + 1;
    }
    subsets
}

/// The number of ways to choose `k` of `n` items.
pub open spec fn binom(n: nat, k: nat) -> nat
    decreases n,
{
    if k == 0 {
        1
    } else if n == 0 {
        0
    } else {
        binom((n - 1) as nat, (k - 1) as nat) + binom((n - 1) as nat, k)
    }
}

/// The number of ways to choose at most `m` of `n` items.
pub open spec fn binom_upto(n: nat, m: nat) -> nat
    decreases m,
{
    if m == 0 {
        binom(n, 0)
    } else {
        binom_upto(n, (m - 1) as nat) + binom(n, m)
    }
}

proof fn lemma_combinations_len<T>(s: Seq<T>, k: nat)
    ensures
        combinations(s, k).len() == binom(s.len(), k),
    decreases s.len(),
{
    if k > 0 && s.len() > 0 {
        lemma_combinations_len(s.drop_first(), (k - 1) as nat);
        lemma_combinations_len(s.drop_first(), k);
    }
}

proof fn lemma_binom_above(n: nat, k: nat)
    requires
        k > n,
    ensures
        binom(n, k) == 0,
    decreases n,
{
    if n > 0 {
        lemma_binom_above((n - 1) as nat, (k - 1) as nat);
        lemma_binom_above((n - 1) as nat, k);
    }
}

proof fn lemma_binom_upto_pascal(n: nat, m: nat)
    requires
        m >= 1,
    ensures
        binom_upto(n + 1, m) == binom_upto(n, m) + binom_upto(n, (m - 1) as nat),
    decreases m,
{
    assert(binom(n + 1, m) == binom(n, (m - 1) as nat) + binom(n, m));
    assert(binom_upto(n + 1, m) == binom_upto(n + 1, (m - 1) as nat) + binom(n + 1, m));
    assert(binom_upto(n, m) == binom_upto(n, (m - 1) as nat) + binom(n, m));
    if m > 1 {
        lemma_binom_upto_pascal(n, (m - 1) as nat);
        assert(binom_upto(n, (m - 1) as nat) == binom_upto(n, (m - 2) as nat) + binom(n, (m - 1) as nat));
    } else {
        assert(binom_upto(n + 1, 0) == 1);
        assert(binom_upto(n, 0) == 1);
    }
}

proof fn lemma_binom_upto_full(n: nat)
    ensures
        binom_upto(n, n) == pow2(n),
    decreases n,
{
    if n == 0 {
        reveal(vstd::arithmetic::power::pow);
        assert(pow2(0) == 1);
    } else {
        let p = (n - 1) as nat;
        lemma_binom_upto_full(p);
        lemma_binom_upto_pascal(p, n);
        lemma_binom_above(p, n);
        assert(binom_upto(p, n) == binom_upto(p, p));
        vstd::arithmetic::power2::lemma_pow2_unfold(n);
    }
}

proof fn lemma_subsequences_len<T>(s: Seq<T>, m: nat)
    ensures
        subsequences_upto(s, m).len() == binom_upto(s.len(), m),
    decreases m,
{
    lemma_combinations_len(s, m);
    if m > 0 {
        lemma_subsequences_len(s, (m - 1) as nat);
    }
}

/// A power set of `n` items has `2^n` subsets.
pub proof fn law_power_set_size<T>(s: Seq<T>)
    ensures
        power_set_spec(s).len() == pow2(s.len()),
{
    lemma_subsequences_len(s, s.len());
    lemma_binom_upto_full(s.len());
}

} // verus!
