use vstd::prelude::*;
use crate::lemmas::lemma_filter_elem;
use crate::text::{push_char, push_str, str_eq};

verus! {

/// Whether literal `l` is negated, i.e. starts with `-`.
pub open spec fn negated(l: Seq<char>) -> bool {
    l.len() > 0 && l[0] == '-'
}

/// The variable of literal `l`: `l` without a leading `-`.
pub open spec fn variable_of(l: Seq<char>) -> Seq<char> {
    if negated(l) { l.drop_first() } else { l }
}

/// The negation of literal `l`: the leading `-` is removed or added.
pub open spec fn negation_of(l: Seq<char>) -> Seq<char> {
    if negated(l) { l.drop_first() } else { seq!['-'] + l }
}

/// Keeps the literals whose variable is not `v`.
pub open spec fn not_variable(v: Seq<char>) -> spec_fn(Seq<char>) -> bool {
    |l: Seq<char>| variable_of(l) != v
}

/// A formula in Disjunctive Normal Form (DNF): an OR over conjunctive clauses.
///
/// Each inner `Vec<String>` is one conjunction (AND) of literals.  Literals
/// may be positive (`"safe"`) or negated (`"-safe"`).  This representation is
/// filled from the stable models of an ASP program and then used to build the
/// reactive arithmetic circuit.
#[derive(Clone)]
pub struct Dnf {
    pub clauses: Vec<Vec<String>>,
}

impl View for Dnf {
    type V = Seq<Seq<Seq<char>>>;

    open spec fn view(&self) -> Seq<Seq<Seq<char>>> {
        self.clauses@.map_values(|c: Vec<String>| c@.map_values(|l: String| l@))
    }
}

impl Dnf {
    /// Creates an empty DNF with no clauses.
    pub fn new() -> (dnf: Self)
        ensures
            dnf@ == Seq::<Seq<Seq<char>>>::empty(),
    {
        let dnf = Dnf { clauses: Vec::new() };
        assert(dnf@ =~= Seq::<Seq<Seq<char>>>::empty());
        dnf
    }

    /// Appends a conjunctive clause to the formula.
    pub fn add_clause(&mut self, clause: Vec<String>)
        ensures
            final(self)@ == old(self)@.push(clause@.map_values(|l: String| l@)),
    {
        self.clauses.push(clause);
        assert(self@ =~= old(self)@.push(clause@.map_values(|l: String| l@)));
    }

    /// Removes every occurrence of `variable` (positive or negative) from all
    /// clauses.  Used to strip the target atom before building the circuit.
    pub fn remove(&mut self, variable: &str)
        ensures
            final(self)@ == old(self)@.map_values(|c: Seq<Seq<char>>| c.filter(not_variable(variable@))),
    {
        let n = self.clauses.len();
        let mut i: usize = 0;
        while i < n
            invariant
                n == self.clauses@.len(),
                n == old(self).clauses@.len(),
                i <= n,
                forall|j: int| i <= j < n ==> #[trigger] self.clauses@[j] == old(self).clauses@[j],
                forall|j: int| 0 <= j < i ==> (#[trigger] self.clauses@[j])@.map_values(|l: String| l@)
                    == old(self)@[j].filter(not_variable(variable@)),
            decreases n - i,
        {
            let mut clause: Vec<String> = Vec::new();
            self.clauses.set_and_swap(i, &mut clause);
            let ghost cv = clause@.map_values(|l: String| l@);
            proof { assert(cv == old(self)@[i as int]); }
            let mut kept: Vec<String> = Vec::new();
            let mut k: usize = 0;
            while k < clause.len()
                invariant
                    k <= clause@.len(),
                    cv == clause@.map_values(|l: String| l@),
                    kept@.map_values(|l: String| l@) == cv.take(k as int).filter(not_variable(variable@)),
                decreases clause@.len() - k,
            {
                proof {
                    reveal_with_fuel(Seq::filter, 1);
                    assert(cv.take(k + 1).drop_last() =~= cv.take(k as int));
                }
                let v = Dnf::get_variable(clause[k].as_str());
                if !str_eq(v.as_str(), variable) {
                    let ghost before = kept@;
                    kept.push(clause[k].clone());
                    proof {
                        assert(kept@.map_values(|l: String| l@) =~= before.map_values(|l: String| l@).push(cv[k as int]));
                    }
                }
                k = k + 1;
            }
            proof { assert(cv.take(clause@.len() as int) =~= cv); }
            self.clauses.set_and_swap(i, &mut kept);
            i = i + 1;
        }
        assert(self@ =~= old(self)@.map_values(|c: Seq<Seq<char>>| c.filter(not_variable(variable@))));
    }

    /// Returns `true` if `literal` is negated, i.e. starts with `'-'`.
    pub fn is_negated(literal: &str) -> (b: bool)
        ensures
            b == negated(literal@),
    {
        !literal.is_empty() && literal.get_char(0) == '-'
    }

    /// Returns the logical negation of `literal`: strips the leading `'-'` of a
    /// negated literal, prepends `'-'` to a positive one.
    pub fn negate(literal: &str) -> (n: String)
        ensures
            n@ == negation_of(literal@),
    {
        if Dnf::is_negated(literal) {
            literal.substring_char(1, literal.unicode_len()).to_owned()
        } else {
            let mut n = String::new();
            push_char(&mut n, '-');
            push_str(&mut n, literal);
            assert(n@ =~= seq!['-'] + literal@);
            n
        }
    }

    /// Returns the underlying variable name of a literal, stripping any leading `'-'`.
    pub fn get_variable(literal: &str) -> (v: String)
        ensures
            v@ == variable_of(literal@),
    {
        if Dnf::is_negated(literal) {
            literal.substring_char(1, literal.unicode_len()).to_owned()
        } else {
            literal.to_owned()
        }
    }
}

/// Negating twice gives the literal back, unless it starts with `--`.
pub proof fn lemma_negation_involutive(l: Seq<char>)
    requires
        !(l.len() >= 2 && l[0] == '-' && l[1] == '-'),
    ensures
        negation_of(negation_of(l)) == l,
{
    if negated(l) {
        assert(seq!['-'] + l.drop_first() =~= l);
    } else {
        assert((seq!['-'] + l).drop_first() =~= l);
    }
}

/// A literal and its negation share their variable and differ in polarity,
/// unless the literal starts with `--`.
pub proof fn lemma_negation_flips_polarity(l: Seq<char>)
    requires
        !(l.len() >= 2 && l[0] == '-' && l[1] == '-'),
    ensures
        variable_of(negation_of(l)) == variable_of(l),
        negated(negation_of(l)) != negated(l),
{
    if !negated(l) {
        assert((seq!['-'] + l).drop_first() =~= l);
    }
}

/// After `remove(v)`, no literal of any clause has variable `v`, and every
/// literal left was there before.
pub proof fn lemma_remove_drops_variable(before: Seq<Seq<Seq<char>>>, v: Seq<char>, i: int, j: int)
    requires
        0 <= i < before.len(),
        0 <= j < before.map_values(|c: Seq<Seq<char>>| c.filter(not_variable(v)))[i].len(),
    ensures
        ({
            let l = before.map_values(|c: Seq<Seq<char>>| c.filter(not_variable(v)))[i][j];
            variable_of(l) != v && before[i].contains(l)
        }),
{
    lemma_filter_elem(before[i], not_variable(v), j);
}

} // verus!
