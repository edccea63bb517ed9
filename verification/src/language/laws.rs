use vstd::prelude::*;
use crate::language::concepts::{ClauseView, ComparisonView, ResinType};
use crate::language::matching::{cause_name_spec, has_variable_arg_spec, predicate_spec};
use crate::language::resin::{
    cause_signals, clause_rules, fol_entries, flatten_signals, group_key, prob_count, resin_asp, signal_plan,
    source_choices, strip_not, ResinView, SignalView, entry_for, formula_atoms, grounded_causes, strip_minus,
};
use crate::text::concat;

verus! {

/// Whether `t` occurs in `s` as a contiguous piece.
pub open spec fn text_in(t: Seq<char>, s: Seq<char>) -> bool {
    exists|k: int| 0 <= k && k + t.len() <= s.len() && #[trigger] s.subrange(k, k + t.len()) == t
}

/// The number of probabilistic clauses before clause `i` that have its head.
pub open spec fn same_head_before(clauses: Seq<ClauseView>, i: int) -> nat {
    clauses.take(i).filter(|c: ClauseView| c.probability is Some && c.head == clauses[i].head).len()
}

/// `b` occurs in `a + b + c`.
proof fn lemma_text_in_middle(a: Seq<char>, b: Seq<char>, c: Seq<char>)
    ensures
        text_in(b, a + b + c),
{
    assert((a + b + c).subrange(a.len() as int, (a.len() + b.len()) as int) =~= b);
}

/// A text occurs in itself.
proof fn lemma_text_in_self(t: Seq<char>)
    ensures
        text_in(t, t),
{
    lemma_text_in_middle(Seq::empty(), t, Seq::empty());
    assert(Seq::<char>::empty() + t + Seq::<char>::empty() =~= t);
}

/// What occurs in `x` occurs in `a + x + z`.
proof fn lemma_text_in_extend(a: Seq<char>, x: Seq<char>, z: Seq<char>, t: Seq<char>)
    requires
        text_in(t, x),
    ensures
        text_in(t, a + x + z),
{
    let k = choose|k: int| 0 <= k && k + t.len() <= x.len() && #[trigger] x.subrange(k, k + t.len()) == t;
    assert((a + x + z).subrange(a.len() + k, a.len() + k + t.len()) =~= x.subrange(k, k + t.len()));
}

/// A part of a concatenation lies between the parts before and after it.
proof fn lemma_concat_split(parts: Seq<Seq<char>>, j: int)
    requires
        0 <= j < parts.len(),
    ensures
        exists|pre: Seq<char>, post: Seq<char>| concat(parts) == pre + parts[j] + post,
    decreases parts.len(),
{
    if j == parts.len() - 1 {
        assert(concat(parts) == concat(parts.drop_last()) + parts[j] + Seq::<char>::empty());
    } else {
        lemma_concat_split(parts.drop_last(), j);
        let (pre, post) = choose|pre: Seq<char>, post: Seq<char>| concat(parts.drop_last()) == pre + parts.drop_last()[j] + post;
        assert(concat(parts) =~= pre + parts[j] + (post + parts.last()));
    }
}

/// A part of a concatenation occurs in it, and so does what occurs in the part.
proof fn lemma_text_in_concat(parts: Seq<Seq<char>>, j: int, t: Seq<char>)
    requires
        0 <= j < parts.len(),
        text_in(t, parts[j]),
    ensures
        text_in(t, concat(parts)),
{
    lemma_concat_split(parts, j);
    let (pre, post) = choose|pre: Seq<char>, post: Seq<char>| concat(parts) == pre + parts[j] + post;
    let k = choose|k: int| 0 <= k && k + t.len() <= parts[j].len() && #[trigger] parts[j].subrange(k, k + t.len()) == t;
    assert((pre + parts[j] + post).subrange(pre.len() + k, pre.len() + k + t.len()) =~= parts[j].subrange(k, k + t.len()));
}

/// `, ` before each literal is `, ` before the literals joined by `, `.
proof fn lemma_body_suffix_join(body: Seq<Seq<char>>)
    requires
        body.len() > 0,
    ensures
        crate::language::resin::body_suffix(body) == ", "@ + crate::text::join(body, ", "@),
    decreases body.len(),
{
    let parts = body.map_values(|l: Seq<char>| ", "@ + l);
    assert(parts.drop_last() =~= body.drop_last().map_values(|l: Seq<char>| ", "@ + l));
    if body.len() == 1 {
        assert(concat(parts.drop_last()) == Seq::<char>::empty());
        assert(concat(parts) =~= ", "@ + body[0]);
    } else {
        lemma_body_suffix_join(body.drop_last());
        assert(concat(parts) =~= ", "@ + crate::text::join(body, ", "@));
    }
}

/// Counting the probabilistic clauses with head `h` counts those that the
/// filter keeps.
proof fn lemma_prob_count_filter(clauses: Seq<ClauseView>, h: Seq<char>)
    ensures
        prob_count(clauses, h) == clauses.filter(|c: ClauseView| c.probability is Some && c.head == h).len(),
    decreases clauses.len(),
{
    reveal(Seq::filter);
    if clauses.len() > 0 {
        lemma_prob_count_filter(clauses.drop_last(), h);
    }
}

/// The ASP program holds the rules of every clause.
pub proof fn law_program_holds_clause_rules(v: ResinView, t: int, i: int)
    requires
        0 <= t < v.targets.len(),
        0 <= i < v.clauses.len(),
    ensures
        text_in(clause_rules(v.sources, v.clauses, i), resin_asp(v, t)),
{
    let rules = Seq::new(v.clauses.len(), |q: int| clause_rules(v.sources, v.clauses, q));
    lemma_text_in_self(rules[i]);
    lemma_text_in_concat(rules, i, rules[i]);
    let a = concat(v.sources.map_values(|s: (Seq<char>, Seq<char>, ResinType)| source_choices(v.clauses, s)))
        + concat(v.categorical_sources.map_values(|c: (Seq<Seq<char>>, Seq<char>)| crate::language::resin::exactly_one(c)))
        + concat(crate::text::dedup_texts(crate::language::resin::clause_helper_rules(v.clauses, v.sources)));
    let z = ":- not "@ + v.targets[t].0 + ".\n"@;
    lemma_text_in_extend(a, concat(rules), z, rules[i]);
    assert(resin_asp(v, t) == a + concat(rules) + z);
}

/// A probabilistic clause with a ground head is the choice of a cause atom
/// and a rule for the head whose body is the cause atom and then every
/// literal of the clause body: the program entails the head only where the
/// cause and the whole body hold.
pub proof fn law_ground_cause_rule_keeps_body(v: ResinView, i: int)
    requires
        0 <= i < v.clauses.len(),
        v.clauses[i].probability is Some,
        !has_variable_arg_spec(v.clauses[i].head),
    ensures
        exists|cause: Seq<char>, rest: Seq<char>| {
            &&& clause_rules(v.sources, v.clauses, i)
                == "{"@ + cause + "}.\n"@ + v.clauses[i].head + " :- "@ + cause + rest + ".\n"@
            &&& forall|j: int| 0 <= j < v.clauses[i].body.len() ==> #[trigger] text_in(v.clauses[i].body[j], rest)
            &&& v.clauses[i].body.len() > 0 ==> rest == ", "@ + crate::text::join(v.clauses[i].body, ", "@)
            &&& v.clauses[i].body.len() == 0 ==> rest == Seq::<char>::empty()
        },
{
    let c = v.clauses[i];
    if c.body.len() > 0 {
        lemma_body_suffix_join(c.body);
    } else {
        assert(crate::language::resin::body_suffix(c.body) =~= Seq::<char>::empty());
    }
    let cause = cause_name_spec(c.head, prob_count(v.clauses.take(i), c.head));
    let rest = crate::language::resin::body_suffix(c.body);
    assert(clause_rules(v.sources, v.clauses, i) =~= "{"@ + cause + "}.\n"@ + c.head + " :- "@ + cause + rest + ".\n"@);
    assert forall|j: int| 0 <= j < c.body.len() implies #[trigger] text_in(c.body[j], rest) by {
        let parts = c.body.map_values(|l: Seq<char>| ", "@ + l);
        lemma_text_in_middle(", "@, c.body[j], Seq::<char>::empty());
        assert(parts[j] =~= ", "@ + c.body[j] + Seq::<char>::empty());
        lemma_text_in_concat(parts, j, c.body[j]);
    }
}

/// The cause signals of the clauses before position `m` hold, past the
/// signals of the clauses before `i`, the signal of clause `i`.
proof fn lemma_cause_signal_kept(clauses: Seq<ClauseView>, i: int, m: int)
    requires
        0 <= i < m <= clauses.len(),
        clauses[i].probability is Some,
        !has_variable_arg_spec(clauses[i].head),
    ensures
        cause_signals(clauses, i).len() < cause_signals(clauses, m).len(),
        cause_signals(clauses, m)[cause_signals(clauses, i).len() as int] == (SignalView::Cause {
            name: cause_name_spec(clauses[i].head, prob_count(clauses.take(i), clauses[i].head)),
            probability: clauses[i].probability->0,
            group: group_key(clauses[i].head, prob_count(clauses.take(i), clauses[i].head)),
        }),
    decreases m,
{
    if m > i + 1 {
        lemma_cause_signal_kept(clauses, i, m - 1);
    }
}

/// The first-order cause entries of the clauses before position `m` hold,
/// past the entries of the clauses before `i`, the entry of clause `i`.
proof fn lemma_fol_entry_kept(clauses: Seq<ClauseView>, i: int, m: int)
    requires
        0 <= i < m <= clauses.len(),
        clauses[i].probability is Some,
        has_variable_arg_spec(clauses[i].head),
    ensures
        fol_entries(clauses, i).len() < fol_entries(clauses, m).len(),
        fol_entries(clauses, m)[fol_entries(clauses, i).len() as int] == (
            cause_name_spec(predicate_spec(clauses[i].head), prob_count(clauses.take(i), clauses[i].head)),
            clauses[i].probability->0,
            group_key(clauses[i].head, prob_count(clauses.take(i), clauses[i].head)),
        ),
    decreases m,
{
    if m > i + 1 {
        lemma_fol_entry_kept(clauses, i, m - 1);
    }
}

/// Each probabilistic clause with a ground head has a cause signal named
/// after the cause atom that the ASP program chooses for that clause: the
/// head's cause number `n`, where `n` counts the probabilistic clauses
/// before it with the same head; it carries the clause's probability and
/// the learnable parameter `n` of the head.
pub proof fn law_cause_signal_names_rule_cause(v: ResinView, i: int)
    requires
        0 <= i < v.clauses.len(),
        v.clauses[i].probability is Some,
        !has_variable_arg_spec(v.clauses[i].head),
    ensures
        ({
            let n = same_head_before(v.clauses, i);
            let name = cause_name_spec(v.clauses[i].head, n);
            &&& exists|k: int| 0 <= k < flatten_signals(signal_plan(v)).len()
                && #[trigger] flatten_signals(signal_plan(v))[k] == (SignalView::Cause {
                    name: name,
                    probability: v.clauses[i].probability->0,
                    group: group_key(v.clauses[i].head, n),
                })
            &&& exists|rest: Seq<char>| clause_rules(v.sources, v.clauses, i) == "{"@ + name + "}.\n"@ + rest
        }),
{
    let c = v.clauses[i];
    lemma_prob_count_filter(v.clauses.take(i), c.head);
    let n = prob_count(v.clauses.take(i), c.head);
    assert(n == same_head_before(v.clauses, i));
    let m = v.clauses.len() as int;
    lemma_cause_signal_kept(v.clauses, i, m);
    let plan = signal_plan(v);
    let causes = cause_signals(v.clauses, m);
    assert(plan.last() == causes);
    assert(flatten_signals(plan) == flatten_signals(plan.drop_last()) + causes);
    let k = (flatten_signals(plan.drop_last()).len() + cause_signals(v.clauses, i).len()) as int;
    assert(flatten_signals(plan)[k] == causes[cause_signals(v.clauses, i).len() as int]);
    let name = cause_name_spec(c.head, n);
    let rest = c.head + " :- "@ + name + crate::language::resin::body_suffix(c.body) + ".\n"@;
    assert(clause_rules(v.sources, v.clauses, i) =~= "{"@ + name + "}.\n"@ + rest);
}

/// Each probabilistic clause whose head has variables has a first-order
/// cause entry whose base is the predicate of the cause atom that the ASP
/// program chooses for that clause: the head predicate's cause number `n`,
/// where `n` counts the probabilistic clauses before it with the same head;
/// it carries the clause's probability and the learnable parameter `n` of
/// the head.  The cause signals of a solved formula are the groundings of
/// these bases (`fol_cause_signals`).
pub proof fn law_fol_cause_base_names_rule_cause(v: ResinView, i: int)
    requires
        0 <= i < v.clauses.len(),
        v.clauses[i].probability is Some,
        has_variable_arg_spec(v.clauses[i].head),
    ensures
        ({
            let n = same_head_before(v.clauses, i);
            let base = cause_name_spec(predicate_spec(v.clauses[i].head), n);
            let entries = fol_entries(v.clauses, v.clauses.len() as int);
            &&& exists|k: int| 0 <= k < entries.len()
                && #[trigger] entries[k] == (base, v.clauses[i].probability->0, group_key(v.clauses[i].head, n))
            &&& exists|args: Seq<char>, choice_rest: Seq<char>, rest: Seq<char>| {
                &&& clause_rules(v.sources, v.clauses, i) == "{"@ + base + "("@ + args + ")"@ + choice_rest
                    + v.clauses[i].head + " :- "@ + base + "("@ + args + ")"@ + rest + ".\n"@
                &&& v.clauses[i].body.len() > 0 ==> rest == ", "@ + crate::text::join(v.clauses[i].body, ", "@)
                &&& v.clauses[i].body.len() == 0 ==> rest == Seq::<char>::empty()
            }
        }),
{
    let c = v.clauses[i];
    if c.body.len() > 0 {
        lemma_body_suffix_join(c.body);
    } else {
        assert(crate::language::resin::body_suffix(c.body) =~= Seq::<char>::empty());
    }
    lemma_prob_count_filter(v.clauses.take(i), c.head);
    let n = prob_count(v.clauses.take(i), c.head);
    assert(n == same_head_before(v.clauses, i));
    let m = v.clauses.len() as int;
    lemma_fol_entry_kept(v.clauses, i, m);
    let entries = fol_entries(v.clauses, m);
    let k = fol_entries(v.clauses, i).len() as int;
    assert(entries[k] == (cause_name_spec(predicate_spec(c.head), n), c.probability->0, group_key(c.head, n)));
    let base = cause_name_spec(predicate_spec(c.head), n);
    let atom = base + "("@ + crate::language::resin::args_text(c.head) + ")"@;
    let domain = c.body.filter(|l: Seq<char>| crate::language::resin::in_domain(v.sources, l));
    let args = crate::language::resin::args_text(c.head);
    let choice_rest = if domain.len() == 0 { "}.\n"@ } else { "} :- "@ + join_domain(domain) + ".\n"@ };
    let rest = crate::language::resin::body_suffix(c.body);
    assert(clause_rules(v.sources, v.clauses, i) =~= "{"@ + base + "("@ + args + ")"@ + choice_rest
        + c.head + " :- "@ + base + "("@ + args + ")"@ + rest + ".\n"@);
}

spec fn join_domain(domain: Seq<Seq<char>>) -> Seq<char> {
    crate::text::join(domain, ", "@)
}

/// A Probability or Boolean source whose atom is a literal of some clause
/// body, as it is or behind `not `, has its choice rule `{atom}.` in the
/// ASP program: its value can make the atom true or false.
pub proof fn law_source_in_body_is_chosen(v: ResinView, t: int, k: int, i: int, j: int)
    requires
        0 <= t < v.targets.len(),
        0 <= k < v.sources.len(),
        v.sources[k].2 == ResinType::Probability || v.sources[k].2 == ResinType::Boolean,
        !(v.sources[k].0.len() >= 4 && v.sources[k].0.take(4) == "not "@),
        0 <= i < v.clauses.len(),
        0 <= j < v.clauses[i].body.len(),
        v.clauses[i].body[j] == v.sources[k].0 || v.clauses[i].body[j] == "not "@ + v.sources[k].0,
    ensures
        text_in("{"@ + v.sources[k].0 + "}.\n"@, resin_asp(v, t)),
{
    reveal_strlit("not ");
    let name = v.sources[k].0;
    let l = v.clauses[i].body[j];
    assert(!crate::language::resin::starts_with_not(name)) by {
        if crate::language::resin::starts_with_not(name) {
            assert(name.take(4) =~= "not "@);
        }
    }
    assert(strip_not(name) == name);
    if l != name {
        assert(crate::language::resin::starts_with_not(l));
        assert(l.skip(4) =~= name);
    }
    assert(strip_not(l) == name);
    assert(crate::language::resin::refers_to(v.clauses[i].body[j], name));
    assert(crate::language::resin::referenced(v.clauses, name));
    let choices = v.sources.map_values(|s: (Seq<char>, Seq<char>, ResinType)| source_choices(v.clauses, s));
    assert(choices[k] == "{"@ + name + "}.\n"@);
    lemma_text_in_self(choices[k]);
    lemma_text_in_concat(choices, k, choices[k]);
    let rest = concat(v.categorical_sources.map_values(|c: (Seq<Seq<char>>, Seq<char>)| crate::language::resin::exactly_one(c)))
        + concat(crate::text::dedup_texts(crate::language::resin::clause_helper_rules(v.clauses, v.sources)))
        + concat(Seq::new(v.clauses.len(), |q: int| clause_rules(v.sources, v.clauses, q)))
        + ":- not "@ + v.targets[t].0 + ".\n"@;
    lemma_text_in_extend(Seq::empty(), concat(choices), rest, choices[k]);
    assert(Seq::<char>::empty() + concat(choices) + rest =~= resin_asp(v, t));
}

/// A group of a plan lies between the signals before and after it.
proof fn lemma_flatten_split(plan: Seq<Seq<SignalView>>, j: int)
    requires
        0 <= j < plan.len(),
    ensures
        exists|pre: Seq<SignalView>, post: Seq<SignalView>| flatten_signals(plan) == pre + plan[j] + post,
    decreases plan.len(),
{
    if j == plan.len() - 1 {
        assert(flatten_signals(plan) =~= flatten_signals(plan.drop_last()) + plan[j] + Seq::<SignalView>::empty());
    } else {
        lemma_flatten_split(plan.drop_last(), j);
        let (pre, post) = choose|pre: Seq<SignalView>, post: Seq<SignalView>|
            flatten_signals(plan.drop_last()) == pre + plan.drop_last()[j] + post;
        assert(flatten_signals(plan) =~= pre + plan[j] + (post + plan.last()));
    }
}

/// Every Probability or Boolean source is fed by a pair of leaves, the
/// source's atom and its complement, from the source's channel.
pub proof fn law_plain_source_has_pair(v: ResinView, k: int)
    requires
        0 <= k < v.sources.len(),
        v.sources[k].2 == ResinType::Probability || v.sources[k].2 == ResinType::Boolean,
    ensures
        exists|q: int| 0 <= q < flatten_signals(signal_plan(v)).len()
            && #[trigger] flatten_signals(signal_plan(v))[q] == (SignalView::Pair { name: v.sources[k].0, channel: v.sources[k].1 }),
{
    let plan = signal_plan(v);
    assert(plan[k] == crate::language::resin::source_signals(v.clauses, v.sources[k]));
    lemma_flatten_split(plan, k);
    let (pre, post) = choose|pre: Seq<SignalView>, post: Seq<SignalView>| flatten_signals(plan) == pre + plan[k] + post;
    assert(flatten_signals(plan)[pre.len() as int] == plan[k][0]);
}

/// A deterministic clause is rendered as its own rule: the head, and, when
/// it has a body, ` :- ` and the body literals joined by `, `.
pub proof fn law_deterministic_clause_rule(v: ResinView, i: int)
    requires
        0 <= i < v.clauses.len(),
        v.clauses[i].probability is None,
    ensures
        v.clauses[i].body.len() > 0 ==> clause_rules(v.sources, v.clauses, i)
            == v.clauses[i].head + " :- "@ + crate::text::join(v.clauses[i].body, ", "@) + ".\n"@,
        v.clauses[i].body.len() == 0 ==> clause_rules(v.sources, v.clauses, i) == v.clauses[i].head + ".\n"@,
{
    assert(v.clauses[i].head + Seq::<char>::empty() =~= v.clauses[i].head);
}

/// The ASP program of target `t` ends with the constraint that keeps only
/// the models where the target's atom holds.
pub proof fn law_program_ends_with_target(v: ResinView, t: int)
    requires
        0 <= t < v.targets.len(),
    ensures
        exists|pre: Seq<char>| resin_asp(v, t) == pre + ":- not "@ + v.targets[t].0 + ".\n"@,
{
    let pre = concat(v.sources.map_values(|s: (Seq<char>, Seq<char>, ResinType)| source_choices(v.clauses, s)))
        + concat(v.categorical_sources.map_values(|c: (Seq<Seq<char>>, Seq<char>)| crate::language::resin::exactly_one(c)))
        + concat(crate::text::dedup_texts(crate::language::resin::clause_helper_rules(v.clauses, v.sources)))
        + concat(Seq::new(v.clauses.len(), |q: int| clause_rules(v.sources, v.clauses, q)));
    assert(resin_asp(v, t) == pre + ":- not "@ + v.targets[t].0 + ".\n"@);
}

/// Whether `s` is a cause signal named `a`.
pub open spec fn cause_named(s: SignalView, a: Seq<char>) -> bool {
    s matches SignalView::Cause { name, .. } && name == a
}

/// An atom that grounds the base of some entry has an entry.
proof fn lemma_entry_found(entries: Seq<(Seq<char>, Seq<char>, Seq<char>)>, k: int, a: Seq<char>)
    requires
        0 <= k < entries.len(),
        crate::language::resin::grounds_base(a, entries[k].0),
    ensures
        entry_for(entries, a) is Some,
    decreases entries.len(),
{
    if k < entries.len() - 1 && !crate::language::resin::grounds_base(a, entries.last().0) {
        assert(entries.drop_last()[k] == entries[k]);
        lemma_entry_found(entries.drop_last(), k, a);
    }
}

/// An atom of the formula that has an entry gets a cause signal named
/// after it.
proof fn lemma_grounded_signal(entries: Seq<(Seq<char>, Seq<char>, Seq<char>)>, atoms: Seq<Seq<char>>, a: Seq<char>)
    requires
        atoms.contains(a),
        entry_for(entries, a) is Some,
    ensures
        exists|q: int| 0 <= q < grounded_causes(entries, atoms).len()
            && cause_named(#[trigger] grounded_causes(entries, atoms)[q], a),
    decreases atoms.len(),
{
    let rest = grounded_causes(entries, atoms.drop_last());
    if atoms.last() == a {
        if atoms.drop_last().contains(a) {
            lemma_grounded_signal(entries, atoms.drop_last(), a);
        } else {
            assert(cause_named(grounded_causes(entries, atoms)[rest.len() as int], a));
        }
    } else {
        let p = choose|p: int| 0 <= p < atoms.len() && atoms[p] == a;
        assert(atoms.drop_last()[p] == a);
        lemma_grounded_signal(entries, atoms.drop_last(), a);
        let q = choose|q: int| 0 <= q < rest.len() && cause_named(#[trigger] rest[q], a);
        assert(grounded_causes(entries, atoms)[q] == rest[q]);
    }
}

/// The atoms of a formula hold every literal that has no leading `-`.
proof fn lemma_formula_atom(dnf: Seq<Seq<Seq<char>>>, c: int, j: int)
    requires
        0 <= c < dnf.len(),
        0 <= j < dnf[c].len(),
        !(dnf[c][j].len() > 0 && dnf[c][j][0] == '-'),
    ensures
        formula_atoms(dnf).contains(dnf[c][j]),
    decreases dnf.len(),
{
    if c < dnf.len() - 1 {
        assert(dnf.drop_last()[c] == dnf[c]);
        lemma_formula_atom(dnf.drop_last(), c, j);
        let p = choose|p: int| 0 <= p < formula_atoms(dnf.drop_last()).len() && formula_atoms(dnf.drop_last())[p] == dnf[c][j];
        assert(formula_atoms(dnf)[p] == dnf[c][j]);
    } else {
        let lits = dnf.last().map_values(|l: Seq<char>| strip_minus(l));
        assert(strip_minus(dnf[c][j]) == dnf[c][j]);
        assert(formula_atoms(dnf)[formula_atoms(dnf.drop_last()).len() + j] == lits[j]);
    }
}

/// Every positive literal of a solved formula that grounds the cause atom
/// of a probabilistic clause whose head has variables (the cause atom
/// `head_cause_n(...)` that the ASP program chooses for that clause, `n`
/// counting the probabilistic clauses before it with the same head) gets a
/// cause signal named after it.
pub proof fn law_grounded_cause_gets_signal(v: ResinView, dnf: Seq<Seq<Seq<char>>>, i: int, c: int, j: int)
    requires
        0 <= i < v.clauses.len(),
        v.clauses[i].probability is Some,
        has_variable_arg_spec(v.clauses[i].head),
        0 <= c < dnf.len(),
        0 <= j < dnf[c].len(),
        ({
            let base = cause_name_spec(predicate_spec(v.clauses[i].head), same_head_before(v.clauses, i));
            let a = dnf[c][j];
            &&& a.len() > base.len()
            &&& a.take((base.len() + 1) as int) == base + "("@
            &&& a[0] != '-'
        }),
    ensures
        exists|q: int| 0 <= q < grounded_causes(fol_entries(v.clauses, v.clauses.len() as int), formula_atoms(dnf)).len()
            && cause_named(#[trigger] grounded_causes(fol_entries(v.clauses, v.clauses.len() as int), formula_atoms(dnf))[q],
                dnf[c][j]),
{
    let h = v.clauses[i].head;
    lemma_prob_count_filter(v.clauses.take(i), h);
    let m = v.clauses.len() as int;
    lemma_fol_entry_kept(v.clauses, i, m);
    let entries = fol_entries(v.clauses, m);
    let k = fol_entries(v.clauses, i).len() as int;
    let base = cause_name_spec(predicate_spec(h), same_head_before(v.clauses, i));
    let a = dnf[c][j];
    assert(entries[k].0 == base);
    assert(crate::language::resin::grounds_base(a, entries[k].0)) by {
        assert((base + "("@).len() == base.len() + 1);
    }
    lemma_entry_found(entries, k, a);
    lemma_formula_atom(dnf, c, j);
    lemma_grounded_signal(entries, formula_atoms(dnf), a);
}

/// A ground comparison on `name` is among the comparisons the literals
/// `comps` contribute to `name`, from its position on.
proof fn lemma_comparison_listed(comps: Seq<ComparisonView>, name: Seq<char>, j: int)
    requires
        0 <= j < comps.len(),
        !comps[j].is_variable,
        comps[j].source_atom == name,
    ensures
        crate::language::resin::comparisons_for(comps, name).contains(comps[j]),
    decreases comps.len(),
{
    let r = crate::language::resin::comparisons_for(comps.drop_last(), name);
    if j == comps.len() - 1 {
        assert(crate::language::resin::comparisons_for(comps, name)[r.len() as int] == comps[j]);
    } else {
        assert(comps.drop_last()[j] == comps[j]);
        lemma_comparison_listed(comps.drop_last(), name, j);
        let p = choose|p: int| 0 <= p < r.len() && r[p] == comps[j];
        assert(crate::language::resin::comparisons_for(comps, name)[p] == comps[j]);
    }
}

proof fn lemma_clause_comparison_listed(clauses: Seq<ClauseView>, name: Seq<char>, i: int, j: int)
    requires
        0 <= i < clauses.len(),
        0 <= j < clauses[i].comparison_literals.len(),
        !clauses[i].comparison_literals[j].is_variable,
        clauses[i].comparison_literals[j].source_atom == name,
    ensures
        crate::language::resin::clause_comparisons_for(clauses, name).contains(clauses[i].comparison_literals[j]),
    decreases clauses.len(),
{
    let x = clauses[i].comparison_literals[j];
    let front = crate::language::resin::clause_comparisons_for(clauses.drop_last(), name);
    let back = crate::language::resin::comparisons_for(clauses.last().comparison_literals, name);
    assert(crate::language::resin::clause_comparisons_for(clauses, name) == front + back);
    if i == clauses.len() - 1 {
        lemma_comparison_listed(clauses.last().comparison_literals, name, j);
        let p = choose|p: int| 0 <= p < back.len() && back[p] == x;
        assert((front + back)[front.len() + p] == x);
    } else {
        assert(clauses.drop_last()[i] == clauses[i]);
        lemma_clause_comparison_listed(clauses.drop_last(), name, i, j);
        let p = choose|p: int| 0 <= p < front.len() && front[p] == x;
        assert((front + back)[p] == x);
    }
}

/// Keeping the first comparison of each name keeps every name.
proof fn lemma_first_of_each_keeps_name(s: Seq<ComparisonView>, x: ComparisonView)
    requires
        s.contains(x),
    ensures
        crate::language::resin::has_name(crate::language::resin::first_of_each_name(s), x.canonical_name),
    decreases s.len(),
{
    let d = crate::language::resin::first_of_each_name(s.drop_last());
    if s.last() == x {
        if !crate::language::resin::has_name(d, x.canonical_name) {
            assert(crate::language::resin::first_of_each_name(s)[d.len() as int] == x);
        }
    } else {
        let p = choose|p: int| 0 <= p < s.len() && s[p] == x;
        assert(s.drop_last()[p] == x);
        lemma_first_of_each_keeps_name(s.drop_last(), x);
        let k = choose|k: int| 0 <= k < d.len() && (#[trigger] d[k]).canonical_name == x.canonical_name;
        assert(crate::language::resin::first_of_each_name(s)[k] == d[k]);
    }
}

/// A Density or Number source has, for each ground comparison that a
/// clause makes on it, the choice rule of that comparison's atom in the ASP
/// program: its value decides whether the comparison holds.
pub proof fn law_ground_comparison_is_chosen(v: ResinView, t: int, k: int, i: int, j: int)
    requires
        0 <= t < v.targets.len(),
        0 <= k < v.sources.len(),
        v.sources[k].2 == ResinType::Density || v.sources[k].2 == ResinType::Number,
        0 <= i < v.clauses.len(),
        0 <= j < v.clauses[i].comparison_literals.len(),
        !v.clauses[i].comparison_literals[j].is_variable,
        v.clauses[i].comparison_literals[j].source_atom == v.sources[k].0,
    ensures
        text_in("{"@ + v.clauses[i].comparison_literals[j].canonical_name + "}.\n"@, resin_asp(v, t)),
{
    let name = v.sources[k].0;
    let x = v.clauses[i].comparison_literals[j];
    lemma_clause_comparison_listed(v.clauses, name, i, j);
    let all = crate::language::resin::clause_comparisons_for(v.clauses, name);
    lemma_first_of_each_keeps_name(all, x);
    let kept = crate::language::resin::first_of_each_name(all);
    let q = choose|q: int| 0 <= q < kept.len() && (#[trigger] kept[q]).canonical_name == x.canonical_name;
    let parts = kept.map_values(|c: ComparisonView| crate::language::resin::choice(c.canonical_name));
    assert(parts[q] == "{"@ + x.canonical_name + "}.\n"@);
    lemma_text_in_self(parts[q]);
    lemma_text_in_concat(parts, q, parts[q]);
    let choices = v.sources.map_values(|s: (Seq<char>, Seq<char>, ResinType)| source_choices(v.clauses, s));
    assert(choices[k] == concat(parts));
    lemma_text_in_concat(choices, k, parts[q]);
    let rest = concat(v.categorical_sources.map_values(|c: (Seq<Seq<char>>, Seq<char>)| crate::language::resin::exactly_one(c)))
        + concat(crate::text::dedup_texts(crate::language::resin::clause_helper_rules(v.clauses, v.sources)))
        + concat(Seq::new(v.clauses.len(), |q2: int| clause_rules(v.sources, v.clauses, q2)))
        + ":- not "@ + v.targets[t].0 + ".\n"@;
    lemma_text_in_extend(Seq::empty(), concat(choices), rest, parts[q]);
    assert(Seq::<char>::empty() + concat(choices) + rest =~= resin_asp(v, t));
}

/// A Density or Number source feeds, for each ground comparison that a
/// clause makes on it, a leaf of that comparison's name.
pub proof fn law_ground_comparison_has_signal(v: ResinView, k: int, i: int, j: int)
    requires
        0 <= k < v.sources.len(),
        v.sources[k].2 == ResinType::Density || v.sources[k].2 == ResinType::Number,
        0 <= i < v.clauses.len(),
        0 <= j < v.clauses[i].comparison_literals.len(),
        !v.clauses[i].comparison_literals[j].is_variable,
        v.clauses[i].comparison_literals[j].source_atom == v.sources[k].0,
    ensures
        exists|q: int| 0 <= q < flatten_signals(signal_plan(v)).len()
            && (#[trigger] flatten_signals(signal_plan(v))[q]) is Comparison
            && flatten_signals(signal_plan(v))[q]->source == v.sources[k].0
            && flatten_signals(signal_plan(v))[q]->comparison.canonical_name
                == v.clauses[i].comparison_literals[j].canonical_name,
{
    let name = v.sources[k].0;
    let x = v.clauses[i].comparison_literals[j];
    lemma_clause_comparison_listed(v.clauses, name, i, j);
    let all = crate::language::resin::clause_comparisons_for(v.clauses, name);
    lemma_first_of_each_keeps_name(all, x);
    let kept = crate::language::resin::first_of_each_name(all);
    let r = choose|r: int| 0 <= r < kept.len() && (#[trigger] kept[r]).canonical_name == x.canonical_name;
    let plan = signal_plan(v);
    let group = crate::language::resin::source_signals(v.clauses, v.sources[k]);
    assert(plan[k] == group);
    assert(group[r] == (SignalView::Comparison { source: name, comparison: kept[r] }));
    lemma_flatten_split(plan, k);
    let (pre, post) = choose|pre: Seq<SignalView>, post: Seq<SignalView>| flatten_signals(plan) == pre + plan[k] + post;
    assert(flatten_signals(plan)[pre.len() + r] == group[r]);
}

} // verus!
