use vstd::prelude::*;
use crate::language::dnf::Dnf;
use crate::language::concepts::{
    categorical_fields, clause_fields, clause_patterns_compile, grounds, nonempty, source_fields, target_fields,
    CategoricalSource, Clause, ClauseView, ComparisonLiteral, ComparisonView, ResinType, Source, Target,
};
use crate::language::matching::{
    args_of, args_sliceable, args_spec, canonical_name_spec, cause_atom_base_name, cause_atom_name, cause_name_spec,
    has_variable_arg, has_variable_arg_spec, parameterized_comparison_predicate, parameterized_name_spec,
    parens_ordered, predicate_of, predicate_spec, split_statements, statements_upto, CATEGORICAL_SOURCE_PATTERN,
    SOURCE_PATTERN, TARGET_PATTERN,
};
use crate::language::pattern::regex_compiles;
use crate::text::{
    trim_end,
    concat, dedup_texts, has_prefix, push_joined_strs, push_str, starts_with,
    chars_of, find_first, join, str_eq, lemma_find_first, lemma_find_first_at, lemma_split_on_first, push_joined, split_on,
    string_from_range, trim, trim_range,
};

verus! {

// ── program text ────────────────────────────────────────────────────────────

/// A line without the `\r` that ends it before a `\n`.
pub open spec fn without_cr(l: Seq<char>) -> Seq<char> {
    if l.len() > 0 && l.last() == '\r' { l.drop_last() } else { l }
}

/// The lines of `s` as `str::lines` yields them: the pieces between `\n`s,
/// a piece that a `\n` ends without the `\r` before it, and no empty last
/// line after a final `\n`.
pub open spec fn lines_of(s: Seq<char>) -> Seq<Seq<char>> {
    let pieces = split_on(s, '\n');
    pieces.drop_last().map_values(|l: Seq<char>| without_cr(l))
        + if pieces.last().len() > 0 { seq![pieces.last()] } else { Seq::empty() }
}

/// The text of a line before its comment (from `#` on).
pub open spec fn before_comment(l: Seq<char>) -> Seq<char> {
    match find_first(l, '#') {
        Some(p) => l.take(p),
        None => l,
    }
}

/// A line with its comment removed, trimmed.
pub open spec fn clean_line(l: Seq<char>) -> Seq<char> {
    trim(before_comment(l))
}

/// The text the statements of a program are read from: every line with its
/// comment removed and trimmed, the empty ones left out, joined by spaces.
pub open spec fn program_text(s: Seq<char>) -> Seq<char> {
    join(nonempty(lines_of(s).map_values(|l: Seq<char>| clean_line(l))), " "@)
}

/// The range of `chars[from..to]` that remains of that line once its
/// comment is removed and it is trimmed.
fn clean_range(chars: &Vec<char>, from: usize, to: usize) -> (r: (usize, usize))
    requires
        from <= to <= chars@.len(),
    ensures
        from <= r.0 <= r.1 <= to,
        chars@.subrange(r.0 as int, r.1 as int) == clean_line(chars@.subrange(from as int, to as int)),
{
    let ghost line = chars@.subrange(from as int, to as int);
    let mut e = from;
    while e < to && chars[e] != '#'
        invariant
            from <= e <= to,
            to <= chars@.len(),
            forall|j: int| from <= j < e ==> chars@[j] != '#',
        decreases to - e,
    {
        e = e + 1;
    }
    proof {
        lemma_find_first_at(line, '#', e - from);
        assert(before_comment(line) =~= chars@.subrange(from as int, e as int));
    }
    trim_range(chars, from, e)
}

/// Strips comments (`#` to the end of the line) from every line, trims the
/// lines, leaves out the empty ones and joins the rest with spaces, so that
/// a statement may span several lines.
pub fn strip_comments(input: &str) -> (text: String)
    ensures
        text@ == program_text(input@),
{
    let chars = chars_of(input);
    let n = chars.len();
    let ghost all = split_on(chars@, '\n');
    let ghost mut done: Seq<Seq<char>> = Seq::empty();
    let mut kept: Vec<String> = Vec::new();
    let mut st: usize = 0;
    assert(chars@.subrange(0, n as int) =~= chars@);
    loop
        invariant
            st <= n,
            n == chars@.len(),
            chars@ == input@,
            all == split_on(chars@, '\n'),
            all == done + split_on(chars@.subrange(st as int, n as int), '\n'),
            kept@.map_values(|k: String| k@) == nonempty(done.map_values(|l: Seq<char>| clean_line(without_cr(l)))),
        decreases n - st,
    {
        let ghost t = chars@.subrange(st as int, n as int);
        let mut e = st;
        while e < n && chars[e] != '\n'
            invariant
                st <= e <= n,
                n == chars@.len(),
                forall|j: int| st <= j < e ==> chars@[j] != '\n',
            decreases n - e,
        {
            e = e + 1;
        }
        let ghost piece = chars@.subrange(st as int, e as int);
        proof {
            lemma_find_first_at(t, '\n', (e - st) as int);
            lemma_split_on_first(t, '\n');
            assert(t.take((e - st) as int) =~= piece);
        }
        if e == n {
            let ghost before = kept@.map_values(|k: String| k@);
            proof {
                assert(split_on(t, '\n') == seq![t]);
                assert(t =~= piece);
                assert(all =~= done.push(piece));
                assert(all.drop_last() =~= done);
            }
            if st < n {
                let (a, b) = clean_range(&chars, st, n);
                if a < b {
                    kept.push(string_from_range(&chars, a, b));
                }
                proof {
                    let ls = lines_of(chars@);
                    assert(ls =~= done.map_values(|l: Seq<char>| without_cr(l)) + seq![piece]);
                    let cl = ls.map_values(|l: Seq<char>| clean_line(l));
                    let cd = done.map_values(|l: Seq<char>| clean_line(without_cr(l)));
                    assert(cl =~= cd.push(clean_line(piece)));
                    cd.lemma_filter_push(clean_line(piece), |x: Seq<char>| x.len() > 0);
                    assert(kept@.map_values(|k: String| k@) =~= nonempty(cl));
                }
            } else {
                proof {
                    assert(piece.len() == 0);
                    let ls = lines_of(chars@);
                    assert(ls =~= done.map_values(|l: Seq<char>| without_cr(l)));
                    assert(ls.map_values(|l: Seq<char>| clean_line(l)) =~= done.map_values(|l: Seq<char>| clean_line(without_cr(l))));
                }
            }
            let mut text = String::new();
            push_joined(&mut text, &kept, " ");
            return text;
        }
        let end: usize = if e > st && chars[e - 1] == '\r' { e - 1 } else { e };
        proof {
            assert(chars@.subrange(st as int, end as int) =~= without_cr(piece));
        }
        let (a, b) = clean_range(&chars, st, end);
        let ghost before = kept@.map_values(|k: String| k@);
        if a < b {
            kept.push(string_from_range(&chars, a, b));
        }
        proof {
            let cd = done.map_values(|l: Seq<char>| clean_line(without_cr(l)));
            assert(done.push(piece).map_values(|l: Seq<char>| clean_line(without_cr(l))) =~= cd.push(clean_line(without_cr(piece))));
            cd.lemma_filter_push(clean_line(without_cr(piece)), |x: Seq<char>| x.len() > 0);
            assert(kept@.map_values(|k: String| k@) =~= nonempty(cd.push(clean_line(without_cr(piece)))));
            assert(t.skip((e - st) + 1) =~= chars@.subrange(e + 1, n as int));
            assert(all =~= done.push(piece) + split_on(chars@.subrange(e + 1, n as int), '\n'));
            done = done.push(piece);
        }
        st = e + 1;
    }
}

// ── programs ────────────────────────────────────────────────────────────────

/// A parsed Resin program: its clauses, its sources (the channels that feed
/// Probability, Number, Density or Boolean values), its categorical sources
/// and its targets (the outputs, one circuit each).
pub struct Resin {
    pub clauses: Vec<Clause>,
    pub sources: Vec<Source>,
    pub categorical_sources: Vec<CategoricalSource>,
    pub targets: Vec<Target>,
}

/// The contents of a program.
#[verifier::ext_equal]
pub struct ResinView {
    pub clauses: Seq<ClauseView>,
    pub sources: Seq<(Seq<char>, Seq<char>, ResinType)>,
    pub categorical_sources: Seq<(Seq<Seq<char>>, Seq<char>)>,
    pub targets: Seq<(Seq<char>, Seq<char>, ResinType)>,
}

impl View for Resin {
    type V = ResinView;

    open spec fn view(&self) -> ResinView {
        ResinView {
            clauses: self.clauses@.map_values(|c: Clause| c@),
            sources: self.sources@.map_values(|s: Source| s@),
            categorical_sources: self.categorical_sources@.map_values(|c: CategoricalSource| c@),
            targets: self.targets@.map_values(|t: Target| t@),
        }
    }
}

/// The program `v` with the declaration that `stmt` makes added: the
/// statement is tried as a categorical source, a source, a target and a
/// clause, in that order; one that is none of them is left out.
pub open spec fn add_statement(v: ResinView, stmt: Seq<char>) -> ResinView {
    if regex_compiles(CATEGORICAL_SOURCE_PATTERN@) && categorical_fields(stmt) is Some {
        ResinView { categorical_sources: v.categorical_sources.push(categorical_fields(stmt)->0), ..v }
    } else if regex_compiles(SOURCE_PATTERN@) && source_fields(stmt) is Some {
        ResinView { sources: v.sources.push(source_fields(stmt)->0), ..v }
    } else if regex_compiles(TARGET_PATTERN@) && target_fields(stmt) is Some {
        ResinView { targets: v.targets.push(target_fields(stmt)->0), ..v }
    } else if clause_patterns_compile() && clause_fields(stmt) is Some {
        ResinView { clauses: v.clauses.push(clause_fields(stmt)->0), ..v }
    } else {
        v
    }
}

/// The program the statements declare, in order.
pub open spec fn program_of(statements: Seq<Seq<char>>) -> ResinView
    decreases statements.len(),
{
    if statements.len() == 0 {
        ResinView {
            clauses: Seq::empty(),
            sources: Seq::empty(),
            categorical_sources: Seq::empty(),
            targets: Seq::empty(),
        }
    } else {
        add_statement(program_of(statements.drop_last()), statements.last())
    }
}

/// The statements of a program: its comment-free text cut at each `.`
/// that no digit follows.
pub open spec fn program_statements(input: Seq<char>) -> Seq<Seq<char>> {
    let text = program_text(input);
    statements_upto(text, text.len() as int)
}

impl Resin {
    /// Parses a Resin program into its sources, targets and clauses.
    /// Comments (`#` to the end of a line) are removed and the lines joined,
    /// so that statements may span lines; the text is then cut into
    /// statements at each `.` that no digit follows.  A statement that is
    /// no declaration is skipped.
    pub fn from_program(input: &str) -> (r: Resin)
        ensures
            r@ == program_of(program_statements(input@)),
    {
        let text = strip_comments(input);
        let statements = split_statements(text.as_str());
        let ghost sv = statements@.map_values(|s: String| s@);
        let mut r = Resin {
            clauses: Vec::new(),
            sources: Vec::new(),
            categorical_sources: Vec::new(),
            targets: Vec::new(),
        };
        proof {
            assert(r@ =~= program_of(sv.take(0)));
        }
        let mut i: usize = 0;
        while i < statements.len()
            invariant
                i <= statements@.len(),
                sv == statements@.map_values(|s: String| s@),
                r@ == program_of(sv.take(i as int)),
            decreases statements@.len() - i,
        {
            let statement = statements[i].as_str();
            let ghost before = r@;
            proof {
                assert(sv.take(i + 1).drop_last() =~= sv.take(i as int));
                assert(sv.take(i + 1).last() == statement@);
            }
            match CategoricalSource::from_declaration(statement) {
                Ok(c) => {
                    r.categorical_sources.push(c);
                    proof { assert(r@ =~= add_statement(before, statement@)); }
                },
                Err(()) => match Source::from_declaration(statement) {
                    Ok(s) => {
                        r.sources.push(s);
                        proof { assert(r@ =~= add_statement(before, statement@)); }
                    },
                    Err(()) => match Target::from_declaration(statement) {
                        Ok(t) => {
                            r.targets.push(t);
                            proof { assert(r@ =~= add_statement(before, statement@)); }
                        },
                        Err(()) => match Clause::from_statement(statement) {
                            Ok(c) => {
                                r.clauses.push(c);
                                proof { assert(r@ =~= add_statement(before, statement@)); }
                            },
                            Err(()) => {
                                proof { assert(r@ =~= add_statement(before, statement@)); }
                            },
                        },
                    },
                },
            }
            i = i + 1;
        }
        proof {
            assert(sv.take(statements@.len() as int) =~= sv);
            assert(sv == program_statements(input@));
        }
        r
    }
}

impl std::str::FromStr for Resin {
    type Err = ();

    fn from_str(input: &str) -> (r: Result<Resin, ()>)
        ensures
            r matches Ok(program) && program@ == program_of(program_statements(input@)),
    {
        Ok(Resin::from_program(input))
    }
}

// ── comparisons per source ──────────────────────────────────────────────────

/// The ground form of comparison `c` for the source atom `name`.
pub open spec fn grounded(c: ComparisonView, name: Seq<char>) -> ComparisonView {
    ComparisonView {
        source_atom: name,
        op: c.op,
        threshold: c.threshold,
        canonical_name: canonical_name_spec(name, c.op, c.threshold),
        is_variable: false,
    }
}

/// What comparison `c` contributes to the source atom `name`: itself when
/// it is ground and on `name`, its ground form when it is a variable
/// comparison that applies to `name`.
pub open spec fn comparison_for(c: ComparisonView, name: Seq<char>) -> Option<ComparisonView> {
    if !c.is_variable && c.source_atom == name {
        Some(c)
    } else if c.is_variable && grounds(c, name) {
        Some(grounded(c, name))
    } else {
        None
    }
}

/// What the comparisons `comps` contribute to `name`, in order.
pub open spec fn comparisons_for(comps: Seq<ComparisonView>, name: Seq<char>) -> Seq<ComparisonView>
    decreases comps.len(),
{
    if comps.len() == 0 {
        Seq::empty()
    } else {
        let rest = comparisons_for(comps.drop_last(), name);
        match comparison_for(comps.last(), name) {
            Some(c) => rest.push(c),
            None => rest,
        }
    }
}

/// What the comparisons of all clauses contribute to `name`, in order.
pub open spec fn clause_comparisons_for(clauses: Seq<ClauseView>, name: Seq<char>) -> Seq<ComparisonView>
    decreases clauses.len(),
{
    if clauses.len() == 0 {
        Seq::empty()
    } else {
        clause_comparisons_for(clauses.drop_last(), name) + comparisons_for(clauses.last().comparison_literals, name)
    }
}

/// Whether one of `s` has the canonical name `n`.
pub open spec fn has_name(s: Seq<ComparisonView>, n: Seq<char>) -> bool {
    exists|k: int| 0 <= k < s.len() && (#[trigger] s[k]).canonical_name == n
}

/// The comparisons of `s`, keeping only the first one of each canonical name.
pub open spec fn first_of_each_name(s: Seq<ComparisonView>) -> Seq<ComparisonView>
    decreases s.len(),
{
    if s.len() == 0 {
        Seq::empty()
    } else {
        let d = first_of_each_name(s.drop_last());
        if has_name(d, s.last().canonical_name) { d } else { d.push(s.last()) }
    }
}

/// The distinct comparisons (by canonical name) that the clauses make on
/// the source atom `name`, ground ones as they are and variable ones
/// grounded for `name`.
pub open spec fn collected_comparisons(clauses: Seq<ClauseView>, name: Seq<char>) -> Seq<ComparisonView> {
    first_of_each_name(clause_comparisons_for(clauses, name))
}

/// Whether every variable comparison of the clauses on the predicate of
/// `name` has an argument list that can be taken apart, and so has `name`.
pub open spec fn groundable(clauses: Seq<ClauseView>, name: Seq<char>) -> bool {
    forall|i: int, j: int|
        0 <= i < clauses.len() && 0 <= j < clauses[i].comparison_literals.len()
            && (#[trigger] clauses[i].comparison_literals[j]).is_variable
            && predicate_spec(clauses[i].comparison_literals[j].source_atom) == predicate_spec(name)
            ==> parens_ordered(clauses[i].comparison_literals[j].source_atom) && parens_ordered(name)
}

impl ComparisonLiteral {
    /// A copy of this comparison literal.
    fn duplicate(&self) -> (c: ComparisonLiteral)
        ensures
            c@ == self@,
    {
        ComparisonLiteral {
            source_atom: self.source_atom.clone(),
            op: self.op,
            threshold: self.threshold.clone(),
            canonical_name: self.canonical_name.clone(),
            is_variable: self.is_variable,
        }
    }
}

/// The contents of an optional comparison literal.
pub open spec fn comparison_of(o: Option<ComparisonLiteral>) -> Option<ComparisonView> {
    match o {
        Some(c) => Some(c@),
        None => None,
    }
}

/// Whether one of `comps` has the canonical name `name`.
fn contains_name(comps: &Vec<ComparisonLiteral>, name: &String) -> (b: bool)
    ensures
        b == has_name(comps@.map_values(|c: ComparisonLiteral| c@), name@),
{
    let ghost v = comps@.map_values(|c: ComparisonLiteral| c@);
    let mut k: usize = 0;
    while k < comps.len()
        invariant
            k <= comps@.len(),
            v == comps@.map_values(|c: ComparisonLiteral| c@),
            forall|m: int| 0 <= m < k ==> (#[trigger] v[m]).canonical_name != name@,
        decreases comps@.len() - k,
    {
        if comps[k].canonical_name == *name {
            proof { assert(v[k as int].canonical_name == name@); }
            return true;
        }
        k = k + 1;
    }
    false
}

impl Resin {
    /// All distinct comparisons (by canonical name) across the clauses that
    /// refer to `source_name`, including variable comparisons whose
    /// predicate and constant arguments match it, grounded for it.
    pub fn collect_comparisons_for(&self, source_name: &str) -> (comps: Vec<ComparisonLiteral>)
        requires
            groundable(self@.clauses, source_name@),
        ensures
            comps@.map_values(|c: ComparisonLiteral| c@) == collected_comparisons(self@.clauses, source_name@),
    {
        let ghost cv = self@.clauses;
        let ghost name = source_name@;
        let mut result: Vec<ComparisonLiteral> = Vec::new();
        let mut i: usize = 0;
        while i < self.clauses.len()
            invariant
                i <= self.clauses@.len(),
                cv == self@.clauses,
                name == source_name@,
                groundable(cv, name),
                result@.map_values(|c: ComparisonLiteral| c@) == first_of_each_name(clause_comparisons_for(cv.take(i as int), name)),
            decreases self.clauses@.len() - i,
        {
            let comps = &self.clauses[i].comparison_literals;
            let ghost ci = cv[i as int].comparison_literals;
            let ghost prefix = clause_comparisons_for(cv.take(i as int), name);
            proof {
                assert(ci == comps@.map_values(|c: ComparisonLiteral| c@));
                assert(comparisons_for(ci.take(0), name) =~= Seq::<ComparisonView>::empty());
                assert(prefix + comparisons_for(ci.take(0), name) =~= prefix);
            }
            let mut j: usize = 0;
            while j < comps.len()
                invariant
                    i < self.clauses@.len(),
                    j <= comps@.len(),
                    comps == self.clauses@[i as int].comparison_literals,
                    cv == self@.clauses,
                    name == source_name@,
                    groundable(cv, name),
                    ci == cv[i as int].comparison_literals,
                    ci == comps@.map_values(|c: ComparisonLiteral| c@),
                    result@.map_values(|c: ComparisonLiteral| c@) == first_of_each_name(prefix + comparisons_for(ci.take(j as int), name)),
                decreases comps@.len() - j,
            {
                let c = &comps[j];
                proof {
                    assert(ci[j as int] == c@);
                    assert(cv[i as int].comparison_literals[j as int] == c@);
                }
                let candidate: Option<ComparisonLiteral> = if !c.is_variable && str_eq(c.source_atom.as_str(), source_name) {
                    Some(c.duplicate())
                } else if c.is_variable {
                    c.ground_for(source_name)
                } else {
                    None
                };
                let ghost seen = prefix + comparisons_for(ci.take(j as int), name);
                proof {
                    assert(ci.take(j + 1).drop_last() =~= ci.take(j as int));
                    assert(ci.take(j + 1).last() == c@);
                    assert(comparison_of(candidate) == comparison_for(c@, name));
                }
                match candidate {
                    Some(x) => {
                        let ghost before = result@.map_values(|c: ComparisonLiteral| c@);
                        proof {
                            assert(prefix + comparisons_for(ci.take(j + 1), name) =~= seen.push(x@));
                            assert(seen.push(x@).drop_last() =~= seen);
                        }
                        if !contains_name(&result, &x.canonical_name) {
                            result.push(x);
                            proof {
                                assert(result@.map_values(|c: ComparisonLiteral| c@) =~= before.push(x@));
                            }
                        }
                    },
                    None => {
                        proof {
                            assert(prefix + comparisons_for(ci.take(j + 1), name) =~= seen);
                        }
                    },
                }
                j = j + 1;
            }
            proof {
                assert(ci.take(comps@.len() as int) =~= ci);
                assert(cv.take(i + 1).drop_last() =~= cv.take(i as int));
                assert(cv.take(i + 1).last() == cv[i as int]);
            }
            i = i + 1;
        }
        proof { assert(cv.take(self.clauses@.len() as int) =~= cv); }
        result
    }
}

// ── the ASP program ─────────────────────────────────────────────────────────

/// Whether `l` begins with `not `.
pub open spec fn starts_with_not(l: Seq<char>) -> bool {
    l.len() >= 4 && l[0] == 'n' && l[1] == 'o' && l[2] == 't' && l[3] == ' '
}

/// A body literal without its leading `not ` prefixes.
pub open spec fn strip_not(l: Seq<char>) -> Seq<char>
    decreases l.len(),
{
    if starts_with_not(l) { strip_not(l.skip(4)) } else { l }
}

/// Whether body literal `l` refers to the source atom `name`: its atom is
/// `name`, or has the same predicate and a variable argument.
pub open spec fn refers_to(l: Seq<char>, name: Seq<char>) -> bool {
    let base = strip_not(l);
    base == name || (predicate_spec(base) == predicate_spec(name) && has_variable_arg_spec(base))
}

/// Whether some body literal of the clauses refers to `name`.
pub open spec fn referenced(clauses: Seq<ClauseView>, name: Seq<char>) -> bool {
    exists|i: int, j: int|
        0 <= i < clauses.len() && 0 <= j < clauses[i].body.len() && refers_to(#[trigger] clauses[i].body[j], name)
}

/// Whether a body literal before literal `j` of clause `i` refers to `name`.
pub open spec fn referenced_before(clauses: Seq<ClauseView>, name: Seq<char>, i: int, j: int) -> bool {
    exists|i2: int, j2: int|
        0 <= i2 <= i && 0 <= j2 < clauses[i2].body.len() && (i2 < i || j2 < j)
            && refers_to(#[trigger] clauses[i2].body[j2], name)
}

/// Whether looking for a literal that refers to `name`, clause by clause and
/// literal by literal, only takes apart argument lists that can be: each
/// literal examined before the first one that refers to `name`, and that
/// is not `name` but has its predicate, has a sliceable argument list.
pub open spec fn reference_search_safe(clauses: Seq<ClauseView>, name: Seq<char>) -> bool {
    forall|i: int, j: int|
        0 <= i < clauses.len() && 0 <= j < clauses[i].body.len()
            && !referenced_before(clauses, name, i, j)
            && strip_not(#[trigger] clauses[i].body[j]) != name
            && predicate_spec(strip_not(clauses[i].body[j])) == predicate_spec(name)
            ==> args_sliceable(strip_not(clauses[i].body[j]))
}

/// The choice rule `{atom}.` and a newline.
pub open spec fn choice(atom: Seq<char>) -> Seq<char> {
    "{"@ + atom + "}.\n"@
}

/// The choice atoms a source contributes: its own atom for a Probability or
/// Boolean source that some body literal refers to; one per distinct
/// comparison on it for a Density or Number source.
pub open spec fn source_choices(clauses: Seq<ClauseView>, s: (Seq<char>, Seq<char>, ResinType)) -> Seq<char> {
    match s.2 {
        ResinType::Probability | ResinType::Boolean => if referenced(clauses, s.0) { choice(s.0) } else { Seq::empty() },
        ResinType::Density | ResinType::Number => concat(
            collected_comparisons(clauses, s.0).map_values(|c: ComparisonView| choice(c.canonical_name)),
        ),
        ResinType::Categorical => Seq::empty(),
    }
}

/// The constraint that exactly one category of a categorical source holds.
pub open spec fn exactly_one(c: (Seq<Seq<char>>, Seq<char>)) -> Seq<char> {
    "1 { "@ + join(c.0, " ; "@) + " } 1.\n"@
}

/// The rule that derives the parameterized atom of variable comparison `c`
/// for the source atom `name` from the ground comparison atom.
pub open spec fn helper_rule(c: ComparisonView, name: Seq<char>) -> Seq<char> {
    parameterized_name_spec(predicate_spec(c.source_atom), c.op, c.threshold) + "("@ + join(args_spec(name)->0, ", "@)
        + ") :- "@ + canonical_name_spec(name, c.op, c.threshold) + ".\n"@
}

/// Whether a source carries a value that comparisons apply to.
pub open spec fn compared(t: ResinType) -> bool {
    t == ResinType::Density || t == ResinType::Number
}

/// The helper rules of variable comparison `c` for the sources, in order:
/// one for each Density or Number source that it applies to and that has an
/// argument list.
pub open spec fn helper_rules_over(c: ComparisonView, sources: Seq<(Seq<char>, Seq<char>, ResinType)>) -> Seq<Seq<char>>
    decreases sources.len(),
{
    if sources.len() == 0 {
        Seq::empty()
    } else {
        let rest = helper_rules_over(c, sources.drop_last());
        let s = sources.last();
        if compared(s.2) && grounds(c, s.0) && args_spec(s.0) is Some { rest.push(helper_rule(c, s.0)) } else { rest }
    }
}

/// The helper rules of the variable comparisons among `comps`, in order.
pub open spec fn comparison_helper_rules(comps: Seq<ComparisonView>, sources: Seq<(Seq<char>, Seq<char>, ResinType)>) -> Seq<Seq<char>>
    decreases comps.len(),
{
    if comps.len() == 0 {
        Seq::empty()
    } else {
        comparison_helper_rules(comps.drop_last(), sources)
            + if comps.last().is_variable { helper_rules_over(comps.last(), sources) } else { Seq::empty() }
    }
}

/// The helper rules of the variable comparisons of all clauses, in order.
pub open spec fn clause_helper_rules(clauses: Seq<ClauseView>, sources: Seq<(Seq<char>, Seq<char>, ResinType)>) -> Seq<Seq<char>>
    decreases clauses.len(),
{
    if clauses.len() == 0 {
        Seq::empty()
    } else {
        clause_helper_rules(clauses.drop_last(), sources) + comparison_helper_rules(clauses.last().comparison_literals, sources)
    }
}

/// The number of probabilistic clauses among `clauses` with head `head`.
pub open spec fn prob_count(clauses: Seq<ClauseView>, head: Seq<char>) -> nat
    decreases clauses.len(),
{
    if clauses.len() == 0 {
        0
    } else {
        prob_count(clauses.drop_last(), head)
            + if clauses.last().probability is Some && clauses.last().head == head { 1nat } else { 0nat }
    }
}

/// Whether some source atom has predicate `p`.
pub open spec fn source_predicate(sources: Seq<(Seq<char>, Seq<char>, ResinType)>, p: Seq<char>) -> bool {
    exists|k: int| 0 <= k < sources.len() && predicate_spec((#[trigger] sources[k]).0) == p
}

/// Whether body literal `l` is structural: its atom's predicate is no
/// source's and it is no parameterized comparison atom (`resin_…`).
pub open spec fn in_domain(sources: Seq<(Seq<char>, Seq<char>, ResinType)>, l: Seq<char>) -> bool {
    !source_predicate(sources, predicate_spec(strip_not(l))) && !has_prefix(strip_not(l), "resin_"@)
}

/// `, ` before each body literal, one after another.
pub open spec fn body_suffix(body: Seq<Seq<char>>) -> Seq<char> {
    concat(body.map_values(|l: Seq<char>| ", "@ + l))
}

/// The arguments of an atom joined by `, `, or nothing.
pub open spec fn args_text(atom: Seq<char>) -> Seq<char> {
    match args_spec(atom) {
        Some(a) => join(a, ", "@),
        None => Seq::empty(),
    }
}

/// The rules of clause `i`.  A deterministic clause is its own rule.  The
/// `n`-th probabilistic clause with a given head gets an independent cause
/// atom, so that several clauses for one head combine as a noisy-OR: for a
/// ground head the choice `{head_cause_n}` and the rule
/// `head :- head_cause_n, body`; for a head with variables the cause atom
/// carries the head's arguments and its choice is grounded on the body
/// literals that are structural.
pub open spec fn clause_rules(sources: Seq<(Seq<char>, Seq<char>, ResinType)>, clauses: Seq<ClauseView>, i: int) -> Seq<char> {
    let c = clauses[i];
    if c.probability is Some {
        let n = prob_count(clauses.take(i), c.head);
        if has_variable_arg_spec(c.head) {
            let atom = cause_name_spec(predicate_spec(c.head), n) + "("@ + args_text(c.head) + ")"@;
            let domain = c.body.filter(|l: Seq<char>| in_domain(sources, l));
            (if domain.len() == 0 { "{"@ + atom + "}.\n"@ } else { "{"@ + atom + "} :- "@ + join(domain, ", "@) + ".\n"@ })
                + c.head + " :- "@ + atom + body_suffix(c.body) + ".\n"@
        } else {
            let aux = cause_name_spec(c.head, n);
            choice(aux) + c.head + " :- "@ + aux + body_suffix(c.body) + ".\n"@
        }
    } else {
        crate::language::concepts::clause_asp(c)
    }
}

/// The ASP program for target `t`: the choice atoms of the sources, the
/// exactly-one constraints of the categorical sources, the distinct helper
/// rules of the variable comparisons, the rules of the clauses, and the
/// constraint that keeps only the models where the target holds.
pub open spec fn resin_asp(v: ResinView, t: int) -> Seq<char> {
    concat(v.sources.map_values(|s: (Seq<char>, Seq<char>, ResinType)| source_choices(v.clauses, s)))
        + concat(v.categorical_sources.map_values(|c: (Seq<Seq<char>>, Seq<char>)| exactly_one(c)))
        + concat(dedup_texts(clause_helper_rules(v.clauses, v.sources)))
        + concat(Seq::new(v.clauses.len(), |i: int| clause_rules(v.sources, v.clauses, i)))
        + ":- not "@ + v.targets[t].0 + ".\n"@
}

/// Whether a source can be rendered: it is not categorical (those are kept
/// apart), and what is looked up for it only takes apart argument lists
/// that can be.
pub open spec fn source_ready(clauses: Seq<ClauseView>, s: (Seq<char>, Seq<char>, ResinType)) -> bool {
    match s.2 {
        ResinType::Probability | ResinType::Boolean => reference_search_safe(clauses, s.0),
        ResinType::Density | ResinType::Number => groundable(clauses, s.0),
        ResinType::Categorical => false,
    }
}

/// Whether a clause can be rendered: a probabilistic clause's head has an
/// argument list that can be taken apart.
pub open spec fn clause_ready(c: ClauseView) -> bool {
    c.probability is Some ==> args_sliceable(c.head) && (has_variable_arg_spec(c.head) ==> parens_ordered(c.head))
}

/// Whether the program can be rendered as ASP.
pub open spec fn asp_ready(v: ResinView) -> bool {
    &&& forall|k: int| 0 <= k < v.sources.len() ==> source_ready(v.clauses, #[trigger] v.sources[k])
    &&& forall|i: int| 0 <= i < v.clauses.len() ==> clause_ready(#[trigger] v.clauses[i])
}

/// A body literal without its leading `not ` prefixes.
fn strip_not_text(l: &str) -> (base: String)
    ensures
        base@ == strip_not(l@),
{
    let chars = chars_of(l);
    let n = chars.len();
    let mut a: usize = 0;
    assert(chars@.subrange(0, n as int) =~= l@);
    while n - a >= 4 && chars[a] == 'n' && chars[a + 1] == 'o' && chars[a + 2] == 't' && chars[a + 3] == ' '
        invariant
            a <= n,
            n == chars@.len(),
            strip_not(l@) == strip_not(chars@.subrange(a as int, n as int)),
        decreases n - a,
    {
        proof {
            let t = chars@.subrange(a as int, n as int);
            assert(starts_with_not(t));
            assert(t.skip(4) =~= chars@.subrange(a + 4, n as int));
        }
        a = a + 4;
    }
    proof {
        let t = chars@.subrange(a as int, n as int);
        assert(!starts_with_not(t));
    }
    string_from_range(&chars, a, n)
}

/// Whether body literal `l` refers to the source atom `name`.
fn refers_to_text(l: &str, name: &str) -> (b: bool)
    requires
        strip_not(l@) != name@ && predicate_spec(strip_not(l@)) == predicate_spec(name@) ==> args_sliceable(strip_not(l@)),
    ensures
        b == refers_to(l@, name@),
{
    let base = strip_not_text(l);
    if str_eq(base.as_str(), name) {
        return true;
    }
    str_eq(predicate_of(base.as_str()), predicate_of(name)) && has_variable_arg(base.as_str())
}

/// Whether one of `v` is `t`.
fn contains_text(v: &Vec<String>, t: &String) -> (b: bool)
    ensures
        b == v@.map_values(|s: String| s@).contains(t@),
{
    let ghost w = v@.map_values(|s: String| s@);
    let mut k: usize = 0;
    while k < v.len()
        invariant
            k <= v@.len(),
            w == v@.map_values(|s: String| s@),
            forall|m: int| 0 <= m < k ==> w[m] != t@,
        decreases v@.len() - k,
    {
        if v[k] == *t {
            proof { assert(w[k as int] == t@); }
            return true;
        }
        k = k + 1;
    }
    false
}

/// Appends the choice rule `{atom}.` and a newline.
fn push_choice(asp: &mut String, atom: &str)
    ensures
        final(asp)@ == old(asp)@ + choice(atom@),
{
    push_str(asp, "{");
    push_str(asp, atom);
    push_str(asp, "}.\n");
    proof { assert(final(asp)@ =~= old(asp)@ + choice(atom@)); }
}

/// Appends `, ` and each body literal.
fn push_body_suffix(asp: &mut String, body: &Vec<String>)
    ensures
        final(asp)@ == old(asp)@ + body_suffix(body@.map_values(|l: String| l@)),
{
    let ghost b = body@.map_values(|l: String| l@);
    let mut k: usize = 0;
    while k < body.len()
        invariant
            k <= body@.len(),
            b == body@.map_values(|l: String| l@),
            asp@ == old(asp)@ + body_suffix(b.take(k as int)),
        decreases body@.len() - k,
    {
        push_str(asp, ", ");
        push_str(asp, body[k].as_str());
        proof {
            let f = |l: Seq<char>| ", "@ + l;
            assert(b.take(k + 1).map_values(f) =~= b.take(k as int).map_values(f).push(f(b[k as int])));
            assert(b.take(k + 1).map_values(f).drop_last() =~= b.take(k as int).map_values(f));
        }
        k = k + 1;
    }
    proof { assert(b.take(body@.len() as int) =~= b); }
}

impl Resin {
    /// Whether some body literal of the clauses refers to `name`, searched
    /// clause by clause and literal by literal.
    fn is_referenced(&self, name: &str) -> (b: bool)
        requires
            reference_search_safe(self@.clauses, name@),
        ensures
            b == referenced(self@.clauses, name@),
    {
        let ghost cv = self@.clauses;
        let mut i: usize = 0;
        while i < self.clauses.len()
            invariant
                i <= self.clauses@.len(),
                cv == self@.clauses,
                reference_search_safe(cv, name@),
                forall|i2: int, j2: int| 0 <= i2 < i && 0 <= j2 < cv[i2].body.len() ==> !refers_to(#[trigger] cv[i2].body[j2], name@),
            decreases self.clauses@.len() - i,
        {
            let body = &self.clauses[i].body;
            let mut j: usize = 0;
            while j < body.len()
                invariant
                    i < self.clauses@.len(),
                    j <= body@.len(),
                    body == self.clauses@[i as int].body,
                    cv == self@.clauses,
                    reference_search_safe(cv, name@),
                    forall|i2: int, j2: int| 0 <= i2 < i && 0 <= j2 < cv[i2].body.len() ==> !refers_to(#[trigger] cv[i2].body[j2], name@),
                    forall|j2: int| 0 <= j2 < j ==> !refers_to(#[trigger] cv[i as int].body[j2], name@),
                decreases body@.len() - j,
            {
                proof {
                    assert(cv[i as int].body[j as int] == body@[j as int]@);
                    assert(!referenced_before(cv, name@, i as int, j as int));
                }
                if refers_to_text(body[j].as_str(), name) {
                    proof { assert(refers_to(cv[i as int].body[j as int], name@)); }
                    return true;
                }
                j = j + 1;
            }
            i = i + 1;
        }
        false
    }

    /// The choice atoms that source `k` contributes.
    fn source_choice_text(&self, k: usize) -> (asp: String)
        requires
            k < self.sources@.len(),
            source_ready(self@.clauses, self@.sources[k as int]),
        ensures
            asp@ == source_choices(self@.clauses, self@.sources[k as int]),
    {
        let source = &self.sources[k];
        let mut asp = String::new();
        match source.message_type {
            ResinType::Probability | ResinType::Boolean => {
                if self.is_referenced(source.name.as_str()) {
                    push_choice(&mut asp, source.name.as_str());
                    proof { assert(asp@ =~= choice(source.name@)); }
                } else {
                    proof { assert(asp@ =~= Seq::<char>::empty()); }
                }
            },
            ResinType::Density | ResinType::Number => {
                let comparisons = self.collect_comparisons_for(source.name.as_str());
                let ghost cs = comparisons@.map_values(|c: ComparisonLiteral| c@);
                let ghost f = |c: ComparisonView| choice(c.canonical_name);
                let mut m: usize = 0;
                proof { assert(cs.take(0).map_values(f) =~= Seq::<Seq<char>>::empty()); }
                while m < comparisons.len()
                    invariant
                        m <= comparisons@.len(),
                        cs == comparisons@.map_values(|c: ComparisonLiteral| c@),
                        f == |c: ComparisonView| choice(c.canonical_name),
                        asp@ == concat(cs.take(m as int).map_values(f)),
                    decreases comparisons@.len() - m,
                {
                    push_choice(&mut asp, comparisons[m].canonical_name.as_str());
                    proof {
                        assert(cs.take(m + 1).map_values(f) =~= cs.take(m as int).map_values(f).push(f(cs[m as int])));
                        assert(cs.take(m + 1).map_values(f).drop_last() =~= cs.take(m as int).map_values(f));
                    }
                    m = m + 1;
                }
                proof { assert(cs.take(comparisons@.len() as int) =~= cs); }
            },
            ResinType::Categorical => {},
        }
        asp
    }

    /// The exactly-one constraints of the categorical sources.
    fn categorical_text(&self) -> (asp: String)
        ensures
            asp@ == concat(self@.categorical_sources.map_values(|c: (Seq<Seq<char>>, Seq<char>)| exactly_one(c))),
    {
        let ghost parts = self@.categorical_sources.map_values(|c: (Seq<Seq<char>>, Seq<char>)| exactly_one(c));
        let mut asp = String::new();
        let mut k: usize = 0;
        proof { assert(parts.take(0) =~= Seq::<Seq<char>>::empty()); }
        while k < self.categorical_sources.len()
            invariant
                k <= self.categorical_sources@.len(),
                parts == self@.categorical_sources.map_values(|c: (Seq<Seq<char>>, Seq<char>)| exactly_one(c)),
                asp@ == concat(parts.take(k as int)),
            decreases self.categorical_sources@.len() - k,
        {
            let ghost before = asp@;
            push_str(&mut asp, "1 { ");
            crate::text::push_joined(&mut asp, &self.categorical_sources[k].categories, " ; ");
            push_str(&mut asp, " } 1.\n");
            proof {
                assert(parts[k as int] == exactly_one(self@.categorical_sources[k as int]));
                assert(asp@ =~= before + parts[k as int]);
                assert(parts.take(k + 1).drop_last() =~= parts.take(k as int));
            }
            k = k + 1;
        }
        proof { assert(parts.take(self.categorical_sources@.len() as int) =~= parts); }
        asp
    }
}

/// The body literals that are structural.
pub open spec fn domain_body(sources: Seq<(Seq<char>, Seq<char>, ResinType)>, body: Seq<Seq<char>>) -> Seq<Seq<char>> {
    body.filter(|l: Seq<char>| in_domain(sources, l))
}

/// Records `rule` and appends it to `asp` unless it was recorded before.
fn emit_once(emitted: &mut Vec<String>, asp: &mut String, rule: String)
    requires
        old(asp)@ == concat(old(emitted)@.map_values(|s: String| s@)),
    ensures
        final(emitted)@.map_values(|s: String| s@) == if old(emitted)@.map_values(|s: String| s@).contains(rule@) {
            old(emitted)@.map_values(|s: String| s@)
        } else {
            old(emitted)@.map_values(|s: String| s@).push(rule@)
        },
        final(asp)@ == concat(final(emitted)@.map_values(|s: String| s@)),
{
    if !contains_text(emitted, &rule) {
        let ghost before = emitted@.map_values(|s: String| s@);
        push_str(asp, rule.as_str());
        emitted.push(rule);
        proof {
            let after = emitted@.map_values(|s: String| s@);
            assert(after =~= before.push(rule@));
            assert(after.drop_last() =~= before);
        }
    }
}

impl Resin {
    /// The distinct helper rules that let the solver ground the
    /// parameterized atoms of variable comparisons, e.g.
    /// `resin_distance_gt_100(hospital) :- distance_hospital_gt_100.`
    fn helper_text(&self) -> (asp: String)
        requires
            forall|k: int| 0 <= k < self@.sources.len() && compared(self@.sources[k].2)
                ==> groundable(self@.clauses, #[trigger] self@.sources[k].0),
        ensures
            asp@ == concat(dedup_texts(clause_helper_rules(self@.clauses, self@.sources))),
    {
        let ghost cv = self@.clauses;
        let ghost sv = self@.sources;
        let mut emitted: Vec<String> = Vec::new();
        let mut asp = String::new();
        let ghost mut rules: Seq<Seq<char>> = Seq::empty();
        let mut i: usize = 0;
        proof { assert(emitted@.map_values(|s: String| s@) =~= dedup_texts(rules)); }
        while i < self.clauses.len()
            invariant
                i <= self.clauses@.len(),
                cv == self@.clauses,
                sv == self@.sources,
                forall|k: int| 0 <= k < sv.len() && compared(sv[k].2) ==> groundable(cv, #[trigger] sv[k].0),
                rules == clause_helper_rules(cv.take(i as int), sv),
                emitted@.map_values(|s: String| s@) == dedup_texts(rules),
                asp@ == concat(emitted@.map_values(|s: String| s@)),
            decreases self.clauses@.len() - i,
        {
            let comps = &self.clauses[i].comparison_literals;
            let ghost ci = cv[i as int].comparison_literals;
            let ghost base_i = rules;
            proof {
                assert(ci == comps@.map_values(|c: ComparisonLiteral| c@));
                assert(comparison_helper_rules(ci.take(0), sv) =~= Seq::<Seq<char>>::empty());
                assert(rules =~= base_i + comparison_helper_rules(ci.take(0), sv));
            }
            let mut j: usize = 0;
            while j < comps.len()
                invariant
                    i < self.clauses@.len(),
                    j <= comps@.len(),
                    comps == self.clauses@[i as int].comparison_literals,
                    cv == self@.clauses,
                    sv == self@.sources,
                    forall|k: int| 0 <= k < sv.len() && compared(sv[k].2) ==> groundable(cv, #[trigger] sv[k].0),
                    ci == cv[i as int].comparison_literals,
                    ci == comps@.map_values(|c: ComparisonLiteral| c@),
                    base_i == clause_helper_rules(cv.take(i as int), sv),
                    rules == base_i + comparison_helper_rules(ci.take(j as int), sv),
                    emitted@.map_values(|s: String| s@) == dedup_texts(rules),
                    asp@ == concat(emitted@.map_values(|s: String| s@)),
                decreases comps@.len() - j,
            {
                let c = &comps[j];
                let ghost base_j = rules;
                proof {
                    assert(ci[j as int] == c@);
                    assert(ci.take(j + 1).drop_last() =~= ci.take(j as int));
                    assert(ci.take(j + 1).last() == c@);
                }
                if c.is_variable {
                    let param = parameterized_comparison_predicate(predicate_of(c.source_atom.as_str()), c.op, c.threshold.as_str());
                    let mut k: usize = 0;
                    proof { assert(helper_rules_over(c@, sv.take(0)) =~= Seq::<Seq<char>>::empty()); }
                    while k < self.sources.len()
                        invariant
                            i < self.clauses@.len(),
                            j < comps@.len(),
                            k <= self.sources@.len(),
                            comps == self.clauses@[i as int].comparison_literals,
                            cv == self@.clauses,
                            sv == self@.sources,
                            forall|k: int| 0 <= k < sv.len() && compared(sv[k].2) ==> groundable(cv, #[trigger] sv[k].0),
                            c == comps@[j as int],
                            c@ == cv[i as int].comparison_literals[j as int],
                            c.is_variable,
                            param@ == parameterized_name_spec(predicate_spec(c.source_atom@), c.op, c.threshold@),
                            rules == base_j + helper_rules_over(c@, sv.take(k as int)),
                            emitted@.map_values(|s: String| s@) == dedup_texts(rules),
                            asp@ == concat(emitted@.map_values(|s: String| s@)),
                        decreases self.sources@.len() - k,
                    {
                        let source = &self.sources[k];
                        let ghost sk = sv[k as int];
                        proof {
                            assert(sk == source@);
                            assert(sv.take(k + 1).drop_last() =~= sv.take(k as int));
                            assert(sv.take(k + 1).last() == sk);
                        }
                        let mut added = false;
                        if source.message_type == ResinType::Density || source.message_type == ResinType::Number {
                            proof {
                                assert(compared(sk.2));
                                assert(groundable(cv, sk.0));
                                assert(cv[i as int].comparison_literals[j as int] == c@);
                            }
                            match c.ground_for(source.name.as_str()) {
                                Some(g) => match args_of(source.name.as_str()) {
                                    Some(args) => {
                                        let mut rule = param.clone();
                                        push_str(&mut rule, "(");
                                        push_joined_strs(&mut rule, &args, ", ");
                                        push_str(&mut rule, ") :- ");
                                        push_str(&mut rule, g.canonical_name.as_str());
                                        push_str(&mut rule, ".\n");
                                        proof {
                                            assert(rule@ =~= helper_rule(c@, sk.0));
                                            assert(base_j + helper_rules_over(c@, sv.take(k + 1))
                                                =~= rules.push(rule@));
                                            assert(rules.push(rule@).drop_last() =~= rules);
                                            rules = rules.push(rule@);
                                        }
                                        emit_once(&mut emitted, &mut asp, rule);
                                        added = true;
                                    },
                                    None => {},
                                },
                                None => {},
                            }
                        }
                        if !added {
                            proof {
                                assert(base_j + helper_rules_over(c@, sv.take(k + 1)) =~= rules);
                            }
                        }
                        k = k + 1;
                    }
                    proof {
                        assert(sv.take(self.sources@.len() as int) =~= sv);
                        assert(base_i + comparison_helper_rules(ci.take(j + 1), sv) =~= base_j + helper_rules_over(c@, sv));
                    }
                } else {
                    proof {
                        assert(base_i + comparison_helper_rules(ci.take(j + 1), sv) =~= rules);
                    }
                }
                j = j + 1;
            }
            proof {
                assert(ci.take(comps@.len() as int) =~= ci);
                assert(cv.take(i + 1).drop_last() =~= cv.take(i as int));
                assert(cv.take(i + 1).last() == cv[i as int]);
            }
            i = i + 1;
        }
        proof { assert(cv.take(self.clauses@.len() as int) =~= cv); }
        asp
    }
}

impl Resin {
    /// Whether body literal `l` is structural: its atom's predicate is no
    /// source's and it is no parameterized comparison atom.
    fn is_in_domain(&self, l: &str) -> (b: bool)
        ensures
            b == in_domain(self@.sources, l@),
    {
        let base = strip_not_text(l);
        let pred = predicate_of(base.as_str());
        let ghost sv = self@.sources;
        let mut k: usize = 0;
        while k < self.sources.len()
            invariant
                k <= self.sources@.len(),
                sv == self@.sources,
                pred@ == predicate_spec(strip_not(l@)),
                forall|m: int| 0 <= m < k ==> predicate_spec((#[trigger] sv[m]).0) != pred@,
            decreases self.sources@.len() - k,
        {
            if str_eq(predicate_of(self.sources[k].name.as_str()), pred) {
                proof { assert(predicate_spec(sv[k as int].0) == pred@); }
                return false;
            }
            k = k + 1;
        }
        !starts_with(base.as_str(), "resin_")
    }

    /// The number of probabilistic clauses before clause `i` with its head.
    fn prob_index(&self, i: usize) -> (n: usize)
        requires
            i < self.clauses@.len(),
        ensures
            n == prob_count(self@.clauses.take(i as int), self@.clauses[i as int].head),
    {
        let ghost cv = self@.clauses;
        let head = &self.clauses[i].head;
        let mut n: usize = 0;
        let mut j: usize = 0;
        proof { assert(cv.take(0) =~= Seq::<ClauseView>::empty()); }
        while j < i
            invariant
                j <= i < self.clauses@.len(),
                cv == self@.clauses,
                head@ == cv[i as int].head,
                n <= j,
                n == prob_count(cv.take(j as int), head@),
            decreases i - j,
        {
            proof {
                assert(cv.take(j + 1).drop_last() =~= cv.take(j as int));
                assert(cv.take(j + 1).last() == cv[j as int]);
            }
            if self.clauses[j].probability.is_some() && self.clauses[j].head == *head {
                n = n + 1;
            }
            j = j + 1;
        }
        n
    }

    /// The rules of clause `i`.
    fn clause_rule_text(&self, i: usize) -> (asp: String)
        requires
            i < self.clauses@.len(),
            clause_ready(self@.clauses[i as int]),
        ensures
            asp@ == clause_rules(self@.sources, self@.clauses, i as int),
    {
        let c = &self.clauses[i];
        let ghost cw = self@.clauses[i as int];
        if c.probability.is_none() {
            return c.to_asp();
        }
        let n = self.prob_index(i);
        let head = c.head.as_str();
        let mut asp = String::new();
        if has_variable_arg(head) {
            let mut atom = cause_atom_base_name(head, n);
            push_str(&mut atom, "(");
            match args_of(head) {
                Some(args) => push_joined_strs(&mut atom, &args, ", "),
                None => {},
            }
            push_str(&mut atom, ")");
            proof {
                assert(atom@ =~= cause_name_spec(predicate_spec(cw.head), n as nat) + "("@ + args_text(cw.head) + ")"@);
            }
            let ghost bv = cw.body;
            let ghost sv = self@.sources;
            let mut domain: Vec<String> = Vec::new();
            let mut k: usize = 0;
            proof { assert(domain_body(sv, bv.take(0)) =~= Seq::<Seq<char>>::empty()); }
            while k < c.body.len()
                invariant
                    k <= c.body@.len(),
                    bv == c.body@.map_values(|l: String| l@),
                    sv == self@.sources,
                    domain@.map_values(|l: String| l@) == domain_body(sv, bv.take(k as int)),
                decreases c.body@.len() - k,
            {
                let ghost before = domain@.map_values(|l: String| l@);
                if self.is_in_domain(c.body[k].as_str()) {
                    domain.push(c.body[k].clone());
                    proof { assert(domain@.map_values(|l: String| l@) =~= before.push(bv[k as int])); }
                }
                proof {
                    assert(bv.take(k + 1) =~= bv.take(k as int).push(bv[k as int]));
                    bv.take(k as int).lemma_filter_push(bv[k as int], |l: Seq<char>| in_domain(sv, l));
                }
                k = k + 1;
            }
            proof { assert(bv.take(c.body@.len() as int) =~= bv); }
            push_str(&mut asp, "{");
            push_str(&mut asp, atom.as_str());
            if domain.len() == 0 {
                push_str(&mut asp, "}.\n");
            } else {
                push_str(&mut asp, "} :- ");
                crate::text::push_joined(&mut asp, &domain, ", ");
                push_str(&mut asp, ".\n");
            }
            let ghost first = asp@;
            push_str(&mut asp, head);
            push_str(&mut asp, " :- ");
            push_str(&mut asp, atom.as_str());
            push_body_suffix(&mut asp, &c.body);
            push_str(&mut asp, ".\n");
            proof {
                let domain_v = domain_body(sv, bv);
                assert(first =~= (if domain_v.len() == 0 { "{"@ + atom@ + "}.\n"@ } else { "{"@ + atom@ + "} :- "@ + join(domain_v, ", "@) + ".\n"@ }));
                assert(asp@ =~= clause_rules(self@.sources, self@.clauses, i as int));
            }
        } else {
            let aux = cause_atom_name(head, n);
            push_choice(&mut asp, aux.as_str());
            push_str(&mut asp, head);
            push_str(&mut asp, " :- ");
            push_str(&mut asp, aux.as_str());
            push_body_suffix(&mut asp, &c.body);
            push_str(&mut asp, ".\n");
            proof {
                assert(asp@ =~= clause_rules(self@.sources, self@.clauses, i as int));
            }
        }
        asp
    }

    /// Renders the whole ASP program for target `target_index`: the choice
    /// atoms of every source that the clauses use, the exactly-one
    /// constraints of the categorical sources, the helper rules that ground
    /// variable comparisons, the rules of all clauses, and the constraint
    /// that keeps the models where the target holds.
    pub fn to_asp(&self, target_index: usize) -> (asp: String)
        requires
            target_index < self@.targets.len(),
            asp_ready(self@),
        ensures
            asp@ == resin_asp(self@, target_index as int),
    {
        let ghost v = self@;
        let ghost sources_part = v.sources.map_values(|s: (Seq<char>, Seq<char>, ResinType)| source_choices(v.clauses, s));
        let mut asp = String::new();
        let mut k: usize = 0;
        proof { assert(sources_part.take(0) =~= Seq::<Seq<char>>::empty()); }
        while k < self.sources.len()
            invariant
                k <= self.sources@.len(),
                v == self@,
                asp_ready(v),
                sources_part == v.sources.map_values(|s: (Seq<char>, Seq<char>, ResinType)| source_choices(v.clauses, s)),
                asp@ == concat(sources_part.take(k as int)),
            decreases self.sources@.len() - k,
        {
            proof { assert(source_ready(v.clauses, v.sources[k as int])); }
            let piece = self.source_choice_text(k);
            push_str(&mut asp, piece.as_str());
            proof {
                assert(sources_part.take(k + 1).drop_last() =~= sources_part.take(k as int));
                assert(sources_part.take(k + 1).last() == piece@);
            }
            k = k + 1;
        }
        proof { assert(sources_part.take(self.sources@.len() as int) =~= sources_part); }
        let categorical = self.categorical_text();
        push_str(&mut asp, categorical.as_str());
        proof {
            assert forall|m: int| 0 <= m < v.sources.len() && compared(v.sources[m].2)
                implies groundable(v.clauses, #[trigger] v.sources[m].0) by {
                assert(source_ready(v.clauses, v.sources[m]));
            }
        }
        let helpers = self.helper_text();
        push_str(&mut asp, helpers.as_str());
        let ghost front = asp@;
        let ghost clause_part = Seq::new(v.clauses.len(), |i: int| clause_rules(v.sources, v.clauses, i));
        let mut i: usize = 0;
        proof { assert(clause_part.take(0) =~= Seq::<Seq<char>>::empty()); assert(asp@ =~= front + concat(clause_part.take(0))); }
        while i < self.clauses.len()
            invariant
                i <= self.clauses@.len(),
                v == self@,
                asp_ready(v),
                clause_part == Seq::new(v.clauses.len(), |i: int| clause_rules(v.sources, v.clauses, i)),
                asp@ == front + concat(clause_part.take(i as int)),
            decreases self.clauses@.len() - i,
        {
            proof { assert(clause_ready(v.clauses[i as int])); }
            let piece = self.clause_rule_text(i);
            push_str(&mut asp, piece.as_str());
            proof {
                assert(clause_part.take(i + 1).drop_last() =~= clause_part.take(i as int));
                assert(clause_part.take(i + 1).last() == piece@);
            }
            i = i + 1;
        }
        proof { assert(clause_part.take(self.clauses@.len() as int) =~= clause_part); }
        let target = self.targets[target_index].to_asp();
        push_str(&mut asp, target.as_str());
        proof {
            assert(v.targets[target_index as int].0 == self.targets@[target_index as int].name@);
            assert(asp@ =~= resin_asp(v, target_index as int));
        }
        asp
    }
}

// ── signals ─────────────────────────────────────────────────────────────────

/// One step of setting up the leaves that feed a compiled program.
pub enum Signal {
    /// A leaf `name` and its complement `-name`, both holding one value per
    /// batch slot, fed together from `channel` (a Probability or Boolean
    /// source).
    Pair { name: String, channel: String },
    /// A leaf named after a comparison and its complement, holding a single
    /// value each, fed from the channel of that name; the comparison is one
    /// that the clauses make on the Density or Number source `source`.
    Comparison { source: String, comparison: ComparisonLiteral },
    /// One leaf per category, fed together from `channel`; no complements.
    Categories { categories: Vec<String>, channel: String },
    /// A cause leaf `name` with probability `probability` (as written) and
    /// its complement `-name`; `group` is the learnable parameter it shares
    /// with the other groundings of its clause.
    Cause { name: String, probability: String, group: String },
}

/// The contents of a signal.
pub enum SignalView {
    Pair { name: Seq<char>, channel: Seq<char> },
    Comparison { source: Seq<char>, comparison: ComparisonView },
    Categories { categories: Seq<Seq<char>>, channel: Seq<char> },
    Cause { name: Seq<char>, probability: Seq<char>, group: Seq<char> },
}

impl View for Signal {
    type V = SignalView;

    open spec fn view(&self) -> SignalView {
        match self {
            Signal::Pair { name, channel } => SignalView::Pair { name: name@, channel: channel@ },
            Signal::Comparison { source, comparison } => SignalView::Comparison { source: source@, comparison: comparison@ },
            Signal::Categories { categories, channel } => SignalView::Categories {
                categories: categories@.map_values(|c: String| c@),
                channel: channel@,
            },
            Signal::Cause { name, probability, group } => SignalView::Cause {
                name: name@,
                probability: probability@,
                group: group@,
            },
        }
    }
}

/// The name of the complement leaf of leaf `name`: `name` behind a `-`.
pub open spec fn complement_name(name: Seq<char>) -> Seq<char> {
    seq!['-'] + name
}

/// The names of the leaves that a signal creates, in order: a leaf and its
/// complement for a pair, a comparison and a cause; one leaf per category.
pub open spec fn signal_leaves(s: SignalView) -> Seq<Seq<char>> {
    match s {
        SignalView::Pair { name, .. } => seq![name, complement_name(name)],
        SignalView::Comparison { comparison, .. } => seq![comparison.canonical_name, complement_name(comparison.canonical_name)],
        SignalView::Categories { categories, .. } => categories,
        SignalView::Cause { name, .. } => seq![name, complement_name(name)],
    }
}

/// The name of the complement leaf of leaf `name`.
pub fn complement_of(name: &str) -> (c: String)
    ensures
        c@ == complement_name(name@),
{
    let mut c = String::new();
    crate::text::push_char(&mut c, '-');
    push_str(&mut c, name);
    assert(c@ =~= seq!['-'] + name@);
    c
}

impl Signal {
    /// The names of the leaves that this signal creates, in order.
    pub fn leaf_names(&self) -> (names: Vec<String>)
        ensures
            names@.map_values(|n: String| n@) == signal_leaves(self@),
    {
        let mut names: Vec<String> = Vec::new();
        match self {
            Signal::Pair { name, .. } => {
                names.push(name.clone());
                names.push(complement_of(name.as_str()));
            }
            Signal::Comparison { comparison, .. } => {
                names.push(comparison.canonical_name.clone());
                names.push(complement_of(comparison.canonical_name.as_str()));
            }
            Signal::Categories { categories, .. } => {
                let mut i: usize = 0;
                while i < categories.len()
                    invariant
                        i <= categories@.len(),
                        names@.len() == i,
                        names@.map_values(|n: String| n@) == categories@.take(i as int).map_values(|c: String| c@),
                    decreases categories@.len() - i,
                {
                    let ghost prev = names@;
                    let c = categories[i].clone();
                    names.push(c);
                    proof {
                        assert(c@ == categories@[i as int]@);
                        assert(categories@.take(i + 1) =~= categories@.take(i as int).push(categories@[i as int]));
                        assert(names@ == prev.push(c));
                        let lhs = names@.map_values(|n: String| n@);
                        let rhs = categories@.take(i + 1).map_values(|c: String| c@);
                        let lp = prev.map_values(|n: String| n@);
                        let rp = categories@.take(i as int).map_values(|c: String| c@);
                        assert forall|j: int| 0 <= j <= i implies #[trigger] lhs[j] == rhs[j] by {
                            if j < i {
                                assert(prev.push(c)[j] == prev[j]);
                                assert(names@[j] == prev[j]);
                                assert(categories@.take(i + 1)[j] == categories@.take(i as int)[j]);
                                assert(lp[j] == rp[j]);
                            } else {
                                assert(prev.push(c)[j] == c);
                                assert(names@[j] == c);
                            }
                        }
                        assert(lhs.len() == rhs.len());
                        assert(names@.map_values(|n: String| n@) =~= categories@.take(i + 1).map_values(|c: String| c@));
                    }
                    i = i + 1;
                }
                proof { assert(categories@.take(categories@.len() as int) =~= categories@); }
            }
            Signal::Cause { name, .. } => {
                names.push(name.clone());
                names.push(complement_of(name.as_str()));
            }
        }
        proof {
            assert(names@.map_values(|n: String| n@) =~= signal_leaves(self@));
        }
        names
    }
}

/// The signals of a source: a leaf pair for a Probability or Boolean
/// source; one comparison leaf pair per distinct comparison on a Density or
/// Number source.
pub open spec fn source_signals(clauses: Seq<ClauseView>, s: (Seq<char>, Seq<char>, ResinType)) -> Seq<SignalView> {
    match s.2 {
        ResinType::Probability | ResinType::Boolean => seq![SignalView::Pair { name: s.0, channel: s.1 }],
        ResinType::Density | ResinType::Number => collected_comparisons(clauses, s.0).map_values(
            |c: ComparisonView| SignalView::Comparison { source: s.0, comparison: c },
        ),
        ResinType::Categorical => Seq::empty(),
    }
}

/// The key of the learnable parameter of the `n`-th probabilistic clause
/// with head `head`: its predicate, `#` and `n`.
pub open spec fn group_key(head: Seq<char>, n: nat) -> Seq<char> {
    predicate_spec(head) + "#"@ + crate::text::decimal(n)
}

/// The cause signals of the clauses before position `i`: one per
/// probabilistic clause with a ground head, named like its cause atom.
pub open spec fn cause_signals(clauses: Seq<ClauseView>, i: int) -> Seq<SignalView>
    decreases i,
{
    if i <= 0 {
        Seq::empty()
    } else {
        let c = clauses[i - 1];
        let rest = cause_signals(clauses, i - 1);
        if c.probability is Some && !has_variable_arg_spec(c.head) {
            let n = prob_count(clauses.take(i - 1), c.head);
            rest.push(SignalView::Cause {
                name: cause_name_spec(c.head, n),
                probability: c.probability->0,
                group: group_key(c.head, n),
            })
        } else {
            rest
        }
    }
}

/// The signals that feed a program before it is solved: those of the
/// sources in order, then one per categorical source, then the causes of
/// the probabilistic clauses with ground heads.
pub open spec fn signal_plan(v: ResinView) -> Seq<Seq<SignalView>> {
    v.sources.map_values(|s: (Seq<char>, Seq<char>, ResinType)| source_signals(v.clauses, s))
        .push(v.categorical_sources.map_values(
            |c: (Seq<Seq<char>>, Seq<char>)| SignalView::Categories { categories: c.0, channel: c.1 },
        ))
        .push(cause_signals(v.clauses, v.clauses.len() as int))
}

/// The signals of `plan` one after another.
pub open spec fn flatten_signals(plan: Seq<Seq<SignalView>>) -> Seq<SignalView>
    decreases plan.len(),
{
    if plan.len() == 0 {
        Seq::empty()
    } else {
        flatten_signals(plan.drop_last()) + plan.last()
    }
}

/// Whether the signals of the program can be planned: no source is
/// categorical, the comparisons on every Density or Number source can be
/// grounded, and probabilistic heads can be taken apart.
pub open spec fn signals_ready(v: ResinView) -> bool {
    &&& forall|k: int| 0 <= k < v.sources.len() ==> (#[trigger] v.sources[k]).2 != ResinType::Categorical
    &&& forall|k: int| 0 <= k < v.sources.len() && compared(v.sources[k].2) ==> groundable(v.clauses, #[trigger] v.sources[k].0)
    &&& forall|i: int| 0 <= i < v.clauses.len() && (#[trigger] v.clauses[i]).probability is Some ==> args_sliceable(v.clauses[i].head)
}

/// The key of a learnable parameter, as a string.
fn group_key_text(head: &str, n: usize) -> (key: String)
    ensures
        key@ == group_key(head@, n as nat),
{
    let mut key = String::new();
    push_str(&mut key, predicate_of(head));
    push_str(&mut key, "#");
    crate::text::push_decimal(&mut key, n as u64);
    key
}

impl Resin {
    /// The leaves to create for the program's inputs, in the order they are
    /// created: a leaf pair per Probability or Boolean source, a comparison
    /// leaf pair per distinct comparison on each Density or Number source,
    /// the category leaves of each categorical source, and a cause leaf
    /// pair per probabilistic clause with a ground head.  The causes of
    /// clauses with variables in their heads follow once the program is
    /// solved (`fol_cause_signals`).
    pub fn signal_plan(&self) -> (plan: Vec<Signal>)
        requires
            signals_ready(self@),
        ensures
            plan@.map_values(|s: Signal| s@) == flatten_signals(signal_plan(self@)),
    {
        let ghost v = self@;
        let ghost per_source = v.sources.map_values(|s: (Seq<char>, Seq<char>, ResinType)| source_signals(v.clauses, s));
        let mut plan: Vec<Signal> = Vec::new();
        let mut k: usize = 0;
        proof { assert(flatten_signals(per_source.take(0)) =~= Seq::<SignalView>::empty()); }
        while k < self.sources.len()
            invariant
                k <= self.sources@.len(),
                v == self@,
                signals_ready(v),
                per_source == v.sources.map_values(|s: (Seq<char>, Seq<char>, ResinType)| source_signals(v.clauses, s)),
                plan@.map_values(|s: Signal| s@) == flatten_signals(per_source.take(k as int)),
            decreases self.sources@.len() - k,
        {
            let source = &self.sources[k];
            let ghost sk = v.sources[k as int];
            let ghost before = plan@.map_values(|s: Signal| s@);
            proof {
                assert(sk == source@);
                assert(per_source.take(k + 1).drop_last() =~= per_source.take(k as int));
                assert(per_source.take(k + 1).last() == source_signals(v.clauses, sk));
                assert(sk.2 != ResinType::Categorical);
            }
            match source.message_type {
                ResinType::Probability | ResinType::Boolean => {
                    plan.push(Signal::Pair { name: source.name.clone(), channel: source.channel.clone() });
                    proof {
                        assert(plan@.map_values(|s: Signal| s@) =~= before + source_signals(v.clauses, sk));
                    }
                },
                ResinType::Density | ResinType::Number => {
                    proof { assert(compared(sk.2)); }
                    let comparisons = self.collect_comparisons_for(source.name.as_str());
                    let ghost cs = comparisons@.map_values(|c: ComparisonLiteral| c@);
                    let ghost f = |c: ComparisonView| SignalView::Comparison { source: sk.0, comparison: c };
                    let mut m: usize = 0;
                    proof { assert(before + cs.take(0).map_values(f) =~= before); }
                    while m < comparisons.len()
                        invariant
                            m <= comparisons@.len(),
                            cs == comparisons@.map_values(|c: ComparisonLiteral| c@),
                            source@ == sk,
                            f == (|c: ComparisonView| SignalView::Comparison { source: sk.0, comparison: c }),
                            plan@.map_values(|s: Signal| s@) == before + cs.take(m as int).map_values(f),
                        decreases comparisons@.len() - m,
                    {
                        let ghost mid = plan@.map_values(|s: Signal| s@);
                        plan.push(Signal::Comparison { source: source.name.clone(), comparison: comparisons[m].duplicate() });
                        proof {
                            assert(plan@.map_values(|s: Signal| s@) =~= mid.push(f(cs[m as int])));
                            assert(cs.take(m + 1).map_values(f) =~= cs.take(m as int).map_values(f).push(f(cs[m as int])));
                        }
                        m = m + 1;
                    }
                    proof {
                        assert(cs.take(comparisons@.len() as int) =~= cs);
                    }
                },
                ResinType::Categorical => {},
            }
            k = k + 1;
        }
        proof { assert(per_source.take(self.sources@.len() as int) =~= per_source); }
        let ghost after_sources = plan@.map_values(|s: Signal| s@);
        let ghost cats = v.categorical_sources.map_values(
            |c: (Seq<Seq<char>>, Seq<char>)| SignalView::Categories { categories: c.0, channel: c.1 },
        );
        let mut m: usize = 0;
        proof { assert(after_sources + cats.take(0) =~= after_sources); }
        while m < self.categorical_sources.len()
            invariant
                m <= self.categorical_sources@.len(),
                v == self@,
                cats == v.categorical_sources.map_values(
                    (|c: (Seq<Seq<char>>, Seq<char>)| SignalView::Categories { categories: c.0, channel: c.1 }),
                ),
                plan@.map_values(|s: Signal| s@) == after_sources + cats.take(m as int),
            decreases self.categorical_sources@.len() - m,
        {
            let ghost mid = plan@.map_values(|s: Signal| s@);
            let cat = &self.categorical_sources[m];
            let mut categories: Vec<String> = Vec::new();
            let mut q: usize = 0;
            while q < cat.categories.len()
                invariant
                    q <= cat.categories@.len(),
                    categories@.map_values(|c: String| c@) == cat.categories@.take(q as int).map_values(|c: String| c@),
                decreases cat.categories@.len() - q,
            {
                categories.push(cat.categories[q].clone());
                proof {
                    assert(cat.categories@.take(q + 1).map_values(|c: String| c@)
                        =~= cat.categories@.take(q as int).map_values(|c: String| c@).push(cat.categories@[q as int]@));
                }
                q = q + 1;
            }
            proof { assert(cat.categories@.take(cat.categories@.len() as int) =~= cat.categories@); }
            plan.push(Signal::Categories { categories, channel: cat.channel.clone() });
            proof {
                assert(plan@.map_values(|s: Signal| s@) =~= mid.push(cats[m as int]));
                assert(cats.take(m + 1) =~= cats.take(m as int).push(cats[m as int]));
            }
            m = m + 1;
        }
        proof { assert(cats.take(self.categorical_sources@.len() as int) =~= cats); }
        let ghost after_cats = plan@.map_values(|s: Signal| s@);
        let mut i: usize = 0;
        proof { assert(after_cats + cause_signals(v.clauses, 0) =~= after_cats); }
        while i < self.clauses.len()
            invariant
                i <= self.clauses@.len(),
                v == self@,
                signals_ready(v),
                plan@.map_values(|s: Signal| s@) == after_cats + cause_signals(v.clauses, i as int),
            decreases self.clauses@.len() - i,
        {
            let c = &self.clauses[i];
            let ghost mid = plan@.map_values(|s: Signal| s@);
            match &c.probability {
                Some(p) => {
                    proof { assert(v.clauses[i as int].probability is Some); }
                    if !has_variable_arg(c.head.as_str()) {
                        let n = self.prob_index(i);
                        let name = cause_atom_name(c.head.as_str(), n);
                        let group = group_key_text(c.head.as_str(), n);
                        plan.push(Signal::Cause { name, probability: p.clone(), group });
                        proof {
                            assert(plan@.map_values(|s: Signal| s@) =~= mid.push(cause_signals(v.clauses, i + 1).last()));
                            assert(after_cats + cause_signals(v.clauses, i + 1) =~= mid.push(cause_signals(v.clauses, i + 1).last()));
                        }
                    }
                },
                None => {},
            }
            i = i + 1;
        }
        proof {
            let plan_v = signal_plan(v);
            assert(plan_v.drop_last().drop_last() =~= per_source);
            assert(plan_v.drop_last().last() == cats);
            assert(plan_v.last() == cause_signals(v.clauses, v.clauses.len() as int));
            assert(flatten_signals(plan_v.drop_last()) == flatten_signals(per_source) + cats);
            assert(flatten_signals(plan_v) == flatten_signals(plan_v.drop_last()) + plan_v.last());
            assert(flatten_signals(plan_v) =~= flatten_signals(per_source) + cats + cause_signals(v.clauses, v.clauses.len() as int));
        }
        plan
    }
}

// ── after solving ───────────────────────────────────────────────────────────

/// The cause bases of the probabilistic clauses before position `i` whose
/// heads have variables: for each, the base name of its cause atom, its
/// probability as written and its parameter key.
pub open spec fn fol_entries(clauses: Seq<ClauseView>, i: int) -> Seq<(Seq<char>, Seq<char>, Seq<char>)>
    decreases i,
{
    if i <= 0 {
        Seq::empty()
    } else {
        let c = clauses[i - 1];
        let rest = fol_entries(clauses, i - 1);
        if c.probability is Some && has_variable_arg_spec(c.head) {
            let n = prob_count(clauses.take(i - 1), c.head);
            rest.push((cause_name_spec(predicate_spec(c.head), n), c.probability->0, group_key(c.head, n)))
        } else {
            rest
        }
    }
}

/// A literal without its leading `-` signs.
pub open spec fn strip_minus(l: Seq<char>) -> Seq<char>
    decreases l.len(),
{
    if l.len() > 0 && l[0] == '-' { strip_minus(l.drop_first()) } else { l }
}

/// Whether `atom` is a grounding of the cause base `base`: the base itself
/// or the base applied to arguments.
pub open spec fn grounds_base(atom: Seq<char>, base: Seq<char>) -> bool {
    atom == base || has_prefix(atom, base + "("@)
}

/// The last cause entry whose base `atom` grounds.
pub open spec fn entry_for(entries: Seq<(Seq<char>, Seq<char>, Seq<char>)>, atom: Seq<char>) -> Option<(Seq<char>, Seq<char>, Seq<char>)>
    decreases entries.len(),
{
    if entries.len() == 0 {
        None
    } else if grounds_base(atom, entries.last().0) {
        Some(entries.last())
    } else {
        entry_for(entries.drop_last(), atom)
    }
}

/// The atoms of all literals of a formula, clause by clause.
pub open spec fn formula_atoms(dnf: Seq<Seq<Seq<char>>>) -> Seq<Seq<char>>
    decreases dnf.len(),
{
    if dnf.len() == 0 {
        Seq::empty()
    } else {
        formula_atoms(dnf.drop_last()) + dnf.last().map_values(|l: Seq<char>| strip_minus(l))
    }
}

/// The cause signals for the grounded atoms among `atoms`: one per distinct
/// atom that grounds a cause base, in order of first appearance.
pub open spec fn grounded_causes(entries: Seq<(Seq<char>, Seq<char>, Seq<char>)>, atoms: Seq<Seq<char>>) -> Seq<SignalView>
    decreases atoms.len(),
{
    if atoms.len() == 0 {
        Seq::empty()
    } else {
        let rest = grounded_causes(entries, atoms.drop_last());
        let a = atoms.last();
        match entry_for(entries, a) {
            Some(e) => if atoms.drop_last().contains(a) {
                rest
            } else {
                rest.push(SignalView::Cause { name: a, probability: e.1, group: e.2 })
            },
            None => rest,
        }
    }
}

/// Whether the heads of the probabilistic clauses can be taken apart.
pub open spec fn heads_ready(clauses: Seq<ClauseView>) -> bool {
    forall|i: int| 0 <= i < clauses.len() && (#[trigger] clauses[i]).probability is Some ==> args_sliceable(clauses[i].head)
}

/// A literal without its leading `-` signs, as a string.
fn strip_minus_text(l: &str) -> (atom: String)
    ensures
        atom@ == strip_minus(l@),
{
    let chars = chars_of(l);
    let n = chars.len();
    let mut a: usize = 0;
    assert(chars@.subrange(0, n as int) =~= l@);
    while a < n && chars[a] == '-'
        invariant
            a <= n,
            n == chars@.len(),
            strip_minus(l@) == strip_minus(chars@.subrange(a as int, n as int)),
        decreases n - a,
    {
        proof { assert(chars@.subrange(a as int, n as int).drop_first() =~= chars@.subrange(a + 1, n as int)); }
        a = a + 1;
    }
    string_from_range(&chars, a, n)
}

/// Whether `atom` is a grounding of the cause base `base`.
fn grounds_base_text(atom: &str, base: &str) -> (b: bool)
    ensures
        b == grounds_base(atom@, base@),
{
    if str_eq(atom, base) {
        return true;
    }
    let mut prefix = base.to_owned();
    push_str(&mut prefix, "(");
    starts_with(atom, prefix.as_str())
}

/// The position of the last cause entry whose base `atom` grounds.
fn find_entry(entries: &Vec<(String, String, String)>, atom: &str) -> (r: Option<usize>)
    ensures
        match entry_for(entries@.map_values(|e: (String, String, String)| (e.0@, e.1@, e.2@)), atom@) {
            Some(e) => r matches Some(k) && k < entries@.len() && (entries@[k as int].0@, entries@[k as int].1@, entries@[k as int].2@) == e,
            None => r is None,
        },
{
    let ghost ev = entries@.map_values(|e: (String, String, String)| (e.0@, e.1@, e.2@));
    let mut k: usize = entries.len();
    proof { assert(ev.take(k as int) =~= ev); }
    while k > 0
        invariant
            k <= entries@.len(),
            ev == entries@.map_values(|e: (String, String, String)| (e.0@, e.1@, e.2@)),
            entry_for(ev, atom@) == entry_for(ev.take(k as int), atom@),
        decreases k,
    {
        proof {
            assert(ev.take(k as int).drop_last() =~= ev.take(k - 1));
            assert(ev.take(k as int).last() == ev[k - 1]);
        }
        if grounds_base_text(atom, entries[k - 1].0.as_str()) {
            return Some(k - 1);
        }
        k = k - 1;
    }
    None
}

impl Resin {
    /// The cause bases of the probabilistic clauses whose heads have
    /// variables, in clause order.
    fn fol_cause_entries(&self) -> (entries: Vec<(String, String, String)>)
        requires
            heads_ready(self@.clauses),
        ensures
            entries@.map_values(|e: (String, String, String)| (e.0@, e.1@, e.2@))
                == fol_entries(self@.clauses, self@.clauses.len() as int),
    {
        let ghost cv = self@.clauses;
        let mut entries: Vec<(String, String, String)> = Vec::new();
        let mut i: usize = 0;
        while i < self.clauses.len()
            invariant
                i <= self.clauses@.len(),
                cv == self@.clauses,
                heads_ready(cv),
                entries@.map_values(|e: (String, String, String)| (e.0@, e.1@, e.2@)) == fol_entries(cv, i as int),
            decreases self.clauses@.len() - i,
        {
            let c = &self.clauses[i];
            let ghost before = entries@.map_values(|e: (String, String, String)| (e.0@, e.1@, e.2@));
            match &c.probability {
                Some(p) => {
                    proof { assert(cv[i as int].probability is Some); }
                    if has_variable_arg(c.head.as_str()) {
                        let n = self.prob_index(i);
                        let base = cause_atom_base_name(c.head.as_str(), n);
                        let group = group_key_text(c.head.as_str(), n);
                        entries.push((base, p.clone(), group));
                        proof {
                            assert(entries@.map_values(|e: (String, String, String)| (e.0@, e.1@, e.2@))
                                =~= before.push(fol_entries(cv, i + 1).last()));
                        }
                    }
                },
                None => {},
            }
            i = i + 1;
        }
        entries
    }

    /// The cause leaves to create once the program is solved: one per
    /// distinct atom in the formula (read without its `-` signs) that
    /// grounds the cause atom of a probabilistic clause with variables in
    /// its head, in order of first appearance, with that clause's
    /// probability and parameter key.
    #[verifier::spinoff_prover]
    pub fn fol_cause_signals(&self, dnf: &Dnf) -> (signals: Vec<Signal>)
        requires
            heads_ready(self@.clauses),
        ensures
            signals@.map_values(|s: Signal| s@)
                == grounded_causes(fol_entries(self@.clauses, self@.clauses.len() as int), formula_atoms(dnf@)),
    {
        let entries = self.fol_cause_entries();
        let ghost ev = fol_entries(self@.clauses, self@.clauses.len() as int);
        let ghost dv = dnf@;
        let mut signals: Vec<Signal> = Vec::new();
        let mut created: Vec<String> = Vec::new();
        let ghost mut atoms: Seq<Seq<char>> = Seq::empty();
        let mut i: usize = 0;
        proof { assert(formula_atoms(dv.take(0)) =~= atoms); }
        while i < dnf.clauses.len()
            invariant
                i <= dnf.clauses@.len(),
                dv == dnf@,
                ev == entries@.map_values(|e: (String, String, String)| (e.0@, e.1@, e.2@)),
                atoms == formula_atoms(dv.take(i as int)),
                signals@.map_values(|s: Signal| s@) == grounded_causes(ev, atoms),
                forall|x: Seq<char>| created@.map_values(|c: String| c@).contains(x)
                    <==> atoms.contains(x) && entry_for(ev, x) is Some,
            decreases dnf.clauses@.len() - i,
        {
            let clause = &dnf.clauses[i];
            let ghost lits = dv[i as int];
            let ghost base_atoms = atoms;
            proof {
                assert(lits == clause@.map_values(|l: String| l@));
                assert(lits.take(0).map_values(|l: Seq<char>| strip_minus(l)) =~= Seq::<Seq<char>>::empty());
                assert(atoms =~= base_atoms + lits.take(0).map_values(|l: Seq<char>| strip_minus(l)));
            }
            let mut j: usize = 0;
            while j < clause.len()
                invariant
                    i < dnf.clauses@.len(),
                    j <= clause@.len(),
                    clause == dnf.clauses@[i as int],
                    lits == clause@.map_values(|l: String| l@),
                    dv == dnf@,
                    ev == entries@.map_values(|e: (String, String, String)| (e.0@, e.1@, e.2@)),
                    atoms == base_atoms + lits.take(j as int).map_values(|l: Seq<char>| strip_minus(l)),
                    signals@.map_values(|s: Signal| s@) == grounded_causes(ev, atoms),
                    forall|x: Seq<char>| created@.map_values(|c: String| c@).contains(x)
                        <==> atoms.contains(x) && entry_for(ev, x) is Some,
                decreases clause@.len() - j,
            {
                let atom = strip_minus_text(clause[j].as_str());
                let ghost next = atoms.push(atom@);
                proof {
                    assert(lits[j as int] == clause@[j as int]@);
                    assert(base_atoms + lits.take(j + 1).map_values(|l: Seq<char>| strip_minus(l)) =~= next);
                    assert(next.drop_last() =~= atoms);
                    assert(next.last() == atom@);
                    assert forall|x: Seq<char>| next.contains(x) <==> atoms.contains(x) || x == atom@ by {
                        if next.contains(x) {
                            let q = choose|q: int| 0 <= q < next.len() && next[q] == x;
                            if q < atoms.len() { assert(atoms[q] == x); }
                        }
                        if atoms.contains(x) {
                            let q = choose|q: int| 0 <= q < atoms.len() && atoms[q] == x;
                            assert(next[q] == x);
                        }
                        if x == atom@ { assert(next[atoms.len() as int] == x); }
                    }
                }
                match find_entry(&entries, atom.as_str()) {
                    Some(k) => {
                        if !contains_text(&created, &atom) {
                            let ghost before = signals@.map_values(|s: Signal| s@);
                            let ghost cbefore = created@.map_values(|c: String| c@);
                            signals.push(Signal::Cause {
                                name: atom.clone(),
                                probability: entries[k].1.clone(),
                                group: entries[k].2.clone(),
                            });
                            created.push(atom);
                            proof {
                                assert(signals@.map_values(|s: Signal| s@) =~= grounded_causes(ev, next));
                                assert(created@.map_values(|c: String| c@) =~= cbefore.push(next.last()));
                                assert forall|x: Seq<char>| created@.map_values(|c: String| c@).contains(x)
                                    <==> next.contains(x) && entry_for(ev, x) is Some by {
                                    let cv2 = created@.map_values(|c: String| c@);
                                    if cv2.contains(x) && x != next.last() {
                                        let q = choose|q: int| 0 <= q < cv2.len() && cv2[q] == x;
                                        assert(cbefore[q] == x);
                                    }
                                    if cbefore.contains(x) {
                                        let q = choose|q: int| 0 <= q < cbefore.len() && cbefore[q] == x;
                                        assert(cv2[q] == x);
                                    }
                                    if x == next.last() { assert(cv2[cbefore.len() as int] == x); }
                                }
                            }
                        } else {
                            proof { assert(signals@.map_values(|s: Signal| s@) =~= grounded_causes(ev, next)); }
                        }
                    },
                    None => {
                        proof { assert(signals@.map_values(|s: Signal| s@) =~= grounded_causes(ev, next)); }
                    },
                }
                proof { atoms = next; }
                j = j + 1;
            }
            proof {
                assert(lits.take(clause@.len() as int) =~= lits);
                assert(dv.take(i + 1).drop_last() =~= dv.take(i as int));
                assert(dv.take(i + 1).last() == lits);
                assert(atoms == formula_atoms(dv.take(i + 1)));
            }
            i = i + 1;
        }
        proof { assert(dv.take(dnf.clauses@.len() as int) =~= dv); }
        signals
    }
}

/// The position of the last leaf named `name`, if any.
pub open spec fn last_index(names: Seq<Seq<char>>, name: Seq<char>) -> Option<int>
    decreases names.len(),
{
    if names.len() == 0 {
        None
    } else if names.last() == name {
        Some(names.len() - 1)
    } else {
        last_index(names.drop_last(), name)
    }
}

/// The leaves of the literals of a model clause that name a leaf, in order;
/// literals that name none (derived atoms) are left out.
pub open spec fn product_of(names: Seq<Seq<char>>, clause: Seq<Seq<char>>) -> Seq<u32>
    decreases clause.len(),
{
    if clause.len() == 0 {
        Seq::empty()
    } else {
        let rest = product_of(names, clause.drop_last());
        match last_index(names, clause.last()) {
            Some(k) => rest.push(k as u32),
            None => rest,
        }
    }
}

/// The position of the last leaf named `name`.
fn leaf_position(names: &Vec<String>, name: &String) -> (r: Option<usize>)
    ensures
        match last_index(names@.map_values(|n: String| n@), name@) {
            Some(k) => r == Some(k as usize) && 0 <= k < names@.len(),
            None => r is None,
        },
{
    let ghost nv = names@.map_values(|n: String| n@);
    let mut k: usize = names.len();
    proof { assert(nv.take(k as int) =~= nv); }
    while k > 0
        invariant
            k <= names@.len(),
            nv == names@.map_values(|n: String| n@),
            last_index(nv, name@) == last_index(nv.take(k as int), name@),
        decreases k,
    {
        proof {
            assert(nv.take(k as int).drop_last() =~= nv.take(k - 1));
            assert(nv.take(k as int).last() == nv[k - 1]);
            lemma_last_index_bound(nv.take(k - 1), name@);
        }
        if names[k - 1] == *name {
            return Some(k - 1);
        }
        k = k - 1;
    }
    None
}

proof fn lemma_last_index_bound(names: Seq<Seq<char>>, name: Seq<char>)
    ensures
        last_index(names, name) matches Some(k) ==> 0 <= k < names.len(),
    decreases names.len(),
{
    if names.len() > 0 {
        lemma_last_index_bound(names.drop_last(), name);
    }
}

/// The sum of products for a formula: for each model clause, the positions
/// among `leaf_names` of the leaves its literals name (the last leaf of
/// that name), skipping literals that name no leaf.
pub fn sum_product_from_dnf(dnf: &Dnf, leaf_names: &Vec<String>) -> (products: Vec<Vec<u32>>)
    requires
        leaf_names@.len() <= u32::MAX,
    ensures
        products@.map_values(|p: Vec<u32>| p@)
            == dnf@.map_values(|c: Seq<Seq<char>>| product_of(leaf_names@.map_values(|n: String| n@), c)),
{
    let ghost nv = leaf_names@.map_values(|n: String| n@);
    let ghost f = |c: Seq<Seq<char>>| product_of(nv, c);
    let mut products: Vec<Vec<u32>> = Vec::new();
    let mut i: usize = 0;
    while i < dnf.clauses.len()
        invariant
            i <= dnf.clauses@.len(),
            leaf_names@.len() <= u32::MAX,
            nv == leaf_names@.map_values(|n: String| n@),
            f == (|c: Seq<Seq<char>>| product_of(nv, c)),
            products@.map_values(|p: Vec<u32>| p@) == dnf@.take(i as int).map_values(f),
        decreases dnf.clauses@.len() - i,
    {
        let clause = &dnf.clauses[i];
        let ghost lits = clause@.map_values(|l: String| l@);
        let mut product: Vec<u32> = Vec::new();
        let mut j: usize = 0;
        while j < clause.len()
            invariant
                j <= clause@.len(),
                leaf_names@.len() <= u32::MAX,
                nv == leaf_names@.map_values(|n: String| n@),
                lits == clause@.map_values(|l: String| l@),
                product@ == product_of(nv, lits.take(j as int)),
            decreases clause@.len() - j,
        {
            proof {
                assert(lits.take(j + 1).drop_last() =~= lits.take(j as int));
                assert(lits.take(j + 1).last() == clause@[j as int]@);
            }
            match leaf_position(leaf_names, &clause[j]) {
                Some(k) => product.push(k as u32),
                None => {},
            }
            j = j + 1;
        }
        proof {
            assert(lits.take(clause@.len() as int) =~= lits);
            assert(dnf@[i as int] == lits);
        }
        let ghost before = products@.map_values(|p: Vec<u32>| p@);
        products.push(product);
        proof {
            assert(products@.map_values(|p: Vec<u32>| p@) =~= before.push(f(dnf@[i as int])));
            assert(dnf@.take(i + 1).map_values(f) =~= dnf@.take(i as int).map_values(f).push(f(dnf@[i as int])));
        }
        i = i + 1;
    }
    proof { assert(dnf@.take(dnf.clauses@.len() as int) =~= dnf@); }
    products
}

/// The position of the first source whose atom or channel is `name`,
/// searching from position `k` on.
pub open spec fn source_named(sources: Seq<(Seq<char>, Seq<char>, ResinType)>, name: Seq<char>, k: int) -> Option<int>
    decreases sources.len() - k,
{
    if k < 0 || k >= sources.len() {
        None
    } else if sources[k].0 == name || sources[k].1 == name {
        Some(k)
    } else {
        source_named(sources, name, k + 1)
    }
}

/// The position of the first categorical source with channel `name`,
/// searching from position `k` on.
pub open spec fn categorical_named(cats: Seq<(Seq<Seq<char>>, Seq<char>)>, name: Seq<char>, k: int) -> Option<int>
    decreases cats.len() - k,
{
    if k < 0 || k >= cats.len() {
        None
    } else if cats[k].1 == name {
        Some(k)
    } else {
        categorical_named(cats, name, k + 1)
    }
}

/// The positive leaves of the source named `name` (by atom or channel):
/// its own leaf for a Probability or Boolean source, its comparison leaves
/// for a Density or Number source; else the category leaves of the
/// categorical source with that channel; else none.
pub open spec fn source_leaves(v: ResinView, name: Seq<char>) -> Seq<Seq<char>> {
    match source_named(v.sources, name, 0) {
        Some(k) => match v.sources[k].2 {
            ResinType::Probability | ResinType::Boolean => seq![v.sources[k].0],
            ResinType::Density | ResinType::Number => collected_comparisons(v.clauses, v.sources[k].0).map_values(
                |c: ComparisonView| c.canonical_name,
            ),
            ResinType::Categorical => Seq::empty(),
        },
        None => match categorical_named(v.categorical_sources, name, 0) {
            Some(k) => v.categorical_sources[k].0,
            None => Seq::empty(),
        },
    }
}

impl Resin {
    /// The positive leaf names of a source, looked up by its atom or its
    /// channel: the atom itself for a Probability or Boolean source, one
    /// per comparison for a Density or Number source, one per category for
    /// a categorical source (looked up by channel only); none when nothing
    /// matches.
    pub fn source_leaf_names(&self, name: &str) -> (leaves: Vec<String>)
        requires
            source_named(self@.sources, name@, 0) matches Some(k) ==> {
                &&& self@.sources[k].2 != ResinType::Categorical
                &&& compared(self@.sources[k].2) ==> groundable(self@.clauses, self@.sources[k].0)
            },
        ensures
            leaves@.map_values(|l: String| l@) == source_leaves(self@, name@),
    {
        let ghost v = self@;
        let mut k: usize = 0;
        while k < self.sources.len()
            invariant
                k <= self.sources@.len(),
                v == self@,
                source_named(v.sources, name@, 0) == source_named(v.sources, name@, k as int),
                source_named(v.sources, name@, 0) matches Some(q) ==> {
                    &&& v.sources[q].2 != ResinType::Categorical
                    &&& compared(v.sources[q].2) ==> groundable(v.clauses, v.sources[q].0)
                },
            decreases self.sources@.len() - k,
        {
            let source = &self.sources[k];
            if str_eq(source.name.as_str(), name) || str_eq(source.channel.as_str(), name) {
                proof {
                    assert(source_named(v.sources, name@, k as int) == Some(k as int));
                    assert(v.sources[k as int] == source@);
                }
                let mut leaves: Vec<String> = Vec::new();
                match source.message_type {
                    ResinType::Probability | ResinType::Boolean => {
                        leaves.push(source.name.clone());
                        proof { assert(leaves@.map_values(|l: String| l@) =~= seq![source.name@]); }
                    },
                    ResinType::Density | ResinType::Number => {
                        proof { assert(compared(v.sources[k as int].2)); }
                        let comparisons = self.collect_comparisons_for(source.name.as_str());
                        let ghost cs = comparisons@.map_values(|c: ComparisonLiteral| c@);
                        let mut m: usize = 0;
                        while m < comparisons.len()
                            invariant
                                m <= comparisons@.len(),
                                cs == comparisons@.map_values(|c: ComparisonLiteral| c@),
                                leaves@.map_values(|l: String| l@) == cs.take(m as int).map_values(|c: ComparisonView| c.canonical_name),
                            decreases comparisons@.len() - m,
                        {
                            leaves.push(comparisons[m].canonical_name.clone());
                            proof {
                                assert(cs.take(m + 1).map_values(|c: ComparisonView| c.canonical_name)
                                    =~= cs.take(m as int).map_values(|c: ComparisonView| c.canonical_name).push(cs[m as int].canonical_name));
                            }
                            m = m + 1;
                        }
                        proof { assert(cs.take(comparisons@.len() as int) =~= cs); }
                    },
                    ResinType::Categorical => {},
                }
                return leaves;
            }
            k = k + 1;
        }
        let mut m: usize = 0;
        while m < self.categorical_sources.len()
            invariant
                m <= self.categorical_sources@.len(),
                v == self@,
                source_named(v.sources, name@, 0) is None,
                categorical_named(v.categorical_sources, name@, 0) == categorical_named(v.categorical_sources, name@, m as int),
            decreases self.categorical_sources@.len() - m,
        {
            let cat = &self.categorical_sources[m];
            if str_eq(cat.channel.as_str(), name) {
                let mut leaves: Vec<String> = Vec::new();
                let mut q: usize = 0;
                while q < cat.categories.len()
                    invariant
                        q <= cat.categories@.len(),
                        leaves@.map_values(|c: String| c@) == cat.categories@.take(q as int).map_values(|c: String| c@),
                    decreases cat.categories@.len() - q,
                {
                    leaves.push(cat.categories[q].clone());
                    proof {
                        assert(cat.categories@.take(q + 1).map_values(|c: String| c@)
                            =~= cat.categories@.take(q as int).map_values(|c: String| c@).push(cat.categories@[q as int]@));
                    }
                    q = q + 1;
                }
                proof { assert(cat.categories@.take(cat.categories@.len() as int) =~= cat.categories@); }
                return leaves;
            }
            m = m + 1;
        }
        Vec::new()
    }
}

// ── laws ────────────────────────────────────────────────────────────────────

proof fn lemma_prob_count_grows(clauses: Seq<ClauseView>, head: Seq<char>, i: int, j: int)
    requires
        0 <= i < j <= clauses.len(),
        clauses[i].probability is Some,
        clauses[i].head == head,
    ensures
        prob_count(clauses.take(j), head) >= prob_count(clauses.take(i), head) + 1,
    decreases j - i,
{
    assert(clauses.take(j).drop_last() =~= clauses.take(j - 1));
    if j - 1 > i {
        lemma_prob_count_grows(clauses, head, i, j - 1);
    } else {
        assert(clauses.take(j).last() == clauses[i]);
    }
}

/// Two probabilistic clauses with the same head get distinct cause atoms,
/// so that they act as independent causes (a noisy-OR) rather than sharing
/// one choice.
pub proof fn law_same_head_distinct_causes(clauses: Seq<ClauseView>, i: int, j: int)
    requires
        0 <= i < j < clauses.len(),
        clauses[i].probability is Some,
        clauses[j].probability is Some,
        clauses[i].head == clauses[j].head,
    ensures
        cause_name_spec(clauses[i].head, prob_count(clauses.take(i), clauses[i].head))
            != cause_name_spec(clauses[j].head, prob_count(clauses.take(j), clauses[j].head)),
        cause_name_spec(predicate_spec(clauses[i].head), prob_count(clauses.take(i), clauses[i].head))
            != cause_name_spec(predicate_spec(clauses[j].head), prob_count(clauses.take(j), clauses[j].head)),
{
    let head = clauses[i].head;
    lemma_prob_count_grows(clauses, head, i, j);
    crate::language::matching::law_cause_names_distinct(
        head, prob_count(clauses.take(i), head), prob_count(clauses.take(j), head));
    crate::language::matching::law_cause_names_distinct(
        predicate_spec(head), prob_count(clauses.take(i), head), prob_count(clauses.take(j), head));
}

/// The comparisons collected for a source have distinct canonical names.
pub proof fn law_collected_names_distinct(clauses: Seq<ClauseView>, name: Seq<char>, a: int, b: int)
    requires
        0 <= a < b < collected_comparisons(clauses, name).len(),
    ensures
        collected_comparisons(clauses, name)[a].canonical_name != collected_comparisons(clauses, name)[b].canonical_name,
{
    lemma_first_of_each_name_distinct(clause_comparisons_for(clauses, name));
}

proof fn lemma_first_of_each_name_distinct(s: Seq<ComparisonView>)
    ensures
        forall|a: int, b: int| 0 <= a < b < first_of_each_name(s).len()
            ==> (#[trigger] first_of_each_name(s)[a]).canonical_name != (#[trigger] first_of_each_name(s)[b]).canonical_name,
    decreases s.len(),
{
    if s.len() > 0 {
        lemma_first_of_each_name_distinct(s.drop_last());
        let d = first_of_each_name(s.drop_last());
        if !has_name(d, s.last().canonical_name) {
            let e = d.push(s.last());
            assert forall|a: int, b: int| 0 <= a < b < e.len() implies (#[trigger] e[a]).canonical_name != (#[trigger] e[b]).canonical_name by {
                if b == d.len() {
                    assert(e[a] == d[a]);
                    if d[a].canonical_name == s.last().canonical_name {
                        assert(has_name(d, s.last().canonical_name));
                    }
                } else {
                    assert(e[a] == d[a]);
                    assert(e[b] == d[b]);
                }
            }
        }
    }
}

/// No two helper rules in the ASP program are the same.
pub proof fn law_helper_rules_distinct(rules: Seq<Seq<char>>, a: int, b: int)
    requires
        0 <= a < b < dedup_texts(rules).len(),
    ensures
        dedup_texts(rules)[a] != dedup_texts(rules)[b],
{
    lemma_dedup_distinct(rules);
}

proof fn lemma_dedup_distinct(s: Seq<Seq<char>>)
    ensures
        forall|a: int, b: int| 0 <= a < b < dedup_texts(s).len() ==> #[trigger] dedup_texts(s)[a] != #[trigger] dedup_texts(s)[b],
    decreases s.len(),
{
    if s.len() > 0 {
        lemma_dedup_distinct(s.drop_last());
        let d = dedup_texts(s.drop_last());
        if !d.contains(s.last()) {
            let e = d.push(s.last());
            assert forall|a: int, b: int| 0 <= a < b < e.len() implies #[trigger] e[a] != #[trigger] e[b] by {
                assert(e[a] == d[a]);
                if b < d.len() {
                    assert(e[b] == d[b]);
                } else if d[a] == s.last() {
                    assert(d.contains(s.last()));
                }
            }
        }
    }
}

proof fn lemma_last_index_names(names: Seq<Seq<char>>, name: Seq<char>)
    ensures
        last_index(names, name) matches Some(k) ==> 0 <= k < names.len() && names[k] == name,
    decreases names.len(),
{
    if names.len() > 0 && names.last() != name {
        lemma_last_index_names(names.drop_last(), name);
    }
}

/// Every leaf in the product of a model clause is named by one of that
/// clause's literals: derived atoms without a leaf are left out, nothing is
/// added.
pub proof fn law_products_name_literals(names: Seq<Seq<char>>, clause: Seq<Seq<char>>, k: int)
    requires
        names.len() <= u32::MAX,
        0 <= k < product_of(names, clause).len(),
    ensures
        product_of(names, clause)[k] < names.len(),
        clause.contains(names[product_of(names, clause)[k] as int]),
    decreases clause.len(),
{
    let rest = product_of(names, clause.drop_last());
    lemma_last_index_names(names, clause.last());
    if k < rest.len() {
        law_products_name_literals(names, clause.drop_last(), k);
        let lit = names[rest[k] as int];
        let q = choose|q: int| 0 <= q < clause.drop_last().len() && clause.drop_last()[q] == lit;
        assert(clause[q] == lit);
    } else {
        let idx = last_index(names, clause.last())->0;
        assert(product_of(names, clause)[k] == idx as u32);
        assert(clause[clause.len() - 1] == names[idx]);
    }
}

/// The text that statements are read from holds no comment sign and no
/// line break: every comment has been cut and the lines joined by spaces.
pub proof fn law_program_text_has_no_comments(input: Seq<char>)
    ensures
        !program_text(input).contains('#'),
        !program_text(input).contains('\n'),
{
    let lines = lines_of(input);
    let cleaned = nonempty(lines.map_values(|l: Seq<char>| clean_line(l)));
    assert forall|k: int| 0 <= k < cleaned.len() implies !(#[trigger] cleaned[k]).contains('#') && !cleaned[k].contains('\n') by {
        let mapped = lines.map_values(|l: Seq<char>| clean_line(l));
        lemma_nonempty_member(mapped, k);
        let j = choose|j: int| 0 <= j < mapped.len() && #[trigger] mapped[j] == cleaned[k];
        lemma_clean_line_plain(lines[j]);
        lemma_lines_plain(input, j);
    }
    reveal_strlit(" ");
    assert(" "@ =~= seq![' ']);
    lemma_join_avoids(cleaned, " "@, '#');
    lemma_join_avoids(cleaned, " "@, '\n');
}

proof fn lemma_nonempty_member(s: Seq<Seq<char>>, k: int)
    requires
        0 <= k < nonempty(s).len(),
    ensures
        exists|j: int| 0 <= j < s.len() && #[trigger] s[j] == nonempty(s)[k],
{
    s.lemma_filter_contains_rev(|x: Seq<char>| x.len() > 0, nonempty(s)[k]);
    assert(nonempty(s).contains(nonempty(s)[k]));
}

proof fn lemma_clean_line_plain(l: Seq<char>)
    ensures
        !l.contains('\n') ==> !clean_line(l).contains('#') && !clean_line(l).contains('\n'),
        !clean_line(l).contains('#'),
{
    lemma_find_first(l, '#');
    let b = before_comment(l);
    assert(!b.contains('#'));
    assert(!l.contains('\n') ==> !b.contains('\n'));
    let a = crate::text::lemma_trim_start_offset(b);
    lemma_trim_end_prefix(b.skip(a));
    assert(!b.skip(a).contains('#'));
    assert(!l.contains('\n') ==> !b.skip(a).contains('\n'));
}

proof fn lemma_trim_end_prefix(s: Seq<char>)
    ensures
        exists|n: int| 0 <= n <= s.len() && trim_end(s) == s.take(n),
    decreases s.len(),
{
    if s.len() > 0 && crate::text::char_is_whitespace(s.last()) {
        lemma_trim_end_prefix(s.drop_last());
        let n = choose|n: int| 0 <= n <= s.drop_last().len() && trim_end(s.drop_last()) == s.drop_last().take(n);
        assert(s.drop_last().take(n) =~= s.take(n));
    } else {
        assert(s.take(s.len() as int) =~= s);
    }
}

proof fn lemma_lines_plain(input: Seq<char>, j: int)
    requires
        0 <= j < lines_of(input).len(),
    ensures
        !lines_of(input)[j].contains('\n'),
{
    lemma_split_pieces_plain(input, '\n');
    let pieces = split_on(input, '\n');
    let front = pieces.drop_last().map_values(|l: Seq<char>| without_cr(l));
    if j < front.len() {
        assert(!pieces[j].contains('\n'));
        if pieces[j].len() > 0 && pieces[j].last() == '\r' {
            assert(pieces[j].drop_last() =~= pieces[j].take(pieces[j].len() - 1));
        }
    } else {
        assert(lines_of(input)[j] == pieces.last());
    }
}

proof fn lemma_split_pieces_plain(s: Seq<char>, sep: char)
    ensures
        forall|k: int| 0 <= k < split_on(s, sep).len() ==> !(#[trigger] split_on(s, sep)[k]).contains(sep),
        split_on(s, sep).len() >= 1,
    decreases s.len(),
{
    if s.len() > 0 {
        lemma_split_pieces_plain(s.drop_first(), sep);
        let rest = split_on(s.drop_first(), sep);
        if s[0] == sep {
            assert forall|k: int| 0 <= k < split_on(s, sep).len() implies !(#[trigger] split_on(s, sep)[k]).contains(sep) by {
                if k > 0 { assert(split_on(s, sep)[k] == rest[k - 1]); }
                else { assert(split_on(s, sep)[0] =~= Seq::<char>::empty()); }
            }
        } else {
            assert forall|k: int| 0 <= k < split_on(s, sep).len() implies !(#[trigger] split_on(s, sep)[k]).contains(sep) by {
                if k > 0 {
                    assert(split_on(s, sep)[k] == rest[k]);
                } else {
                    let p = seq![s[0]] + rest[0];
                    assert(split_on(s, sep)[0] == p);
                    if p.contains(sep) {
                        let q = choose|q: int| 0 <= q < p.len() && p[q] == sep;
                        if q > 0 { assert(rest[0][q - 1] == sep); assert(rest[0].contains(sep)); }
                    }
                }
            }
        }
    }
}

proof fn lemma_join_avoids(parts: Seq<Seq<char>>, sep: Seq<char>, c: char)
    requires
        forall|k: int| 0 <= k < parts.len() ==> !(#[trigger] parts[k]).contains(c),
        !sep.contains(c),
    ensures
        !join(parts, sep).contains(c),
    decreases parts.len(),
{
    if parts.len() > 1 {
        lemma_join_avoids(parts.drop_last(), sep, c);
        let a = join(parts.drop_last(), sep);
        let whole = a + sep + parts.last();
        assert(!parts.last().contains(c));
        if whole.contains(c) {
            let q = choose|q: int| 0 <= q < whole.len() && whole[q] == c;
            if q < a.len() {
                assert(a[q] == c);
                assert(a.contains(c));
            } else if q < a.len() + sep.len() {
                assert(sep[q - a.len()] == c);
                assert(sep.contains(c));
            } else {
                assert(parts.last()[q - a.len() - sep.len()] == c);
                assert(parts.last().contains(c));
            }
        }
    } else if parts.len() == 1 {
        assert(!parts[0].contains(c));
    }
}

/// Whether the argument list of `atom` can be sliced (`args_sliceable`).
fn args_sliceable_text(atom: &str) -> (b: bool)
    ensures
        b == args_sliceable(atom@),
{
    let cs = chars_of(atom);
    let open = crate::text::find_char(&cs, '(');
    let n = cs.len();
    proof {
        if n > 0 {
            assert(cs@.last() == cs@[n - 1]);
        }
    }
    match open {
        Some(p) => n >= 2 && p <= n - 2 && (cs[n - 1] as u32) < 128,
        None => true,
    }
}

/// Whether the last `)` of `atom` comes after its first `(` (`parens_ordered`).
fn parens_ordered_text(atom: &str) -> (b: bool)
    ensures
        b == parens_ordered(atom@),
{
    let cs = chars_of(atom);
    let open = crate::text::find_char(&cs, '(');
    let close = crate::text::rfind_char(&cs, ')');
    match (open, close) {
        (Some(o), Some(c)) => o < c,
        _ => true,
    }
}

impl Resin {
    /// Whether looking for a reference to `name` only takes apart argument
    /// lists that can be (`reference_search_safe`).
    fn reference_search_is_safe(&self, name: &str) -> (b: bool)
        ensures
            b == reference_search_safe(self@.clauses, name@),
    {
        let ghost cv = self@.clauses;
        let ghost nm = name@;
        let mut i: usize = 0;
        while i < self.clauses.len()
            invariant
                i <= self.clauses@.len(),
                cv == self@.clauses,
                nm == name@,
                forall|i2: int, j2: int| 0 <= i2 < i && 0 <= j2 < cv[i2].body.len() ==> !refers_to(#[trigger] cv[i2].body[j2], nm),
                forall|i2: int, j2: int| 0 <= i2 < i && 0 <= j2 < cv[i2].body.len()
                    && strip_not(#[trigger] cv[i2].body[j2]) != nm && predicate_spec(strip_not(cv[i2].body[j2])) == predicate_spec(nm)
                    ==> args_sliceable(strip_not(cv[i2].body[j2])),
            decreases self.clauses@.len() - i,
        {
            let body = &self.clauses[i].body;
            let mut j: usize = 0;
            while j < body.len()
                invariant
                    i < self.clauses@.len(),
                    j <= body@.len(),
                    body == self.clauses@[i as int].body,
                    cv == self@.clauses,
                    nm == name@,
                    forall|i2: int, j2: int| 0 <= i2 < i && 0 <= j2 < cv[i2].body.len() ==> !refers_to(#[trigger] cv[i2].body[j2], nm),
                    forall|i2: int, j2: int| 0 <= i2 < i && 0 <= j2 < cv[i2].body.len()
                        && strip_not(#[trigger] cv[i2].body[j2]) != nm && predicate_spec(strip_not(cv[i2].body[j2])) == predicate_spec(nm)
                        ==> args_sliceable(strip_not(cv[i2].body[j2])),
                    forall|j2: int| 0 <= j2 < j ==> !refers_to(#[trigger] cv[i as int].body[j2], nm),
                    forall|j2: int| 0 <= j2 < j && strip_not(#[trigger] cv[i as int].body[j2]) != nm
                        && predicate_spec(strip_not(cv[i as int].body[j2])) == predicate_spec(nm)
                        ==> args_sliceable(strip_not(cv[i as int].body[j2])),
                decreases body@.len() - j,
            {
                let ghost l = cv[i as int].body[j as int];
                proof { assert(l == body@[j as int]@); }
                let base = strip_not_text(body[j].as_str());
                if str_eq(base.as_str(), name) {
                    proof { self.lemma_search_safe_from(nm, i as int, j as int); }
                    return true;
                }
                if str_eq(predicate_of(base.as_str()), predicate_of(name)) {
                    if !args_sliceable_text(base.as_str()) {
                        proof {
                            assert(!referenced_before(cv, nm, i as int, j as int));
                        }
                        return false;
                    }
                    if has_variable_arg(base.as_str()) {
                        proof { self.lemma_search_safe_from(nm, i as int, j as int); }
                        return true;
                    }
                }
                j = j + 1;
            }
            i = i + 1;
        }
        true
    }

    /// Once literal `j` of clause `i` refers to `name`, and the literals
    /// before it are safe to examine, the whole search is safe.
    proof fn lemma_search_safe_from(&self, nm: Seq<char>, i: int, j: int)
        requires
            0 <= i < self@.clauses.len(),
            0 <= j < self@.clauses[i].body.len(),
            refers_to(self@.clauses[i].body[j], nm),
            strip_not(self@.clauses[i].body[j]) != nm && predicate_spec(strip_not(self@.clauses[i].body[j])) == predicate_spec(nm)
                ==> args_sliceable(strip_not(self@.clauses[i].body[j])),
            forall|i2: int, j2: int| 0 <= i2 < i && 0 <= j2 < self@.clauses[i2].body.len()
                && strip_not(#[trigger] self@.clauses[i2].body[j2]) != nm
                && predicate_spec(strip_not(self@.clauses[i2].body[j2])) == predicate_spec(nm)
                ==> args_sliceable(strip_not(self@.clauses[i2].body[j2])),
            forall|j2: int| 0 <= j2 < j && strip_not(#[trigger] self@.clauses[i].body[j2]) != nm
                && predicate_spec(strip_not(self@.clauses[i].body[j2])) == predicate_spec(nm)
                ==> args_sliceable(strip_not(self@.clauses[i].body[j2])),
        ensures
            reference_search_safe(self@.clauses, nm),
    {
        let cv = self@.clauses;
        assert forall|i2: int, j2: int|
            0 <= i2 < cv.len() && 0 <= j2 < cv[i2].body.len()
                && !referenced_before(cv, nm, i2, j2)
                && strip_not(#[trigger] cv[i2].body[j2]) != nm
                && predicate_spec(strip_not(cv[i2].body[j2])) == predicate_spec(nm)
            implies args_sliceable(strip_not(cv[i2].body[j2])) by {
            if i2 > i || (i2 == i && j2 > j) {
                assert(refers_to(cv[i].body[j], nm));
                assert(referenced_before(cv, nm, i2, j2));
            }
        }
    }

    /// Whether every variable comparison on the predicate of `name` has
    /// ordered parentheses, as `name` then must too (`groundable`).
    fn is_groundable(&self, name: &str) -> (b: bool)
        ensures
            b == groundable(self@.clauses, name@),
    {
        let ghost cv = self@.clauses;
        let name_ordered = parens_ordered_text(name);
        let pred = predicate_of(name);
        let mut i: usize = 0;
        while i < self.clauses.len()
            invariant
                i <= self.clauses@.len(),
                cv == self@.clauses,
                name_ordered == parens_ordered(name@),
                pred@ == predicate_spec(name@),
                forall|i2: int, j2: int| 0 <= i2 < i && 0 <= j2 < cv[i2].comparison_literals.len()
                    && (#[trigger] cv[i2].comparison_literals[j2]).is_variable
                    && predicate_spec(cv[i2].comparison_literals[j2].source_atom) == predicate_spec(name@)
                    ==> parens_ordered(cv[i2].comparison_literals[j2].source_atom) && parens_ordered(name@),
            decreases self.clauses@.len() - i,
        {
            let comparisons = &self.clauses[i].comparison_literals;
            let mut j: usize = 0;
            while j < comparisons.len()
                invariant
                    i < self.clauses@.len(),
                    j <= comparisons@.len(),
                    comparisons == self.clauses@[i as int].comparison_literals,
                    cv == self@.clauses,
                    name_ordered == parens_ordered(name@),
                    pred@ == predicate_spec(name@),
                    forall|i2: int, j2: int| 0 <= i2 < i && 0 <= j2 < cv[i2].comparison_literals.len()
                        && (#[trigger] cv[i2].comparison_literals[j2]).is_variable
                        && predicate_spec(cv[i2].comparison_literals[j2].source_atom) == predicate_spec(name@)
                        ==> parens_ordered(cv[i2].comparison_literals[j2].source_atom) && parens_ordered(name@),
                    forall|j2: int| 0 <= j2 < j
                        && (#[trigger] cv[i as int].comparison_literals[j2]).is_variable
                        && predicate_spec(cv[i as int].comparison_literals[j2].source_atom) == predicate_spec(name@)
                        ==> parens_ordered(cv[i as int].comparison_literals[j2].source_atom) && parens_ordered(name@),
                decreases comparisons@.len() - j,
            {
                let c = &comparisons[j];
                proof { assert(cv[i as int].comparison_literals[j as int] == c@); }
                if c.is_variable && str_eq(predicate_of(c.source_atom.as_str()), pred) {
                    if !(parens_ordered_text(c.source_atom.as_str()) && name_ordered) {
                        return false;
                    }
                }
                j = j + 1;
            }
            i = i + 1;
        }
        true
    }

    /// Whether the program can be rendered as ASP (`asp_ready`).
    pub fn is_asp_ready(&self) -> (b: bool)
        ensures
            b == asp_ready(self@),
    {
        let mut k: usize = 0;
        while k < self.sources.len()
            invariant
                k <= self.sources@.len(),
                forall|q: int| 0 <= q < k ==> source_ready(self@.clauses, #[trigger] self@.sources[q]),
            decreases self.sources@.len() - k,
        {
            let source = &self.sources[k];
            proof { assert(self@.sources[k as int] == source@); }
            let ok = match source.message_type {
                ResinType::Probability | ResinType::Boolean => self.reference_search_is_safe(source.name.as_str()),
                ResinType::Density | ResinType::Number => self.is_groundable(source.name.as_str()),
                ResinType::Categorical => false,
            };
            if !ok {
                return false;
            }
            k = k + 1;
        }
        let mut i: usize = 0;
        while i < self.clauses.len()
            invariant
                i <= self.clauses@.len(),
                forall|q: int| 0 <= q < self.sources@.len() ==> source_ready(self@.clauses, #[trigger] self@.sources[q]),
                forall|q: int| 0 <= q < i ==> clause_ready(#[trigger] self@.clauses[q]),
            decreases self.clauses@.len() - i,
        {
            let clause = &self.clauses[i];
            proof { assert(self@.clauses[i as int] == clause@); }
            if clause.probability.is_some() {
                if !args_sliceable_text(clause.head.as_str()) {
                    return false;
                }
                if has_variable_arg(clause.head.as_str()) && !parens_ordered_text(clause.head.as_str()) {
                    return false;
                }
            }
            i = i + 1;
        }
        true
    }

    /// Whether every probabilistic clause has a head whose argument list
    /// can be sliced (`heads_ready`).
    pub fn heads_are_ready(&self) -> (b: bool)
        ensures
            b == heads_ready(self@.clauses),
    {
        let mut i: usize = 0;
        while i < self.clauses.len()
            invariant
                i <= self.clauses@.len(),
                forall|q: int| 0 <= q < i && (#[trigger] self@.clauses[q]).probability is Some
                    ==> args_sliceable(self@.clauses[q].head),
            decreases self.clauses@.len() - i,
        {
            let clause = &self.clauses[i];
            proof { assert(self@.clauses[i as int] == clause@); }
            if clause.probability.is_some() && !args_sliceable_text(clause.head.as_str()) {
                return false;
            }
            i = i + 1;
        }
        true
    }

    /// Whether the signals of the program can be planned (`signals_ready`).
    pub fn is_signals_ready(&self) -> (b: bool)
        ensures
            b == signals_ready(self@),
    {
        let mut k: usize = 0;
        while k < self.sources.len()
            invariant
                k <= self.sources@.len(),
                forall|q: int| 0 <= q < k ==> (#[trigger] self@.sources[q]).2 != ResinType::Categorical,
                forall|q: int| 0 <= q < k && compared(self@.sources[q].2) ==> groundable(self@.clauses, #[trigger] self@.sources[q].0),
            decreases self.sources@.len() - k,
        {
            let source = &self.sources[k];
            proof { assert(self@.sources[k as int] == source@); }
            let ok = match source.message_type {
                ResinType::Categorical => false,
                ResinType::Density | ResinType::Number => self.is_groundable(source.name.as_str()),
                _ => true,
            };
            if !ok {
                proof {
                    let v = self@;
                    assert(v.sources[k as int].0 == source.name@);
                    assert(v.sources[k as int].2 == source.message_type);
                    if source.message_type != ResinType::Categorical {
                        assert(compared(v.sources[k as int].2));
                        assert(!groundable(v.clauses, v.sources[k as int].0));
                    }
                }
                return false;
            }
            k = k + 1;
        }
        self.heads_are_ready()
    }

    /// The ASP program of target `target_index`, when the program can be
    /// rendered (`asp_ready`); `None` otherwise.
    pub fn checked_asp(&self, target_index: usize) -> (asp: Option<String>)
        requires
            target_index < self@.targets.len(),
        ensures
            asp is Some <==> asp_ready(self@),
            asp matches Some(a) ==> a@ == resin_asp(self@, target_index as int),
    {
        if self.is_asp_ready() {
            Some(self.to_asp(target_index))
        } else {
            None
        }
    }

    /// The signals of the program, when they can be planned
    /// (`signals_ready`); `None` otherwise.
    pub fn checked_signal_plan(&self) -> (plan: Option<Vec<Signal>>)
        ensures
            plan is Some <==> signals_ready(self@),
            plan matches Some(p) ==> p@.map_values(|s: Signal| s@) == flatten_signals(signal_plan(self@)),
    {
        if self.is_signals_ready() {
            Some(self.signal_plan())
        } else {
            None
        }
    }

    /// The cause signals of the models `dnf`, when every probabilistic head
    /// can be taken apart (`heads_ready`); `None` otherwise.
    pub fn checked_fol_cause_signals(&self, dnf: &Dnf) -> (signals: Option<Vec<Signal>>)
        ensures
            signals is Some <==> heads_ready(self@.clauses),
            signals matches Some(v) ==> v@.map_values(|s: Signal| s@)
                == grounded_causes(fol_entries(self@.clauses, self@.clauses.len() as int), formula_atoms(dnf@)),
    {
        if self.heads_are_ready() {
            Some(self.fol_cause_signals(dnf))
        } else {
            None
        }
    }
}

} // verus!
