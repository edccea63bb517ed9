use vstd::prelude::*;
use crate::language::matching::{
    args_of, args_sliceable, args_spec, canonical_comparison_name, canonical_name_spec, get_literals,
    has_variable_arg, has_variable_arg_spec, literals_spec, parameterized_comparison_predicate,
    parameterized_name_spec, parens_ordered, predicate_of, predicate_spec, starts_upper, AND_KEYWORD_PATTERN,
    CATEGORICAL_SOURCE_PATTERN, CLAUSE_PATTERN, COMPARISON_PATTERN, LITERAL_PATTERN, SOURCE_PATTERN, TARGET_PATTERN,
};
use crate::language::pattern::{
    regex_capture, regex_compiles, regex_find_all, regex_group_all, regex_replace_all, regex_split, Pattern,
};
use crate::text::{
    chars_of, find_char, find_first, find_last, is_uppercase, join, push_joined, push_joined_strs, push_str, rfind_char,
    split_on, split_trim, str_eq, trim,
};

verus! {

/// How the values of a source are turned into leaf probabilities.
#[derive(Clone, Copy, Debug, PartialEq, Eq, Structural)]
pub enum ResinType {
    /// A value already in [0, 1] — passed through directly.
    Probability,
    /// A continuous density: evaluated at each comparison threshold.
    Density,
    /// A numeric value: compared against each threshold.
    Number,
    /// A boolean: `true` → 1, `false` → 0.
    Boolean,
    /// A categorical distribution: a probability per class, summing to 1.
    Categorical,
}

/// The type a name denotes, if any.
pub open spec fn resin_type_named(name: Seq<char>) -> Option<ResinType> {
    if name == "Probability"@ {
        Some(ResinType::Probability)
    } else if name == "Density"@ {
        Some(ResinType::Density)
    } else if name == "Number"@ {
        Some(ResinType::Number)
    } else if name == "Boolean"@ {
        Some(ResinType::Boolean)
    } else if name == "Categorical"@ {
        Some(ResinType::Categorical)
    } else {
        None
    }
}

impl ResinType {
    /// The type named `input` (`"Probability"`, `"Density"`, `"Number"`,
    /// `"Boolean"` or `"Categorical"`), or `Err(())` for any other text.
    pub fn from_name(input: &str) -> (t: Result<ResinType, ()>)
        ensures
            t matches Ok(x) ==> resin_type_named(input@) == Some(x),
            t is Err <==> resin_type_named(input@) is None,
    {
        if str_eq(input, "Probability") {
            Ok(ResinType::Probability)
        } else if str_eq(input, "Density") {
            Ok(ResinType::Density)
        } else if str_eq(input, "Number") {
            Ok(ResinType::Number)
        } else if str_eq(input, "Boolean") {
            Ok(ResinType::Boolean)
        } else if str_eq(input, "Categorical") {
            Ok(ResinType::Categorical)
        } else {
            Err(())
        }
    }
}

impl std::str::FromStr for ResinType {
    type Err = ();

    fn from_str(input: &str) -> (t: Result<ResinType, ()>)
        ensures
            t matches Ok(x) ==> resin_type_named(input@) == Some(x),
            t is Err <==> resin_type_named(input@) is None,
    {
        ResinType::from_name(input)
    }
}

/// A declared Resin input source, e.g.
/// `distance(hospital) <- source("/dist/hospital", Density).`
///
/// `name` is the atom that appears in clause bodies; `channel` is the topic
/// its values arrive on; `message_type` says how they become probabilities.
pub struct Source {
    pub name: String,
    pub channel: String,
    pub message_type: ResinType,
}

/// A declared Resin output target, e.g. `safe -> target("/safety").`
pub struct Target {
    pub name: String,
    pub channel: String,
    pub message_type: ResinType,
}

/// A declared categorical source, e.g.
/// `{dog, cat, horse} <- source("/cls", Categorical).`; each category atom
/// gets its own leaf and exactly one of them holds in each model.
#[derive(Clone)]
pub struct CategoricalSource {
    pub categories: Vec<String>,
    pub channel: String,
}

/// The fields a source declaration yields: its atom, its topic and its type.
pub open spec fn source_fields(input: Seq<char>) -> Option<(Seq<char>, Seq<char>, ResinType)> {
    match (
        regex_capture(SOURCE_PATTERN@, input, "atom"@),
        regex_capture(SOURCE_PATTERN@, input, "topic"@),
        regex_capture(SOURCE_PATTERN@, input, "dtype"@),
    ) {
        (Some(atom), Some(topic), Some(dtype)) => match resin_type_named(dtype) {
            Some(t) => Some((atom, topic, t)),
            None => None,
        },
        _ => None,
    }
}

/// The fields a target declaration yields: its atom, its topic and the
/// type of its values, which are probabilities.
pub open spec fn target_fields(input: Seq<char>) -> Option<(Seq<char>, Seq<char>, ResinType)> {
    match (regex_capture(TARGET_PATTERN@, input, "atom"@), regex_capture(TARGET_PATTERN@, input, "topic"@)) {
        (Some(atom), Some(topic)) => Some((atom, topic, ResinType::Probability)),
        _ => None,
    }
}

/// The texts of `s` that are not empty.
pub open spec fn nonempty(s: Seq<Seq<char>>) -> Seq<Seq<char>> {
    s.filter(|x: Seq<char>| x.len() > 0)
}

/// The fields a categorical source declaration yields: its categories (the
/// trimmed, non-empty pieces between commas) and its topic.
pub open spec fn categorical_fields(input: Seq<char>) -> Option<(Seq<Seq<char>>, Seq<char>)> {
    match (
        regex_capture(CATEGORICAL_SOURCE_PATTERN@, input, "categories"@),
        regex_capture(CATEGORICAL_SOURCE_PATTERN@, input, "topic"@),
    ) {
        (Some(categories), Some(topic)) => Some((
            nonempty(split_on(categories, ',').map_values(|x: Seq<char>| trim(x))),
            topic,
        )),
        _ => None,
    }
}

impl View for Source {
    type V = (Seq<char>, Seq<char>, ResinType);

    open spec fn view(&self) -> (Seq<char>, Seq<char>, ResinType) {
        (self.name@, self.channel@, self.message_type)
    }
}

impl View for Target {
    type V = (Seq<char>, Seq<char>, ResinType);

    open spec fn view(&self) -> (Seq<char>, Seq<char>, ResinType) {
        (self.name@, self.channel@, self.message_type)
    }
}

impl View for CategoricalSource {
    type V = (Seq<Seq<char>>, Seq<char>);

    open spec fn view(&self) -> (Seq<Seq<char>>, Seq<char>) {
        (self.categories@.map_values(|c: String| c@), self.channel@)
    }
}

impl CategoricalSource {
    /// Parses a categorical source declaration such as
    /// `{dog, cat, horse} <- source("/cls", Categorical).`; `Err(())` when it
    /// does not match the categorical source grammar.
    pub fn from_declaration(input: &str) -> (source: Result<CategoricalSource, ()>)
        ensures
            source is Ok <==> regex_compiles(CATEGORICAL_SOURCE_PATTERN@) && categorical_fields(input@) is Some,
            source matches Ok(s) ==> categorical_fields(input@) == Some(s@),
    {
        let pattern = match Pattern::new(CATEGORICAL_SOURCE_PATTERN) {
            Some(p) => p,
            None => return Err(()),
        };
        let (listed, channel) = match (pattern.capture(input, "categories"), pattern.capture(input, "topic")) {
            (Some(c), Some(t)) => (c, t),
            _ => return Err(()),
        };
        let pieces = split_trim(listed.as_str(), ',');
        let ghost pv = pieces@.map_values(|p: String| p@);
        let mut categories: Vec<String> = Vec::new();
        let mut i: usize = 0;
        while i < pieces.len()
            invariant
                i <= pieces@.len(),
                pv == pieces@.map_values(|p: String| p@),
                categories@.map_values(|c: String| c@) == nonempty(pv.take(i as int)),
            decreases pieces@.len() - i,
        {
            let ghost before = categories@;
            if !pieces[i].as_str().is_empty() {
                categories.push(pieces[i].clone());
                proof {
                    assert(categories@.map_values(|c: String| c@) =~= before.map_values(|c: String| c@).push(pv[i as int]));
                }
            }
            proof {
                assert(pv.take(i + 1) =~= pv.take(i as int).push(pv[i as int]));
                pv.take(i as int).lemma_filter_push(pv[i as int], |x: Seq<char>| x.len() > 0);
            }
            i = i + 1;
        }
        proof { assert(pv.take(pieces@.len() as int) =~= pv); }
        Ok(CategoricalSource { categories, channel })
    }
}

impl std::str::FromStr for CategoricalSource {
    type Err = ();

    fn from_str(input: &str) -> (source: Result<CategoricalSource, ()>)
        ensures
            source is Ok <==> regex_compiles(CATEGORICAL_SOURCE_PATTERN@) && categorical_fields(input@) is Some,
            source matches Ok(s) ==> categorical_fields(input@) == Some(s@),
    {
        CategoricalSource::from_declaration(input)
    }
}

impl Source {
    /// Renders this source as an ASP choice atom `{name}.\n`.
    pub fn to_asp(&self) -> (asp: String)
        ensures
            asp@ == "{"@ + self.name@ + "}.\n"@,
    {
        let mut asp = String::new();
        push_str(&mut asp, "{");
        push_str(&mut asp, self.name.as_str());
        push_str(&mut asp, "}.\n");
        asp
    }

    /// Parses a source declaration such as
    /// `distance(hospital) <- source("/dist/hospital", Density).`;
    /// `Err(())` when it does not match the source grammar.
    pub fn from_declaration(input: &str) -> (source: Result<Source, ()>)
        ensures
            source is Ok <==> regex_compiles(SOURCE_PATTERN@) && source_fields(input@) is Some,
            source matches Ok(s) ==> source_fields(input@) == Some(s@),
    {
        let pattern = match Pattern::new(SOURCE_PATTERN) {
            Some(p) => p,
            None => return Err(()),
        };
        let atom = pattern.capture(input, "atom");
        let topic = pattern.capture(input, "topic");
        let dtype = pattern.capture(input, "dtype");
        match (atom, topic, dtype) {
            (Some(name), Some(channel), Some(dtype)) => match ResinType::from_name(dtype.as_str()) {
                Ok(message_type) => Ok(Source { name, channel, message_type }),
                Err(()) => Err(()),
            },
            _ => Err(()),
        }
    }
}

impl std::str::FromStr for Source {
    type Err = ();

    fn from_str(input: &str) -> (source: Result<Source, ()>)
        ensures
            source is Ok <==> regex_compiles(SOURCE_PATTERN@) && source_fields(input@) is Some,
            source matches Ok(s) ==> source_fields(input@) == Some(s@),
    {
        Source::from_declaration(input)
    }
}

impl Target {
    /// Renders this target as an ASP integrity constraint `:- not name.\n`,
    /// which keeps only the models where `name` holds.
    pub fn to_asp(&self) -> (asp: String)
        ensures
            asp@ == ":- not "@ + self.name@ + ".\n"@,
    {
        let mut asp = String::new();
        push_str(&mut asp, ":- not ");
        push_str(&mut asp, self.name.as_str());
        push_str(&mut asp, ".\n");
        asp
    }

    /// Parses a target declaration such as `safe -> target("/safety").`;
    /// `Err(())` when it does not match the target grammar.  A target's
    /// values are probabilities.
    pub fn from_declaration(input: &str) -> (target: Result<Target, ()>)
        ensures
            target is Ok <==> regex_compiles(TARGET_PATTERN@) && target_fields(input@) is Some,
            target matches Ok(t) ==> target_fields(input@) == Some(t@),
    {
        let pattern = match Pattern::new(TARGET_PATTERN) {
            Some(p) => p,
            None => return Err(()),
        };
        match (pattern.capture(input, "atom"), pattern.capture(input, "topic")) {
            (Some(name), Some(channel)) => Ok(Target { name, channel, message_type: ResinType::Probability }),
            _ => Err(()),
        }
    }
}

impl std::str::FromStr for Target {
    type Err = ();

    fn from_str(input: &str) -> (target: Result<Target, ()>)
        ensures
            target is Ok <==> regex_compiles(TARGET_PATTERN@) && target_fields(input@) is Some,
            target matches Ok(t) ==> target_fields(input@) == Some(t@),
    {
        Target::from_declaration(input)
    }
}

// ── comparison literals ─────────────────────────────────────────────────────

/// A comparison literal extracted from a clause body, e.g.
/// `distance(hospital) < 20.0`.
///
/// `threshold` is the threshold as written in the program.  For a ground
/// comparison (`is_variable` false) `canonical_name` is the flat leaf name,
/// e.g. `"distance_hospital_lt_20"`; for a comparison on an atom with a
/// variable, e.g. `distance(T) > 100`, it is the parameterized atom that the
/// solver grounds, e.g. `"resin_distance_gt_100(T)"`.
#[derive(Clone, Debug)]
pub struct ComparisonLiteral {
    pub source_atom: String,
    pub op: char,
    pub threshold: String,
    pub canonical_name: String,
    /// Whether `source_atom` has a variable argument (uppercase first character).
    pub is_variable: bool,
}

/// The contents of a comparison literal.
#[verifier::ext_equal]
pub struct ComparisonView {
    pub source_atom: Seq<char>,
    pub op: char,
    pub threshold: Seq<char>,
    pub canonical_name: Seq<char>,
    pub is_variable: bool,
}

impl View for ComparisonLiteral {
    type V = ComparisonView;

    open spec fn view(&self) -> ComparisonView {
        ComparisonView {
            source_atom: self.source_atom@,
            op: self.op,
            threshold: self.threshold@,
            canonical_name: self.canonical_name@,
            is_variable: self.is_variable,
        }
    }
}

/// An atom whose argument list the comparison code can take apart.
pub open spec fn atom_usable(atom: Seq<char>) -> bool {
    args_sliceable(atom) && parens_ordered(atom)
}

/// The name a comparison takes in a rule body: for an atom with a variable,
/// the parameterized predicate applied to the atom's arguments; otherwise
/// the flat canonical name.
pub open spec fn comparison_name(atom: Seq<char>, op: char, threshold: Seq<char>) -> Seq<char> {
    if has_variable_arg_spec(atom) {
        parameterized_name_spec(predicate_spec(atom), op, threshold) + "("@ + match args_spec(atom) {
            Some(args) => join(args, ", "@),
            None => Seq::empty(),
        } + ")"@
    } else {
        canonical_name_spec(atom, op, threshold)
    }
}

/// The comparison literal for an atom, an operator and a threshold.
pub open spec fn comparison_view(atom: Seq<char>, op: char, threshold: Seq<char>) -> ComparisonView {
    ComparisonView {
        source_atom: atom,
        op,
        threshold,
        canonical_name: comparison_name(atom, op, threshold),
        is_variable: has_variable_arg_spec(atom),
    }
}

/// Whether a variable comparison `template` applies to the source atom
/// `source`: same predicate, and where both have argument lists, the same
/// number of arguments with every constant argument of the template equal
/// to the source's.
pub open spec fn grounds(template: ComparisonView, source: Seq<char>) -> bool {
    &&& template.is_variable
    &&& predicate_spec(template.source_atom) == predicate_spec(source)
    &&& match (args_spec(template.source_atom), args_spec(source)) {
        (Some(t), Some(s)) => t.len() == s.len()
            && forall|k: int| 0 <= k < t.len() ==> starts_upper(#[trigger] t[k]) || t[k] == s[k],
        _ => true,
    }
}

/// Whether `atom` can be taken apart by the comparison code.
fn is_usable_atom(atom: &str) -> (b: bool)
    ensures
        b == atom_usable(atom@),
{
    let chars = chars_of(atom);
    let n = chars.len();
    let sliceable = match find_char(&chars, '(') {
        Some(p) => {
            proof { crate::text::lemma_find_first(chars@, '('); }
            n - p >= 2 && (chars[n - 1] as u32) < 128
        },
        None => true,
    };
    let ordered = match (find_char(&chars, '('), rfind_char(&chars, ')')) {
        (Some(o), Some(c)) => o < c,
        _ => true,
    };
    proof {
        if n > 0 {
            assert(atom@.last() == chars@[n - 1]);
        }
    }
    sliceable && ordered
}

/// Whether the trimmed template argument `t` is a variable or equals `s`.
fn argument_fits(t: &str, s: &str) -> (b: bool)
    ensures
        b == (starts_upper(t@) || t@ == s@),
{
    let chars = chars_of(t);
    if chars.len() > 0 && is_uppercase(chars[0]) {
        return true;
    }
    str_eq(t, s)
}

impl ComparisonLiteral {
    /// The comparison literal for `atom`, `op` and `threshold`, with its
    /// name computed.
    fn from_parts(atom: &str, op: char, threshold: &str) -> (c: ComparisonLiteral)
        requires
            atom_usable(atom@),
        ensures
            c@ == comparison_view(atom@, op, threshold@),
    {
        let is_variable = has_variable_arg(atom);
        let canonical_name = if is_variable {
            let mut name = parameterized_comparison_predicate(predicate_of(atom), op, threshold);
            push_str(&mut name, "(");
            match args_of(atom) {
                Some(args) => push_joined_strs(&mut name, &args, ", "),
                None => {},
            }
            push_str(&mut name, ")");
            name
        } else {
            canonical_comparison_name(atom, op, threshold)
        };
        let c = ComparisonLiteral {
            source_atom: atom.to_owned(),
            op,
            threshold: threshold.to_owned(),
            canonical_name,
            is_variable,
        };
        proof {
            if is_variable {
                match args_spec(atom@) {
                    Some(args) => {},
                    None => { assert(c.canonical_name@ =~= comparison_name(atom@, op, threshold@)); },
                }
            }
        }
        c
    }

    /// Whether the positive leaf carries P(X > threshold), i.e. the operator
    /// is `>`.
    pub fn is_upper_tail(&self) -> (b: bool)
        ensures
            b == (self.op == '>'),
    {
        self.op == '>'
    }

    /// For a variable comparison, the ground comparison for the source atom
    /// `source_name` (e.g. `"distance(hospital, airport)"`); `None` when this
    /// comparison is ground, the predicates differ, or an argument list of a
    /// different length or a differing constant argument rules it out.
    pub fn ground_for(&self, source_name: &str) -> (g: Option<ComparisonLiteral>)
        requires
            self.is_variable && predicate_spec(self.source_atom@) == predicate_spec(source_name@)
                ==> parens_ordered(self.source_atom@) && parens_ordered(source_name@),
        ensures
            g is Some <==> grounds(self@, source_name@),
            g matches Some(c) ==> c@ == (ComparisonView {
                source_atom: source_name@,
                op: self.op,
                threshold: self.threshold@,
                canonical_name: canonical_name_spec(source_name@, self.op, self.threshold@),
                is_variable: false,
            }),
    {
        if !self.is_variable {
            return None;
        }
        if !str_eq(predicate_of(self.source_atom.as_str()), predicate_of(source_name)) {
            return None;
        }
        match (args_of(self.source_atom.as_str()), args_of(source_name)) {
            (Some(tmpl), Some(src)) => {
                let ghost t = tmpl@.map_values(|a: &str| a@);
                let ghost s = src@.map_values(|a: &str| a@);
                proof {
                    assert(args_spec(self.source_atom@) == Some(t));
                    assert(args_spec(source_name@) == Some(s));
                }
                if tmpl.len() != src.len() {
                    return None;
                }
                let mut k: usize = 0;
                while k < tmpl.len()
                    invariant
                        k <= tmpl@.len(),
                        tmpl@.len() == src@.len(),
                        t == tmpl@.map_values(|a: &str| a@),
                        s == src@.map_values(|a: &str| a@),
                        args_spec(self.source_atom@) == Some(t),
                        args_spec(source_name@) == Some(s),
                        forall|j: int| 0 <= j < k ==> starts_upper(#[trigger] t[j]) || t[j] == s[j],
                    decreases tmpl@.len() - k,
                {
                    if !argument_fits(tmpl[k], src[k]) {
                        proof {
                            assert(t[k as int] == tmpl@[k as int]@);
                            assert(s[k as int] == src@[k as int]@);
                            assert(!(starts_upper(t[k as int]) || t[k as int] == s[k as int]));
                        }
                        return None;
                    }
                    k = k + 1;
                }
            },
            _ => {},
        }
        Some(ComparisonLiteral {
            source_atom: source_name.to_owned(),
            op: self.op,
            threshold: self.threshold.clone(),
            canonical_name: canonical_comparison_name(source_name, self.op, self.threshold.as_str()),
            is_variable: false,
        })
    }
}

/// The comparisons in `body`: one per match of the comparison pattern,
/// built from the match's atom, the first character of its operator and its
/// threshold, when every match has an atom the code can take apart, an
/// operator and a threshold.
pub open spec fn body_comparisons(body: Seq<char>) -> Option<Seq<ComparisonView>> {
    let atoms = regex_group_all(COMPARISON_PATTERN@, body, "comp_atom"@);
    let ops = regex_group_all(COMPARISON_PATTERN@, body, "comp_op"@);
    let thresholds = regex_group_all(COMPARISON_PATTERN@, body, "comp_threshold"@);
    let n = atoms.len();
    if ops.len() == n && thresholds.len() == n && forall|i: int| 0 <= i < n ==> {
        &&& #[trigger] atoms[i] matches Some(a) && atom_usable(a)
        &&& ops[i] matches Some(o) && o.len() > 0
        &&& thresholds[i] is Some
    } {
        Some(Seq::new(n, |i: int| comparison_view(atoms[i]->0, ops[i]->0[0], thresholds[i]->0)))
    } else {
        None
    }
}

/// The pieces `gaps` with `names[i]` put between piece `i` and piece `i + 1`.
pub open spec fn interleave(gaps: Seq<Seq<char>>, names: Seq<Seq<char>>) -> Seq<char>
    decreases names.len(),
{
    if names.len() == 0 {
        if gaps.len() > 0 { gaps[0] } else { Seq::empty() }
    } else {
        interleave(gaps.drop_last(), names.drop_last()) + names.last() + gaps.last()
    }
}

/// `body` with each comparison replaced by its name.
pub open spec fn rewritten_body(body: Seq<char>, comparisons: Seq<ComparisonView>) -> Seq<char> {
    interleave(regex_split(COMPARISON_PATTERN@, body), comparisons.map_values(|c: ComparisonView| c.canonical_name))
}

/// Whether the patterns that the clause parser uses all compile.
pub open spec fn body_patterns_compile() -> bool {
    regex_compiles(COMPARISON_PATTERN@) && regex_compiles(AND_KEYWORD_PATTERN@) && regex_compiles(LITERAL_PATTERN@)
}

/// Replaces each comparison literal in `body` (e.g.
/// `distance(hospital) < 20.0`) by its name and returns the literals of the
/// rewritten body together with the comparisons.  `None` when a pattern does
/// not compile or a match lacks its parts.
fn process_body(body: &str) -> (r: Option<(Vec<String>, Vec<ComparisonLiteral>)>)
    ensures
        r is Some <==> body_patterns_compile() && body_comparisons(body@) is Some,
        r matches Some((literals, comparisons)) ==> {
            &&& comparisons@.map_values(|c: ComparisonLiteral| c@) == body_comparisons(body@)->0
            &&& literals@.map_values(|s: String| s@) == literals_spec(rewritten_body(body@, body_comparisons(body@)->0))
        },
{
    let cp = match Pattern::new(COMPARISON_PATTERN) {
        Some(p) => p,
        None => return None,
    };
    let atoms = cp.capture_all(body, "comp_atom");
    let ops = cp.capture_all(body, "comp_op");
    let thresholds = cp.capture_all(body, "comp_threshold");
    let gaps = cp.split(body);
    let ghost av = atoms@.map_values(|c: Option<String>| match c { Some(s) => Some(s@), None => None });
    let ghost ov = ops@.map_values(|c: Option<String>| match c { Some(s) => Some(s@), None => None });
    let ghost tv = thresholds@.map_values(|c: Option<String>| match c { Some(s) => Some(s@), None => None });
    let ghost gv = gaps@.map_values(|s: String| s@);
    let n = atoms.len();
    let mut comparisons: Vec<ComparisonLiteral> = Vec::new();
    let mut processed = gaps[0].clone();
    let ghost mut names: Seq<Seq<char>> = Seq::empty();
    let mut i: usize = 0;
    proof {
        assert(gv.take(1).drop_last() =~= Seq::<Seq<char>>::empty());
        assert(processed@ == interleave(gv.take(1), names));
    }
    while i < n
        invariant
            i <= n,
            n == atoms@.len(),
            ops@.len() == n,
            thresholds@.len() == n,
            gaps@.len() == n + 1,
            cp@ == COMPARISON_PATTERN@,
            av == regex_group_all(COMPARISON_PATTERN@, body@, "comp_atom"@),
            ov == regex_group_all(COMPARISON_PATTERN@, body@, "comp_op"@),
            tv == regex_group_all(COMPARISON_PATTERN@, body@, "comp_threshold"@),
            gv == regex_split(COMPARISON_PATTERN@, body@),
            av == atoms@.map_values(|c: Option<String>| match c { Some(s) => Some(s@), None => None }),
            ov == ops@.map_values(|c: Option<String>| match c { Some(s) => Some(s@), None => None }),
            tv == thresholds@.map_values(|c: Option<String>| match c { Some(s) => Some(s@), None => None }),
            gv == gaps@.map_values(|s: String| s@),
            forall|j: int| 0 <= j < i ==> {
                &&& #[trigger] av[j] matches Some(a) && atom_usable(a)
                &&& ov[j] matches Some(o) && o.len() > 0
                &&& tv[j] is Some
            },
            comparisons@.map_values(|c: ComparisonLiteral| c@)
                == Seq::new(i as nat, |j: int| comparison_view(av[j]->0, ov[j]->0[0], tv[j]->0)),
            names == comparisons@.map_values(|c: ComparisonLiteral| c@.canonical_name),
            processed@ == interleave(gv.take(i + 1), names),
        decreases n - i,
    {
        let atom = match &atoms[i] {
            Some(a) => a,
            None => {
                proof { assert(!(av[i as int] is Some)); }
                return None;
            },
        };
        let op_text = match &ops[i] {
            Some(o) => o,
            None => {
                proof { assert(!(ov[i as int] is Some)); }
                return None;
            },
        };
        let threshold = match &thresholds[i] {
            Some(t) => t,
            None => {
                proof { assert(!(tv[i as int] is Some)); }
                return None;
            },
        };
        let op_chars = chars_of(op_text.as_str());
        if op_chars.len() == 0 || !is_usable_atom(atom.as_str()) {
            proof {
                assert(av[i as int] == Some(atom@));
                assert(ov[i as int] == Some(op_text@));
            }
            return None;
        }
        let comparison = ComparisonLiteral::from_parts(atom.as_str(), op_chars[0], threshold.as_str());
        push_str(&mut processed, comparison.canonical_name.as_str());
        push_str(&mut processed, gaps[i + 1].as_str());
        let ghost before = comparisons@;
        comparisons.push(comparison);
        proof {
            assert(av[i as int] == Some(atom@));
            assert(ov[i as int] == Some(op_text@));
            assert(tv[i as int] == Some(threshold@));
            assert(op_chars@ == op_text@);
            assert(ov[i as int]->0[0] == op_chars@[0]);
            assert(comparison@ == comparison_view(av[i as int]->0, ov[i as int]->0[0], tv[i as int]->0));
            assert(comparisons@.map_values(|c: ComparisonLiteral| c@)
                =~= before.map_values(|c: ComparisonLiteral| c@).push(comparison@));
            assert(comparisons@.map_values(|c: ComparisonLiteral| c@)
                =~= Seq::new((i + 1) as nat, |j: int| comparison_view(av[j]->0, ov[j]->0[0], tv[j]->0)));
            let new_names = comparisons@.map_values(|c: ComparisonLiteral| c@.canonical_name);
            assert(new_names =~= names.push(comparison.canonical_name@));
            assert(gv.take(i + 2).drop_last() =~= gv.take(i + 1));
            assert(new_names.drop_last() =~= names);
            names = new_names;
        }
        i = i + 1;
    }
    proof {
        assert(gv.take(n + 1) =~= gv);
        let comps = body_comparisons(body@);
        assert(comps is Some);
        assert(comps->0 =~= comparisons@.map_values(|c: ComparisonLiteral| c@));
        assert(names =~= comps->0.map_values(|c: ComparisonView| c.canonical_name));
    }
    match get_literals(processed.as_str()) {
        Some(literals) => Some((literals, comparisons)),
        None => None,
    }
}

// ── clauses ─────────────────────────────────────────────────────────────────

/// A parsed Resin rule, e.g. `unsafe(a, b) <- P(0.65) if close(a, b) and heavy(a).`
///
/// `head` is the conclusion; `probability` is the `P(…)` weight as written,
/// when present; `body` holds the body literals after the comparison
/// literals have been replaced by their names; `comparison_literals` holds
/// the comparisons; `code` is the statement's text.
pub struct Clause {
    pub head: String,
    pub probability: Option<String>,
    pub body: Vec<String>,
    pub comparison_literals: Vec<ComparisonLiteral>,
    pub code: String,
}

/// The contents of a clause.
#[verifier::ext_equal]
pub struct ClauseView {
    pub head: Seq<char>,
    pub probability: Option<Seq<char>>,
    pub body: Seq<Seq<char>>,
    pub comparison_literals: Seq<ComparisonView>,
    pub code: Seq<char>,
}

/// The text an optional string holds.
pub open spec fn text_of(o: Option<String>) -> Option<Seq<char>> {
    match o {
        Some(s) => Some(s@),
        None => None,
    }
}

impl View for Clause {
    type V = ClauseView;

    open spec fn view(&self) -> ClauseView {
        ClauseView {
            head: self.head@,
            probability: text_of(self.probability),
            body: self.body@.map_values(|l: String| l@),
            comparison_literals: self.comparison_literals@.map_values(|c: ComparisonLiteral| c@),
            code: self.code@,
        }
    }
}

/// Whether all the patterns the clause parser uses compile.
pub open spec fn clause_patterns_compile() -> bool {
    regex_compiles(CLAUSE_PATTERN@) && body_patterns_compile()
}

/// The clause a statement yields: the head, probability and body groups of
/// the clause pattern, with the body's comparisons replaced by their names
/// (an absent body counts as empty).
pub open spec fn clause_fields(input: Seq<char>) -> Option<ClauseView> {
    match regex_capture(CLAUSE_PATTERN@, input, "atom"@) {
        None => None,
        Some(head) => {
            let body = match regex_capture(CLAUSE_PATTERN@, input, "body"@) {
                Some(b) => b,
                None => Seq::empty(),
            };
            match body_comparisons(body) {
                None => None,
                Some(comparisons) => Some(ClauseView {
                    head,
                    probability: regex_capture(CLAUSE_PATTERN@, input, "probability"@),
                    body: literals_spec(rewritten_body(body, comparisons)),
                    comparison_literals: comparisons,
                    code: input,
                }),
            }
        },
    }
}

/// A clause as an ASP rule: a choice `{head}` when probabilistic, else the
/// head; then ` :- ` and the body literals joined by `, ` when there are
/// any; then `.` and a newline.
pub open spec fn clause_asp(c: ClauseView) -> Seq<char> {
    (if c.probability is Some { "{"@ + c.head + "}"@ } else { c.head })
        + (if c.body.len() > 0 { " :- "@ + join(c.body, ", "@) } else { Seq::empty() })
        + ".\n"@
}

impl Clause {
    /// Parses a Resin rule in fact form (`head.`) or rule form
    /// (`head <- P(p) if body.`); `Err(())` when the input does not match
    /// the clause grammar.
    pub fn from_statement(input: &str) -> (c: Result<Clause, ()>)
        ensures
            c is Ok <==> clause_patterns_compile() && clause_fields(input@) is Some,
            c matches Ok(cl) ==> clause_fields(input@) == Some(cl@),
    {
        let pattern = match Pattern::new(CLAUSE_PATTERN) {
            Some(p) => p,
            None => return Err(()),
        };
        let head = match pattern.capture(input, "atom") {
            Some(h) => h,
            None => return Err(()),
        };
        let body = match pattern.capture(input, "body") {
            Some(b) => b,
            None => String::new(),
        };
        let probability = pattern.capture(input, "probability");
        match process_body(body.as_str()) {
            Some((literals, comparisons)) => {
                let c = Clause {
                    head,
                    probability,
                    body: literals,
                    comparison_literals: comparisons,
                    code: input.to_owned(),
                };
                proof {
                    assert(text_of(probability) == regex_capture(CLAUSE_PATTERN@, input@, "probability"@));
                }
                Ok(c)
            },
            None => Err(()),
        }
    }

    /// Renders this clause as an ASP choice rule (when probabilistic) or a
    /// deterministic rule, terminated with `.` and a newline.
    pub fn to_asp(&self) -> (asp: String)
        ensures
            asp@ == clause_asp(self@),
    {
        let mut asp = String::new();
        if self.probability.is_some() {
            push_str(&mut asp, "{");
            push_str(&mut asp, self.head.as_str());
            push_str(&mut asp, "}");
        } else {
            push_str(&mut asp, self.head.as_str());
        }
        let ghost head_part = asp@;
        if self.body.len() > 0 {
            push_str(&mut asp, " :- ");
            push_joined(&mut asp, &self.body, ", ");
        } else {
            assert(asp@ =~= head_part + Seq::<char>::empty());
        }
        push_str(&mut asp, ".\n");
        asp
    }

    /// The clause that the statement's text gives after every match of the
    /// pattern `variable` is replaced by `instance`; `Err(())` when
    /// `variable` is not a valid pattern or the new text is not a clause.
    pub fn substitute(&self, variable: String, instance: String) -> (c: Result<Clause, ()>)
        ensures
            c is Ok <==> regex_compiles(variable@) && clause_patterns_compile()
                && clause_fields(regex_replace_all(variable@, self.code@, instance@)) is Some,
            c matches Ok(cl) ==> clause_fields(regex_replace_all(variable@, self.code@, instance@)) == Some(cl@),
    {
        let pattern = match Pattern::new(variable.as_str()) {
            Some(p) => p,
            None => return Err(()),
        };
        let substituted = pattern.replace_all(self.code.as_str(), instance.as_str());
        Clause::from_statement(substituted.as_str())
    }
}

impl std::str::FromStr for Clause {
    type Err = ();

    fn from_str(input: &str) -> (c: Result<Clause, ()>)
        ensures
            c is Ok <==> clause_patterns_compile() && clause_fields(input@) is Some,
            c matches Ok(cl) ==> clause_fields(input@) == Some(cl@),
    {
        Clause::from_statement(input)
    }
}

} // verus!
