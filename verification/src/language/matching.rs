use vstd::prelude::*;
use crate::text::{
    char_is_whitespace, lemma_trim_start_offset, trim_end,
    chars_of, char_is_alphanumeric, push_char, push_range, skip_leading, drop_trailing, trim_char_end, trim_char_start, lemma_decimal_injective, char_is_uppercase, decimal, find_char, find_first, find_last, is_alphanumeric,
    is_digit, is_uppercase, lemma_find_first, lemma_find_first_at, lemma_split_on_first, push_decimal, push_str,
    rfind_char, split_on, string_from_range, trim, trim_char, trim_char_range, trim_range,
};

use crate::language::pattern::{regex_compiles, regex_find_all, regex_replace_all, Pattern};

verus! {

// ── the Resin grammar ───────────────────────────────────────────────────────

/// A literal: an optionally negated atom, e.g. `not close(a, b)`.
pub const LITERAL_PATTERN: &'static str = r"(?<literal>(not\s+)?\w+(\([\w\s,]+\))?)";

/// A clause: `head.`, `head <- P(p).`, `head if body.` or `head <- P(p) if body.`
pub const CLAUSE_PATTERN: &'static str =
    r"(?<atom>\w+(\([\w\s,]+\))?)(\s+<-\s+P\((?<probability>[01][.]\d+)\))?(\s+if\s+(?<body>.+))?\.";

/// A source declaration, e.g. `speed <- source("/sensor/speed", Number).`
pub const SOURCE_PATTERN: &'static str =
    r#"(?<atom>\w+(\([\w\s,]+\))?)\s+<-\s+source\("(?<topic>(?:\/\w+)+)",\s+(?<dtype>Probability|Density|Number|Boolean)\)\."#;

/// A target declaration, e.g. `safe -> target("/safety").`
pub const TARGET_PATTERN: &'static str = r#"(?<atom>\w+(\([\w\s,]+\))?)\s+->\s+target\("(?<topic>(?:\/\w+)+)"\)\."#;

/// A comparison literal in a clause body, e.g. `distance(hospital) < 20.0`.
pub const COMPARISON_PATTERN: &'static str =
    r"(?<comp_atom>\w+(?:\([\w\s,]+\))?)\s+(?<comp_op>[<>])\s+(?<comp_threshold>[+-]?\d+(?:\.\d+)?)";

/// A categorical source declaration, e.g.
/// `{dog, cat, horse} <- source("/cls", Categorical).`
pub const CATEGORICAL_SOURCE_PATTERN: &'static str =
    r#"\{(?<categories>[^}]*)\}\s+<-\s+source\("(?<topic>(?:\/\w+)+)",\s+Categorical\)\."#;

/// The conjunction keyword `and` as a whole word.
pub const AND_KEYWORD_PATTERN: &'static str = r"\band\b";

/// The literals of a clause body: the `and` keywords are replaced by spaces
/// and the remaining text is scanned for literals.
pub open spec fn literals_spec(body: Seq<char>) -> Seq<Seq<char>> {
    regex_find_all(LITERAL_PATTERN@, regex_replace_all(AND_KEYWORD_PATTERN@, body, " "@))
}

/// Extracts all atom literals from a body string by stripping the `and`
/// conjunctive keyword, in order.  `None` when a pattern does not compile.
pub fn get_literals(body: &str) -> (literals: Option<Vec<String>>)
    ensures
        literals is Some <==> regex_compiles(AND_KEYWORD_PATTERN@) && regex_compiles(LITERAL_PATTERN@),
        literals matches Some(v) ==> v@.map_values(|s: String| s@) == literals_spec(body@),
{
    let and_keyword = match Pattern::new(AND_KEYWORD_PATTERN) {
        Some(p) => p,
        None => return None,
    };
    let literal = match Pattern::new(LITERAL_PATTERN) {
        Some(p) => p,
        None => return None,
    };
    let stripped = and_keyword.replace_all(body, " ");
    Some(literal.find_all(stripped.as_str()))
}


// ── statements ──────────────────────────────────────────────────────────────

/// Position `i` of `s` ends a statement: a `.` that is not followed by an
/// ASCII digit (so thresholds like `20.0` and `P(0.9)` are never cut).
pub open spec fn is_cut(s: Seq<char>, i: int) -> bool {
    s[i] == '.' && !(i + 1 < s.len() && is_digit(s[i + 1]))
}

/// The last statement end strictly before position `i`, or `-1`.
pub open spec fn last_cut_before(s: Seq<char>, i: int) -> int
    decreases i,
{
    if i <= 0 {
        -1
    } else if is_cut(s, i - 1) {
        i - 1
    } else {
        last_cut_before(s, i - 1)
    }
}

/// The statements that end before position `i`: the text from just after
/// the previous statement end up to and including each statement end,
/// trimmed, with empty ones left out.
pub open spec fn statements_upto(s: Seq<char>, i: int) -> Seq<Seq<char>>
    decreases i,
{
    if i <= 0 {
        Seq::empty()
    } else {
        let prev = statements_upto(s, i - 1);
        if is_cut(s, i - 1) {
            let piece = trim(s.subrange(last_cut_before(s, i - 1) + 1, i));
            if piece.len() > 0 { prev.push(piece) } else { prev }
        } else {
            prev
        }
    }
}

proof fn lemma_last_cut_bounds(s: Seq<char>, i: int)
    ensures
        -1 <= last_cut_before(s, i) < if i > 0 { i } else { 0 },
    decreases i,
{
    if i > 0 {
        lemma_last_cut_bounds(s, i - 1);
    }
}

/// Splits a preprocessed (comment-stripped, joined) Resin program into its
/// statements.  A statement ends at a `.` that is not followed by an ASCII
/// digit; the terminating `.` stays part of the statement, and each statement
/// is trimmed.
pub fn split_statements(input: &str) -> (statements: Vec<String>)
    ensures
        statements@.map_values(|s: String| s@) == statements_upto(input@, input@.len() as int),
{
    let chars = chars_of(input);
    let n = chars.len();
    let mut statements: Vec<String> = Vec::new();
    let mut start: usize = 0;
    let mut i: usize = 0;
    while i < n
        invariant
            n == chars@.len(),
            chars@ == input@,
            i <= n,
            start <= i,
            start as int == last_cut_before(chars@, i as int) + 1,
            statements@.map_values(|s: String| s@) == statements_upto(chars@, i as int),
        decreases n - i,
    {
        proof { lemma_last_cut_bounds(chars@, i as int); }
        if chars[i] == '.' {
            let next_is_digit = i + 1 < n && '0' <= chars[i + 1] && chars[i + 1] <= '9';
            if !next_is_digit {
                let (a, b) = trim_range(&chars, start, i + 1);
                if a < b {
                    let ghost before = statements@;
                    statements.push(string_from_range(&chars, a, b));
                    proof {
                        assert(statements@.map_values(|s: String| s@) =~= before.map_values(|s: String| s@).push(chars@.subrange(a as int, b as int)));
                    }
                }
                start = i + 1;
            }
        }
        i = i + 1;
    }
    statements
}

/// No statement end lies strictly between `last_cut_before(s, i)` and `i`.
proof fn lemma_no_cut_since(s: Seq<char>, i: int, j: int)
    requires
        last_cut_before(s, i) < j < i,
    ensures
        !is_cut(s, j),
    decreases i,
{
    if i > 0 && !is_cut(s, i - 1) && j < i - 1 {
        lemma_no_cut_since(s, i - 1, j);
    }
}

/// What holds of every statement: it is not empty, it ends with the `.`
/// that closes it, and every `.` before that is followed by a digit.
pub open spec fn well_cut(st: Seq<char>) -> bool {
    &&& st.len() > 0
    &&& st.last() == '.'
    &&& forall|j: int| 0 <= j < st.len() - 1 && st[j] == '.' ==> is_digit(#[trigger] st[j + 1])
}

proof fn lemma_statements_well_cut(s: Seq<char>, i: int)
    requires
        i <= s.len(),
    ensures
        forall|k: int| 0 <= k < statements_upto(s, i).len() ==> well_cut(#[trigger] statements_upto(s, i)[k]),
    decreases i,
{
    if i > 0 {
        lemma_statements_well_cut(s, i - 1);
        lemma_last_cut_bounds(s, i - 1);
        let prev = statements_upto(s, i - 1);
        if is_cut(s, i - 1) {
            let l = last_cut_before(s, i - 1);
            let x = s.subrange(l + 1, i);
            let a = lemma_trim_start_offset(x);
            assert(x.last() == '.');
            assert(!char_is_whitespace(x[x.len() - 1]));
            assert(a < x.len());
            let y = x.skip(a);
            assert(y.last() == '.');
            assert(trim_end(y) == y);
            assert(trim(x) == y);
            assert forall|j: int| 0 <= j < y.len() - 1 && y[j] == '.' implies is_digit(#[trigger] y[j + 1]) by {
                let p = l + 1 + a + j;
                assert(s[p] == '.');
                lemma_no_cut_since(s, i - 1, p);
                assert(y[j + 1] == s[p + 1]);
            }
            assert(well_cut(y));
            if y.len() > 0 {
                assert forall|k: int| 0 <= k < prev.push(y).len() implies well_cut(#[trigger] prev.push(y)[k]) by {
                    if k < prev.len() { assert(prev.push(y)[k] == prev[k]); }
                }
            }
        }
    }
}

/// A statement that `split_statements` yields is never empty and ends with
/// the `.` that closes it, and every `.` before that is followed by a digit:
/// decimals such as `20.0` or `P(0.9)` are never cut.
pub proof fn law_statements_end_at_period(s: Seq<char>, k: int)
    requires
        0 <= k < statements_upto(s, s.len() as int).len(),
    ensures
        well_cut(statements_upto(s, s.len() as int)[k]),
{
    lemma_statements_well_cut(s, s.len() as int);
}

// ── atoms ───────────────────────────────────────────────────────────────────

/// Whether `s` starts with an uppercase character.
pub open spec fn starts_upper(s: Seq<char>) -> bool {
    s.len() > 0 && char_is_uppercase(s[0])
}

/// An atom whose argument list can be sliced: when it has a `(`, the `(`
/// is not its last character and its last character is ASCII.
pub open spec fn args_sliceable(atom: Seq<char>) -> bool {
    match find_first(atom, '(') {
        Some(p) => p + 2 <= atom.len() && (atom.last() as u32) < 128,
        None => true,
    }
}

/// Whether `atom` has a variable argument: an argument that starts, after
/// whitespace, with an uppercase character; a bare atom counts when it
/// starts with one.
pub open spec fn has_variable_arg_spec(atom: Seq<char>) -> bool {
    match find_first(atom, '(') {
        Some(p) => {
            let args = split_on(atom.subrange(p + 1, atom.len() - 1), ',');
            exists|j: int| 0 <= j < args.len() && #[trigger] starts_upper(trim(args[j]))
        },
        None => starts_upper(atom),
    }
}

/// Scans the comma-separated pieces of `chars[lo..hi]`: whether one of them,
/// trimmed, starts with an uppercase character.
fn some_piece_starts_upper(chars: &Vec<char>, lo: usize, hi: usize) -> (found: bool)
    requires
        lo <= hi <= chars@.len(),
    ensures
        found == exists|j: int| 0 <= j < split_on(chars@.subrange(lo as int, hi as int), ',').len()
            && #[trigger] starts_upper(trim(split_on(chars@.subrange(lo as int, hi as int), ',')[j])),
{
    let ghost all = split_on(chars@.subrange(lo as int, hi as int), ',');
    let ghost mut done: Seq<Seq<char>> = Seq::empty();
    let mut st = lo;
    loop
        invariant
            lo <= st <= hi,
            hi <= chars@.len(),
            all == split_on(chars@.subrange(lo as int, hi as int), ','),
            all == done + split_on(chars@.subrange(st as int, hi as int), ','),
            forall|j: int| 0 <= j < done.len() ==> !#[trigger] starts_upper(trim(done[j])),
        decreases hi - st,
    {
        let ghost t = chars@.subrange(st as int, hi as int);
        let mut e = st;
        while e < hi && chars[e] != ','
            invariant
                st <= e <= hi,
                hi <= chars@.len(),
                forall|j: int| st <= j < e ==> chars@[j] != ',',
            decreases hi - e,
        {
            e = e + 1;
        }
        proof {
            lemma_find_first_at(t, ',', (e - st) as int);
            lemma_split_on_first(t, ',');
            assert(t.take((e - st) as int) =~= chars@.subrange(st as int, e as int));
        }
        let (a, b) = trim_range(chars, st, e);
        if a < b && is_uppercase(chars[a]) {
            proof {
                let piece = chars@.subrange(st as int, e as int);
                assert(all[done.len() as int] == piece);
                assert(starts_upper(trim(all[done.len() as int])));
            }
            return true;
        }
        if e == hi {
            proof {
                assert(split_on(t, ',') == seq![t]);
                assert forall|j: int| 0 <= j < all.len() implies !#[trigger] starts_upper(trim(all[j])) by {
                    if j < done.len() { assert(all[j] == done[j]); } else { assert(all[j] == t); }
                }
            }
            return false;
        }
        proof {
            let piece = chars@.subrange(st as int, e as int);
            assert(t.skip((e - st) + 1) =~= chars@.subrange(e + 1, hi as int));
            assert(all =~= done.push(piece) + split_on(chars@.subrange(e + 1, hi as int), ','));
            done = done.push(piece);
        }
        st = e + 1;
    }
}

/// Returns `true` if `atom` has at least one variable argument (an argument
/// whose first character is uppercase), e.g. `"distance(T)"`.
pub fn has_variable_arg(atom: &str) -> (b: bool)
    requires
        args_sliceable(atom@),
    ensures
        b == has_variable_arg_spec(atom@),
{
    let chars = chars_of(atom);
    match find_char(&chars, '(') {
        Some(p) => some_piece_starts_upper(&chars, p + 1, chars.len() - 1),
        None => chars.len() > 0 && is_uppercase(chars[0]),
    }
}

/// The predicate name of an atom: the text before its `(`, if any.
pub open spec fn predicate_spec(atom: Seq<char>) -> Seq<char> {
    match find_first(atom, '(') {
        Some(p) => atom.take(p),
        None => atom,
    }
}

/// Returns the predicate name of an atom, stripping any argument list.
/// E.g. `"distance(hospital)"` → `"distance"`.
pub fn predicate_of(atom: &str) -> (pred: &str)
    ensures
        pred@ == predicate_spec(atom@),
{
    let chars = chars_of(atom);
    match find_char(&chars, '(') {
        Some(p) => {
            proof { lemma_find_first(atom@, '('); }
            let pred = atom.substring_char(0, p);
            assert(pred@ =~= atom@.take(p as int));
            pred
        },
        None => atom,
    }
}

/// An atom whose argument list can be sliced: its last `)` (if both
/// parentheses occur) comes after its first `(`.
pub open spec fn parens_ordered(atom: Seq<char>) -> bool {
    match (find_first(atom, '('), find_last(atom, ')')) {
        (Some(o), Some(c)) => o < c,
        _ => true,
    }
}

/// The trimmed comma-separated arguments between the first `(` and the last
/// `)`, or `None` when either is missing.
pub open spec fn args_spec(atom: Seq<char>) -> Option<Seq<Seq<char>>> {
    match (find_first(atom, '('), find_last(atom, ')')) {
        (Some(o), Some(c)) => Some(split_on(atom.subrange(o + 1, c), ',').map_values(|x: Seq<char>| trim(x))),
        _ => None,
    }
}

/// Returns all trimmed arguments of an atom, e.g.
/// `"distance(A, something, B)"` → `["A", "something", "B"]`, or `None` for
/// atoms with no argument list.
pub fn args_of(atom: &str) -> (args: Option<Vec<&str>>)
    requires
        parens_ordered(atom@),
    ensures
        args_spec(atom@) is None ==> args is None,
        args_spec(atom@) matches Some(expected) ==> args matches Some(v) && v@.map_values(|s: &str| s@) == expected,
{
    let chars = chars_of(atom);
    let open = match find_char(&chars, '(') {
        Some(o) => o,
        None => return None,
    };
    let close = match rfind_char(&chars, ')') {
        Some(c) => c,
        None => return None,
    };
    proof { lemma_find_first(atom@, '('); lemma_find_last(atom@, ')'); }
    let lo = open + 1;
    let hi = close;
    let ghost all = split_on(chars@.subrange(lo as int, hi as int), ',');
    let ghost mut done: Seq<Seq<char>> = Seq::empty();
    let mut out: Vec<&str> = Vec::new();
    let mut st = lo;
    loop
        invariant
            lo <= st <= hi,
            hi < chars@.len(),
            chars@ == atom@,
            lo >= 1,
            find_first(atom@, '(') == Some(lo - 1),
            find_last(atom@, ')') == Some(hi as int),
            all == split_on(chars@.subrange(lo as int, hi as int), ','),
            all == done + split_on(chars@.subrange(st as int, hi as int), ','),
            out@.map_values(|s: &str| s@) == done.map_values(|x: Seq<char>| trim(x)),
        decreases hi - st,
    {
        let ghost t = chars@.subrange(st as int, hi as int);
        let mut e = st;
        while e < hi && chars[e] != ','
            invariant
                st <= e <= hi,
                hi <= chars@.len(),
                forall|j: int| st <= j < e ==> chars@[j] != ',',
            decreases hi - e,
        {
            e = e + 1;
        }
        proof {
            lemma_find_first_at(t, ',', (e - st) as int);
            lemma_split_on_first(t, ',');
            assert(t.take((e - st) as int) =~= chars@.subrange(st as int, e as int));
        }
        let (a, b) = trim_range(&chars, st, e);
        let ghost before = out@;
        out.push(atom.substring_char(a, b));
        let ghost piece = chars@.subrange(st as int, e as int);
        proof {
            assert(out@.map_values(|s: &str| s@) =~= before.map_values(|s: &str| s@).push(trim(piece)));
            assert(done.push(piece).map_values(|x: Seq<char>| trim(x)) =~= done.map_values(|x: Seq<char>| trim(x)).push(trim(piece)));
        }
        if e == hi {
            proof {
                assert(split_on(t, ',') == seq![t]);
                assert(all =~= done.push(piece));
            }
            return Some(out);
        }
        proof {
            assert(t.skip((e - st) + 1) =~= chars@.subrange(e + 1, hi as int));
            assert(all =~= done.push(piece) + split_on(chars@.subrange(e + 1, hi as int), ','));
            done = done.push(piece);
        }
        st = e + 1;
    }
}

proof fn lemma_find_last(s: Seq<char>, c: char)
    ensures
        find_last(s, c) matches Some(k) ==> 0 <= k < s.len() && s[k] == c,
    decreases s.len(),
{
    if s.len() > 0 && s.last() != c {
        lemma_find_last(s.drop_last(), c);
    }
}

/// Whether one of the arguments `args_of` returns starts with an uppercase
/// character.
pub open spec fn some_arg_starts_upper(atom: Seq<char>) -> bool {
    match args_spec(atom) {
        Some(args) => exists|j: int| 0 <= j < args.len() && #[trigger] starts_upper(args[j]),
        None => false,
    }
}

/// For an atom that ends with its argument list, e.g. `p(a, B)`, it has a
/// variable argument exactly when one of the arguments `args_of` returns
/// starts with an uppercase character.
pub proof fn law_variable_arg_agrees_with_args(atom: Seq<char>)
    requires
        find_first(atom, '(') is Some,
        atom.len() > 0,
        atom.last() == ')',
    ensures
        has_variable_arg_spec(atom) <==> some_arg_starts_upper(atom),
{
    let p = find_first(atom, '(')->0;
    lemma_find_first(atom, '(');
    assert(find_last(atom, ')') == Some(atom.len() - 1));
    let pieces = split_on(atom.subrange(p + 1, atom.len() - 1), ',');
    assert(args_spec(atom) is Some);
    let args = args_spec(atom)->0;
    assert(args.len() == pieces.len());
    assert(forall|j: int| 0 <= j < args.len() ==> args[j] == trim(#[trigger] pieces[j]));
    assert(has_variable_arg_spec(atom) == exists|j: int| 0 <= j < pieces.len() && #[trigger] starts_upper(trim(pieces[j])));
    if has_variable_arg_spec(atom) {
        let j = choose|j: int| 0 <= j < pieces.len() && #[trigger] starts_upper(trim(pieces[j]));
        assert(starts_upper(args[j]));
    }
    if exists|j: int| 0 <= j < args.len() && #[trigger] starts_upper(args[j]) {
        let j = choose|j: int| 0 <= j < args.len() && #[trigger] starts_upper(args[j]);
        assert(starts_upper(trim(pieces[j])));
        assert(has_variable_arg_spec(atom));
    }
    assert(some_arg_starts_upper(atom) == exists|j: int| 0 <= j < args.len() && #[trigger] starts_upper(args[j]));
}

/// Different indices give a head different cause atom names.
pub proof fn law_cause_names_distinct(head: Seq<char>, i: nat, j: nat)
    requires
        i != j,
    ensures
        cause_name_spec(head, i) != cause_name_spec(head, j),
{
    let prefix = sanitized(head) + "_cause_"@;
    if cause_name_spec(head, i) == cause_name_spec(head, j) {
        assert(cause_name_spec(head, i) == prefix + decimal(i));
        assert((prefix + decimal(i)).skip(prefix.len() as int) =~= decimal(i));
        assert((prefix + decimal(j)).skip(prefix.len() as int) =~= decimal(j));
        lemma_decimal_injective(i, j);
    }
}

// ── generated names ─────────────────────────────────────────────────────────

/// A character kept in a generated atom name: alphanumerics and `_` stay,
/// anything else becomes `_`.
pub open spec fn sanitize(c: char) -> char {
    if char_is_alphanumeric(c) || c == '_' { c } else { '_' }
}

/// `s` with every character sanitized, without leading or trailing `_`.
pub open spec fn sanitized(s: Seq<char>) -> Seq<char> {
    trim_char(s.map_values(|c: char| sanitize(c)), '_')
}

/// The name of the `index`-th cause atom of a head: the sanitized head,
/// then `_cause_` and the index.
pub open spec fn cause_name_spec(head: Seq<char>, index: nat) -> Seq<char> {
    sanitized(head) + "_cause_"@ + decimal(index)
}

/// The sanitized form of `s`, as a string.
fn sanitized_text(s: &str) -> (name: String)
    ensures
        name@ == sanitized(s@),
{
    let chars = chars_of(s);
    let mut clean: Vec<char> = Vec::new();
    let mut i: usize = 0;
    while i < chars.len()
        invariant
            i <= chars@.len(),
            clean@ == chars@.take(i as int).map_values(|c: char| sanitize(c)),
        decreases chars@.len() - i,
    {
        let c = chars[i];
        if is_alphanumeric(c) || c == '_' {
            clean.push(c);
        } else {
            clean.push('_');
        }
        proof { assert(chars@.take(i + 1).map_values(|c: char| sanitize(c)) =~= chars@.take(i as int).map_values(|c: char| sanitize(c)).push(sanitize(c))); }
        i = i + 1;
    }
    proof { assert(chars@.take(chars@.len() as int) =~= chars@); }
    let (a, b) = trim_char_range(&clean, 0, clean.len(), '_');
    proof { assert(clean@.subrange(0, clean@.len() as int) =~= clean@); }
    string_from_range(&clean, a, b)
}

/// Produces the auxiliary choice-atom name for the Nth probabilistic clause
/// with a given ground head, used to implement independent noisy-OR causes.
/// E.g. head `"close(a, b)"`, index `0` → `"close_a__b_cause_0"`.
pub fn cause_atom_name(head: &str, index: usize) -> (name: String)
    ensures
        name@ == cause_name_spec(head@, index as nat),
{
    let mut name = sanitized_text(head);
    push_str(&mut name, "_cause_");
    push_decimal(&mut name, index as u64);
    name
}

/// Produces the base predicate name for the auxiliary cause atom of a
/// first-order (variable-head) probabilistic clause: only the head's
/// predicate is used, e.g. head `"heads(C)"`, index `0` → `"heads_cause_0"`.
pub fn cause_atom_base_name(head: &str, index: usize) -> (name: String)
    ensures
        name@ == cause_name_spec(predicate_spec(head@), index as nat),
{
    cause_atom_name(predicate_of(head), index)
}

// ── comparison names ────────────────────────────────────────────────────────

/// `t` without a leading sign.
pub open spec fn unsigned_part(t: Seq<char>) -> Seq<char> {
    if t.len() > 0 && (t[0] == '-' || t[0] == '+') { t.drop_first() } else { t }
}

/// The digits before the first `.`.
pub open spec fn whole_digits(b: Seq<char>) -> Seq<char> {
    match find_first(b, '.') {
        Some(p) => b.take(p),
        None => b,
    }
}

/// The digits after the first `.`, if any.
pub open spec fn fraction_digits(b: Seq<char>) -> Seq<char> {
    match find_first(b, '.') {
        Some(p) => b.skip(p + 1),
        None => Seq::empty(),
    }
}

/// The shortest form of the decimal number written as `t` (e.g. `+020.50`):
/// a sign only when negative, no leading zeros in the whole part (but at
/// least one digit), no trailing zeros in the fraction, and no `.` when the
/// fraction is empty (`20.50` → `20.5`, `20.0` → `20`).
pub open spec fn number_text(t: Seq<char>) -> Seq<char> {
    let b = unsigned_part(t);
    let w = trim_char_start(whole_digits(b), '0');
    let f = trim_char_end(fraction_digits(b), '0');
    (if t.len() > 0 && t[0] == '-' { seq!['-'] } else { Seq::empty() })
        + (if w.len() == 0 { seq!['0'] } else { w })
        + (if f.len() == 0 { Seq::empty() } else { seq!['.'] + f })
}

/// A threshold as it appears in a generated name: its shortest form with
/// every `.` replaced by `_` (`10.5` → `10_5`).
pub open spec fn threshold_label(t: Seq<char>) -> Seq<char> {
    number_text(t).map_values(|c: char| if c == '.' { '_' } else { c })
}

/// The word for a comparison operator: `lt` for `<`, `gt` for anything else.
pub open spec fn op_word(op: char) -> Seq<char> {
    if op == '<' { "lt"@ } else { "gt"@ }
}

/// The flat name of a ground comparison: the sanitized atom, the operator
/// word and the threshold label, joined by `_`.
pub open spec fn canonical_name_spec(atom: Seq<char>, op: char, threshold: Seq<char>) -> Seq<char> {
    sanitized(atom) + "_"@ + op_word(op) + "_"@ + threshold_label(threshold)
}

/// The predicate that stands for a comparison on a variable atom:
/// `resin_`, the predicate, the operator word and the threshold label.
pub open spec fn parameterized_name_spec(predicate: Seq<char>, op: char, threshold: Seq<char>) -> Seq<char> {
    "resin_"@ + predicate + "_"@ + op_word(op) + "_"@ + threshold_label(threshold)
}

/// The position of the first `.` in `c[start..]`, or the end.
fn dot_position(c: &Vec<char>, start: usize) -> (d: usize)
    requires
        start <= c@.len(),
    ensures
        start <= d <= c@.len(),
        whole_digits(c@.subrange(start as int, c@.len() as int)) == c@.subrange(start as int, d as int),
        fraction_digits(c@.subrange(start as int, c@.len() as int))
            == c@.subrange(if d < c@.len() { d + 1 } else { d as int }, c@.len() as int),
{
    let n = c.len();
    let ghost b = c@.subrange(start as int, n as int);
    let mut d = start;
    while d < n && c[d] != '.'
        invariant
            start <= d <= n,
            n == c@.len(),
            forall|j: int| start <= j < d ==> c@[j] != '.',
        decreases n - d,
    {
        d = d + 1;
    }
    proof {
        lemma_find_first_at(b, '.', d - start);
        if d < n {
            assert(b.take(d - start) =~= c@.subrange(start as int, d as int));
            assert(b.skip(d - start + 1) =~= c@.subrange(d + 1, n as int));
        } else {
            assert(b =~= c@.subrange(start as int, d as int));
            assert(c@.subrange(d as int, n as int) =~= Seq::<char>::empty());
        }
    }
    d
}

/// The shortest form of the decimal number written as `t`.
fn number_chars(t: &str) -> (out: Vec<char>)
    ensures
        out@ == number_text(t@),
{
    let c = chars_of(t);
    let n = c.len();
    let start: usize = if n > 0 && (c[0] == '-' || c[0] == '+') { 1 } else { 0 };
    assert(unsigned_part(t@) =~= c@.subrange(start as int, n as int));
    let d = dot_position(&c, start);
    let a = skip_leading(&c, start, d, '0');
    let f0: usize = if d < n { d + 1 } else { n };
    let e = drop_trailing(&c, f0, n, '0');
    let mut out: Vec<char> = Vec::new();
    if n > 0 && c[0] == '-' {
        out.push('-');
    }
    let ghost sign = out@;
    proof {
        assert(sign =~= (if t@.len() > 0 && t@[0] == '-' { seq!['-'] } else { Seq::<char>::empty() }));
    }
    if a == d {
        out.push('0');
        proof { assert(out@ =~= sign + seq!['0']); }
    } else {
        push_range(&mut out, &c, a, d);
    }
    let ghost whole = out@;
    if e > f0 {
        out.push('.');
        push_range(&mut out, &c, f0, e);
        proof { assert(out@ =~= whole + (seq!['.'] + c@.subrange(f0 as int, e as int))); }
    } else {
        proof { assert(out@ =~= whole + Seq::<char>::empty()); }
    }
    out
}

/// Appends the label of threshold `t` to `s`.
fn push_threshold_label(s: &mut String, t: &str)
    ensures
        final(s)@ == old(s)@ + threshold_label(t@),
{
    let digits = number_chars(t);
    let mut i: usize = 0;
    while i < digits.len()
        invariant
            i <= digits@.len(),
            digits@ == number_text(t@),
            s@ == old(s)@ + digits@.take(i as int).map_values(|c: char| if c == '.' { '_' } else { c }),
        decreases digits@.len() - i,
    {
        let c = digits[i];
        if c == '.' {
            push_char(s, '_');
        } else {
            push_char(s, c);
        }
        proof {
            assert(digits@.take(i + 1).map_values(|c: char| if c == '.' { '_' } else { c })
                =~= digits@.take(i as int).map_values(|c: char| if c == '.' { '_' } else { c }).push(if c == '.' { '_' } else { c }));
        }
        i = i + 1;
    }
    proof { assert(digits@.take(digits@.len() as int) =~= digits@); }
}

/// Appends `_`, the operator word and `_`, then the threshold label.
fn push_comparison_suffix(s: &mut String, op: char, threshold: &str)
    ensures
        final(s)@ == old(s)@ + "_"@ + op_word(op) + "_"@ + threshold_label(threshold@),
{
    push_str(s, "_");
    if op == '<' {
        push_str(s, "lt");
    } else {
        push_str(s, "gt");
    }
    push_str(s, "_");
    push_threshold_label(s, threshold);
}

/// The canonical atom name of a ground comparison literal, usable as an
/// ASP atom and as a circuit leaf name: `distance(hospital) < 20.0` →
/// `"distance_hospital_lt_20"`.  The threshold is given as written.
pub fn canonical_comparison_name(atom: &str, op: char, threshold: &str) -> (name: String)
    ensures
        name@ == canonical_name_spec(atom@, op, threshold@),
{
    let mut name = sanitized_text(atom);
    push_comparison_suffix(&mut name, op, threshold);
    name
}

/// The predicate used in rule bodies for a comparison on an atom with a
/// variable, which keeps the variable groundable: predicate `"distance"`,
/// `'>'`, threshold `100` → `"resin_distance_gt_100"`.
pub fn parameterized_comparison_predicate(predicate: &str, op: char, threshold: &str) -> (name: String)
    ensures
        name@ == parameterized_name_spec(predicate@, op, threshold@),
{
    let mut name = String::new();
    push_str(&mut name, "resin_");
    push_str(&mut name, predicate);
    push_comparison_suffix(&mut name, op, threshold);
    name
}

} // verus!
