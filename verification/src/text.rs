use vstd::prelude::*;

verus! {

/// Appends `c` to `s`.
///
/// Trusted: calls `String::push`, which the standard library documents as
/// appending the given `char` to the end of the string.
#[verifier::external_body]
pub(crate) fn push_char(s: &mut String, c: char)
    ensures
        final(s)@ == old(s)@.push(c),
{
    s.push(c);
}

/// The decimal digit for `d < 10`.
pub open spec fn digit(d: nat) -> char {
    if d == 0 { '0' } else if d == 1 { '1' } else if d == 2 { '2' } else if d == 3 { '3' } else if d == 4 { '4' }
    else if d == 5 { '5' } else if d == 6 { '6' } else if d == 7 { '7' } else if d == 8 { '8' } else { '9' }
}

/// The decimal representation of `n`, without leading zeros.
pub open spec fn decimal(n: nat) -> Seq<char>
    decreases n,
{
    if n < 10 {
        seq![digit(n)]
    } else {
        decimal(n / 10).push(digit(n % 10))
    }
}

/// Distinct numbers have distinct decimal representations.
pub proof fn lemma_decimal_injective(i: nat, j: nat)
    requires
        decimal(i) == decimal(j),
    ensures
        i == j,
    decreases i,
{
    lemma_decimal_nonempty(i);
    lemma_decimal_nonempty(j);
    if i < 10 && j < 10 {
        assert(decimal(i)[0] == digit(i));
    } else if i < 10 {
        lemma_decimal_nonempty(j / 10);
        assert(decimal(j).len() >= 2);
    } else if j < 10 {
        lemma_decimal_nonempty(i / 10);
        assert(decimal(i).len() >= 2);
    } else {
        assert(decimal(i).last() == digit(i % 10));
        assert(decimal(j).last() == digit(j % 10));
        assert(decimal(i).drop_last() =~= decimal(i / 10));
        assert(decimal(j).drop_last() =~= decimal(j / 10));
        lemma_decimal_injective(i / 10, j / 10);
    }
}

pub proof fn lemma_decimal_nonempty(n: nat)
    ensures
        decimal(n).len() >= 1,
    decreases n,
{
    if n >= 10 {
        lemma_decimal_nonempty(n / 10);
    }
}

/// The parts joined with `sep` between consecutive parts.
pub open spec fn join(parts: Seq<Seq<char>>, sep: Seq<char>) -> Seq<char>
    decreases parts.len(),
{
    if parts.len() == 0 {
        Seq::empty()
    } else if parts.len() == 1 {
        parts[0]
    } else {
        join(parts.drop_last(), sep) + sep + parts.last()
    }
}

/// The parts one after another.
pub open spec fn concat(parts: Seq<Seq<char>>) -> Seq<char>
    decreases parts.len(),
{
    if parts.len() == 0 {
        Seq::empty()
    } else {
        concat(parts.drop_last()) + parts.last()
    }
}

/// The texts of `s` without repetitions, each kept where it first occurs.
pub open spec fn dedup_texts(s: Seq<Seq<char>>) -> Seq<Seq<char>>
    decreases s.len(),
{
    if s.len() == 0 {
        Seq::empty()
    } else {
        let d = dedup_texts(s.drop_last());
        if d.contains(s.last()) { d } else { d.push(s.last()) }
    }
}

/// Whether `s` begins with `p`.
pub open spec fn has_prefix(s: Seq<char>, p: Seq<char>) -> bool {
    s.len() >= p.len() && s.take(p.len() as int) == p
}

fn digit_char(d: u64) -> (c: char)
    requires
        d < 10,
    ensures
        c == digit(d as nat),
{
    if d == 0 { '0' } else if d == 1 { '1' } else if d == 2 { '2' } else if d == 3 { '3' } else if d == 4 { '4' }
    else if d == 5 { '5' } else if d == 6 { '6' } else if d == 7 { '7' } else if d == 8 { '8' } else { '9' }
}

/// Appends the decimal representation of `n` to `s`.
pub fn push_decimal(s: &mut String, n: u64)
    ensures
        final(s)@ == old(s)@ + decimal(n as nat),
    decreases n,
{
    if n >= 10 {
        push_decimal(s, n / 10);
    }
    push_char(s, digit_char(n % 10));
    proof {
        if n >= 10 {
            assert(old(s)@ + decimal(n as nat) =~= old(s)@ + decimal((n / 10) as nat) + seq![digit((n % 10) as nat)]);
        } else {
            assert(old(s)@ + decimal(n as nat) =~= old(s)@.push(digit(n as nat)));
        }
    }
}

/// Appends `t` to `s`.
pub fn push_str(s: &mut String, t: &str)
    ensures
        final(s)@ == old(s)@ + t@,
{
    s.append(t);
}

/// One step of building a joined string.
pub proof fn lemma_join_push(parts: Seq<Seq<char>>, sep: Seq<char>, p: Seq<char>)
    ensures
        join(parts.push(p), sep) == if parts.len() == 0 { p } else { join(parts, sep) + sep + p },
{
    assert(parts.push(p).drop_last() =~= parts);
}

/// The characters of `s`.
pub fn chars_of(s: &str) -> (v: Vec<char>)
    ensures
        v@ == s@,
{
    let mut v: Vec<char> = Vec::new();
    for c in it: s.chars()
        invariant
            v@ == it.seq().take(it.index() as int),
    {
        v.push(c);
        proof { assert(it.seq().take(it.index() + 1) =~= v@); }
    }
    v
}

/// A string holding the given characters.
pub fn string_from_chars(cs: &[char]) -> (s: String)
    ensures
        s@ == cs@,
{
    let mut s = String::new();
    let mut i: usize = 0;
    while i < cs.len()
        invariant
            i <= cs@.len(),
            s@ == cs@.take(i as int),
        decreases cs@.len() - i,
    {
        push_char(&mut s, cs[i]);
        proof { assert(cs@.take(i + 1) =~= cs@.take(i as int).push(cs@[i as int])); }
        i = i + 1;
    }
    proof { assert(cs@.take(cs@.len() as int) =~= cs@); }
    s
}

/// Whether two strings hold the same characters.
pub fn str_eq(a: &str, b: &str) -> (eq: bool)
    ensures
        eq == (a@ == b@),
{
    let x = chars_of(a);
    let y = chars_of(b);
    if x.len() != y.len() {
        proof { assert(a@.len() != b@.len()); }
        return false;
    }
    let mut i: usize = 0;
    while i < x.len()
        invariant
            x@ == a@,
            y@ == b@,
            x@.len() == y@.len(),
            i <= x@.len(),
            forall|j: int| 0 <= j < i ==> x@[j] == y@[j],
        decreases x@.len() - i,
    {
        if x[i] != y[i] {
            proof { assert(a@[i as int] != b@[i as int]); }
            return false;
        }
        i = i + 1;
    }
    assert(x@ =~= y@);
    true
}

/// Whether `s` begins with `p`.
pub fn starts_with(s: &str, p: &str) -> (b: bool)
    ensures
        b == has_prefix(s@, p@),
{
    let x = chars_of(s);
    let y = chars_of(p);
    if x.len() < y.len() {
        return false;
    }
    let mut i: usize = 0;
    while i < y.len()
        invariant
            x@ == s@,
            y@ == p@,
            y@.len() <= x@.len(),
            i <= y@.len(),
            forall|j: int| 0 <= j < i ==> x@[j] == y@[j],
        decreases y@.len() - i,
    {
        if x[i] != y[i] {
            proof { assert(s@.take(p@.len() as int)[i as int] != p@[i as int]); }
            return false;
        }
        i = i + 1;
    }
    assert(s@.take(p@.len() as int) =~= p@);
    true
}

/// Whether `c` has the Unicode `White_Space` property, as `char::is_whitespace`
/// documents it: the ASCII space, tab, line feed, vertical tab, form feed and
/// carriage return, and U+0085, U+00A0, U+1680, U+2000 to U+200A, U+2028,
/// U+2029, U+202F, U+205F and U+3000.
pub open spec fn char_is_whitespace(c: char) -> bool {
    ||| c == ' '
    ||| ('\u{9}' <= c && c <= '\u{d}')
    ||| c == '\u{85}'
    ||| c == '\u{a0}'
    ||| c == '\u{1680}'
    ||| ('\u{2000}' <= c && c <= '\u{200a}')
    ||| c == '\u{2028}'
    ||| c == '\u{2029}'
    ||| c == '\u{202f}'
    ||| c == '\u{205f}'
    ||| c == '\u{3000}'
}

/// Whether `c` has the Unicode `Uppercase` property.
pub uninterp spec fn char_is_uppercase(c: char) -> bool;

/// Whether `c` is alphabetic or numeric in the Unicode sense.
pub uninterp spec fn char_is_alphanumeric(c: char) -> bool;

/// Whether `c` is whitespace in the Unicode sense.
pub fn is_whitespace(c: char) -> (b: bool)
    ensures
        b == char_is_whitespace(c),
{
    c == ' ' || ('\u{9}' <= c && c <= '\u{d}') || c == '\u{85}' || c == '\u{a0}' || c == '\u{1680}'
        || ('\u{2000}' <= c && c <= '\u{200a}') || c == '\u{2028}' || c == '\u{2029}' || c == '\u{202f}'
        || c == '\u{205f}' || c == '\u{3000}'
}

/// Trusted: calls `char::is_uppercase`; its result is named `char_is_uppercase`.
#[verifier::external_body]
pub(crate) fn is_uppercase(c: char) -> (b: bool)
    ensures
        b == char_is_uppercase(c),
{
    c.is_uppercase()
}

/// Trusted: calls `char::is_alphanumeric`; its result is named `char_is_alphanumeric`.
#[verifier::external_body]
pub(crate) fn is_alphanumeric(c: char) -> (b: bool)
    ensures
        b == char_is_alphanumeric(c),
{
    c.is_alphanumeric()
}

/// Whether `c` is one of the ASCII digits `0` to `9`.
pub open spec fn is_digit(c: char) -> bool {
    '0' <= c && c <= '9'
}

/// `s` without leading whitespace.
pub open spec fn trim_start(s: Seq<char>) -> Seq<char>
    decreases s.len(),
{
    if s.len() > 0 && char_is_whitespace(s[0]) {
        trim_start(s.drop_first())
    } else {
        s
    }
}

/// `s` without trailing whitespace.
pub open spec fn trim_end(s: Seq<char>) -> Seq<char>
    decreases s.len(),
{
    if s.len() > 0 && char_is_whitespace(s.last()) {
        trim_end(s.drop_last())
    } else {
        s
    }
}

/// `trim_start` drops a run of leading whitespace: it returns `s.skip(a)`
/// for the first position `a` that holds no whitespace (or the end).
pub proof fn lemma_trim_start_offset(s: Seq<char>) -> (a: int)
    ensures
        0 <= a <= s.len(),
        trim_start(s) == s.skip(a),
        forall|j: int| 0 <= j < a ==> char_is_whitespace(#[trigger] s[j]),
        a < s.len() ==> !char_is_whitespace(s[a]),
    decreases s.len(),
{
    if s.len() > 0 && char_is_whitespace(s[0]) {
        let b = lemma_trim_start_offset(s.drop_first());
        assert(s.drop_first().skip(b) =~= s.skip(b + 1));
        assert forall|j: int| 0 <= j < b + 1 implies char_is_whitespace(#[trigger] s[j]) by {
            if j > 0 { assert(s[j] == s.drop_first()[j - 1]); }
        }
        b + 1
    } else {
        assert(s.skip(0) =~= s);
        0
    }
}

/// `s` without leading and trailing whitespace.
pub open spec fn trim(s: Seq<char>) -> Seq<char> {
    trim_end(trim_start(s))
}

/// `s` without leading and trailing occurrences of `c`.
pub open spec fn trim_char(s: Seq<char>, c: char) -> Seq<char> {
    trim_char_end(trim_char_start(s, c), c)
}

pub open spec fn trim_char_start(s: Seq<char>, c: char) -> Seq<char>
    decreases s.len(),
{
    if s.len() > 0 && s[0] == c {
        trim_char_start(s.drop_first(), c)
    } else {
        s
    }
}

pub open spec fn trim_char_end(s: Seq<char>, c: char) -> Seq<char>
    decreases s.len(),
{
    if s.len() > 0 && s.last() == c {
        trim_char_end(s.drop_last(), c)
    } else {
        s
    }
}

/// The index of the first occurrence of `c` in `s`, if any.
pub open spec fn find_first(s: Seq<char>, c: char) -> Option<int>
    decreases s.len(),
{
    if s.len() == 0 {
        None
    } else if s[0] == c {
        Some(0)
    } else {
        match find_first(s.drop_first(), c) {
            Some(i) => Some(i + 1),
            None => None,
        }
    }
}

/// The index of the last occurrence of `c` in `s`, if any.
pub open spec fn find_last(s: Seq<char>, c: char) -> Option<int>
    decreases s.len(),
{
    if s.len() == 0 {
        None
    } else if s.last() == c {
        Some(s.len() - 1)
    } else {
        find_last(s.drop_last(), c)
    }
}

/// The pieces of `s` between occurrences of `sep` (as `str::split` yields them).
pub open spec fn split_on(s: Seq<char>, sep: char) -> Seq<Seq<char>>
    decreases s.len(),
{
    if s.len() == 0 {
        seq![Seq::empty()]
    } else {
        let rest = split_on(s.drop_first(), sep);
        if s[0] == sep {
            seq![Seq::empty()] + rest
        } else {
            rest.update(0, seq![s[0]] + rest[0])
        }
    }
}

pub proof fn lemma_find_first(s: Seq<char>, c: char)
    ensures
        match find_first(s, c) {
            Some(k) => 0 <= k < s.len() && s[k] == c && forall|j: int| 0 <= j < k ==> s[j] != c,
            None => forall|j: int| 0 <= j < s.len() ==> s[j] != c,
        },
    decreases s.len(),
{
    if s.len() > 0 && s[0] != c {
        lemma_find_first(s.drop_first(), c);
        match find_first(s.drop_first(), c) {
            Some(k) => {
                assert forall|j: int| 0 <= j < k + 1 implies s[j] != c by {
                    if j > 0 { assert(s[j] == s.drop_first()[j - 1]); }
                }
            },
            None => {
                assert forall|j: int| 0 <= j < s.len() implies s[j] != c by {
                    if j > 0 { assert(s[j] == s.drop_first()[j - 1]); }
                }
            },
        }
    }
}

/// Position of the first `c` in `s` (or `None`), by a left-to-right scan.
pub fn find_char(s: &Vec<char>, c: char) -> (r: Option<usize>)
    ensures
        r matches Some(k) ==> find_first(s@, c) == Some(k as int),
        r is None ==> find_first(s@, c) is None,
{
    let mut i: usize = 0;
    while i < s.len()
        invariant
            i <= s@.len(),
            forall|j: int| 0 <= j < i ==> s@[j] != c,
        decreases s@.len() - i,
    {
        if s[i] == c {
            proof { lemma_find_first_at(s@, c, i as int); }
            return Some(i);
        }
        i = i + 1;
    }
    proof { lemma_find_first_at(s@, c, s@.len() as int); }
    None
}

/// Position of the last `c` in `s` (or `None`), by a right-to-left scan.
pub fn rfind_char(s: &Vec<char>, c: char) -> (r: Option<usize>)
    ensures
        r matches Some(k) ==> find_last(s@, c) == Some(k as int),
        r is None ==> find_last(s@, c) is None,
{
    let mut i: usize = s.len();
    assert(s@.take(i as int) =~= s@);
    while i > 0
        invariant
            i <= s@.len(),
            find_last(s@, c) == find_last(s@.take(i as int), c),
        decreases i,
    {
        proof { assert(s@.take(i as int).drop_last() =~= s@.take(i - 1)); }
        if s[i - 1] == c {
            return Some(i - 1);
        }
        i = i - 1;
    }
    None
}

pub proof fn lemma_find_first_at(s: Seq<char>, c: char, i: int)
    requires
        0 <= i <= s.len(),
        forall|j: int| 0 <= j < i ==> s[j] != c,
        i < s.len() ==> s[i] == c,
    ensures
        i < s.len() ==> find_first(s, c) == Some(i),
        i == s.len() ==> find_first(s, c) is None,
    decreases s.len(),
{
    if s.len() > 0 && i > 0 {
        assert forall|j: int| 0 <= j < i - 1 implies s.drop_first()[j] != c by {
            assert(s.drop_first()[j] == s[j + 1]);
        }
        lemma_find_first_at(s.drop_first(), c, i - 1);
    }
}

/// The characters `s[from..to]` with leading and trailing whitespace removed,
/// as a range of indices.
pub fn trim_range(s: &Vec<char>, from: usize, to: usize) -> (r: (usize, usize))
    requires
        from <= to <= s@.len(),
    ensures
        from <= r.0 <= r.1 <= to,
        s@.subrange(r.0 as int, r.1 as int) == trim(s@.subrange(from as int, to as int)),
{
    let mut a = from;
    while a < to && is_whitespace(s[a])
        invariant
            from <= a <= to,
            to <= s@.len(),
            trim_start(s@.subrange(from as int, to as int)) == trim_start(s@.subrange(a as int, to as int)),
        decreases to - a,
    {
        proof { assert(s@.subrange(a as int, to as int).drop_first() =~= s@.subrange(a + 1, to as int)); }
        a = a + 1;
    }
    let mut b = to;
    while b > a && is_whitespace(s[b - 1])
        invariant
            from <= a <= b <= to,
            to <= s@.len(),
            trim_end(s@.subrange(a as int, to as int)) == trim_end(s@.subrange(a as int, b as int)),
        decreases b - a,
    {
        proof { assert(s@.subrange(a as int, b as int).drop_last() =~= s@.subrange(a as int, b - 1)); }
        b = b - 1;
    }
    proof {
        assert(trim(s@.subrange(from as int, to as int)) == trim_end(s@.subrange(a as int, to as int)));
    }
    (a, b)
}

/// A string holding the characters `cs[from..to]`.
pub fn string_from_range(cs: &Vec<char>, from: usize, to: usize) -> (s: String)
    requires
        from <= to <= cs@.len(),
    ensures
        s@ == cs@.subrange(from as int, to as int),
{
    let mut s = String::new();
    let mut i: usize = from;
    while i < to
        invariant
            from <= i <= to,
            to <= cs@.len(),
            s@ == cs@.subrange(from as int, i as int),
        decreases to - i,
    {
        push_char(&mut s, cs[i]);
        proof { assert(cs@.subrange(from as int, i + 1) =~= cs@.subrange(from as int, i as int).push(cs@[i as int])); }
        i = i + 1;
    }
    s
}

/// Appends the characters `cs[from..to]` to `out`.
pub fn push_range(out: &mut Vec<char>, cs: &Vec<char>, from: usize, to: usize)
    requires
        from <= to <= cs@.len(),
    ensures
        final(out)@ == old(out)@ + cs@.subrange(from as int, to as int),
{
    let mut i: usize = from;
    while i < to
        invariant
            from <= i <= to,
            to <= cs@.len(),
            out@ == old(out)@ + cs@.subrange(from as int, i as int),
        decreases to - i,
    {
        out.push(cs[i]);
        proof { assert(cs@.subrange(from as int, i + 1) =~= cs@.subrange(from as int, i as int).push(cs@[i as int])); }
        i = i + 1;
    }
}

/// Appends the parts joined with `sep` to `s`.
pub fn push_joined(s: &mut String, parts: &Vec<String>, sep: &str)
    ensures
        final(s)@ == old(s)@ + join(parts@.map_values(|p: String| p@), sep@),
{
    let ghost all = parts@.map_values(|p: String| p@);
    let mut i: usize = 0;
    while i < parts.len()
        invariant
            i <= parts@.len(),
            all == parts@.map_values(|p: String| p@),
            s@ == old(s)@ + join(all.take(i as int), sep@),
        decreases parts@.len() - i,
    {
        if i > 0 {
            push_str(s, sep);
        }
        push_str(s, parts[i].as_str());
        proof {
            assert(all.take(i + 1) =~= all.take(i as int).push(all[i as int]));
            lemma_join_push(all.take(i as int), sep@, all[i as int]);
            if i == 0 {
                assert(join(all.take(0), sep@) =~= Seq::<char>::empty());
            }
        }
        i = i + 1;
    }
    proof { assert(all.take(parts@.len() as int) =~= all); }
}

/// Appends the parts joined with `sep` to `s`.
pub fn push_joined_strs(s: &mut String, parts: &Vec<&str>, sep: &str)
    ensures
        final(s)@ == old(s)@ + join(parts@.map_values(|p: &str| p@), sep@),
{
    let ghost all = parts@.map_values(|p: &str| p@);
    let mut i: usize = 0;
    while i < parts.len()
        invariant
            i <= parts@.len(),
            all == parts@.map_values(|p: &str| p@),
            s@ == old(s)@ + join(all.take(i as int), sep@),
        decreases parts@.len() - i,
    {
        if i > 0 {
            push_str(s, sep);
        }
        push_str(s, parts[i]);
        proof {
            assert(all.take(i + 1) =~= all.take(i as int).push(all[i as int]));
            lemma_join_push(all.take(i as int), sep@, all[i as int]);
            if i == 0 {
                assert(join(all.take(0), sep@) =~= Seq::<char>::empty());
            }
        }
        i = i + 1;
    }
    proof { assert(all.take(parts@.len() as int) =~= all); }
}

/// The trimmed pieces of `s` between occurrences of `sep`.
pub fn split_trim(s: &str, sep: char) -> (parts: Vec<String>)
    ensures
        parts@.map_values(|p: String| p@) == split_on(s@, sep).map_values(|x: Seq<char>| trim(x)),
{
    let chars = chars_of(s);
    let hi = chars.len();
    let ghost all = split_on(chars@, sep);
    let ghost mut done: Seq<Seq<char>> = Seq::empty();
    let mut out: Vec<String> = Vec::new();
    let mut st: usize = 0;
    assert(chars@.subrange(0, hi as int) =~= chars@);
    loop
        invariant
            st <= hi,
            hi == chars@.len(),
            chars@ == s@,
            all == split_on(chars@, sep),
            all == done + split_on(chars@.subrange(st as int, hi as int), sep),
            out@.map_values(|p: String| p@) == done.map_values(|x: Seq<char>| trim(x)),
        decreases hi - st,
    {
        let ghost t = chars@.subrange(st as int, hi as int);
        let mut e = st;
        while e < hi && chars[e] != sep
            invariant
                st <= e <= hi,
                hi == chars@.len(),
                forall|j: int| st <= j < e ==> chars@[j] != sep,
            decreases hi - e,
        {
            e = e + 1;
        }
        proof {
            lemma_find_first_at(t, sep, (e - st) as int);
            lemma_split_on_first(t, sep);
            assert(t.take((e - st) as int) =~= chars@.subrange(st as int, e as int));
        }
        let (a, b) = trim_range(&chars, st, e);
        let ghost before = out@;
        out.push(string_from_range(&chars, a, b));
        let ghost piece = chars@.subrange(st as int, e as int);
        proof {
            assert(out@.map_values(|p: String| p@) =~= before.map_values(|p: String| p@).push(trim(piece)));
            assert(done.push(piece).map_values(|x: Seq<char>| trim(x)) =~= done.map_values(|x: Seq<char>| trim(x)).push(trim(piece)));
        }
        if e == hi {
            proof {
                assert(split_on(t, sep) == seq![t]);
                assert(all =~= done.push(piece));
            }
            return out;
        }
        proof {
            assert(t.skip((e - st) + 1) =~= chars@.subrange(e + 1, hi as int));
            assert(all =~= done.push(piece) + split_on(chars@.subrange(e + 1, hi as int), sep));
            done = done.push(piece);
        }
        st = e + 1;
    }
}

/// Where `s[from..to]` resumes once its leading occurrences of `c` are skipped.
pub fn skip_leading(s: &Vec<char>, from: usize, to: usize, c: char) -> (a: usize)
    requires
        from <= to <= s@.len(),
    ensures
        from <= a <= to,
        s@.subrange(a as int, to as int) == trim_char_start(s@.subrange(from as int, to as int), c),
{
    let mut a = from;
    while a < to && s[a] == c
        invariant
            from <= a <= to,
            to <= s@.len(),
            trim_char_start(s@.subrange(from as int, to as int), c) == trim_char_start(s@.subrange(a as int, to as int), c),
        decreases to - a,
    {
        proof { assert(s@.subrange(a as int, to as int).drop_first() =~= s@.subrange(a + 1, to as int)); }
        a = a + 1;
    }
    a
}

/// Where `s[from..to]` ends once its trailing occurrences of `c` are dropped.
pub fn drop_trailing(s: &Vec<char>, from: usize, to: usize, c: char) -> (b: usize)
    requires
        from <= to <= s@.len(),
    ensures
        from <= b <= to,
        s@.subrange(from as int, b as int) == trim_char_end(s@.subrange(from as int, to as int), c),
{
    let mut b = to;
    while b > from && s[b - 1] == c
        invariant
            from <= b <= to,
            to <= s@.len(),
            trim_char_end(s@.subrange(from as int, to as int), c) == trim_char_end(s@.subrange(from as int, b as int), c),
        decreases b - from,
    {
        proof { assert(s@.subrange(from as int, b as int).drop_last() =~= s@.subrange(from as int, b - 1)); }
        b = b - 1;
    }
    b
}

/// The range of `s[from..to]` without leading and trailing occurrences of `c`.
pub fn trim_char_range(s: &Vec<char>, from: usize, to: usize, c: char) -> (r: (usize, usize))
    requires
        from <= to <= s@.len(),
    ensures
        from <= r.0 <= r.1 <= to,
        s@.subrange(r.0 as int, r.1 as int) == trim_char(s@.subrange(from as int, to as int), c),
{
    let mut a = from;
    while a < to && s[a] == c
        invariant
            from <= a <= to,
            to <= s@.len(),
            trim_char_start(s@.subrange(from as int, to as int), c) == trim_char_start(s@.subrange(a as int, to as int), c),
        decreases to - a,
    {
        proof { assert(s@.subrange(a as int, to as int).drop_first() =~= s@.subrange(a + 1, to as int)); }
        a = a + 1;
    }
    let mut b = to;
    while b > a && s[b - 1] == c
        invariant
            from <= a <= b <= to,
            to <= s@.len(),
            trim_char_end(s@.subrange(a as int, to as int), c) == trim_char_end(s@.subrange(a as int, b as int), c),
        decreases b - a,
    {
        proof { assert(s@.subrange(a as int, b as int).drop_last() =~= s@.subrange(a as int, b - 1)); }
        b = b - 1;
    }
    (a, b)
}

/// `split_on` cuts at the first separator.
pub proof fn lemma_split_on_first(t: Seq<char>, sep: char)
    ensures
        match find_first(t, sep) {
            Some(k) => split_on(t, sep) == seq![t.take(k)] + split_on(t.skip(k + 1), sep),
            None => split_on(t, sep) == seq![t],
        },
    decreases t.len(),
{
    if t.len() == 0 {
        assert(t =~= Seq::<char>::empty());
    } else if t[0] == sep {
        assert(find_first(t, sep) == Some(0int));
        assert(t.take(0) =~= Seq::<char>::empty());
        assert(t.skip(1) =~= t.drop_first());
        assert(split_on(t, sep) == seq![Seq::<char>::empty()] + split_on(t.drop_first(), sep));
    } else {
        let t1 = t.drop_first();
        lemma_split_on_first(t1, sep);
        lemma_find_first(t1, sep);
        match find_first(t1, sep) {
            Some(k1) => {
                assert(find_first(t, sep) == Some(k1 + 1));
                let rest = split_on(t1, sep);
                assert(split_on(t, sep) == rest.update(0, seq![t[0]] + rest[0]));
                assert(seq![t[0]] + t1.take(k1) =~= t.take(k1 + 1));
                assert(t1.skip(k1 + 1) =~= t.skip(k1 + 2));
                assert(split_on(t, sep) =~= seq![t.take(k1 + 1)] + split_on(t.skip(k1 + 2), sep));
            },
            None => {
                assert(find_first(t, sep) is None);
                let rest = split_on(t1, sep);
                assert(split_on(t, sep) == rest.update(0, seq![t[0]] + rest[0]));
                assert(seq![t[0]] + t1 =~= t);
                assert(split_on(t, sep) =~= seq![t]);
            },
        }
    }
}

} // verus!
