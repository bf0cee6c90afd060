//! Character-level text operations: ordering, trimming, splitting a
//! double-colon path, and decimal numbers.

use vstd::prelude::*;
use vstd::string::StringExecFns;

verus! {

/// The characters with the Unicode property White_Space.
pub open spec fn is_space(c: char) -> bool {
    let n = c as u32;
    (0x09 <= n <= 0x0D) || n == 0x20 || n == 0x85 || n == 0xA0 || n == 0x1680 || (0x2000 <= n
        <= 0x200A) || n == 0x2028 || n == 0x2029 || n == 0x202F || n == 0x205F || n == 0x3000
}

/// Decides whether a character is white space.
pub fn is_space_char(c: char) -> (r: bool)
    ensures
        r == is_space(c),
{
    let n: u32 = c as u32;
    (0x09 <= n && n <= 0x0D) || n == 0x20 || n == 0x85 || n == 0xA0 || n == 0x1680 || (0x2000 <= n
        && n <= 0x200A) || n == 0x2028 || n == 0x2029 || n == 0x202F || n == 0x205F || n == 0x3000
}

/// The characters of a string, in order.
pub fn chars_of(s: &str) -> (r: Vec<char>)
    ensures
        r@ == s@,
{
    broadcast use vstd::string::group_string_axioms;

    let mut out: Vec<char> = Vec::new();
    for c in it: s.chars()
        invariant
            it.seq() == s@,
            out@ == s@.subrange(0, it.index() as int),
    {
        out.push(c);
        assert(out@ =~= s@.subrange(0, it.index() + 1));
    }
    assert(out@ =~= s@);
    out
}

/// The texts of a sequence of strings.
pub open spec fn texts(v: Seq<String>) -> Seq<Seq<char>> {
    v.map_values(|s: String| s@)
}

/// `String::push` puts one character at the end of the string.
pub assume_specification[ String::push ](s: &mut String, ch: char)
    ensures
        final(s)@ == old(s)@.push(ch),
;

/// The string of the characters of `cs` from `from` up to `to`.
pub fn string_of(cs: &Vec<char>, from: usize, to: usize) -> (r: String)
    requires
        from <= to <= cs.len(),
    ensures
        r@ == cs@.subrange(from as int, to as int),
{
    let mut out = String::new();
    let mut i: usize = from;
    assert(out@ =~= cs@.subrange(from as int, i as int));
    while i < to
        invariant
            from <= i <= to <= cs.len(),
            out@ == cs@.subrange(from as int, i as int),
        decreases to - i,
    {
        out.push(cs[i]);
        i += 1;
        assert(out@ =~= cs@.subrange(from as int, i as int));
    }
    out
}

/// Lexicographic order by code point: `a` comes strictly before `b`.
pub open spec fn lex_lt(a: Seq<char>, b: Seq<char>) -> bool
    decreases a.len(),
{
    if b.len() == 0 {
        false
    } else if a.len() == 0 {
        true
    } else if (a[0] as int) < (b[0] as int) {
        true
    } else if (a[0] as int) > (b[0] as int) {
        false
    } else {
        lex_lt(a.drop_first(), b.drop_first())
    }
}

/// No text comes before itself.
pub proof fn lemma_lex_irreflexive(a: Seq<char>)
    ensures
        !lex_lt(a, a),
    decreases a.len(),
{
    if a.len() > 0 {
        lemma_lex_irreflexive(a.drop_first());
    }
}

/// The order is transitive.
pub proof fn lemma_lex_transitive(a: Seq<char>, b: Seq<char>, c: Seq<char>)
    requires
        lex_lt(a, b),
        lex_lt(b, c),
    ensures
        lex_lt(a, c),
    decreases a.len(),
{
    if a.len() > 0 && a[0] == b[0] && b[0] == c[0] {
        lemma_lex_transitive(a.drop_first(), b.drop_first(), c.drop_first());
    }
}

/// Two texts of which neither comes before the other are the same text.
pub proof fn lemma_lex_total(a: Seq<char>, b: Seq<char>)
    requires
        !lex_lt(a, b),
        !lex_lt(b, a),
    ensures
        a == b,
    decreases a.len(),
{
    if a.len() > 0 && b.len() > 0 {
        lemma_lex_total(a.drop_first(), b.drop_first());
        assert(a[0] == b[0]);
        assert(a =~= seq![a[0]] + a.drop_first());
        assert(b =~= seq![b[0]] + b.drop_first());
    } else {
        assert(a =~= b);
    }
}

/// Decides the lexicographic order of two texts.
pub fn chars_lt(a: &Vec<char>, b: &Vec<char>) -> (r: bool)
    ensures
        r == lex_lt(a@, b@),
{
    let mut i: usize = 0;
    assert(a@.skip(0) =~= a@ && b@.skip(0) =~= b@);
    while i < a.len() && i < b.len()
        invariant
            i <= a.len(),
            i <= b.len(),
            lex_lt(a@, b@) == lex_lt(a@.skip(i as int), b@.skip(i as int)),
        decreases a.len() - i,
    {
        let x: char = a[i];
        let y: char = b[i];
        proof {
            assert(a@.skip(i as int)[0] == a@[i as int]);
            assert(b@.skip(i as int)[0] == b@[i as int]);
            assert(a@.skip(i as int).drop_first() =~= a@.skip(i as int + 1));
            assert(b@.skip(i as int).drop_first() =~= b@.skip(i as int + 1));
        }
        if x < y {
            return true;
        }
        if x > y {
            return false;
        }
        i += 1;
    }
    i < b.len()
}

/// Decides whether two texts are the same.
pub fn chars_eq(a: &Vec<char>, b: &Vec<char>) -> (r: bool)
    ensures
        r == (a@ == b@),
{
    if a.len() != b.len() {
        return false;
    }
    let mut i: usize = 0;
    while i < a.len()
        invariant
            a.len() == b.len(),
            i <= a.len(),
            forall|k: int| 0 <= k < i ==> a@[k] == b@[k],
        decreases a.len() - i,
    {
        if a[i] != b[i] {
            return false;
        }
        i += 1;
    }
    assert(a@ =~= b@);
    true
}

/// `s` without the white space at its end.
pub open spec fn strip_end_spaces(s: Seq<char>) -> Seq<char>
    decreases s.len(),
{
    if s.len() > 0 && is_space(s.last()) {
        strip_end_spaces(s.drop_last())
    } else {
        s
    }
}

/// `s` without the white space at its start.
pub open spec fn strip_start_spaces(s: Seq<char>) -> Seq<char>
    decreases s.len(),
{
    if s.len() > 0 && is_space(s[0]) {
        strip_start_spaces(s.drop_first())
    } else {
        s
    }
}

/// `s` without the white space on both sides.
pub open spec fn trimmed(s: Seq<char>) -> Seq<char> {
    strip_end_spaces(strip_start_spaces(s))
}

/// A character that closes a statement or stands around its end: the
/// semicolon, and white space.
pub open spec fn is_closing(c: char) -> bool {
    c == ';' || is_space(c)
}

/// `s` without the semicolons and the white space at its end, in whatever
/// order they stand there.
pub open spec fn strip_end_closing(s: Seq<char>) -> Seq<char>
    decreases s.len(),
{
    if s.len() > 0 && is_closing(s.last()) {
        strip_end_closing(s.drop_last())
    } else {
        s
    }
}

/// The text of a statement: the semicolons and the white space at its end
/// are taken away, and the white space at its start.
pub open spec fn statement_text(s: Seq<char>) -> Seq<char> {
    strip_start_spaces(strip_end_closing(s))
}

/// What is left of a text without the white space at its start ends as
/// the text ends.
pub proof fn lemma_strip_start_keeps_end(s: Seq<char>)
    ensures
        strip_start_spaces(s).len() <= s.len(),
        strip_start_spaces(s).len() > 0 ==> strip_start_spaces(s).last() == s.last()
            && !is_space(strip_start_spaces(s)[0]),
    decreases s.len(),
{
    if s.len() > 0 && is_space(s[0]) {
        lemma_strip_start_keeps_end(s.drop_first());
    }
}

/// The text of a statement neither starts with white space nor ends with
/// a semicolon or white space, and to take the text of it again changes
/// nothing.
pub proof fn lemma_statement_text_is_bare(s: Seq<char>)
    ensures
        statement_text(s).len() > 0 ==> !is_space(statement_text(s)[0]) && !is_closing(
            statement_text(s).last(),
        ),
        statement_text(statement_text(s)) == statement_text(s),
    decreases s.len(),
{
    if s.len() > 0 && is_closing(s.last()) {
        lemma_statement_text_is_bare(s.drop_last());
    } else {
        lemma_strip_start_keeps_end(s);
    }
}

/// Where the first `end` characters of `cs` start once the white space
/// at their start is taken away.
pub(crate) fn skip_start_spaces(cs: &Vec<char>, end: usize) -> (start: usize)
    requires
        end <= cs.len(),
    ensures
        start <= end,
        cs@.subrange(start as int, end as int) == strip_start_spaces(cs@.subrange(0, end as int)),
{
    let ghost whole = cs@.subrange(0, end as int);
    let mut start: usize = 0;
    while start < end && is_space_char(cs[start])
        invariant
            start <= end <= cs.len(),
            strip_start_spaces(whole) == strip_start_spaces(cs@.subrange(start as int, end as int)),
        decreases end - start,
    {
        assert(cs@.subrange(start as int, end as int).drop_first() =~= cs@.subrange(
            start as int + 1,
            end as int,
        ));
        start += 1;
    }
    start
}

/// Where the first `end` characters of `cs` start and end once trimmed.
pub(crate) fn trim_bounds(cs: &Vec<char>, end: usize) -> (r: (usize, usize))
    requires
        end <= cs.len(),
    ensures
        r.0 <= r.1 <= end,
        cs@.subrange(r.0 as int, r.1 as int) == trimmed(cs@.subrange(0, end as int)),
{
    let start: usize = skip_start_spaces(cs, end);
    let ghost left = cs@.subrange(start as int, end as int);
    let mut stop: usize = end;
    while stop > start && is_space_char(cs[stop - 1])
        invariant
            start <= stop <= end <= cs.len(),
            strip_end_spaces(left) == strip_end_spaces(cs@.subrange(start as int, stop as int)),
        decreases stop,
    {
        assert(cs@.subrange(start as int, stop as int).drop_last() =~= cs@.subrange(
            start as int,
            stop as int - 1,
        ));
        stop -= 1;
    }
    (start, stop)
}

/// Trims a string.
pub fn trim_text(s: &str) -> (r: String)
    ensures
        r@ == trimmed(s@),
{
    let cs = chars_of(s);
    assert(cs@.subrange(0, cs@.len() as int) =~= cs@);
    let (from, to) = trim_bounds(&cs, cs.len());
    string_of(&cs, from, to)
}

/// The text of a statement.
pub fn statement_of(line: &str) -> (r: String)
    ensures
        r@ == statement_text(line@),
{
    let cs = chars_of(line);
    let mut end: usize = cs.len();
    assert(cs@.subrange(0, end as int) =~= cs@);
    while end > 0 && (cs[end - 1] == ';' || is_space_char(cs[end - 1]))
        invariant
            end <= cs.len(),
            strip_end_closing(cs@) == strip_end_closing(cs@.subrange(0, end as int)),
        decreases end,
    {
        assert(cs@.subrange(0, end as int).drop_last() =~= cs@.subrange(0, end as int - 1));
        end -= 1;
    }
    let start: usize = skip_start_spaces(&cs, end);
    string_of(&cs, start, end)
}

/// The tokens of `s` between its double colons, read from position `i` on,
/// where the token being read starts at `start`. Separators are taken from
/// left to right and do not overlap.
pub open spec fn split_from(s: Seq<char>, start: int, i: int) -> Seq<Seq<char>>
    decreases s.len() - i,
{
    if i < 0 || i + 1 >= s.len() {
        seq![s.subrange(start, s.len() as int)]
    } else if s[i] == ':' && s[i + 1] == ':' {
        seq![s.subrange(start, i)] + split_from(s, i + 2, i + 2)
    } else {
        split_from(s, start, i + 1)
    }
}

/// The tokens of `s` between its double colons. There is always at least
/// one; a token may be empty.
pub open spec fn path_tokens(s: Seq<char>) -> Seq<Seq<char>> {
    split_from(s, 0, 0)
}

/// The tokens with a double colon between each two.
pub open spec fn join_tokens(tokens: Seq<Seq<char>>) -> Seq<char>
    decreases tokens.len(),
{
    if tokens.len() == 0 {
        Seq::empty()
    } else if tokens.len() == 1 {
        tokens[0]
    } else {
        tokens[0] + seq![':', ':'] + join_tokens(tokens.drop_first())
    }
}

/// Reading from any position gives at least one token, and the tokens,
/// joined again, are the text from where the first of them starts.
pub proof fn lemma_split_from(s: Seq<char>, start: int, i: int)
    requires
        0 <= start <= i <= s.len(),
    ensures
        split_from(s, start, i).len() >= 1,
        join_tokens(split_from(s, start, i)) == s.subrange(start, s.len() as int),
    decreases s.len() - i,
{
    if i + 1 >= s.len() {
    } else if s[i] == ':' && s[i + 1] == ':' {
        let rest = split_from(s, i + 2, i + 2);
        let all = seq![s.subrange(start, i)] + rest;
        lemma_split_from(s, i + 2, i + 2);
        assert(all.drop_first() =~= rest);
        assert(all[0] == s.subrange(start, i));
        assert(s.subrange(start, i) + seq![':', ':'] + s.subrange(i + 2, s.len() as int)
            =~= s.subrange(start, s.len() as int));
    } else {
        lemma_split_from(s, start, i + 1);
    }
}

/// Nothing of a text is lost in its tokens: joined by double colons they
/// are the text again.
pub proof fn lemma_tokens_lossless(s: Seq<char>)
    ensures
        path_tokens(s).len() >= 1,
        join_tokens(path_tokens(s)) == s,
{
    lemma_split_from(s, 0, 0);
    assert(s.subrange(0, s.len() as int) =~= s);
}

/// Parts a text at its double colons.
pub fn tokens_of(text: &str) -> (r: Vec<String>)
    ensures
        texts(r@) == path_tokens(text@),
{
    let cs = chars_of(text);
    let n: usize = cs.len();
    let mut out: Vec<String> = Vec::new();
    let mut start: usize = 0;
    let mut i: usize = 0;
    assert(texts(out@) + split_from(cs@, 0, 0) =~= path_tokens(cs@));
    while n - i >= 2
        invariant
            n == cs@.len(),
            start <= i <= n,
            path_tokens(cs@) == texts(out@) + split_from(cs@, start as int, i as int),
        decreases n - i,
    {
        if cs[i] == ':' && cs[i + 1] == ':' {
            let token = string_of(&cs, start, i);
            proof {
                let rest = split_from(cs@, i as int + 2, i as int + 2);
                assert(texts(out@.push(token)) =~= texts(out@).push(token@));
                assert(texts(out@) + (seq![token@] + rest) =~= texts(out@).push(token@) + rest);
            }
            out.push(token);
            i += 2;
            start = i;
        } else {
            i += 1;
        }
    }
    let token = string_of(&cs, start, n);
    proof {
        assert(texts(out@.push(token)) =~= texts(out@).push(token@));
        assert(texts(out@) + seq![token@] =~= texts(out@).push(token@));
    }
    out.push(token);
    out
}

/// What follows the last dot of `s`; all of `s` where it has no dot.
pub open spec fn last_segment(s: Seq<char>) -> Seq<char>
    decreases s.len(),
{
    if s.len() == 0 || s.last() == '.' {
        Seq::empty()
    } else {
        last_segment(s.drop_last()).push(s.last())
    }
}

/// Where the last segment of `cs` starts.
pub(crate) fn last_segment_start(cs: &Vec<char>) -> (r: usize)
    ensures
        r <= cs.len(),
        cs@.subrange(r as int, cs@.len() as int) == last_segment(cs@),
{
    let mut start: usize = 0;
    let mut i: usize = 0;
    assert(cs@.subrange(0, 0) =~= Seq::<char>::empty());
    while i < cs.len()
        invariant
            start <= i <= cs.len(),
            cs@.subrange(start as int, i as int) == last_segment(cs@.subrange(0, i as int)),
        decreases cs.len() - i,
    {
        proof {
            let next = cs@.subrange(0, i as int + 1);
            assert(next.drop_last() =~= cs@.subrange(0, i as int));
            assert(next.last() == cs@[i as int]);
            assert(cs@.subrange(start as int, i as int).push(cs@[i as int]) =~= cs@.subrange(
                start as int,
                i as int + 1,
            ));
            assert(cs@.subrange(i as int + 1, i as int + 1) =~= Seq::<char>::empty());
        }
        if cs[i] == '.' {
            start = i + 1;
        }
        i += 1;
    }
    assert(cs@.subrange(0, i as int) =~= cs@);
    start
}

/// The last segment of a string.
pub fn last_segment_of(s: &str) -> (r: String)
    ensures
        r@ == last_segment(s@),
{
    let cs = chars_of(s);
    let start: usize = last_segment_start(&cs);
    string_of(&cs, start, cs.len())
}

/// Two characters that are the same, or the same ASCII letter in two cases.
pub open spec fn same_letter(a: char, b: char) -> bool {
    ||| a == b
    ||| ('A' as int <= a as int <= 'Z' as int && b as int == a as int + 32)
    ||| ('A' as int <= b as int <= 'Z' as int && a as int == b as int + 32)
}

/// Two texts that differ at most in the case of their ASCII letters.
pub open spec fn same_ignoring_case(a: Seq<char>, b: Seq<char>) -> bool {
    a.len() == b.len() && forall|i: int| 0 <= i < a.len() ==> same_letter(#[trigger] a[i], b[i])
}

/// How two names are held against each other: as they are, or without
/// regard to the case of ASCII letters.
pub open spec fn names_match(a: Seq<char>, b: Seq<char>, fold_case: bool) -> bool {
    if fold_case {
        same_ignoring_case(a, b)
    } else {
        a == b
    }
}

/// Decides whether two characters are the same but for their case.
pub fn same_letter_char(a: char, b: char) -> (r: bool)
    ensures
        r == same_letter(a, b),
{
    let x: u32 = a as u32;
    let y: u32 = b as u32;
    a == b || (65 <= x && x <= 90 && y == x + 32) || (65 <= y && y <= 90 && x == y + 32)
}

/// Holds what follows position `from` in `a` against `b`.
pub fn tail_matches(a: &Vec<char>, from: usize, b: &Vec<char>, fold_case: bool) -> (r: bool)
    requires
        from <= a.len(),
    ensures
        r == names_match(a@.subrange(from as int, a@.len() as int), b@, fold_case),
{
    let ghost tail = a@.subrange(from as int, a@.len() as int);
    if a.len() - from != b.len() {
        assert(tail.len() != b@.len());
        return false;
    }
    let mut i: usize = 0;
    while i < b.len()
        invariant
            from <= a.len(),
            a.len() - from == b.len(),
            i <= b.len(),
            tail == a@.subrange(from as int, a@.len() as int),
            forall|k: int| 0 <= k < i ==> same_letter(#[trigger] tail[k], b@[k]),
            !fold_case ==> forall|k: int| 0 <= k < i ==> #[trigger] tail[k] == b@[k],
        decreases b.len() - i,
    {
        let x: char = a[from + i];
        let y: char = b[i];
        assert(tail[i as int] == x);
        let same: bool = if fold_case {
            same_letter_char(x, y)
        } else {
            x == y
        };
        if !same {
            return false;
        }
        i += 1;
    }
    assert(!fold_case ==> tail =~= b@);
    true
}

/// The value of a run of decimal digits.
pub open spec fn decimal_value(s: Seq<char>) -> nat
    decreases s.len(),
{
    if s.len() == 0 {
        0
    } else {
        (decimal_value(s.drop_last()) * 10 + (s.last() as int - '0' as int)) as nat
    }
}

/// The ten decimal digits.
pub open spec fn is_digit(c: char) -> bool {
    '0' as int <= c as int <= '9' as int
}

/// A text of decimal digits only.
pub open spec fn all_digits(s: Seq<char>) -> bool {
    forall|i: int| 0 <= i < s.len() ==> is_digit(#[trigger] s[i])
}

/// What is left of `s` after one plus sign at its start, if it has one.
pub open spec fn unsigned_part(s: Seq<char>) -> Seq<char> {
    if s.len() > 0 && s[0] == '+' {
        s.drop_first()
    } else {
        s
    }
}

/// The number that `s` writes: an optional plus sign, then one or more
/// decimal digits and nothing else, the value within `usize`.
pub open spec fn number_of(s: Seq<char>) -> Option<usize> {
    let d = unsigned_part(s);
    if d.len() > 0 && all_digits(d) && decimal_value(d) <= usize::MAX {
        Some(decimal_value(d) as usize)
    } else {
        None
    }
}

/// A run of digits is worth at least as much as any of its prefixes.
pub proof fn lemma_decimal_prefix(s: Seq<char>, i: int)
    requires
        all_digits(s),
        0 <= i <= s.len(),
    ensures
        decimal_value(s.subrange(0, i)) <= decimal_value(s),
    decreases s.len(),
{
    if i == s.len() {
        assert(s.subrange(0, i) =~= s);
    } else {
        assert(s.drop_last().subrange(0, i) =~= s.subrange(0, i));
        assert(is_digit(s[s.len() - 1]));
        assert forall|k: int| 0 <= k < s.drop_last().len() implies is_digit(
            #[trigger] s.drop_last()[k],
        ) by {
            assert(is_digit(s[k]));
        }
        lemma_decimal_prefix(s.drop_last(), i);
    }
}

/// Reads a decimal number.
pub fn parse_number(s: &str) -> (r: Option<usize>)
    ensures
        r == number_of(s@),
{
    let cs = chars_of(s);
    let first: usize = if cs.len() > 0 && cs[0] == '+' {
        1
    } else {
        0
    };
    let ghost d = unsigned_part(cs@);
    assert(d =~= cs@.subrange(first as int, cs@.len() as int));
    if cs.len() == first {
        return None;
    }
    let mut value: usize = 0;
    let mut i: usize = first;
    assert(d.subrange(0, 0) =~= Seq::<char>::empty());
    while i < cs.len()
        invariant
            first <= i <= cs.len(),
            cs@ == s@,
            d == unsigned_part(cs@),
            d == cs@.subrange(first as int, cs@.len() as int),
            all_digits(d.subrange(0, i - first)),
            value == decimal_value(d.subrange(0, i - first)),
        decreases cs.len() - i,
    {
        let c: char = cs[i];
        let ghost k = i - first;
        assert(d[k] == c);
        if !('0' <= c && c <= '9') {
            assert(!is_digit(d[k]));
            return None;
        }
        let digit: usize = (c as u32 - '0' as u32) as usize;
        proof {
            let next = d.subrange(0, k + 1);
            assert(next.drop_last() =~= d.subrange(0, k));
            assert(next.last() == c);
            assert forall|j: int| 0 <= j < next.len() implies is_digit(#[trigger] next[j]) by {
                if j < k {
                    assert(is_digit(d.subrange(0, k)[j]));
                }
            }
            assert(decimal_value(next) == value * 10 + digit);
        }
        if value > (usize::MAX - digit) / 10 {
            proof {
                if all_digits(d) {
                    lemma_decimal_prefix(d, k + 1);
                }
            }
            return None;
        }
        value = value * 10 + digit;
        i += 1;
    }
    assert(d.subrange(0, i - first) =~= d);
    Some(value)
}

/// The character of a decimal digit.
pub open spec fn digit_char(d: int) -> char {
    ('0' as int + d) as char
}

/// The decimal digits of a number, without leading zeros.
pub open spec fn digits_of(n: nat) -> Seq<char>
    decreases n,
{
    if n < 10 {
        seq![digit_char(n as int)]
    } else {
        digits_of(n / 10).push(digit_char((n % 10) as int))
    }
}

/// The digits of a number are read as that number again.
pub proof fn lemma_digits_read_back(n: nat)
    ensures
        digits_of(n).len() >= 1,
        all_digits(digits_of(n)),
        decimal_value(digits_of(n)) == n,
    decreases n,
{
    let s = digits_of(n);
    if n < 10 {
        assert(s.drop_last() =~= Seq::<char>::empty());
        assert(decimal_value(s.drop_last()) == 0);
    } else {
        lemma_digits_read_back(n / 10);
        assert(s.drop_last() =~= digits_of(n / 10));
        assert forall|i: int| 0 <= i < s.len() implies is_digit(#[trigger] s[i]) by {
            if i < s.len() - 1 {
                assert(s[i] == digits_of(n / 10)[i]);
            }
        }
    }
}

/// A number that was written in decimal digits is parsed as itself.
pub proof fn lemma_number_of_digits(n: usize)
    ensures
        number_of(digits_of(n as nat)) == Some(n),
{
    lemma_digits_read_back(n as nat);
    assert(digits_of(n as nat)[0] != '+');
}

/// The character of one decimal digit.
fn digit_of(d: usize) -> (r: char)
    requires
        d < 10,
    ensures
        r == digit_char(d as int),
{
    if d == 0 {
        '0'
    } else if d == 1 {
        '1'
    } else if d == 2 {
        '2'
    } else if d == 3 {
        '3'
    } else if d == 4 {
        '4'
    } else if d == 5 {
        '5'
    } else if d == 6 {
        '6'
    } else if d == 7 {
        '7'
    } else if d == 8 {
        '8'
    } else {
        '9'
    }
}

/// Writes a number in decimal digits.
pub fn decimal_text(n: usize) -> (r: String)
    ensures
        r@ == digits_of(n as nat),
{
    let mut rest: usize = n;
    let mut low_first: Vec<char> = Vec::new();
    assert(digits_of(n as nat) =~= digits_of(rest as nat) + low_first@.reverse());
    while rest >= 10
        invariant
            digits_of(n as nat) == digits_of(rest as nat) + low_first@.reverse(),
        decreases rest,
    {
        let c: char = digit_of(rest % 10);
        proof {
            let lower = low_first@;
            assert(lower.push(c).reverse() =~= seq![c] + lower.reverse());
            assert(digits_of((rest / 10) as nat).push(c) + lower.reverse() =~= digits_of(
                (rest / 10) as nat,
            ) + (seq![c] + lower.reverse()));
        }
        low_first.push(c);
        rest = rest / 10;
    }
    let c: char = digit_of(rest);
    proof {
        let lower = low_first@;
        assert(lower.push(c).reverse() =~= seq![c] + lower.reverse());
    }
    low_first.push(c);
    let ghost digits = low_first@.reverse();
    let mut out = String::new();
    let mut i: usize = low_first.len();
    assert(out@ =~= digits.subrange(0, low_first@.len() - i));
    while i > 0
        invariant
            i <= low_first.len(),
            digits == low_first@.reverse(),
            out@ == digits.subrange(0, low_first@.len() - i),
        decreases i,
    {
        i -= 1;
        out.push(low_first[i]);
        assert(out@ =~= digits.subrange(0, low_first@.len() - i));
    }
    assert(out@ =~= digits);
    out
}

/// The key under which an item of a namespace is found: the namespace, a
/// dot, and the item's name.
pub open spec fn qualified_key(namespace: Seq<char>, item: Seq<char>) -> Seq<char> {
    namespace + seq!['.'] + item
}

/// Builds the qualified key of an item.
pub fn make_key(namespace: &str, item: &str) -> (r: String)
    ensures
        r@ == qualified_key(namespace@, item@),
{
    let mut key: String = namespace.to_owned();
    proof {
        reveal_strlit(".");
    }
    key.append(".");
    assert(".".view() =~= seq!['.']);
    key.append(item);
    key
}

/// `p` is how `s` begins.
pub open spec fn begins_with(s: Seq<char>, p: Seq<char>) -> bool {
    p.len() <= s.len() && s.subrange(0, p.len() as int) == p
}

/// A key that lies in a namespace: it begins with the namespace and a dot.
pub open spec fn in_namespace(key: Seq<char>, namespace: Seq<char>) -> bool {
    begins_with(key, namespace + seq!['.'])
}

/// Decides whether `s` begins with `p`.
pub fn has_prefix(s: &Vec<char>, p: &Vec<char>) -> (r: bool)
    ensures
        r == begins_with(s@, p@),
{
    if p.len() > s.len() {
        return false;
    }
    let ghost head = s@.subrange(0, p@.len() as int);
    let mut i: usize = 0;
    while i < p.len()
        invariant
            p.len() <= s.len(),
            i <= p.len(),
            head == s@.subrange(0, p@.len() as int),
            forall|k: int| 0 <= k < i ==> #[trigger] head[k] == p@[k],
        decreases p.len() - i,
    {
        assert(head[i as int] == s@[i as int]);
        if s[i] != p[i] {
            return false;
        }
        i += 1;
    }
    assert(head =~= p@);
    true
}

} // verus!
