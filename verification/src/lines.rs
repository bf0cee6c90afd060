//! The lines that a search for imports hands over: trimmed, and each
//! distinct line once.

use crate::text::{chars_of, string_of, texts, trim_text, trimmed};
use vstd::prelude::*;

verus! {

/// The lines of `s` that lie between the line feeds from position `i` on,
/// where the line being read starts at `start`. What follows the last line
/// feed is a line unless it is empty.
pub open spec fn lines_from(s: Seq<char>, start: int, i: int) -> Seq<Seq<char>>
    decreases s.len() - i,
{
    if i < 0 || i >= s.len() {
        if start < s.len() {
            seq![s.subrange(start, s.len() as int)]
        } else {
            Seq::empty()
        }
    } else if s[i] == '\n' {
        seq![s.subrange(start, i)] + lines_from(s, i + 1, i + 1)
    } else {
        lines_from(s, start, i + 1)
    }
}

/// The lines of a text. A carriage return in front of a line feed stays
/// with its line.
pub open spec fn text_lines(s: Seq<char>) -> Seq<Seq<char>> {
    lines_from(s, 0, 0)
}

/// Parts a text into its lines.
pub fn split_lines(text: &str) -> (r: Vec<String>)
    ensures
        texts(r@) == text_lines(text@),
{
    let cs = chars_of(text);
    let n: usize = cs.len();
    let mut out: Vec<String> = Vec::new();
    let mut start: usize = 0;
    let mut i: usize = 0;
    assert(texts(out@) + lines_from(cs@, 0, 0) =~= text_lines(cs@));
    while i < n
        invariant
            n == cs@.len(),
            start <= i <= n,
            text_lines(cs@) == texts(out@) + lines_from(cs@, start as int, i as int),
        decreases n - i,
    {
        if cs[i] == '\n' {
            let line = string_of(&cs, start, i);
            proof {
                let rest = lines_from(cs@, i as int + 1, i as int + 1);
                assert(texts(out@.push(line)) =~= texts(out@).push(line@));
                assert(texts(out@) + (seq![line@] + rest) =~= texts(out@).push(line@) + rest);
            }
            out.push(line);
            start = i + 1;
        }
        i += 1;
    }
    if start < n {
        let line = string_of(&cs, start, n);
        proof {
            assert(texts(out@.push(line)) =~= texts(out@).push(line@));
            assert(texts(out@) + seq![line@] =~= texts(out@).push(line@));
        }
        out.push(line);
    } else {
        assert(texts(out@) + Seq::<Seq<char>>::empty() =~= texts(out@));
    }
    out
}

/// The items of `s` without repetitions: each stands where it first
/// occurs in `s`.
pub open spec fn first_occurrences(s: Seq<Seq<char>>) -> Seq<Seq<char>>
    decreases s.len(),
{
    if s.len() == 0 {
        Seq::empty()
    } else if s.drop_last().contains(s.last()) {
        first_occurrences(s.drop_last())
    } else {
        first_occurrences(s.drop_last()).push(s.last())
    }
}

/// Each line trimmed.
pub open spec fn trimmed_lines(s: Seq<Seq<char>>) -> Seq<Seq<char>> {
    s.map_values(|line: Seq<char>| trimmed(line))
}

/// `Itertools::unique` over the strings of a vector, collected into a
/// vector again. The adaptor hands on an item when it has not handed on
/// an equal one before, so that of equal strings the first stays, and
/// what stays keeps its order.
#[verifier::external_body]
fn unique_strings(lines: Vec<String>) -> (r: Vec<String>)
    ensures
        texts(r@) == first_occurrences(texts(lines@)),
{
    itertools::Itertools::unique(lines.into_iter()).collect()
}

/// Trims each line and drops the lines that are equal to an earlier one.
pub fn distinct_lines(raw: &Vec<String>) -> (r: Vec<String>)
    ensures
        texts(r@) == first_occurrences(trimmed_lines(texts(raw@))),
{
    let mut lines: Vec<String> = Vec::new();
    let mut i: usize = 0;
    while i < raw.len()
        invariant
            i <= raw.len(),
            texts(lines@) == trimmed_lines(texts(raw@)).subrange(0, i as int),
        decreases raw.len() - i,
    {
        let ghost held = lines@;
        let line = trim_text(raw[i].as_str());
        lines.push(line);
        i += 1;
        proof {
            assert(texts(lines@) =~= texts(held).push(line@));
            assert(texts(lines@) =~= trimmed_lines(texts(raw@)).subrange(0, i as int));
        }
    }
    assert(texts(lines@) =~= trimmed_lines(texts(raw@)));
    unique_strings(lines)
}

/// The import lines in the output of a search: its lines, trimmed, each
/// distinct line once, at its first place.
pub fn import_lines(output: &str) -> (r: Vec<String>)
    ensures
        texts(r@) == first_occurrences(trimmed_lines(text_lines(output@))),
{
    let raw = split_lines(output);
    distinct_lines(&raw)
}

} // verus!
