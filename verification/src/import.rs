//! Reading import lines: the path of a `use` statement, and the file name
//! that a search tool puts in front of it.

use crate::text::{
    chars_of, path_tokens, statement_of, statement_text, string_of, texts, tokens_of,
};
use vstd::prelude::*;
use vstd::string::StringExecFns;

verus! {

/// The label with which every namespace of the catalog begins.
pub open spec fn root_label() -> Seq<char> {
    seq!['W', 'i', 'n', 'd', 'o', 'w', 's']
}

/// The root label, followed by a dot and a token for each of the tokens
/// from the second up to, not including, position `n`.
pub open spec fn namespace_upto(tokens: Seq<Seq<char>>, n: int) -> Seq<char>
    decreases n,
{
    if n <= 1 || n > tokens.len() {
        root_label()
    } else {
        namespace_upto(tokens, n - 1) + seq!['.'] + tokens[n - 1]
    }
}

/// The namespace that the tokens of an import name: all tokens but the
/// first, which is the crate, and the last, which is the item.
pub open spec fn namespace_path(tokens: Seq<Seq<char>>) -> Seq<char> {
    namespace_upto(tokens, tokens.len() - 1)
}

/// What an import line refers to: a namespace, and an item of it or, for a
/// wildcard, none. A line with fewer than three tokens refers to nothing.
pub open spec fn parsed_import(line: Seq<char>) -> Option<(Seq<char>, Option<Seq<char>>)> {
    let tokens = path_tokens(statement_text(line));
    if tokens.len() < 3 {
        None
    } else if tokens.last() == seq!['*'] {
        Some((namespace_path(tokens), None))
    } else {
        Some((namespace_path(tokens), Some(tokens.last())))
    }
}

/// A reference as contracts speak of it.
pub open spec fn reference_view(r: Option<(String, Option<String>)>) -> Option<
    (Seq<char>, Option<Seq<char>>),
> {
    match r {
        Some((namespace, Some(item))) => Some((namespace@, Some(item@))),
        Some((namespace, None)) => Some((namespace@, None)),
        None => None,
    }
}

/// Reads the path of an import: `windows::Seg1::...::SegN::Item;` gives the
/// namespace `Windows.Seg1.....SegN` and the item, `windows::Seg1::*;` the
/// namespace alone.
pub fn parse_namespace_and_item(import_line: &str) -> (r: Option<(String, Option<String>)>)
    ensures
        reference_view(r) == parsed_import(import_line@),
{
    let text = statement_of(import_line);
    let tokens = tokens_of(text.as_str());
    let n: usize = tokens.len();
    if n < 3 {
        return None;
    }
    proof {
        reveal_strlit("Windows");
        reveal_strlit(".");
        assert("Windows".view() =~= root_label());
        assert(".".view() =~= seq!['.']);
    }
    let mut namespace: String = String::from_str("Windows");
    let mut k: usize = 1;
    while k < n - 1
        invariant
            3 <= n == tokens@.len(),
            1 <= k <= n - 1,
            ".".view() == seq!['.'],
            namespace@ == namespace_upto(texts(tokens@), k as int),
        decreases n - k,
    {
        assert(texts(tokens@)[k as int] == tokens@[k as int]@);
        namespace.append(".");
        namespace.append(tokens[k].as_str());
        k += 1;
    }
    let last: String = tokens[n - 1].clone();
    let last_chars = chars_of(last.as_str());
    let wildcard: bool = last_chars.len() == 1 && last_chars[0] == '*';
    proof {
        assert(texts(tokens@).last() == last@);
        if wildcard {
            assert(last@ =~= seq!['*']);
        } else if last@ == seq!['*'] {
            assert(last@.len() == 1 && last@[0] == '*');
        }
    }
    if wildcard {
        Some((namespace, None))
    } else {
        Some((namespace, Some(last)))
    }
}

/// A line that holds no colon, and so no file name in front of an import.
#[derive(Debug, Clone, PartialEq, Eq)]
pub struct InvalidImportLine {
    pub line: String,
}

/// Parts a line of the form `file:import` at its first colon.
pub fn parse_import_line(line: &str) -> (r: Result<(String, String), InvalidImportLine>)
    ensures
        match r {
            Ok((file, import)) => !file@.contains(':') && line@ == file@ + seq![':'] + import@,
            Err(e) => !line@.contains(':') && e.line@ == line@,
        },
{
    let cs = chars_of(line);
    let mut i: usize = 0;
    while i < cs.len() && cs[i] != ':'
        invariant
            i <= cs.len(),
            forall|k: int| 0 <= k < i ==> cs@[k] != ':',
        decreases cs.len() - i,
    {
        i += 1;
    }
    if i == cs.len() {
        return Err(InvalidImportLine { line: line.to_owned() });
    }
    let file: String = string_of(&cs, 0, i);
    let import: String = string_of(&cs, i + 1, cs.len());
    proof {
        assert(line@ =~= file@ + seq![':'] + import@);
        if file@.contains(':') {
            let k = choose|k: int| 0 <= k < file@.len() && file@[k] == ':';
            assert(cs@[k] == ':');
        }
    }
    Ok((file, import))
}

} // verus!
