//! Resolving imports against the index: one reference, and a whole list of
//! import lines.

use crate::catalog::{Catalog, Items};
use crate::diagnostics::{lemma_notes_push, notes, Diagnostic, Note};
use crate::features::FeatureSet;
use crate::import::{parse_namespace_and_item, parsed_import, reference_view};
use crate::index::{
    build_feature_mappings, features_in, features_of, first_named, has_key, knows_name,
    CatalogIndex,
};
use crate::text::{
    last_segment, last_segment_of, make_key, names_match, path_tokens, qualified_key,
    same_ignoring_case, statement_text, texts,
};
use vstd::prelude::*;

verus! {

/// The key under which an item is looked for when `full_name` is no key of
/// the index: the first key, in lexicographic order, whose last segment is
/// that of `full_name`, the case of ASCII letters aside.
pub open spec fn fallback_key(items: Items, full_name: Seq<char>) -> Option<Seq<char>> {
    let name = last_segment(full_name);
    if knows_name(items, name, true) {
        Some(choose|key: Seq<char>| first_named(items, key, name, true))
    } else {
        None
    }
}

/// A name that is found as it is written is found without regard to case.
pub proof fn lemma_exact_name_is_known(items: Items, name: Seq<char>)
    requires
        knows_name(items, name, false),
    ensures
        knows_name(items, name, true),
{
    let i = choose|i: int|
        0 <= i < items.len() && names_match(
            last_segment((#[trigger] items[i]).0),
            name,
            false,
        );
    assert(same_ignoring_case(name, name));
    assert(names_match(last_segment(items[i].0), name, true));
}

/// Looks for the item of `full_name` under another namespace, by its name
/// alone: first without regard to the case of ASCII letters, then as it is
/// written. Gives the key that was taken and its features.
pub fn attempt_fix_import(item_to_features: &CatalogIndex, full_name: &str) -> (r: Option<
    (String, FeatureSet),
>)
    requires
        item_to_features.wf(),
    ensures
        match r {
            Some((key, found)) => {
                &&& fallback_key(item_to_features.items(), full_name@) == Some(key@)
                &&& first_named(
                    item_to_features.items(),
                    key@,
                    last_segment(full_name@),
                    true,
                )
                &&& found.wf()
                &&& found@ == features_of(item_to_features.items(), key@)
                &&& found@ != Set::<Seq<char>>::empty()
            },
            None => fallback_key(item_to_features.items(), full_name@) is None,
        },
{
    let segment: String = last_segment_of(full_name);
    let name: &str = segment.as_str();
    match item_to_features.by_item_name(name, true) {
        Some((key, found)) => {
            proof {
                let items = item_to_features.items();
                let chosen = choose|k: Seq<char>| first_named(items, k, name@, true);
                item_to_features.lemma_first_named_unique(key@, chosen, name@, true);
            }
            Some((key, found))
        },
        None => {
            let second = item_to_features.by_item_name(name, false);
            proof {
                if second is Some {
                    lemma_exact_name_is_known(item_to_features.items(), name@);
                }
            }
            second
        },
    }
}

/// The features that a reference requires. An item is looked up under its
/// qualified key, then by its name alone; a wildcard takes the features of
/// all keys in its namespace.
pub open spec fn resolved_features(
    items: Items,
    namespace: Seq<char>,
    item: Option<Seq<char>>,
) -> Set<Seq<char>> {
    match item {
        Some(name) => {
            let key = qualified_key(namespace, name);
            if has_key(items, key) {
                features_of(items, key)
            } else {
                match fallback_key(items, key) {
                    Some(other) => features_of(items, other),
                    None => Set::empty(),
                }
            }
        },
        None => features_in(items, namespace),
    }
}

/// What is reported of a reference: nothing where it is found as it
/// stands, the correction where an item is found under another key, and
/// else that nothing was found.
pub open spec fn resolved_note(
    items: Items,
    namespace: Seq<char>,
    item: Option<Seq<char>>,
) -> Option<Note> {
    match item {
        Some(name) => {
            let key = qualified_key(namespace, name);
            if has_key(items, key) {
                None
            } else {
                match fallback_key(items, key) {
                    Some(other) => Some(Note::Corrected { original: key, corrected: other }),
                    None => Some(Note::ItemNotFound { key }),
                }
            }
        },
        None => if features_in(items, namespace) == Set::<Seq<char>>::empty() {
            Some(Note::NamespaceNotFound { namespace })
        } else {
            None
        },
    }
}

/// The text of a string that may be absent.
pub open spec fn text_of(s: Option<String>) -> Option<Seq<char>> {
    match s {
        Some(s) => Some(s@),
        None => None,
    }
}

/// The note of a diagnostic that may be absent.
pub open spec fn note_of(d: Option<Diagnostic>) -> Option<Note> {
    match d {
        Some(d) => Some(d@),
        None => None,
    }
}

/// Resolves one reference: a namespace with an item of it, or with none
/// for a wildcard.
pub fn resolve(index: &CatalogIndex, namespace: &str, item: &Option<String>) -> (r: (
    FeatureSet,
    Option<Diagnostic>,
))
    requires
        index.wf(),
    ensures
        r.0.wf(),
        r.0@ == resolved_features(index.items(), namespace@, text_of(*item)),
        note_of(r.1) == resolved_note(index.items(), namespace@, text_of(*item)),
{
    match item {
        Some(name) => {
            let full_name: String = make_key(namespace, name.as_str());
            match index.exact(full_name.as_str()) {
                Some(found) => (found, None),
                None => match attempt_fix_import(index, full_name.as_str()) {
                    Some((corrected, found)) => (
                        found,
                        Some(Diagnostic::Corrected { original: full_name, corrected }),
                    ),
                    None => (FeatureSet::new(), Some(Diagnostic::ItemNotFound { key: full_name })),
                },
            }
        },
        None => {
            let found = index.by_namespace_prefix(namespace);
            if found.is_empty() {
                (found, Some(Diagnostic::NamespaceNotFound { namespace: namespace.to_owned() }))
            } else {
                (found, None)
            }
        },
    }
}

/// The features that one import line requires; none where the line cannot
/// be read.
pub open spec fn line_features(items: Items, line: Seq<char>) -> Set<Seq<char>> {
    match parsed_import(line) {
        Some((namespace, item)) => resolved_features(items, namespace, item),
        None => Set::empty(),
    }
}

/// What is reported of one import line.
pub open spec fn line_note(items: Items, line: Seq<char>) -> Option<Note> {
    match parsed_import(line) {
        Some((namespace, item)) => resolved_note(items, namespace, item),
        None => Some(Note::UnparseableImport { line }),
    }
}

/// The features that a list of import lines requires: those of each line.
pub open spec fn required_features(items: Items, lines: Seq<Seq<char>>) -> Set<
    Seq<char>,
> {
    Set::new(
        |f: Seq<char>|
            exists|i: int|
                0 <= i < lines.len() && line_features(items, #[trigger] lines[i]).contains(f),
    )
}

/// What is reported of the first `n` lines, in their order.
pub open spec fn line_notes(items: Items, lines: Seq<Seq<char>>, n: int) -> Seq<Note>
    decreases n,
{
    if n <= 0 || n > lines.len() {
        Seq::empty()
    } else {
        match line_note(items, lines[n - 1]) {
            Some(note) => line_notes(items, lines, n - 1).push(note),
            None => line_notes(items, lines, n - 1),
        }
    }
}

/// Resolves one import line.
pub fn resolve_line(index: &CatalogIndex, line: &str) -> (r: (FeatureSet, Option<Diagnostic>))
    requires
        index.wf(),
    ensures
        r.0.wf(),
        r.0@ == line_features(index.items(), line@),
        note_of(r.1) == line_note(index.items(), line@),
{
    match parse_namespace_and_item(line) {
        Some((namespace, item)) => {
            assert(reference_view(Some((namespace, item))) == Some((namespace@, text_of(item))));
            resolve(index, namespace.as_str(), &item)
        },
        None => (FeatureSet::new(), Some(Diagnostic::UnparseableImport { line: line.to_owned() })),
    }
}

/// The features that a list of imports requires, with what was reported
/// on the way.
pub struct Resolution {
    pub features: FeatureSet,
    pub diagnostics: Vec<Diagnostic>,
}

/// Resolves each import line in turn and collects the features of all.
/// A line that cannot be read or resolved brings no feature and one
/// diagnostic; the lines after it are resolved all the same.
pub fn get_required_features(imports: &Vec<String>, index: &CatalogIndex) -> (r: Resolution)
    requires
        index.wf(),
    ensures
        r.features.wf(),
        r.features@ == required_features(index.items(), texts(imports@)),
        notes(r.diagnostics@) == line_notes(index.items(), texts(imports@), imports@.len() as int),
{
    let mut features = FeatureSet::new();
    let mut diagnostics: Vec<Diagnostic> = Vec::new();
    let ghost lines = texts(imports@);
    let mut i: usize = 0;
    assert(notes(diagnostics@) =~= line_notes(index.items(), lines, 0));
    while i < imports.len()
        invariant
            i <= imports.len(),
            index.wf(),
            lines == texts(imports@),
            features.wf(),
            forall|f: Seq<char>|
                features@.contains(f) == exists|k: int|
                    0 <= k < i && line_features(index.items(), #[trigger] lines[k]).contains(f),
            notes(diagnostics@) == line_notes(index.items(), lines, i as int),
        decreases imports.len() - i,
    {
        let ghost prev = features@;
        let (found, report) = resolve_line(index, imports[i].as_str());
        assert(lines[i as int] == imports@[i as int]@);
        features.extend(&found);
        match report {
            Some(d) => {
                proof {
                    lemma_notes_push(diagnostics@, d);
                }
                diagnostics.push(d);
            },
            None => {},
        }
        i += 1;
        proof {
            assert forall|f: Seq<char>|
                features@.contains(f) == exists|k: int|
                    0 <= k < i && line_features(index.items(), #[trigger] lines[k]).contains(f) by {
                if prev.contains(f) {
                    let k = choose|k: int|
                        0 <= k < i - 1 && line_features(index.items(), #[trigger] lines[k]).contains(f);
                    assert(line_features(index.items(), lines[k]).contains(f));
                }
                if found@.contains(f) {
                    assert(line_features(index.items(), lines[i - 1]).contains(f));
                }
            }
        }
    }
    assert(features@ =~= required_features(index.items(), lines));
    Resolution { features, diagnostics }
}

/// Builds the index of a catalog and resolves a list of import lines
/// against it. The diagnostics on the catalog come first.
pub fn resolve_all(raw_imports: &Vec<String>, catalog: &Catalog) -> (r: Resolution)
    ensures
        r.features.wf(),
        r.features@ == required_features(catalog.items(), texts(raw_imports@)),
        notes(r.diagnostics@) == catalog.notes() + line_notes(
            catalog.items(),
            texts(raw_imports@),
            raw_imports@.len() as int,
        ),
{
    let (index, mut diagnostics) = build_feature_mappings(catalog);
    let Resolution { features, diagnostics: mut later } = get_required_features(
        raw_imports,
        &index,
    );
    let ghost first = notes(diagnostics@);
    let ghost second = notes(later@);
    diagnostics.append(&mut later);
    assert(notes(diagnostics@) =~= first + second);
    Resolution { features, diagnostics }
}

/// Resolving the same line twice and joining the two results gives what
/// resolving it once gives.
pub proof fn lemma_resolving_twice(items: Items, line: Seq<char>)
    ensures
        line_features(items, line).union(line_features(items, line)) == line_features(
            items,
            line,
        ),
        required_features(items, seq![line, line]) == required_features(items, seq![line]),
        required_features(items, seq![line]) == line_features(items, line),
{
    let once = seq![line];
    let twice = seq![line, line];
    assert(line_features(items, line).union(line_features(items, line)) =~= line_features(
        items,
        line,
    ));
    assert forall|f: Seq<char>|
        required_features(items, once).contains(f) == line_features(items, line).contains(f) by {
        if line_features(items, line).contains(f) {
            assert(line_features(items, once[0]).contains(f));
        }
    }
    assert forall|f: Seq<char>|
        required_features(items, twice).contains(f) == line_features(items, line).contains(f) by {
        if line_features(items, line).contains(f) {
            assert(line_features(items, twice[0]).contains(f));
        }
    }
    assert(required_features(items, once) =~= line_features(items, line));
    assert(required_features(items, twice) =~= line_features(items, line));
}

/// The features of two lists, one after the other, are those of the one
/// together with those of the other.
pub proof fn lemma_required_of_both(
    items: Items,
    a: Seq<Seq<char>>,
    b: Seq<Seq<char>>,
)
    ensures
        required_features(items, a + b) == required_features(items, a).union(
            required_features(items, b),
        ),
{
    let both = a + b;
    assert forall|f: Seq<char>|
        required_features(items, both).contains(f) == (required_features(items, a).contains(f)
            || required_features(items, b).contains(f)) by {
        if required_features(items, both).contains(f) {
            let i = choose|i: int|
                0 <= i < both.len() && line_features(items, #[trigger] both[i]).contains(f);
            if i < a.len() {
                assert(line_features(items, a[i]).contains(f));
            } else {
                assert(line_features(items, b[i - a.len()]).contains(f));
            }
        }
        if required_features(items, a).contains(f) {
            let i = choose|i: int|
                0 <= i < a.len() && line_features(items, #[trigger] a[i]).contains(f);
            assert(line_features(items, both[i]).contains(f));
        }
        if required_features(items, b).contains(f) {
            let i = choose|i: int|
                0 <= i < b.len() && line_features(items, #[trigger] b[i]).contains(f);
            assert(line_features(items, both[i + a.len()]).contains(f));
        }
    }
    assert(required_features(items, both) =~= required_features(items, a).union(
        required_features(items, b),
    ));
}

/// The order of the lines, and how often a line occurs, make no difference
/// to the features: two lists that hold the same lines require the same
/// features. This holds in particular of a list and a permutation of it.
pub proof fn lemma_order_independent(
    items: Items,
    a: Seq<Seq<char>>,
    b: Seq<Seq<char>>,
)
    requires
        a.to_set() == b.to_set(),
    ensures
        required_features(items, a) == required_features(items, b),
{
    assert forall|f: Seq<char>|
        required_features(items, a).contains(f) == required_features(items, b).contains(f) by {
        if required_features(items, a).contains(f) {
            let i = choose|i: int|
                0 <= i < a.len() && line_features(items, #[trigger] a[i]).contains(f);
            assert(a.to_set().contains(a[i]));
            assert(b.contains(a[i]));
            let j = choose|j: int| 0 <= j < b.len() && b[j] == a[i];
            assert(line_features(items, b[j]).contains(f));
        }
        if required_features(items, b).contains(f) {
            let i = choose|i: int|
                0 <= i < b.len() && line_features(items, #[trigger] b[i]).contains(f);
            assert(b.to_set().contains(b[i]));
            assert(a.contains(b[i]));
            let j = choose|j: int| 0 <= j < a.len() && a[j] == b[i];
            assert(line_features(items, a[j]).contains(f));
        }
    }
    assert(required_features(items, a) =~= required_features(items, b));
}

/// A permutation of a list of lines requires the features that the list
/// requires.
pub proof fn lemma_permutation(
    items: Items,
    a: Seq<Seq<char>>,
    b: Seq<Seq<char>>,
)
    requires
        a.to_multiset() == b.to_multiset(),
    ensures
        required_features(items, a) == required_features(items, b),
{
    a.to_multiset_ensures();
    b.to_multiset_ensures();
    assert forall|line: Seq<char>| a.to_set().contains(line) == b.to_set().contains(line) by {
        assert(a.contains(line) == (a.to_multiset().count(line) > 0));
        assert(b.contains(line) == (b.to_multiset().count(line) > 0));
    }
    assert(a.to_set() =~= b.to_set());
    lemma_order_independent(items, a, b);
}

/// An item whose name no key of the index ends with, whatever the case of
/// its letters, resolves to no feature, and is reported as not found.
pub proof fn lemma_unknown_item(
    items: Items,
    namespace: Seq<char>,
    item: Seq<char>,
)
    requires
        !knows_name(items, last_segment(qualified_key(namespace, item)), true),
    ensures
        resolved_features(items, namespace, Some(item)) == Set::<Seq<char>>::empty(),
        resolved_note(items, namespace, Some(item)) == Some(
            Note::ItemNotFound { key: qualified_key(namespace, item) },
        ),
{
    let key = qualified_key(namespace, item);
    if has_key(items, key) {
        let i = choose|i: int| 0 <= i < items.len() && (#[trigger] items[i]).0 == key;
        assert(same_ignoring_case(last_segment(key), last_segment(key)));
        assert(names_match(last_segment(items[i].0), last_segment(key), true));
    }
}

/// A line with fewer than three tokens refers to nothing: it brings no
/// feature, and is reported as unreadable.
pub proof fn lemma_short_line(items: Items, line: Seq<char>)
    requires
        path_tokens(statement_text(line)).len() < 3,
    ensures
        parsed_import(line) is None,
        line_features(items, line) == Set::<Seq<char>>::empty(),
        line_note(items, line) == Some(Note::UnparseableImport { line }),
{
}

} // verus!
