//! The index of a catalog: the features of each qualified key, with the
//! lookups by key, by namespace and by item name.

use crate::catalog::{Catalog, Entry, Items};
use crate::diagnostics::{lemma_notes_push, notes, Diagnostic};
use crate::features::FeatureSet;
use crate::text::{
    chars_eq, chars_lt, chars_of, has_prefix, in_namespace, last_segment, last_segment_start,
    lemma_lex_irreflexive, lemma_lex_total, lemma_lex_transitive, lex_lt, make_key, names_match,
    parse_number, qualified_key, tail_matches,
};
use vstd::prelude::*;

verus! {

/// One item of the index: a qualified key and the features found for it.
pub struct IndexRecord {
    key: String,
    key_chars: Vec<char>,
    features: FeatureSet,
}

impl IndexRecord {
    /// The record holds its key twice, as a string and as characters, and
    /// at least one feature.
    pub closed spec fn wf(&self) -> bool {
        &&& self.key_chars@ == self.key@
        &&& self.features.wf()
        &&& self.features@ != Set::<Seq<char>>::empty()
    }

    /// The key and the features of the record.
    pub closed spec fn item(&self) -> (Seq<char>, Set<Seq<char>>) {
        (self.key@, self.features@)
    }
}

/// The items of a sequence of records.
pub closed spec fn item_seq(records: Seq<IndexRecord>) -> Items {
    records.map_values(|r: IndexRecord| r.item())
}

/// `key` is a key of the index.
pub open spec fn has_key(items: Items, key: Seq<char>) -> bool {
    exists|i: int| 0 <= i < items.len() && (#[trigger] items[i]).0 == key
}

/// The features of `key`; none where the index has no such key.
pub open spec fn features_of(items: Items, key: Seq<char>) -> Set<Seq<char>> {
    Set::new(
        |f: Seq<char>|
            exists|i: int|
                0 <= i < items.len() && (#[trigger] items[i]).0 == key
                    && items[i].1.contains(f),
    )
}

/// The features of all keys that lie in `namespace`.
pub open spec fn features_in(items: Items, namespace: Seq<char>) -> Set<Seq<char>> {
    Set::new(
        |f: Seq<char>|
            exists|i: int|
                0 <= i < items.len() && in_namespace(
                    (#[trigger] items[i]).0,
                    namespace,
                ) && items[i].1.contains(f),
    )
}

/// `key` is a key of the index whose last segment is `name`.
pub open spec fn names(items: Items, key: Seq<char>, name: Seq<char>, fold_case: bool) -> bool {
    has_key(items, key) && names_match(last_segment(key), name, fold_case)
}

/// Some key of the index has `name` as its last segment.
pub open spec fn knows_name(items: Items, name: Seq<char>, fold_case: bool) -> bool {
    exists|i: int|
        0 <= i < items.len() && names_match(
            last_segment((#[trigger] items[i]).0),
            name,
            fold_case,
        )
}

/// `key` is the first, in lexicographic order, of the keys of the index
/// whose last segment is `name`.
pub open spec fn first_named(
    items: Items,
    key: Seq<char>,
    name: Seq<char>,
    fold_case: bool,
) -> bool {
    &&& names(items, key, name, fold_case)
    &&& forall|i: int|
        0 <= i < items.len() && names_match(
            last_segment((#[trigger] items[i]).0),
            name,
            fold_case,
        ) ==> !lex_lt(items[i].0, key)
}

/// The index. A key may stand in several items; its features are those of
/// all of them.
pub struct CatalogIndex {
    records: Vec<IndexRecord>,
}

impl CatalogIndex {
    /// The items of the index, in the order of the catalog.
    pub closed spec fn items(&self) -> Items {
        item_seq(self.records@)
    }

    /// Every record of the index is well formed.
    pub closed spec fn wf(&self) -> bool {
        forall|i: int| 0 <= i < self.records@.len() ==> (#[trigger] self.records@[i]).wf()
    }

    /// Every key of the index has at least one feature.
    pub proof fn lemma_key_has_features(&self, key: Seq<char>)
        requires
            self.wf(),
            has_key(self.items(), key),
        ensures
            features_of(self.items(), key) != Set::<Seq<char>>::empty(),
    {
        let i = choose|i: int| 0 <= i < self.items().len() && (#[trigger] self.items()[i]).0 == key;
        assert(self.records@[i].wf());
        let found = self.items()[i].1;
        assert(found != Set::<Seq<char>>::empty());
        if forall|f: Seq<char>| !found.contains(f) {
            assert(found =~= Set::<Seq<char>>::empty());
        }
        let f = choose|f: Seq<char>| found.contains(f);
        assert(features_of(self.items(), key).contains(f));
    }

    /// At most one key is the first of a name.
    pub proof fn lemma_first_named_unique(
        &self,
        a: Seq<char>,
        b: Seq<char>,
        name: Seq<char>,
        fold_case: bool,
    )
        requires
            first_named(self.items(), a, name, fold_case),
            first_named(self.items(), b, name, fold_case),
        ensures
            a == b,
    {
        let i = choose|i: int| 0 <= i < self.items().len() && (#[trigger] self.items()[i]).0 == a;
        let j = choose|j: int| 0 <= j < self.items().len() && (#[trigger] self.items()[j]).0 == b;
        assert(!lex_lt(self.items()[i].0, b));
        assert(!lex_lt(self.items()[j].0, a));
        lemma_lex_total(a, b);
    }

    /// Looks a qualified key up.
    pub fn exact(&self, key: &str) -> (r: Option<FeatureSet>)
        requires
            self.wf(),
        ensures
            r is Some == has_key(self.items(), key@),
            match r {
                Some(found) => found.wf() && found@ == features_of(self.items(), key@) && found@
                    != Set::<Seq<char>>::empty(),
                None => true,
            },
    {
        let target = chars_of(key);
        let mut out = FeatureSet::new();
        let mut seen: bool = false;
        let mut i: usize = 0;
        while i < self.records.len()
            invariant
                i <= self.records.len(),
                self.wf(),
                target@ == key@,
                out.wf(),
                seen == exists|k: int| 0 <= k < i && (#[trigger] self.items()[k]).0 == key@,
                forall|f: Seq<char>|
                    out@.contains(f) == exists|k: int|
                        0 <= k < i && (#[trigger] self.items()[k]).0 == key@
                            && self.items()[k].1.contains(f),
            decreases self.records.len() - i,
        {
            let record = &self.records[i];
            let ghost prev = out@;
            let ghost item = self.items()[i as int];
            assert(record.wf());
            assert(item == record.item());
            let here: bool = chars_eq(&record.key_chars, &target);
            if here {
                out.extend(&record.features);
                seen = true;
            }
            i += 1;
            proof {
                assert(here == (self.items()[i - 1].0 == key@));
                assert forall|f: Seq<char>|
                    out@.contains(f) == exists|k: int|
                        0 <= k < i && (#[trigger] self.items()[k]).0 == key@
                            && self.items()[k].1.contains(f) by {
                    if prev.contains(f) {
                        let k = choose|k: int|
                            0 <= k < i - 1 && (#[trigger] self.items()[k]).0 == key@
                                && self.items()[k].1.contains(f);
                        assert(self.items()[k].0 == key@);
                    }
                    if here && item.1.contains(f) {
                        assert(self.items()[i - 1].0 == key@);
                    }
                }
            }
        }
        if seen {
            proof {
                assert(out@ =~= features_of(self.items(), key@));
                self.lemma_key_has_features(key@);
            }
            Some(out)
        } else {
            None
        }
    }

    /// Collects the features of the keys in a namespace: those that begin
    /// with the namespace and a dot.
    pub fn by_namespace_prefix(&self, namespace: &str) -> (r: FeatureSet)
        requires
            self.wf(),
        ensures
            r.wf(),
            r@ == features_in(self.items(), namespace@),
    {
        let mut prefix = chars_of(namespace);
        prefix.push('.');
        let mut out = FeatureSet::new();
        let mut i: usize = 0;
        while i < self.records.len()
            invariant
                i <= self.records.len(),
                self.wf(),
                prefix@ == namespace@ + seq!['.'],
                out.wf(),
                forall|f: Seq<char>|
                    out@.contains(f) == exists|k: int|
                        0 <= k < i && in_namespace((#[trigger] self.items()[k]).0, namespace@)
                            && self.items()[k].1.contains(f),
            decreases self.records.len() - i,
        {
            let record = &self.records[i];
            let ghost prev = out@;
            let ghost item = self.items()[i as int];
            assert(record.wf());
            assert(item == record.item());
            let here: bool = has_prefix(&record.key_chars, &prefix);
            if here {
                out.extend(&record.features);
            }
            i += 1;
            proof {
                assert(here == in_namespace(self.items()[i - 1].0, namespace@));
                assert forall|f: Seq<char>|
                    out@.contains(f) == exists|k: int|
                        0 <= k < i && in_namespace((#[trigger] self.items()[k]).0, namespace@)
                            && self.items()[k].1.contains(f) by {
                    if prev.contains(f) {
                        let k = choose|k: int|
                            0 <= k < i - 1 && in_namespace(
                                (#[trigger] self.items()[k]).0,
                                namespace@,
                            ) && self.items()[k].1.contains(f);
                        assert(in_namespace(self.items()[k].0, namespace@));
                    }
                    if here && item.1.contains(f) {
                        assert(in_namespace(self.items()[i - 1].0, namespace@));
                    }
                }
            }
        }
        assert(out@ =~= features_in(self.items(), namespace@));
        out
    }

    /// Looks for a key by the name of its item, the last segment of the
    /// key. Of several such keys the first in lexicographic order is taken.
    pub fn by_item_name(&self, item_name: &str, case_insensitive: bool) -> (r: Option<
        (String, FeatureSet),
    >)
        requires
            self.wf(),
        ensures
            r is Some == knows_name(self.items(), item_name@, case_insensitive),
            match r {
                Some((key, found)) => {
                    &&& first_named(self.items(), key@, item_name@, case_insensitive)
                    &&& found.wf()
                    &&& found@ == features_of(self.items(), key@)
                    &&& found@ != Set::<Seq<char>>::empty()
                },
                None => true,
            },
    {
        let target = chars_of(item_name);
        let mut best: Option<usize> = None;
        let mut i: usize = 0;
        while i < self.records.len()
            invariant
                i <= self.records.len(),
                self.wf(),
                target@ == item_name@,
                match best {
                    Some(b) => {
                        &&& b < i
                        &&& names_match(
                            last_segment(self.items()[b as int].0),
                            item_name@,
                            case_insensitive,
                        )
                        &&& forall|k: int|
                            0 <= k < i && names_match(
                                last_segment((#[trigger] self.items()[k]).0),
                                item_name@,
                                case_insensitive,
                            ) ==> !lex_lt(self.items()[k].0, self.items()[b as int].0)
                    },
                    None => forall|k: int|
                        0 <= k < i ==> !names_match(
                            last_segment((#[trigger] self.items()[k]).0),
                            item_name@,
                            case_insensitive,
                        ),
                },
            decreases self.records.len() - i,
        {
            let record = &self.records[i];
            let ghost item = self.items()[i as int];
            assert(record.wf());
            assert(item == record.item());
            let start: usize = last_segment_start(&record.key_chars);
            if tail_matches(&record.key_chars, start, &target, case_insensitive) {
                match best {
                    None => {
                        proof {
                            lemma_lex_irreflexive(item.0);
                        }
                        best = Some(i);
                    },
                    Some(b) => {
                        let ghost held = self.items()[b as int];
                        assert(self.records@[b as int].wf());
                        assert(held == self.records@[b as int].item());
                        if chars_lt(&record.key_chars, &self.records[b].key_chars) {
                            proof {
                                assert forall|k: int|
                                    0 <= k < i + 1 && names_match(
                                        last_segment((#[trigger] self.items()[k]).0),
                                        item_name@,
                                        case_insensitive,
                                    ) implies !lex_lt(self.items()[k].0, item.0) by {
                                    if k < i {
                                        if lex_lt(self.items()[k].0, item.0) {
                                            lemma_lex_transitive(
                                                self.items()[k].0,
                                                item.0,
                                                held.0,
                                            );
                                        }
                                    } else {
                                        lemma_lex_irreflexive(item.0);
                                    }
                                }
                            }
                            best = Some(i);
                        }
                    },
                }
            }
            i += 1;
        }
        match best {
            None => None,
            Some(b) => {
                let record = &self.records[b];
                proof {
                    assert(record.wf());
                    assert(self.items()[b as int] == record.item());
                }
                let key: String = record.key.clone();
                match self.exact(key.as_str()) {
                    Some(found) => Some((key, found)),
                    None => None,
                }
            },
        }
    }
}

/// Builds the index of a catalog: for each entry with at least one feature,
/// under a group whose key names a namespace, the entry's qualified key with
/// its features. Groups and feature indices that name nothing are passed
/// over, each with a diagnostic.
pub fn build_feature_mappings(features: &Catalog) -> (r: (CatalogIndex, Vec<Diagnostic>))
    ensures
        r.0.wf(),
        r.0.items() == features.items(),
        notes(r.1@) == features.notes(),
{
    let mut records: Vec<IndexRecord> = Vec::new();
    let mut warnings: Vec<Diagnostic> = Vec::new();
    let mut g: usize = 0;
    assert(item_seq(records@) =~= features.items_upto(0));
    assert(notes(warnings@) =~= features.notes_upto(0));
    while g < features.namespace_entries.len()
        invariant
            g <= features.namespace_entries.len(),
            forall|i: int| 0 <= i < records@.len() ==> (#[trigger] records@[i]).wf(),
            item_seq(records@) == features.items_upto(g as int),
            notes(warnings@) == features.notes_upto(g as int),
        decreases features.namespace_entries.len() - g,
    {
        let group = &features.namespace_entries[g];
        match parse_number(group.key.as_str()) {
            None => {
                let d = Diagnostic::InvalidNamespaceKey { key: group.key.clone() };
                proof {
                    lemma_notes_push(warnings@, d);
                }
                warnings.push(d);
            },
            Some(n) => {
                if n >= features.namespace_table.len() {
                    let d = Diagnostic::NamespaceOutOfRange { index: n };
                    proof {
                        lemma_notes_push(warnings@, d);
                    }
                    warnings.push(d);
                } else {
                    let namespace = &features.namespace_table[n];
                    let ghost base_items = item_seq(records@);
                    let ghost base_notes = notes(warnings@);
                    let mut e: usize = 0;
                    assert(item_seq(records@) =~= base_items + features.group_items(
                        namespace@,
                        group.entries@,
                        0,
                    ));
                    assert(notes(warnings@) =~= base_notes + features.group_notes(
                        group.entries@,
                        0,
                    ));
                    while e < group.entries.len()
                        invariant
                            e <= group.entries.len(),
                            forall|i: int|
                                0 <= i < records@.len() ==> (#[trigger] records@[i]).wf(),
                            item_seq(records@) == base_items + features.group_items(
                                namespace@,
                                group.entries@,
                                e as int,
                            ),
                            notes(warnings@) == base_notes + features.group_notes(
                                group.entries@,
                                e as int,
                            ),
                        decreases group.entries.len() - e,
                    {
                        let entry = &group.entries[e];
                        let ghost notes_before = notes(warnings@);
                        let found = features.entry_feature_set(entry, &mut warnings);
                        proof {
                            assert(notes(warnings@) =~= base_notes + features.group_notes(
                                group.entries@,
                                e as int + 1,
                            ));
                        }
                        if !found.is_empty() {
                            let key = make_key(namespace.as_str(), entry.name.as_str());
                            let key_chars = chars_of(key.as_str());
                            let record = IndexRecord { key, key_chars, features: found };
                            proof {
                                assert(record.wf());
                                assert(item_seq(records@.push(record)) =~= item_seq(
                                    records@,
                                ).push(record.item()));
                                assert(item_seq(records@).push(record.item()) =~= base_items
                                    + features.group_items(
                                    namespace@,
                                    group.entries@,
                                    e as int + 1,
                                ));
                            }
                            records.push(record);
                        }
                        e += 1;
                    }
                }
            },
        }
        g += 1;
    }
    (CatalogIndex { records }, warnings)
}

/// Some item of `items` has the key `key` and the feature `f`.
pub open spec fn gives(items: Items, key: Seq<char>, f: Seq<char>) -> bool {
    features_of(items, key).contains(f)
}

/// What two sequences of items give together is what either gives.
proof fn lemma_gives_of_both(
    a: Items,
    b: Items,
    key: Seq<char>,
    f: Seq<char>,
)
    ensures
        gives(a + b, key, f) == (gives(a, key, f) || gives(b, key, f)),
{
    let both = a + b;
    if gives(both, key, f) {
        let i = choose|i: int|
            0 <= i < both.len() && (#[trigger] both[i]).0 == key && both[i].1.contains(f);
        if i < a.len() {
            assert(a[i].0 == key && a[i].1.contains(f));
        } else {
            assert(b[i - a.len()].0 == key && b[i - a.len()].1.contains(f));
        }
    }
    if gives(a, key, f) {
        let i = choose|i: int| 0 <= i < a.len() && (#[trigger] a[i]).0 == key && a[i].1.contains(f);
        assert(both[i].0 == key && both[i].1.contains(f));
    }
    if gives(b, key, f) {
        let i = choose|i: int| 0 <= i < b.len() && (#[trigger] b[i]).0 == key && b[i].1.contains(f);
        assert(both[i + a.len()].0 == key && both[i + a.len()].1.contains(f));
    }
}

/// The entry at position `e` has the key `key` in `namespace` and requires `f`.
spec fn entry_gives(
    catalog: &Catalog,
    namespace: Seq<char>,
    entries: Seq<Entry>,
    e: int,
    key: Seq<char>,
    f: Seq<char>,
) -> bool {
    qualified_key(namespace, entries[e].name@) == key && catalog.entry_features(
        &entries[e],
    ).contains(f)
}

/// What the first `n` entries of a group give is what one of them gives.
proof fn lemma_group_gives(
    catalog: &Catalog,
    namespace: Seq<char>,
    entries: Seq<Entry>,
    n: int,
    key: Seq<char>,
    f: Seq<char>,
)
    requires
        0 <= n <= entries.len(),
    ensures
        gives(catalog.group_items(namespace, entries, n), key, f) == exists|e: int|
            0 <= e < n && #[trigger] entry_gives(catalog, namespace, entries, e, key, f),
    decreases n,
{
    let items = catalog.group_items(namespace, entries, n);
    if n > 0 {
        let rest = catalog.group_items(namespace, entries, n - 1);
        lemma_group_gives(catalog, namespace, entries, n - 1, key, f);
        let found = catalog.entry_features(&entries[n - 1]);
        let last = seq![(qualified_key(namespace, entries[n - 1].name@), found)];
        if found == Set::<Seq<char>>::empty() {
            assert(!entry_gives(catalog, namespace, entries, n - 1, key, f));
        } else {
            assert(items =~= rest + last);
            lemma_gives_of_both(rest, last, key, f);
            if gives(last, key, f) {
                assert(entry_gives(catalog, namespace, entries, n - 1, key, f));
            }
            if entry_gives(catalog, namespace, entries, n - 1, key, f) {
                assert(last[0].0 == key && last[0].1.contains(f));
            }
        }
        if exists|e: int|
            0 <= e < n && #[trigger] entry_gives(catalog, namespace, entries, e, key, f) {
            let e = choose|e: int|
                0 <= e < n && #[trigger] entry_gives(catalog, namespace, entries, e, key, f);
            if e < n - 1 {
                assert(gives(rest, key, f));
            }
        }
        if gives(rest, key, f) {
            let e = choose|e: int|
                0 <= e < n - 1 && #[trigger] entry_gives(catalog, namespace, entries, e, key, f);
            assert(entry_gives(catalog, namespace, entries, e, key, f));
        }
    }
}

/// What the first `m` groups give is what an item among them gives.
proof fn lemma_upto_gives(catalog: &Catalog, m: int, key: Seq<char>, f: Seq<char>)
    requires
        0 <= m <= catalog.namespace_entries@.len(),
    ensures
        gives(catalog.items_upto(m), key, f) == exists|g: int, e: int|
            g < m && #[trigger] catalog.lists(g, e, key) && catalog.requires_feature(g, e, f),
    decreases m,
{
    if m > 0 {
        let rest = catalog.items_upto(m - 1);
        lemma_upto_gives(catalog, m - 1, key, f);
        let group = catalog.namespace_entries@[m - 1];
        let entries = group.entries@;
        let here = exists|e: int| #[trigger]
            catalog.lists(m - 1, e, key) && catalog.requires_feature(m - 1, e, f);
        match catalog.namespace_of(group.key@) {
            Some(namespace) => {
                let added = catalog.group_items(namespace, entries, entries.len() as int);
                lemma_gives_of_both(rest, added, key, f);
                lemma_group_gives(catalog, namespace, entries, entries.len() as int, key, f);
                if gives(added, key, f) {
                    let e = choose|e: int|
                        0 <= e < entries.len() && #[trigger] entry_gives(
                            catalog,
                            namespace,
                            entries,
                            e,
                            key,
                            f,
                        );
                    assert(catalog.lists(m - 1, e, key) && catalog.requires_feature(m - 1, e, f));
                }
                if here {
                    let e = choose|e: int| #[trigger]
                        catalog.lists(m - 1, e, key) && catalog.requires_feature(m - 1, e, f);
                    assert(entry_gives(catalog, namespace, entries, e, key, f));
                }
                assert(gives(added, key, f) == here);
            },
            None => {
                assert(!here);
            },
        }
        if gives(rest, key, f) {
            let (g, e) = choose|g: int, e: int|
                g < m - 1 && #[trigger] catalog.lists(g, e, key) && catalog.requires_feature(
                    g,
                    e,
                    f,
                );
            assert(catalog.lists(g, e, key) && catalog.requires_feature(g, e, f));
        }
        if exists|g: int, e: int|
            g < m && #[trigger] catalog.lists(g, e, key) && catalog.requires_feature(g, e, f) {
            let (g, e) = choose|g: int, e: int|
                g < m && #[trigger] catalog.lists(g, e, key) && catalog.requires_feature(g, e, f);
            if g < m - 1 {
                assert(gives(rest, key, f));
            } else {
                assert(here);
            }
        }
    }
}

/// What the index of a catalog holds for a key are the features of every
/// item of the catalog with that key, and a key is a key of the index when
/// the catalog gives it at least one feature.
pub proof fn lemma_index_of_catalog(catalog: &Catalog, index: &CatalogIndex, key: Seq<char>)
    requires
        index.wf(),
        index.items() == catalog.items(),
    ensures
        features_of(index.items(), key) == catalog.features_for(key),
        has_key(index.items(), key) == (catalog.features_for(key) != Set::<Seq<char>>::empty()),
{
    let items = index.items();
    assert forall|f: Seq<char>|
        features_of(items, key).contains(f) == catalog.features_for(key).contains(f) by {
        lemma_upto_gives(catalog, catalog.namespace_entries@.len() as int, key, f);
        if catalog.features_for(key).contains(f) {
            let (g, e) = choose|g: int, e: int| #[trigger]
                catalog.lists(g, e, key) && catalog.requires_feature(g, e, f);
            assert(g < catalog.namespace_entries@.len() && catalog.lists(g, e, key)
                && catalog.requires_feature(g, e, f));
        }
    }
    assert(features_of(items, key) =~= catalog.features_for(key));
    if has_key(items, key) {
        index.lemma_key_has_features(key);
    } else if catalog.features_for(key) != Set::<Seq<char>>::empty() {
        if forall|f: Seq<char>| !catalog.features_for(key).contains(f) {
            assert(catalog.features_for(key) =~= Set::<Seq<char>>::empty());
        }
        let f = choose|f: Seq<char>| catalog.features_for(key).contains(f);
        assert(features_of(items, key).contains(f));
    }
}

} // verus!
