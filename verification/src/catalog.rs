//! The catalog: namespaces, the items of each, and the features that an
//! item requires.

use crate::diagnostics::{lemma_notes_push, notes, Diagnostic, Note};
use crate::features::FeatureSet;
use crate::text::{number_of, qualified_key};
use vstd::prelude::*;

verus! {

/// What an index holds: qualified keys, each with a set of feature names.
/// A key may occur more than once.
pub type Items = Seq<(Seq<char>, Set<Seq<char>>)>;

/// One item of a namespace, with the positions of its features in the
/// catalog's feature table.
#[derive(Debug, Clone)]
pub struct Entry {
    pub name: String,
    pub features: Option<Vec<usize>>,
}

/// The items listed under one key. The key is the decimal position of a
/// namespace in the catalog's namespace table.
#[derive(Debug, Clone)]
pub struct NamespaceGroup {
    pub key: String,
    pub entries: Vec<Entry>,
}

/// The catalog as it is read, before anything is looked up in it.
#[derive(Debug, Clone)]
pub struct Catalog {
    pub namespace_table: Vec<String>,
    pub feature_table: Vec<String>,
    pub namespace_entries: Vec<NamespaceGroup>,
}

impl Catalog {
    /// The feature that position `j` of `refs` names, where that position
    /// holds an index into the feature table.
    pub open spec fn feature_at(&self, refs: Seq<usize>, j: int) -> Option<Seq<char>> {
        if 0 <= j < refs.len() && refs[j] < self.feature_table@.len() {
            Some(self.feature_table@[refs[j] as int]@)
        } else {
            None
        }
    }

    /// The features named by the first `n` positions of `refs`.
    pub open spec fn features_among(&self, refs: Seq<usize>, n: int) -> Set<Seq<char>> {
        Set::new(
            |f: Seq<char>|
                exists|j: int| 0 <= j < n && #[trigger] self.feature_at(refs, j) == Some(f),
        )
    }

    /// The features that an entry requires. Indices outside the feature
    /// table name nothing.
    pub open spec fn entry_features(&self, entry: &Entry) -> Set<Seq<char>> {
        match entry.features {
            Some(refs) => self.features_among(refs@, refs@.len() as int),
            None => Set::empty(),
        }
    }

    /// The namespace that a group's key names, where the key is a number
    /// within the namespace table.
    pub open spec fn namespace_of(&self, key: Seq<char>) -> Option<Seq<char>> {
        match number_of(key) {
            Some(n) => if n < self.namespace_table@.len() {
                Some(self.namespace_table@[n as int]@)
            } else {
                None
            },
            None => None,
        }
    }

    /// One note for each of the first `n` positions of `refs` that holds
    /// no index into the feature table, in their order.
    pub open spec fn feature_notes(&self, refs: Seq<usize>, n: int) -> Seq<Note>
        decreases n,
    {
        if n <= 0 || n > refs.len() {
            Seq::empty()
        } else if refs[n - 1] >= self.feature_table@.len() {
            self.feature_notes(refs, n - 1).push(Note::FeatureOutOfRange { index: refs[n - 1] })
        } else {
            self.feature_notes(refs, n - 1)
        }
    }

    /// The notes on the feature indices of one entry.
    pub open spec fn entry_notes(&self, entry: &Entry) -> Seq<Note> {
        match entry.features {
            Some(refs) => self.feature_notes(refs@, refs@.len() as int),
            None => Seq::empty(),
        }
    }

    /// What the first `n` entries of a group of `namespace` bring to the
    /// index, in their order: for each entry with at least one feature, its
    /// qualified key and its features.
    pub open spec fn group_items(&self, namespace: Seq<char>, entries: Seq<Entry>, n: int) -> Items
        decreases n,
    {
        if n <= 0 || n > entries.len() {
            Seq::empty()
        } else {
            let found = self.entry_features(&entries[n - 1]);
            let rest = self.group_items(namespace, entries, n - 1);
            if found == Set::<Seq<char>>::empty() {
                rest
            } else {
                rest.push((qualified_key(namespace, entries[n - 1].name@), found))
            }
        }
    }

    /// The notes on the first `n` entries of a group.
    pub open spec fn group_notes(&self, entries: Seq<Entry>, n: int) -> Seq<Note>
        decreases n,
    {
        if n <= 0 || n > entries.len() {
            Seq::empty()
        } else {
            self.group_notes(entries, n - 1) + self.entry_notes(&entries[n - 1])
        }
    }

    /// What the first `m` groups bring to the index. A group whose key
    /// names no namespace brings nothing.
    pub open spec fn items_upto(&self, m: int) -> Items
        decreases m,
    {
        if m <= 0 || m > self.namespace_entries@.len() {
            Seq::empty()
        } else {
            let group = self.namespace_entries@[m - 1];
            let rest = self.items_upto(m - 1);
            match self.namespace_of(group.key@) {
                Some(namespace) => rest + self.group_items(
                    namespace,
                    group.entries@,
                    group.entries@.len() as int,
                ),
                None => rest,
            }
        }
    }

    /// The notes on the first `m` groups: one on a group whose key names no
    /// namespace, else those on the group's entries.
    pub open spec fn notes_upto(&self, m: int) -> Seq<Note>
        decreases m,
    {
        if m <= 0 || m > self.namespace_entries@.len() {
            Seq::empty()
        } else {
            let group = self.namespace_entries@[m - 1];
            let rest = self.notes_upto(m - 1);
            match number_of(group.key@) {
                None => rest.push(Note::InvalidNamespaceKey { key: group.key@ }),
                Some(n) => if n < self.namespace_table@.len() {
                    rest + self.group_notes(group.entries@, group.entries@.len() as int)
                } else {
                    rest.push(Note::NamespaceOutOfRange { index: n })
                },
            }
        }
    }

    /// What the catalog brings to the index: the keys of its items, each
    /// with the item's features, in the catalog's order.
    pub open spec fn items(&self) -> Items {
        self.items_upto(self.namespace_entries@.len() as int)
    }

    /// The notes on the whole catalog.
    pub open spec fn notes(&self) -> Seq<Note> {
        self.notes_upto(self.namespace_entries@.len() as int)
    }

    /// Entry `e` of group `g` is an item of the catalog with the qualified
    /// key `key`: the group's key names a namespace, and the key is made of
    /// that namespace and the entry's name.
    pub open spec fn lists(&self, g: int, e: int, key: Seq<char>) -> bool {
        &&& 0 <= g < self.namespace_entries@.len()
        &&& 0 <= e < self.namespace_entries@[g].entries@.len()
        &&& match self.namespace_of(self.namespace_entries@[g].key@) {
            Some(namespace) => qualified_key(
                namespace,
                self.namespace_entries@[g].entries@[e].name@,
            ) == key,
            None => false,
        }
    }

    /// Entry `e` of group `g` requires the feature `f`.
    pub open spec fn requires_feature(&self, g: int, e: int, f: Seq<char>) -> bool {
        self.entry_features(&self.namespace_entries@[g].entries@[e]).contains(f)
    }

    /// The features that the catalog gives for a qualified key: those of
    /// every item with that key.
    pub open spec fn features_for(&self, key: Seq<char>) -> Set<Seq<char>> {
        Set::new(
            |f: Seq<char>|
                exists|g: int, e: int| #[trigger]
                    self.lists(g, e, key) && self.requires_feature(g, e, f),
        )
    }

    /// Collects the features of one entry, and adds to `warnings` a note
    /// for each index that names none.
    pub fn entry_feature_set(&self, entry: &Entry, warnings: &mut Vec<Diagnostic>) -> (r:
        FeatureSet)
        ensures
            r.wf(),
            r@ == self.entry_features(entry),
            notes(final(warnings)@) == notes(old(warnings)@) + self.entry_notes(entry),
    {
        let mut out = FeatureSet::new();
        assert(notes(warnings@) =~= notes(old(warnings)@) + Seq::<Note>::empty());
        match &entry.features {
            None => {},
            Some(refs) => {
                let mut j: usize = 0;
                while j < refs.len()
                    invariant
                        j <= refs.len(),
                        out.wf(),
                        out@ =~= self.features_among(refs@, j as int),
                        notes(warnings@) == notes(old(warnings)@) + self.feature_notes(
                            refs@,
                            j as int,
                        ),
                    decreases refs.len() - j,
                {
                    let ghost prev = out@;
                    let at: usize = refs[j];
                    if at < self.feature_table.len() {
                        out.insert(self.feature_table[at].as_str());
                    } else {
                        let d = Diagnostic::FeatureOutOfRange { index: at };
                        proof {
                            lemma_notes_push(warnings@, d);
                            let so_far = self.feature_notes(refs@, j as int);
                            assert((notes(old(warnings)@) + so_far).push(d@) =~= notes(
                                old(warnings)@,
                            ) + so_far.push(d@));
                        }
                        warnings.push(d);
                    }
                    j += 1;
                    proof {
                        assert forall|f: Seq<char>|
                            out@.contains(f) == self.features_among(refs@, j as int).contains(
                                f,
                            ) by {
                            if prev.contains(f) {
                                let k = choose|k: int|
                                    0 <= k < j - 1 && #[trigger] self.feature_at(refs@, k) == Some(
                                        f,
                                    );
                                assert(self.feature_at(refs@, k) == Some(f));
                            }
                            if self.features_among(refs@, j as int).contains(f) {
                                let k = choose|k: int|
                                    0 <= k < j && #[trigger] self.feature_at(refs@, k) == Some(f);
                                if k < j - 1 {
                                    assert(prev.contains(f));
                                }
                            }
                            if self.feature_at(refs@, j - 1) == Some(f) {
                                assert(out@.contains(f));
                            }
                        }
                    }
                }
            },
        }
        out
    }
}

} // verus!
