//! What the library reports besides its results: entries of the catalog
//! that it passed over, imports that it could not read or resolve, and
//! imports that it resolved under another namespace.

use crate::text::{decimal_text, digits_of};
use vstd::prelude::*;
use vstd::string::StringExecFns;

verus! {

/// How much a diagnostic matters to the reader of a log.
#[derive(Debug, Clone, Copy, PartialEq, Eq, Structural)]
pub enum Severity {
    Info,
    Warning,
}

/// One thing that the library reports.
#[derive(Debug, Clone, PartialEq, Eq)]
pub enum Diagnostic {
    /// The key of a group of the catalog is no number.
    InvalidNamespaceKey { key: String },
    /// The key of a group of the catalog lies outside the namespace table.
    NamespaceOutOfRange { index: usize },
    /// A feature index of an entry lies outside the feature table.
    FeatureOutOfRange { index: usize },
    /// An import line does not name a namespace and an item.
    UnparseableImport { line: String },
    /// An item was not found under the key `original` and was taken from
    /// the key `corrected`.
    Corrected { original: String, corrected: String },
    /// No item of this name is known, under this key or any other.
    ItemNotFound { key: String },
    /// No item is known in this namespace.
    NamespaceNotFound { namespace: String },
}

/// A diagnostic as contracts speak of it.
pub enum Note {
    InvalidNamespaceKey { key: Seq<char> },
    NamespaceOutOfRange { index: usize },
    FeatureOutOfRange { index: usize },
    UnparseableImport { line: Seq<char> },
    Corrected { original: Seq<char>, corrected: Seq<char> },
    ItemNotFound { key: Seq<char> },
    NamespaceNotFound { namespace: Seq<char> },
}

impl Note {
    /// Every note tells of something that was passed over or changed, and
    /// so is a warning.
    pub open spec fn severity(self) -> Severity {
        Severity::Warning
    }

    /// The note in words.
    pub open spec fn message(self) -> Seq<char> {
        match self {
            Note::InvalidNamespaceKey { key } => "Invalid namespace index: "@ + key,
            Note::NamespaceOutOfRange { index } => "Index "@ + digits_of(index as nat)
                + " out of range for namespace_map"@,
            Note::FeatureOutOfRange { index } => "Feature index "@ + digits_of(index as nat)
                + " out of bounds for feature_map"@,
            Note::UnparseableImport { line } =>
                "Could not determine namespace and item for import: "@ + line,
            Note::Corrected { original, corrected } => "Corrected namespace for "@ + original
                + " to match existing item: "@ + corrected,
            Note::ItemNotFound { key } => "No features found for item: "@ + key,
            Note::NamespaceNotFound { namespace } => "No features found for namespace: "@
                + namespace,
        }
    }
}

impl Diagnostic {
    /// The severity with which the diagnostic is logged.
    pub fn severity(&self) -> (r: Severity)
        ensures
            r == self@.severity(),
    {
        Severity::Warning
    }

    /// The diagnostic in words, as it is written to a log.
    pub fn message(&self) -> (r: String)
        ensures
            r@ == self@.message(),
    {
        match self {
            Diagnostic::InvalidNamespaceKey { key } => {
                let mut text = String::from_str("Invalid namespace index: ");
                text.append(key.as_str());
                text
            },
            Diagnostic::NamespaceOutOfRange { index } => {
                let mut text = String::from_str("Index ");
                text.append(decimal_text(*index).as_str());
                text.append(" out of range for namespace_map");
                text
            },
            Diagnostic::FeatureOutOfRange { index } => {
                let mut text = String::from_str("Feature index ");
                text.append(decimal_text(*index).as_str());
                text.append(" out of bounds for feature_map");
                text
            },
            Diagnostic::UnparseableImport { line } => {
                let mut text = String::from_str(
                    "Could not determine namespace and item for import: ",
                );
                text.append(line.as_str());
                text
            },
            Diagnostic::Corrected { original, corrected } => {
                let mut text = String::from_str("Corrected namespace for ");
                text.append(original.as_str());
                text.append(" to match existing item: ");
                text.append(corrected.as_str());
                text
            },
            Diagnostic::ItemNotFound { key } => {
                let mut text = String::from_str("No features found for item: ");
                text.append(key.as_str());
                text
            },
            Diagnostic::NamespaceNotFound { namespace } => {
                let mut text = String::from_str("No features found for namespace: ");
                text.append(namespace.as_str());
                text
            },
        }
    }
}

impl View for Diagnostic {
    type V = Note;

    open spec fn view(&self) -> Note {
        match *self {
            Diagnostic::InvalidNamespaceKey { key } => Note::InvalidNamespaceKey { key: key@ },
            Diagnostic::NamespaceOutOfRange { index } => Note::NamespaceOutOfRange { index },
            Diagnostic::FeatureOutOfRange { index } => Note::FeatureOutOfRange { index },
            Diagnostic::UnparseableImport { line } => Note::UnparseableImport { line: line@ },
            Diagnostic::Corrected { original, corrected } => Note::Corrected {
                original: original@,
                corrected: corrected@,
            },
            Diagnostic::ItemNotFound { key } => Note::ItemNotFound { key: key@ },
            Diagnostic::NamespaceNotFound { namespace } => Note::NamespaceNotFound {
                namespace: namespace@,
            },
        }
    }
}

/// The notes of a sequence of diagnostics.
pub open spec fn notes(v: Seq<Diagnostic>) -> Seq<Note> {
    v.map_values(|d: Diagnostic| d@)
}

/// The notes of a sequence with one more diagnostic at its end.
pub proof fn lemma_notes_push(v: Seq<Diagnostic>, d: Diagnostic)
    ensures
        notes(v.push(d)) == notes(v).push(d@),
{
    assert(notes(v.push(d)) =~= notes(v).push(d@));
}

} // verus!
