//! What can be wrong with a set of registrations.

use crate::text;
use vstd::prelude::*;

verus! {

/// Something wrong with a set of registrations.
///
/// Named rather than numbered, and carrying the sources it is complaining
/// about, because registrations are collected from anywhere and the reader
/// does not know where they all are.
#[derive(Debug, Clone, PartialEq, Eq)]
pub enum Diagnostic {
    /// Two registrations claim the same name, so a report could not tell
    /// their rows apart.
    DuplicateName {
        name: String,
        /// Where each came from, as `crate@version (name)`.
        sources: Vec<String>,
    },
    /// A comparison group where more than one alternative claims to be the
    /// baseline.
    ManyBaselines {
        group: String,
        claimants: Vec<String>,
    },
    /// A candidate whose lane holds no inputs.
    ///
    /// Not a contradiction, so not an error, but almost always a typo or a
    /// type that is not what the writer thought, so it is said out loud and
    /// the entry skipped.
    OrphanCandidate {
        matrix: String,
        name: String,
        ty_name: &'static str,
    },
    /// An input no candidate in its group takes.
    OrphanInput {
        matrix: String,
        name: String,
        ty_name: &'static str,
    },
    /// Two candidates, or two inputs, of one name in one group.
    DuplicateMatrixEntry {
        matrix: String,
        /// `"candidate"` or `"input"`.
        what: &'static str,
        name: String,
    },
    /// Two types spelled alike in one lane are not the same type.
    MatrixTypeMismatch {
        matrix: String,
        candidate: String,
        ty_name: &'static str,
    },
}

/// The values of a [`Diagnostic`].
#[verifier::ext_equal]
pub enum DiagnosticView {
    DuplicateName { name: Seq<char>, sources: Seq<Seq<char>> },
    ManyBaselines { group: Seq<char>, claimants: Seq<Seq<char>> },
    OrphanCandidate { matrix: Seq<char>, name: Seq<char>, ty_name: Seq<char> },
    OrphanInput { matrix: Seq<char>, name: Seq<char>, ty_name: Seq<char> },
    DuplicateMatrixEntry { matrix: Seq<char>, what: Seq<char>, name: Seq<char> },
    MatrixTypeMismatch { matrix: Seq<char>, candidate: Seq<char>, ty_name: Seq<char> },
}

impl View for Diagnostic {
    type V = DiagnosticView;

    open spec fn view(&self) -> DiagnosticView {
        match *self {
            Diagnostic::DuplicateName { name, sources } => DiagnosticView::DuplicateName {
                name: name@,
                sources: text::strings(sources@),
            },
            Diagnostic::ManyBaselines { group, claimants } => DiagnosticView::ManyBaselines {
                group: group@,
                claimants: text::strings(claimants@),
            },
            Diagnostic::OrphanCandidate { matrix, name, ty_name } => {
                DiagnosticView::OrphanCandidate { matrix: matrix@, name: name@, ty_name: ty_name@ }
            },
            Diagnostic::OrphanInput { matrix, name, ty_name } => DiagnosticView::OrphanInput {
                matrix: matrix@,
                name: name@,
                ty_name: ty_name@,
            },
            Diagnostic::DuplicateMatrixEntry { matrix, what, name } => {
                DiagnosticView::DuplicateMatrixEntry { matrix: matrix@, what: what@, name: name@ }
            },
            Diagnostic::MatrixTypeMismatch { matrix, candidate, ty_name } => {
                DiagnosticView::MatrixTypeMismatch {
                    matrix: matrix@,
                    candidate: candidate@,
                    ty_name: ty_name@,
                }
            },
        }
    }
}

/// The values of a list of diagnostics.
pub open spec fn diagnostic_views(v: Seq<Diagnostic>) -> Seq<DiagnosticView> {
    Seq::new(v.len(), |i: int| v[i]@)
}

impl DiagnosticView {
    /// Whether this is more than a remark: only an orphan is one.
    pub open spec fn fatal(self) -> bool {
        !(self is OrphanCandidate) && !(self is OrphanInput)
    }

    /// The sentence a reader is shown.
    pub open spec fn sentence(self) -> Seq<char> {
        match self {
            DiagnosticView::DuplicateName { name, sources } => {
                "two benchmarks are both called `"@ + name + "`: "@ + text::joined(sources, ", "@)
            },
            DiagnosticView::ManyBaselines { group, claimants } => {
                "group `"@ + group + "` has more than one baseline: "@ + text::joined(
                    claimants,
                    ", "@,
                )
            },
            DiagnosticView::OrphanCandidate { matrix, name, ty_name } => {
                "in group `"@ + matrix + "`, `"@ + name + "` takes `"@ + ty_name
                    + "` but no input of that type is registered, so it was measured on nothing"@
            },
            DiagnosticView::OrphanInput { matrix, name, ty_name } => {
                "in group `"@ + matrix + "`, the input `"@ + name + "` produces `"@ + ty_name
                    + "` but no candidate takes that type, so nothing was measured on it"@
            },
            DiagnosticView::DuplicateMatrixEntry { matrix, what, name } => {
                "group `"@ + matrix + "` has two "@ + what + "s called `"@ + name + "`"@
            },
            DiagnosticView::MatrixTypeMismatch { matrix, candidate, ty_name } => {
                "in group `"@ + matrix + "`, `"@ + candidate + "` takes a different `"@ + ty_name
                    + "` from the one the inputs produce - two types of the same name are still two types"@
            },
        }
    }
}

impl Diagnostic {
    /// Whether this one means work the caller wrote is not being measured.
    ///
    /// An orphan is a remark: something registered is unused, and everything
    /// else still runs. A contradiction is not: the lane holding it is
    /// discarded, so benchmarks that were written produce nothing.
    pub fn is_fatal(&self) -> (fatal: bool)
        ensures
            fatal == self@.fatal(),
    {
        match self {
            Diagnostic::OrphanCandidate { .. } => false,
            Diagnostic::OrphanInput { .. } => false,
            _ => true,
        }
    }

    /// The sentence to show a reader.
    pub fn message(&self) -> (sentence: String)
        ensures
            sentence@ == self@.sentence(),
    {
        match self {
            Diagnostic::DuplicateName { name, sources } => {
                let mut m = "two benchmarks are both called `".to_owned();
                m.append(name.as_str());
                m.append("`: ");
                m.append(text::join(sources, ", ").as_str());
                m
            },
            Diagnostic::ManyBaselines { group, claimants } => {
                let mut m = "group `".to_owned();
                m.append(group.as_str());
                m.append("` has more than one baseline: ");
                m.append(text::join(claimants, ", ").as_str());
                m
            },
            Diagnostic::OrphanCandidate { matrix, name, ty_name } => {
                let mut m = "in group `".to_owned();
                m.append(matrix.as_str());
                m.append("`, `");
                m.append(name.as_str());
                m.append("` takes `");
                m.append(ty_name);
                m.append(
                    "` but no input of that type is registered, so it was measured on nothing",
                );
                m
            },
            Diagnostic::OrphanInput { matrix, name, ty_name } => {
                let mut m = "in group `".to_owned();
                m.append(matrix.as_str());
                m.append("`, the input `");
                m.append(name.as_str());
                m.append("` produces `");
                m.append(ty_name);
                m.append("` but no candidate takes that type, so nothing was measured on it");
                m
            },
            Diagnostic::DuplicateMatrixEntry { matrix, what, name } => {
                let mut m = "group `".to_owned();
                m.append(matrix.as_str());
                m.append("` has two ");
                m.append(what);
                m.append("s called `");
                m.append(name.as_str());
                m.append("`");
                m
            },
            Diagnostic::MatrixTypeMismatch { matrix, candidate, ty_name } => {
                let mut m = "in group `".to_owned();
                m.append(matrix.as_str());
                m.append("`, `");
                m.append(candidate.as_str());
                m.append("` takes a different `");
                m.append(ty_name);
                m.append(
                    "` from the one the inputs produce - two types of the same name are still two types",
                );
                m
            },
        }
    }
}

} // verus!
