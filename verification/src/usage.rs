//! What a task declares about the named data it touches.

use vstd::prelude::*;

verus! {

/// How a task uses one named datum.
#[derive(Debug, Copy, Clone, PartialEq, Eq, Structural)]
pub enum PurtelParamUsageKind {
    READ,
    WRITE,
}

/// One declaration of a task: a name and the way the task uses it. Names are
/// compared character by character; nothing is trimmed or folded.
#[derive(Debug)]
pub struct PurtelParamUsage {
    identifier: String,
    kind: PurtelParamUsageKind,
}

/// The mathematical content of a [`PurtelParamUsage`].
pub ghost struct ParamUsageView {
    pub identifier: Seq<char>,
    pub kind: PurtelParamUsageKind,
}

impl View for PurtelParamUsage {
    type V = ParamUsageView;

    closed spec fn view(&self) -> ParamUsageView {
        ParamUsageView { identifier: self.identifier@, kind: self.kind }
    }
}

impl DeepView for PurtelParamUsage {
    type V = ParamUsageView;

    open spec fn deep_view(&self) -> ParamUsageView {
        self@
    }
}

impl PurtelParamUsage {
    /// The declaration that the datum named `identifier` is used in the way
    /// `kind`.
    pub fn new(identifier: &str, kind: PurtelParamUsageKind) -> (usage: Self)
        ensures
            usage@.identifier == identifier@,
            usage@.kind == kind,
    {
        Self { identifier: identifier.to_owned(), kind }
    }

    /// The name of the datum.
    pub fn identifier(&self) -> (name: &str)
        ensures
            name@ == self@.identifier,
    {
        self.identifier.as_str()
    }

    /// The way the datum is used.
    pub fn kind(&self) -> (kind: PurtelParamUsageKind)
        ensures
            kind == self@.kind,
    {
        self.kind
    }

    /// Whether two declarations speak of the same name.
    pub fn same_identifier(&self, other: &PurtelParamUsage) -> (same: bool)
        ensures
            same == (self@.identifier == other@.identifier),
    {
        self.identifier == other.identifier
    }

    /// A copy of the declared name.
    pub fn identifier_owned(&self) -> (name: String)
        ensures
            name@ == self@.identifier,
    {
        self.identifier.clone()
    }
}

} // verus!
