//! Small types shared by the import trees and their printable forms.
use vstd::prelude::*;

use crate::bytes::copy_bytes;

verus! {

/// If a name is being imported, it either keeps its own name or is renamed.
#[derive(Debug)]
pub enum NameUse {
    /// `::name`
    Used,
    /// `::name as alias`
    Renamed(Vec<u8>),
}

impl View for NameUse {
    /// `None` for a name that keeps its own name, the alias otherwise.
    type V = Option<Seq<u8>>;

    open spec fn view(&self) -> Option<Seq<u8>> {
        match self {
            NameUse::Used => None,
            NameUse::Renamed(a) => Some(a@),
        }
    }
}

impl NameUse {
    pub fn duplicate(&self) -> (r: NameUse)
        ensures
            r@ == self@,
    {
        match self {
            NameUse::Used => NameUse::Used,
            NameUse::Renamed(a) => NameUse::Renamed(copy_bytes(a.as_slice())),
        }
    }
}

/// Whether a path starts with a leading `::`.
#[derive(Debug, Clone, Copy, PartialEq, Eq, Structural)]
pub enum Rooted {
    Rooted,
    Unrooted,
}

} // verus!
