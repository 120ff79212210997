//! A group: one prefix and the suffixes it is shared by.

use vstd::prelude::*;
use crate::models::suffix::{suffixes_view, Suffix, SuffixV};

verus! {

/// A group of one prefix & multiple suffixes. Each suffix (and each
/// numeric of each suffix) is appended to the prefix, to get the final
/// expanded result.
#[derive(Debug, Clone)]
pub struct Group<'a> {
    /// The group's prefix. Present before each suffix.
    pub prefix: &'a str,
    /// The group's suffixes. Preceded by [`Self::prefix`]
    pub suffixes: Vec<Suffix<'a>>,
}

/// The views of a sequence of groups.
pub open spec fn groups_view<'a>(gs: Seq<Group<'a>>) -> Seq<GroupV> {
    gs.map_values(|g: Group<'a>| g@)
}

/// The mathematical shape of a [`Group`].
#[verifier::ext_equal]
pub struct GroupV {
    /// The shared prefix.
    pub prefix: Seq<char>,
    /// The suffixes, in insertion order.
    pub suffixes: Seq<SuffixV>,
}

impl<'a> View for Group<'a> {
    type V = GroupV;

    open spec fn view(&self) -> GroupV {
        GroupV {
            prefix: self.prefix@,
            suffixes: suffixes_view(self.suffixes@),
        }
    }
}

} // verus!
