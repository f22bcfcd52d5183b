//! The resource-type tag shared by a directory and all of its entries.

use vstd::prelude::*;

verus! {

/// The type of resource stored in an ICO/CUR file.
#[derive(Clone, Copy, Debug, PartialEq, Eq, Hash, Structural)]
pub enum ResourceType {
    /// Plain images (ICO files)
    Icon,
    /// Images with cursor hotspots (CUR files)
    Cursor,
}

impl ResourceType {
    /// Maps the on-disk numeric code to a resource type: 1 is an icon,
    /// 2 is a cursor, and every other code is unsupported.
    pub fn from_number(number: u16) -> (r: Option<ResourceType>)
        ensures
            r == ResourceType::spec_from_number(number),
    {
        match number {
            1 => Some(ResourceType::Icon),
            2 => Some(ResourceType::Cursor),
            _ => None,
        }
    }

    /// Returns the on-disk numeric code for this resource type.
    pub fn number(&self) -> (r: u16)
        ensures
            r == self.spec_number(),
    {
        match *self {
            ResourceType::Icon => 1,
            ResourceType::Cursor => 2,
        }
    }

    /// What `from_number` returns, as a mathematical function.
    pub open spec fn spec_from_number(number: u16) -> Option<ResourceType> {
        if number == 1 {
            Some(ResourceType::Icon)
        } else if number == 2 {
            Some(ResourceType::Cursor)
        } else {
            None
        }
    }

    /// What `number` returns, as a mathematical function.
    pub open spec fn spec_number(self) -> u16 {
        match self {
            ResourceType::Icon => 1,
            ResourceType::Cursor => 2,
        }
    }
}

/// The numeric code of a resource type always maps back to that resource
/// type.
pub proof fn lemma_resource_type_round_trip(restype: ResourceType)
    ensures
        ResourceType::spec_from_number(restype.spec_number()) == Some(restype),
{
}

} // verus!
