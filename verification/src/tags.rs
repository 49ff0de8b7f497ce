//! Country tags: the 3–4 character identifiers that political entities carry
//! at a point in time. A tag is packed into a single machine word (one byte
//! per character, low byte first, unused bytes zero) so that equality is
//! structural and tags can key lookups without string handling.

use vstd::prelude::*;

verus! {

/// A packed country tag.
#[derive(Clone, Copy, PartialEq, Eq, Structural, Hash, Debug)]
pub struct Tag {
    pub code: u32,
}

/// The packed code for the given ASCII bytes, low byte first.
pub open spec fn pack_spec(a: u8, b: u8, c: u8, d: u8) -> u32 {
    (a + b * 0x100 + c * 0x1_0000 + d * 0x100_0000) as u32
}

/// The reserved "no entity" sentinel tag, written `---` in saves. War records
/// whose original attacker is this tag are upstream-parser artifacts.
pub open spec fn no_entity_spec() -> Tag {
    Tag { code: 0x002d_2d2d }
}

impl Tag {
    /// Builds a tag from up to four ASCII bytes; a three-character tag
    /// passes 0 for `d`.
    pub fn from_ascii(a: u8, b: u8, c: u8, d: u8) -> (t: Tag)
        ensures
            t.code == pack_spec(a, b, c, d),
    {
        Tag { code: (a as u32) + (b as u32) * 0x100 + (c as u32) * 0x1_0000 + (d as u32) * 0x100_0000 }
    }

    /// The reserved "no entity" sentinel tag (`---`).
    pub fn no_entity() -> (t: Tag)
        ensures
            t == no_entity_spec(),
    {
        Tag { code: 0x002d_2d2d }
    }
}

} // verus!
