//! Decoding of casualty ("losses") vectors. A losses vector has 21 fixed
//! categories stored as signed integers under a wraparound sentinel scheme:
//! non-negative entries are literal counts, entries in a documented negative
//! band encode large counts by an offset of twice `SENTINEL_MAX` (the integer
//! thousandth of the signed word maximum), and entries
//! below that band store a negated count. Decoded entries are always
//! non-negative.

use vstd::prelude::*;

verus! {

/// Number of casualty categories in a losses vector.
pub const LOSS_CATEGORIES: usize = 21;

/// Upper bound of the sentinel band's magnitude.
pub const SENTINEL_MAX: i32 = 2147483;

/// The decoded (non-negative) count for one stored entry.
pub open spec fn decode_loss(x: int) -> int {
    if x >= 0 {
        x
    } else if x >= -(SENTINEL_MAX as int) {
        x + 2 * (SENTINEL_MAX as int)
    } else {
        -x
    }
}

/// The decoded count at category `i` of a stored vector, with missing
/// trailing categories reading as zero.
pub open spec fn decoded_at(data: Seq<i32>, i: int) -> int {
    if 0 <= i < data.len() {
        decode_loss(data[i] as int)
    } else {
        0
    }
}

/// Decodes one stored entry.
pub fn decode(x: i32) -> (r: u32)
    ensures
        r == decode_loss(x as int),
{
    if x >= 0 {
        x as u32
    } else if x >= -SENTINEL_MAX {
        (x + 2 * SENTINEL_MAX) as u32
    } else {
        (-(x as i64)) as u32
    }
}

/// Decodes a stored losses vector into its 21 non-negative category counts.
/// Stored vectors shorter than 21 entries read as zero in the tail; entries
/// past the 21st are ignored.
pub fn decode_losses(data: &Vec<i32>) -> (r: Vec<u32>)
    ensures
        r.len() == LOSS_CATEGORIES,
        forall|i: int| 0 <= i < LOSS_CATEGORIES ==> r[i] == decoded_at(data@, i),
{
    let mut r: Vec<u32> = Vec::new();
    let mut i: usize = 0;
    while i < LOSS_CATEGORIES
        invariant
            i <= LOSS_CATEGORIES,
            r.len() == i,
            forall|j: int| 0 <= j < i ==> r[j] == decoded_at(data@, j),
        decreases LOSS_CATEGORIES - i,
    {
        if i < data.len() {
            r.push(decode(data[i]));
        } else {
            r.push(0u32);
        }
        i = i + 1;
    }
    r
}

/// Every decoded entry is non-negative and below `2^32`, so one category
/// count always fits the unsigned machine word it is returned in.
pub proof fn lemma_decode_loss_bounds(x: int)
    requires
        i32::MIN <= x <= i32::MAX,
    ensures
        0 <= decode_loss(x) < 0x1_0000_0000,
{
}

/// The decoding formula, stated plainly: non-negative entries decode to
/// themselves; entries in the sentinel band `[-SENTINEL_MAX, -1]` decode to
/// the entry plus twice `SENTINEL_MAX`; entries below the band decode to
/// their negation.
pub proof fn lemma_losses_decode(x: int)
    ensures
        x >= 0 ==> decode_loss(x) == x,
        -(SENTINEL_MAX as int) <= x < 0 ==> decode_loss(x) == x + 2 * (SENTINEL_MAX as int),
        x < -(SENTINEL_MAX as int) ==> decode_loss(x) == -x,
{
}

} // verus!
