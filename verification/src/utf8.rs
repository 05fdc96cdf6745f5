//! Well-formed UTF-8, after the table of well-formed byte sequences of the
//! Unicode standard: which bytes may begin a character and which may follow.

use vstd::prelude::*;

verus! {

/// A byte that continues a character: `80..=BF`.
pub open spec fn is_tail(byte: u8) -> bool {
    0x80 <= byte <= 0xbf
}

/// Whether `second` may follow `first` in a character of three bytes. After
/// `E0` the second byte is at least `A0`, which rules out overlong forms;
/// after `ED` it is at most `9F`, which rules out surrogates.
pub open spec fn follows_in_three(first: u8, second: u8) -> bool {
    if first == 0xe0 {
        0xa0 <= second <= 0xbf
    } else if first == 0xed {
        0x80 <= second <= 0x9f
    } else {
        is_tail(second)
    }
}

/// Whether `second` may follow `first` in a character of four bytes. After
/// `F0` the second byte is at least `90`, which rules out overlong forms;
/// after `F4` it is at most `8F`, which keeps the character below `110000`.
pub open spec fn follows_in_four(first: u8, second: u8) -> bool {
    if first == 0xf0 {
        0x90 <= second <= 0xbf
    } else if first == 0xf4 {
        0x80 <= second <= 0x8f
    } else {
        is_tail(second)
    }
}

/// The length of the character that begins at `at`, or 0 where no well-formed
/// character begins there.
pub open spec fn character_len(bytes: Seq<u8>, at: int) -> int
    recommends
        0 <= at < bytes.len(),
{
    let first = bytes[at];
    if first <= 0x7f {
        1
    } else if 0xc2 <= first <= 0xdf {
        if at + 1 < bytes.len() && is_tail(bytes[at + 1]) {
            2
        } else {
            0
        }
    } else if 0xe0 <= first <= 0xef {
        if at + 2 < bytes.len() && follows_in_three(first, bytes[at + 1]) && is_tail(
            bytes[at + 2],
        ) {
            3
        } else {
            0
        }
    } else if 0xf0 <= first <= 0xf4 {
        if at + 3 < bytes.len() && follows_in_four(first, bytes[at + 1]) && is_tail(bytes[at + 2])
            && is_tail(bytes[at + 3]) {
            4
        } else {
            0
        }
    } else {
        0
    }
}

/// The first offset, going character by character from `from`, at which no
/// well-formed character begins; `None` where the bytes are well-formed to
/// their end.
pub open spec fn ill_formed_from(bytes: Seq<u8>, from: int) -> Option<int>
    decreases bytes.len() - from,
{
    if from < 0 || from >= bytes.len() {
        None
    } else if character_len(bytes, from) <= 0 {
        Some(from)
    } else {
        ill_formed_from(bytes, from + character_len(bytes, from))
    }
}

/// The offset of the first byte sequence that is not well-formed UTF-8, or
/// `None` where the bytes are well-formed UTF-8.
pub open spec fn ill_formed_at(bytes: Seq<u8>) -> Option<int> {
    ill_formed_from(bytes, 0)
}

/// Whether a byte continues a character.
pub fn continues(byte: u8) -> (tail: bool)
    ensures
        tail == is_tail(byte),
{
    0x80 <= byte && byte <= 0xbf
}

/// The length of the character that begins at `at`, or 0 where no
/// well-formed character begins there.
pub fn character_length(bytes: &[u8], at: usize) -> (len: usize)
    requires
        at < bytes.len(),
    ensures
        len == character_len(bytes@, at as int),
        at + len <= bytes.len(),
{
    let first = bytes[at];
    let left = bytes.len() - at;
    if first <= 0x7f {
        1
    } else if 0xc2 <= first && first <= 0xdf {
        if left > 1 && continues(bytes[at + 1]) {
            2
        } else {
            0
        }
    } else if 0xe0 <= first && first <= 0xef {
        if left > 2 {
            let second = bytes[at + 1];
            let fits = if first == 0xe0 {
                0xa0 <= second && second <= 0xbf
            } else if first == 0xed {
                0x80 <= second && second <= 0x9f
            } else {
                continues(second)
            };
            if fits && continues(bytes[at + 2]) {
                3
            } else {
                0
            }
        } else {
            0
        }
    } else if 0xf0 <= first && first <= 0xf4 {
        if left > 3 {
            let second = bytes[at + 1];
            let fits = if first == 0xf0 {
                0x90 <= second && second <= 0xbf
            } else if first == 0xf4 {
                0x80 <= second && second <= 0x8f
            } else {
                continues(second)
            };
            if fits && continues(bytes[at + 2]) && continues(bytes[at + 3]) {
                4
            } else {
                0
            }
        } else {
            0
        }
    } else {
        0
    }
}

/// Finds the first byte sequence that is not well-formed UTF-8.
pub fn first_ill_formed(bytes: &[u8]) -> (found: Option<usize>)
    ensures
        match found {
            Some(at) => ill_formed_at(bytes@) == Some(at as int) && at < bytes.len(),
            None => ill_formed_at(bytes@) is None,
        },
{
    let mut at: usize = 0;
    while at < bytes.len()
        invariant
            at <= bytes.len(),
            ill_formed_at(bytes@) == ill_formed_from(bytes@, at as int),
        decreases bytes.len() - at,
    {
        let len = character_length(bytes, at);
        if len == 0 {
            return Some(at);
        }
        at += len;
    }
    None
}

} // verus!
