//! Integers that stand for single-precision numbers where only their order
//! matters. A number is given by its IEEE 754 bit pattern, its *word*.

use vstd::prelude::*;

verus! {

/// The word of a number with a sign bit.
pub open spec fn is_negative(word: u32) -> bool {
    word >= 0x8000_0000
}

/// The word of something that is no number.
pub open spec fn is_nan(word: u32) -> bool {
    &&& !is_negative(word) ==> word > 0x7f80_0000
    &&& is_negative(word) ==> word > 0xff80_0000
}

/// The key of a word: negative numbers, whose words grow with their distance
/// from zero, come in reverse below the others.
pub open spec fn key_of(word: u32) -> int {
    if is_negative(word) {
        0xffff_ffff - word
    } else {
        word + 0x8000_0000
    }
}

/// A key that is ordered as the number of the word is.
pub fn order_key(word: u32) -> (res: u32)
    ensures
        res == key_of(word),
{
    if word >= 0x8000_0000 {
        0xffff_ffff - word
    } else {
        word + 0x8000_0000
    }
}

/// The word of a key.
pub fn key_word(key: u32) -> (res: u32)
    ensures
        key_of(res) == key,
{
    if key < 0x8000_0000 {
        0xffff_ffff - key
    } else {
        key - 0x8000_0000
    }
}

/// A key stands for one word only.
pub proof fn lemma_keys_are_unique(x: u32, y: u32)
    requires
        key_of(x) == key_of(y),
    ensures
        x == y,
{
}

/// Keys are ordered as signs and magnitudes are: a number with a sign bit comes
/// before one without; of two without, the one with the smaller word comes
/// first; of two with, the one with the larger word.
pub proof fn lemma_keys_follow_the_numbers(x: u32, y: u32)
    ensures
        is_negative(x) && !is_negative(y) ==> key_of(x) < key_of(y),
        !is_negative(x) && !is_negative(y) ==> (key_of(x) < key_of(y) <==> x < y),
        is_negative(x) && is_negative(y) ==> (key_of(x) < key_of(y) <==> y < x),
{
}

/// The key of a magnitude, which is not negative: its word, or 0 where it is no
/// number, so that it is never a peak.
pub fn magnitude_key(word: u32) -> (res: u32)
    ensures
        res == (if is_nan(word) || is_negative(word) {
            0
        } else {
            word
        }),
{
    if word > 0x7f80_0000 {
        0
    } else {
        word
    }
}

/// What is no number is what lies past infinity, with a sign bit or without.
pub proof fn lemma_past_infinity_is_no_number(word: u32)
    ensures
        is_nan(word) <==> word % 0x8000_0000 > 0x7f80_0000,
        is_negative(word) <==> word / 0x8000_0000 == 1,
{
}

} // verus!
