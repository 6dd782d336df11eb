//! Moving, borrowing and slicing strings.

use vstd::prelude::*;
use vstd::string::*;
use vstd::utf8::*;

verus! {

/// The byte that separates words.
pub const SPACE: u8 = 0x20;

/// The index of the first space in `bytes`, or the length of `bytes` when it
/// holds none.
pub open spec fn first_space(bytes: Seq<u8>) -> int
    decreases bytes.len(),
{
    if bytes.len() == 0 || bytes[0] == SPACE {
        0
    } else {
        1 + first_space(bytes.drop_first())
    }
}

/// `first_space` is the only index below which no byte is a space and at
/// which the sequence ends or holds a space.
pub proof fn lemma_first_space_unique(bytes: Seq<u8>, i: int)
    requires
        0 <= i <= bytes.len(),
        forall|j: int| 0 <= j < i ==> bytes[j] != SPACE,
        i == bytes.len() || bytes[i] == SPACE,
    ensures
        first_space(bytes) == i,
    decreases bytes.len(),
{
    if bytes.len() == 0 || bytes[0] == SPACE {
    } else {
        let rest = bytes.drop_first();
        assert forall|j: int| 0 <= j < i - 1 implies rest[j] != SPACE by {
            assert(rest[j] == bytes[j + 1]);
        }
        lemma_first_space_unique(rest, i - 1);
    }
}

/// Hands a freshly made string to the caller.
pub fn gives_ownership() -> (r: String)
    ensures
        r@ == "yours"@,
{
    String::from_str("yours")
}

/// Takes a string and hands the same string back.
pub fn takes_and_gives_back(a_string: String) -> (r: String)
    ensures
        r == a_string,
{
    a_string
}

/// Returns the string together with its length in bytes.
pub fn calculate_length(s: String) -> (r: (String, usize))
    ensures
        r.0 == s,
        r.1 == encode_utf8(s@).len(),
{
    let length = s.as_str().as_bytes().len();
    (s, length)
}

/// The length in bytes of a borrowed string.
pub fn calculate_length_ref(s: &String) -> (r: usize)
    ensures
        r == encode_utf8(s@).len(),
{
    s.as_str().as_bytes().len()
}

/// Appends `", world"` to the string in place.
pub fn change(some_string: &mut String)
    ensures
        final(some_string)@ == old(some_string)@ + ", world"@,
{
    some_string.append(", world");
}

/// The first word of `s`: everything before its first space, or all of `s`
/// when it holds no space.
pub fn first_word(s: &str) -> (r: &str)
    ensures
        r.spec_bytes() == s.spec_bytes().subrange(0, first_space(s.spec_bytes())),
        r@ == decode_utf8(s.spec_bytes().subrange(0, first_space(s.spec_bytes()))),
{
    let bytes = s.as_bytes();
    let mut i: usize = 0;
    while i < bytes.len()
        invariant
            bytes@ == s.spec_bytes(),
            i <= bytes@.len(),
            forall|j: int| 0 <= j < i ==> bytes@[j] != SPACE,
        decreases bytes@.len() - i,
    {
        if bytes[i] == SPACE {
            proof {
                lemma_first_space_unique(bytes@, i as int);
                encode_utf8_valid_utf8(s@);
                is_char_boundary_iff_not_is_continuation_byte(bytes@, i as int);
            }
            let (head, _) = s.split_at(i);
            proof {
                encode_utf8_decode_utf8(head@);
            }
            return head;
        }
        i += 1;
    }
    proof {
        lemma_first_space_unique(bytes@, i as int);
        assert(bytes@.subrange(0, i as int) =~= bytes@);
        encode_utf8_decode_utf8(s@);
    }
    s
}

} // verus!
