//! The payload of an armored block is Base85 text: every four bytes become
//! five characters of an alphabet of 85, and a last group of one to three
//! bytes becomes two to four characters.
//!
//! The conversion itself is the `base85` crate's. What is decided here is
//! which texts may be handed to its decoder.

use vstd::prelude::*;
use vstd::slice::slice_subrange;

verus! {

/// The value that a character of the Base85 alphabet stands for, or `None`
/// for a byte that is not in the alphabet: the digits from 0, the capital
/// letters from 10, the small letters from 36, and 23 punctuation marks
/// from 62.
pub open spec fn digit(c: u8) -> Option<int> {
    if 48 <= c <= 57 {
        Some(c - 48)
    } else if 65 <= c <= 90 {
        Some(c - 65 + 10)
    } else if 97 <= c <= 122 {
        Some(c - 97 + 36)
    } else if c == 33 {
        Some(62)
    } else if 35 <= c <= 38 {
        Some(c - 35 + 63)
    } else if 40 <= c <= 43 {
        Some(c - 40 + 67)
    } else if c == 45 {
        Some(71)
    } else if 59 <= c <= 64 {
        Some(c - 59 + 72)
    } else if 94 <= c <= 96 {
        Some(c - 94 + 78)
    } else if 123 <= c <= 126 {
        Some(c - 123 + 81)
    } else {
        None
    }
}

/// The value of the character at place `i` of a group. A place that a short
/// last group leaves open counts as 126.
pub open spec fn place(group: Seq<u8>, i: int) -> Option<int> {
    if i < group.len() {
        digit(group[i])
    } else {
        Some(126)
    }
}

/// The number that five places stand for, the first one weighing most.
pub open spec fn group_value(d0: int, d1: int, d2: int, d3: int, d4: int) -> int {
    d0 * 52200625 + d1 * 614125 + d2 * 7225 + d3 * 85 + d4
}

/// Whether a group of two to five characters can be decoded: each is in the
/// alphabet, and the number they stand for fits in 32 bits.
pub open spec fn group_fits(group: Seq<u8>) -> bool {
    &&& 2 <= group.len() <= 5
    &&& place(group, 0) is Some
    &&& place(group, 1) is Some
    &&& place(group, 2) is Some
    &&& place(group, 3) is Some
    &&& place(group, 4) is Some
    &&& group_value(
        place(group, 0).unwrap(),
        place(group, 1).unwrap(),
        place(group, 2).unwrap(),
        place(group, 3).unwrap(),
        place(group, 4).unwrap(),
    ) <= u32::MAX
}

/// Whether a text is well-formed Base85: it falls into groups of five
/// characters and, at most, one shorter last group, each of which can be
/// decoded.
pub open spec fn valid(text: Seq<u8>) -> bool
    decreases text.len(),
{
    if text.len() == 0 {
        true
    } else if text.len() >= 5 {
        group_fits(text.subrange(0, 5)) && valid(text.skip(5))
    } else {
        group_fits(text)
    }
}

/// The Base85 text of `data`, as `base85::encode` returns it.
pub uninterp spec fn encoded(data: Seq<u8>) -> Seq<u8>;

/// The bytes that a well-formed Base85 text stands for, as `base85::decode`
/// returns them.
pub uninterp spec fn decoded(text: Seq<u8>) -> Seq<u8>;

/// Well-formed Base85 text holds characters of the alphabet only.
pub proof fn lemma_valid_alphabet(text: Seq<u8>)
    requires
        valid(text),
    ensures
        forall|i: int| 0 <= i < text.len() ==> digit(#[trigger] text[i]) is Some,
    decreases text.len(),
{
    if text.len() >= 5 {
        let head = text.subrange(0, 5);
        let tail = text.skip(5);
        lemma_valid_alphabet(tail);
        assert forall|i: int| 0 <= i < text.len() implies digit(#[trigger] text[i]) is Some by {
            if i < 5 {
                assert(text[i] == head[i]);
                assert(place(head, i) is Some);
            } else {
                assert(text[i] == tail[i - 5]);
            }
        }
    } else if text.len() > 0 {
        assert forall|i: int| 0 <= i < text.len() implies digit(#[trigger] text[i]) is Some by {
            assert(place(text, i) is Some);
        }
    }
}

/// The value of a byte in the alphabet.
fn digit_of(c: u8) -> (d: Option<u64>)
    ensures
        match d {
            Some(v) => digit(c) == Some(v as int) && v < 85,
            None => digit(c) is None,
        },
{
    if 48 <= c && c <= 57 {
        Some((c - 48) as u64)
    } else if 65 <= c && c <= 90 {
        Some((c - 65 + 10) as u64)
    } else if 97 <= c && c <= 122 {
        Some((c - 97 + 36) as u64)
    } else if c == 33 {
        Some(62)
    } else if 35 <= c && c <= 38 {
        Some((c - 35 + 63) as u64)
    } else if 40 <= c && c <= 43 {
        Some((c - 40 + 67) as u64)
    } else if c == 45 {
        Some(71)
    } else if 59 <= c && c <= 64 {
        Some((c - 59 + 72) as u64)
    } else if 94 <= c && c <= 96 {
        Some((c - 94 + 78) as u64)
    } else if 123 <= c && c <= 126 {
        Some((c - 123 + 81) as u64)
    } else {
        None
    }
}

/// The value of the character at place `i` of a group.
fn place_of(group: &[u8], i: usize) -> (d: Option<u64>)
    ensures
        match d {
            Some(v) => place(group@, i as int) == Some(v as int) && v <= 126,
            None => place(group@, i as int) is None,
        },
{
    if i < group.len() {
        digit_of(group[i])
    } else {
        Some(126)
    }
}

/// Whether a group can be decoded.
fn group_is_fit(group: &[u8]) -> (fit: bool)
    ensures
        fit == group_fits(group@),
{
    if group.len() < 2 || group.len() > 5 {
        return false;
    }
    let d0: u64 = match place_of(group, 0) {
        Some(v) => v,
        None => {
            return false;
        },
    };
    let d1: u64 = match place_of(group, 1) {
        Some(v) => v,
        None => {
            return false;
        },
    };
    let d2: u64 = match place_of(group, 2) {
        Some(v) => v,
        None => {
            return false;
        },
    };
    let d3: u64 = match place_of(group, 3) {
        Some(v) => v,
        None => {
            return false;
        },
    };
    let d4: u64 = match place_of(group, 4) {
        Some(v) => v,
        None => {
            return false;
        },
    };
    let value: u64 = d0 * 52200625 + d1 * 614125 + d2 * 7225 + d3 * 85 + d4;
    value <= 4294967295
}

/// Whether a text is well-formed Base85.
pub fn is_valid(text: &[u8]) -> (ok: bool)
    ensures
        ok == valid(text@),
{
    let n: usize = text.len();
    let mut pos: usize = 0;
    proof {
        assert(text@.skip(0) =~= text@);
    }
    while n - pos >= 5
        invariant
            n == text@.len(),
            pos <= n,
            valid(text@) == valid(text@.skip(pos as int)),
        decreases n - pos,
    {
        let group: &[u8] = slice_subrange(text, pos, pos + 5);
        proof {
            let rest = text@.skip(pos as int);
            assert(rest.subrange(0, 5) =~= group@);
            assert(rest.skip(5) =~= text@.skip(pos + 5));
        }
        if !group_is_fit(group) {
            return false;
        }
        pos += 5;
    }
    if pos == n {
        return true;
    }
    let group: &[u8] = slice_subrange(text, pos, n);
    proof {
        assert(text@.skip(pos as int) =~= group@);
    }
    group_is_fit(group)
}

/// Calls `base85::encode`. Its result is named, and known to be well-formed
/// text that `base85::decode` turns back into `data`.
#[verifier::external_body]
pub(crate) fn encode(data: &[u8]) -> (text: Vec<u8>)
    ensures
        text@ == encoded(data@),
        valid(text@),
        decoded(text@) == data@,
{
    base85::encode(data).into_bytes()
}

/// Calls `base85::decode` on well-formed text, on which it neither fails nor
/// overflows, and names its result.
#[verifier::external_body]
pub(crate) fn decode(text: &[u8]) -> (data: Vec<u8>)
    requires
        valid(text@),
    ensures
        data@ == decoded(text@),
{
    match std::str::from_utf8(text) {
        Ok(text) => match base85::decode(text) {
            Ok(data) => data,
            Err(_) => Vec::new(),
        },
        Err(_) => Vec::new(),
    }
}

} // verus!
