//! Reading a pair of values written with a separator between them, such as
//! `400x600` or `1.0,0.5`.

use vstd::prelude::*;
use vstd::utf8::{is_char_boundary, is_continuation_byte, length_of_first_scalar, valid_utf8};
use vstd::string::StringSliceAdditionalSpecFns;
use core::str::FromStr;

verus! {

/// `c` is an ASCII character, which UTF-8 writes as the single byte `c as u8`.
pub open spec fn is_ascii_char(c: char) -> bool {
    (c as u32) < 128
}

/// `i` is the first position of `bytes` that holds `b`.
pub open spec fn first_at(bytes: Seq<u8>, b: u8, i: int) -> bool {
    &&& 0 <= i < bytes.len()
    &&& bytes[i] == b
    &&& forall|k: int| 0 <= k < i ==> bytes[k] != b
}

/// `b` occurs nowhere in `bytes`.
pub open spec fn absent(bytes: Seq<u8>, b: u8) -> bool {
    forall|k: int| 0 <= k < bytes.len() ==> bytes[k] != b
}

/// In valid UTF-8, an ASCII byte is a character of its own: a character
/// starts at it and the next starts right after it.
proof fn lemma_ascii_byte_boundaries(bytes: Seq<u8>, i: int)
    requires
        valid_utf8(bytes),
        0 <= i < bytes.len(),
        bytes[i] < 128,
    ensures
        is_char_boundary(bytes, i),
        is_char_boundary(bytes, i + 1),
    decreases bytes.len(),
{
    vstd::utf8::is_char_boundary_iff_not_is_continuation_byte(bytes, i);
    assert(!is_continuation_byte(bytes[i]));
    if i == 0 {
        reveal_with_fuel(is_char_boundary, 2);
        reveal_with_fuel(valid_utf8, 2);
        assert(length_of_first_scalar(bytes) == 1);
    } else {
        reveal_with_fuel(is_char_boundary, 2);
        reveal_with_fuel(valid_utf8, 2);
        let rest = vstd::utf8::pop_first_scalar(bytes);
        let n = length_of_first_scalar(bytes);
        assert(is_char_boundary(rest, i - n));
        assert(1 <= n <= i);
        assert(rest[i - n] == bytes[i]);
        lemma_ascii_byte_boundaries(rest, i - n);
    }
}

/// What `T`'s own reading of `s` gives, or `None` where it refuses `s`.
/// This calls `T::from_str`, of which nothing is known here.
#[verifier::external_body]
fn parse_part<T: FromStr>(s: &str) -> (r: Option<T>) {
    T::from_str(s).ok()
}

/// The two parts of `s` around the first `separator` in it, or `None` where
/// `s` holds no `separator`.
pub fn split_pair<'a>(s: &'a str, separator: char) -> (r: Option<(&'a str, &'a str)>)
    requires
        is_ascii_char(separator),
    ensures
        match r {
            None => absent(s.spec_bytes(), separator as u8),
            Some((left, right)) => exists|i: int|
                {
                    &&& #[trigger] first_at(s.spec_bytes(), separator as u8, i)
                    &&& left.spec_bytes() == s.spec_bytes().subrange(0, i)
                    &&& right.spec_bytes() == s.spec_bytes().subrange(
                        i + 1,
                        s.spec_bytes().len() as int,
                    )
                },
        },
{
    let bytes = s.as_bytes();
    let wanted: u8 = separator as u8;
    let mut i: usize = 0;
    while i < bytes.len()
        invariant
            is_ascii_char(separator),
            wanted == separator as u8,
            bytes@ == s.spec_bytes(),
            i <= bytes@.len(),
            forall|k: int| 0 <= k < i ==> bytes@[k] != wanted,
        decreases bytes@.len() - i,
    {
        if bytes[i] == wanted {
            proof {
                vstd::utf8::encode_utf8_valid_utf8(s@);
                lemma_ascii_byte_boundaries(s.spec_bytes(), i as int);
                assert(first_at(s.spec_bytes(), wanted, i as int));
            }
            let (left, _) = s.split_at(i);
            let (_, right) = s.split_at(i + 1);
            return Some((left, right));
        }
        i = i + 1;
    }
    None
}

/// Both values, where both are there.
pub fn pair_of<T>(left: Option<T>, right: Option<T>) -> (r: Option<(T, T)>)
    ensures
        r == match (left, right) {
            (Some(l), Some(r)) => Some((l, r)),
            _ => None::<(T, T)>,
        },
{
    match (left, right) {
        (Some(l), Some(r)) => Some((l, r)),
        _ => None,
    }
}

/// Reads `s` as two values of type `T` with `separator` between them: the
/// text before the first `separator` and the text after it, each read by
/// `T` itself. `None` where `s` holds no `separator` or `T` refuses one of
/// the two parts.
pub fn parse_pair<T: FromStr>(s: &str, separator: char) -> (r: Option<(T, T)>)
    requires
        is_ascii_char(separator),
    ensures
        absent(s.spec_bytes(), separator as u8) ==> r is None,
{
    match split_pair(s, separator) {
        None => None,
        Some((left, right)) => pair_of(parse_part(left), parse_part(right)),
    }
}

} // verus!
