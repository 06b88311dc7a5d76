//! Exact comparisons on texts and bytes.

use vstd::prelude::*;
use vstd::utf8::*;

verus! {

/// Whether two byte ranges hold the same bytes.
pub fn same_bytes(
    left: &[u8],
    left_start: usize,
    left_end: usize,
    right: &[u8],
    right_start: usize,
    right_end: usize,
) -> (same: bool)
    requires
        left_start <= left_end <= left.len(),
        right_start <= right_end <= right.len(),
    ensures
        same == (left@.subrange(left_start as int, left_end as int) == right@.subrange(
            right_start as int,
            right_end as int,
        )),
{
    let ghost a = left@.subrange(left_start as int, left_end as int);
    let ghost b = right@.subrange(right_start as int, right_end as int);
    if left_end - left_start != right_end - right_start {
        assert(a.len() != b.len());
        return false;
    }
    let len = left_end - left_start;
    let mut index: usize = 0;
    while index < len
        invariant
            index <= len,
            len == left_end - left_start,
            len == right_end - right_start,
            left_start <= left_end <= left.len(),
            right_start <= right_end <= right.len(),
            a == left@.subrange(left_start as int, left_end as int),
            b == right@.subrange(right_start as int, right_end as int),
            forall|k: int| 0 <= k < index ==> a[k] == b[k],
        decreases len - index,
    {
        if left[left_start + index] != right[right_start + index] {
            assert(a[index as int] != b[index as int]);
            return false;
        }
        index += 1;
    }
    assert(a =~= b);
    true
}

/// Equal encodings come from equal texts.
pub proof fn lemma_encode_injective(left: Seq<char>, right: Seq<char>)
    ensures
        encode_utf8(left) == encode_utf8(right) <==> left == right,
{
    encode_utf8_decode_utf8(left);
    encode_utf8_decode_utf8(right);
}

/// Whether two texts are equal.
pub fn same_str(left: &str, right: &str) -> (same: bool)
    ensures
        same == (left@ == right@),
{
    let a = left.as_bytes();
    let b = right.as_bytes();
    proof {
        lemma_encode_injective(left@, right@);
        assert(a@.subrange(0, a@.len() as int) =~= a@);
        assert(b@.subrange(0, b@.len() as int) =~= b@);
    }
    same_bytes(a, 0, a.len(), b, 0, b.len())
}

/// Lower-case form of an ASCII letter; every other byte is unchanged.
pub open spec fn ascii_lower(byte: u8) -> u8 {
    if 65 <= byte <= 90 {
        (byte + 32) as u8
    } else {
        byte
    }
}

/// Lower-case form of an ASCII letter; every other byte is unchanged.
pub fn to_ascii_lower(byte: u8) -> (lower: u8)
    ensures
        lower == ascii_lower(byte),
{
    if 65 <= byte && byte <= 90 {
        byte + 32
    } else {
        byte
    }
}

/// Equal up to the case of ASCII letters.
pub open spec fn equal_ignoring_ascii_case(left: Seq<u8>, right: Seq<u8>) -> bool {
    left.len() == right.len() && forall|i: int|
        0 <= i < left.len() ==> ascii_lower(#[trigger] left[i]) == ascii_lower(right[i])
}

/// Equality up to case is an equivalence. Texts without letters are equal only if they are the
/// same, and a letter is equal to its other case and to nothing else.
pub proof fn law_case_is_ignored(left: Seq<u8>, middle: Seq<u8>, right: Seq<u8>)
    ensures
        equal_ignoring_ascii_case(left, left),
        equal_ignoring_ascii_case(left, middle) ==> equal_ignoring_ascii_case(middle, left),
        equal_ignoring_ascii_case(left, middle) && equal_ignoring_ascii_case(middle, right)
            ==> equal_ignoring_ascii_case(left, right),
        equal_ignoring_ascii_case(left, right) ==> left.len() == right.len() && forall|i: int|
            0 <= i < left.len() ==> (#[trigger] left[i]) == right[i] || (65 <= left[i] <= 90
                && right[i] == left[i] + 32) || (65 <= right[i] <= 90 && left[i] == right[i] + 32),
        left.len() == right.len() && (forall|i: int|
            0 <= i < left.len() ==> (#[trigger] left[i]) == right[i] || (65 <= left[i] <= 90
                && right[i] == left[i] + 32) || (65 <= right[i] <= 90 && left[i] == right[i] + 32))
            ==> equal_ignoring_ascii_case(left, right),
{
    if equal_ignoring_ascii_case(left, middle) {
        assert forall|i: int| 0 <= i < middle.len() implies ascii_lower(#[trigger] middle[i])
            == ascii_lower(left[i]) by {
            assert(ascii_lower(left[i]) == ascii_lower(middle[i]));
        }
        if equal_ignoring_ascii_case(middle, right) {
            assert forall|i: int| 0 <= i < left.len() implies ascii_lower(#[trigger] left[i])
                == ascii_lower(right[i]) by {
                assert(ascii_lower(left[i]) == ascii_lower(middle[i]));
                assert(ascii_lower(middle[i]) == ascii_lower(right[i]));
            }
        }
    }
}

/// Whether two texts are equal up to the case of ASCII letters.
pub fn same_ignoring_ascii_case(left: &str, right: &str) -> (same: bool)
    ensures
        same == equal_ignoring_ascii_case(encode_utf8(left@), encode_utf8(right@)),
{
    let a = left.as_bytes();
    let b = right.as_bytes();
    if a.len() != b.len() {
        return false;
    }
    let mut index: usize = 0;
    while index < a.len()
        invariant
            index <= a.len(),
            a.len() == b.len(),
            a@ == encode_utf8(left@),
            b@ == encode_utf8(right@),
            forall|k: int| 0 <= k < index ==> ascii_lower(#[trigger] a@[k]) == ascii_lower(b@[k]),
        decreases a.len() - index,
    {
        if to_ascii_lower(a[index]) != to_ascii_lower(b[index]) {
            assert(ascii_lower(a@[index as int]) != ascii_lower(b@[index as int]));
            return false;
        }
        index += 1;
    }
    true
}

/// `part` occurs in `whole` at `at`.
pub open spec fn occurs_at(whole: Seq<u8>, part: Seq<u8>, at: int) -> bool {
    0 <= at && at + part.len() <= whole.len() && whole.subrange(at, at + part.len()) == part
}

/// Whether a text occurs in a byte sequence at a position.
pub fn bytes_at(whole: &[u8], at: usize, part: &str) -> (found: bool)
    ensures
        found == occurs_at(whole@, encode_utf8(part@), at as int),
{
    let bytes = part.as_bytes();
    if at > whole.len() || whole.len() - at < bytes.len() {
        return false;
    }
    proof {
        assert(bytes@.subrange(0, bytes@.len() as int) =~= bytes@);
    }
    same_bytes(whole, at, at + bytes.len(), bytes, 0, bytes.len())
}

/// Whether a text occurs in another text.
pub fn contains_str(whole: &str, part: &str) -> (found: bool)
    ensures
        found == exists|at: int| #[trigger]
            occurs_at(encode_utf8(whole@), encode_utf8(part@), at),
{
    let bytes = whole.as_bytes();
    let mut at: usize = 0;
    while at < bytes.len()
        invariant
            at <= bytes.len(),
            bytes@ == encode_utf8(whole@),
            forall|k: int| 0 <= k < at ==> !(#[trigger] occurs_at(bytes@, encode_utf8(part@), k)),
        decreases bytes.len() - at,
    {
        if bytes_at(bytes, at, part) {
            return true;
        }
        at += 1;
    }
    let tail = bytes_at(bytes, at, part);
    proof {
        if !tail {
            assert forall|k: int| !(#[trigger] occurs_at(bytes@, encode_utf8(part@), k)) by {
                if k > at && occurs_at(bytes@, encode_utf8(part@), k) {
                    assert(false);
                }
            }
        }
    }
    tail
}

/// Whether a text ends with another text.
pub fn ends_with_str(whole: &str, part: &str) -> (found: bool)
    ensures
        found == (encode_utf8(part@).len() <= encode_utf8(whole@).len() && occurs_at(
            encode_utf8(whole@),
            encode_utf8(part@),
            encode_utf8(whole@).len() - encode_utf8(part@).len(),
        )),
{
    let bytes = whole.as_bytes();
    let part_len = part.as_bytes().len();
    if part_len > bytes.len() {
        return false;
    }
    bytes_at(bytes, bytes.len() - part_len, part)
}

/// Characters with the Unicode `White_Space` property.
pub open spec fn is_white(c: char) -> bool {
    ||| 0x09 <= c as u32 <= 0x0d
    ||| c as u32 == 0x20
    ||| c as u32 == 0x85
    ||| c as u32 == 0xa0
    ||| c as u32 == 0x1680
    ||| 0x2000 <= c as u32 <= 0x200a
    ||| c as u32 == 0x2028
    ||| c as u32 == 0x2029
    ||| c as u32 == 0x202f
    ||| c as u32 == 0x205f
    ||| c as u32 == 0x3000
}

/// Whether a character has the Unicode `White_Space` property.
pub fn white(c: char) -> (result: bool)
    ensures
        result == is_white(c),
{
    let code = c as u32;
    (0x09 <= code && code <= 0x0d) || code == 0x20 || code == 0x85 || code == 0xa0 || code == 0x1680
        || (0x2000 <= code && code <= 0x200a) || code == 0x2028 || code == 0x2029 || code == 0x202f
        || code == 0x205f || code == 0x3000
}

/// Every character is white space.
pub open spec fn all_white(text: Seq<char>) -> bool {
    forall|i: int| 0 <= i < text.len() ==> is_white(#[trigger] text[i])
}

/// Characters of a text, in order.
pub fn chars_of(text: &str) -> (chars: Vec<char>)
    ensures
        chars@ == text@,
{
    let mut chars: Vec<char> = Vec::new();
    for c in iter: text.chars()
        invariant
            chars@ == text@.take(iter.index() as int),
            iter.seq() == text@,
    {
        assert(text@.take(iter.index() + 1) =~= text@.take(iter.index() as int).push(c));
        chars.push(c);
    }
    assert(text@.take(text@.len() as int) =~= text@);
    chars
}

/// Whether every character of a text is white space.
pub fn blank(text: &str) -> (result: bool)
    ensures
        result == all_white(text@),
{
    let chars = chars_of(text);
    let mut index: usize = 0;
    while index < chars.len()
        invariant
            index <= chars.len(),
            chars@ == text@,
            forall|k: int| 0 <= k < index ==> is_white(#[trigger] text@[k]),
        decreases chars.len() - index,
    {
        if !white(chars[index]) {
            assert(!is_white(text@[index as int]));
            return false;
        }
        index += 1;
    }
    true
}

/// Whether a character occurs in a text.
pub fn has_char(text: &str, wanted: char) -> (found: bool)
    ensures
        found == text@.contains(wanted),
{
    let chars = chars_of(text);
    let mut index: usize = 0;
    while index < chars.len()
        invariant
            index <= chars.len(),
            chars@ == text@,
            forall|k: int| 0 <= k < index ==> text@[k] != wanted,
        decreases chars.len() - index,
    {
        if chars[index] == wanted {
            assert(text@[index as int] == wanted);
            return true;
        }
        index += 1;
    }
    false
}

/// Whether a character is a letter or a digit in Unicode.
pub uninterp spec fn alphanumeric(c: char) -> bool;

/// Calls `char::is_alphanumeric`, which tells letters and numerals by the Unicode tables. Only
/// that the answer depends on the character alone is claimed.
#[verifier::external_body]
pub(crate) fn is_alphanumeric(c: char) -> (result: bool)
    ensures
        result == alphanumeric(c),
{
    c.is_alphanumeric()
}

/// A character that carries content: alphanumeric, an underscore, or a quote.
pub open spec fn is_substantive(c: char) -> bool {
    alphanumeric(c) || c == '_' || c == '\'' || c == '"'
}

/// Whether a text holds a character that carries content.
pub fn substantive_checkpoint_text(text: &str) -> (result: bool)
    ensures
        result == exists|i: int| 0 <= i < text@.len() && is_substantive(#[trigger] text@[i]),
{
    let chars = chars_of(text);
    let mut index: usize = 0;
    while index < chars.len()
        invariant
            chars@ == text@,
            index <= chars@.len(),
            forall|i: int| 0 <= i < index ==> !is_substantive(#[trigger] text@[i]),
        decreases chars@.len() - index,
    {
        let c = chars[index];
        if is_alphanumeric(c) || c == '_' || c == '\'' || c == '"' {
            assert(is_substantive(text@[index as int]));
            return true;
        }
        index += 1;
    }
    false
}

} // verus!
