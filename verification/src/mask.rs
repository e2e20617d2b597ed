//! Card numbers as text, in full or with the middle hidden.

use vstd::prelude::*;
use vstd::string::{StringExecFns, StringSliceAdditionalSpecFns};
use vstd::utf8::{
    decode_utf8, encode_utf8, encode_utf8_decode_utf8, encode_utf8_valid_utf8,
    is_ascii_chars_encode_utf8, is_char_boundary, is_char_boundary_iff_is_leading_byte,
    valid_utf8,
};
use crate::bytes::digit;
use crate::text::{append_copies, repeat_char};

verus! {

/// The bytes as text, if they are UTF-8.
///
/// Calls `std::str::from_utf8`, which succeeds exactly on UTF-8, and then returns a text with
/// these bytes.
#[verifier::external_body]
fn utf8_text(bytes: &[u8]) -> (r: Option<&str>)
    ensures
        r is Some <==> valid_utf8(bytes@),
        r matches Some(text) ==> text.spec_bytes() == bytes@,
{
    std::str::from_utf8(bytes).ok()
}

/// The text that `String::from_utf8_lossy` makes of some bytes.
pub uninterp spec fn lossy_text(bytes: Seq<u8>) -> Seq<char>;

/// The bytes as text, with what is not UTF-8 replaced.
///
/// Calls `String::from_utf8_lossy`. Its result on bytes that are not UTF-8 is only named here;
/// UTF-8 comes out as it is.
#[verifier::external_body]
pub(crate) fn text_of_bytes(bytes: &[u8]) -> (r: String)
    ensures
        r@ == lossy_text(bytes@),
        valid_utf8(bytes@) ==> r@ == decode_utf8(bytes@),
{
    String::from_utf8_lossy(bytes).into_owned()
}

/// A number with its middle hidden: the first six and the last four bytes are shown. Shorter
/// numbers are shown in full, and bytes that are no text are not shown at all.
pub open spec fn masked_text(pan: Seq<u8>) -> Seq<char> {
    if !valid_utf8(pan) {
        seq![]
    } else if pan.len() < 10 {
        decode_utf8(pan)
    } else {
        decode_utf8(pan.subrange(0, 6)) + repeat_char('*', pan.len() - 10) + decode_utf8(
            pan.subrange(pan.len() - 4, pan.len() as int),
        )
    }
}

/// The parts that are shown do not cut a character in two.
pub open spec fn maskable(pan: Seq<u8>) -> bool {
    valid_utf8(pan) && pan.len() >= 10 ==> is_char_boundary(pan, 6) && is_char_boundary(
        pan,
        pan.len() - 4,
    )
}

/// A text is what its bytes decode to.
proof fn lemma_text_of(text: &str)
    ensures
        text@ == decode_utf8(text.spec_bytes()),
{
    encode_utf8_decode_utf8(text@);
}

/// The parts that are shown do not cut a character in two.
pub fn is_maskable(pan: &[u8]) -> (r: bool)
    ensures
        r == maskable(pan@),
{
    match utf8_text(pan) {
        Some(text) => {
            let n: usize = pan.len();
            n < 10 || text.is_char_boundary(6) && text.is_char_boundary(n - 4)
        },
        None => true,
    }
}

/// A number with its middle hidden.
pub fn mask_pan(pan: &[u8]) -> (r: String)
    requires
        maskable(pan@),
    ensures
        r@ == masked_text(pan@),
{
    let text: &str = match utf8_text(pan) {
        Some(text) => text,
        None => {
            return String::new();
        },
    };
    let n: usize = pan.len();
    proof {
        lemma_text_of(text);
    }
    if n < 10 {
        return text.to_owned();
    }
    let (head, _) = text.split_at(6);
    let (_, tail) = text.split_at(n - 4);
    let mut out: String = head.to_owned();
    proof {
        reveal_strlit("*");
        lemma_text_of(head);
        lemma_text_of(tail);
    }
    append_copies(&mut out, "*", n - 10);
    out.append(tail);
    proof {
        assert(head.spec_bytes() =~= pan@.subrange(0, 6));
        assert(tail.spec_bytes() =~= pan@.subrange(n - 4, n as int));
        assert(out@ =~= masked_text(pan@));
    }
    out
}

/// The text of some bytes, with what is not UTF-8 in them replaced.
pub open spec fn bytes_text(bytes: Seq<u8>) -> Seq<char> {
    if valid_utf8(bytes) {
        decode_utf8(bytes)
    } else {
        lossy_text(bytes)
    }
}

/// A number as a report shows it.
pub open spec fn shown_pan(pan: Seq<u8>, unmask: bool) -> Seq<char> {
    if unmask {
        bytes_text(pan)
    } else {
        masked_text(pan)
    }
}

/// A number as a report shows it: in full if `unmask` says so, else with its middle hidden.
pub fn show_pan(pan: &[u8], unmask: bool) -> (r: String)
    requires
        unmask || maskable(pan@),
    ensures
        r@ == shown_pan(pan@, unmask),
{
    if unmask {
        text_of_bytes(pan)
    } else {
        mask_pan(pan)
    }
}

/// A number as debug output shows it.
pub open spec fn plain_pan(pan: Seq<u8>) -> Seq<char> {
    if valid_utf8(pan) {
        decode_utf8(pan)
    } else {
        "?"@
    }
}

/// A number in full, or a question mark where its bytes are no text.
pub fn plain_text(pan: &[u8]) -> (r: String)
    ensures
        r@ == plain_pan(pan@),
{
    match utf8_text(pan) {
        Some(text) => {
            proof {
                lemma_text_of(text);
            }
            text.to_owned()
        },
        None => "?".to_owned(),
    }
}

/// A string of digits.
pub open spec fn all_digits(pan: Seq<u8>) -> bool {
    forall|i: int| 0 <= i < pan.len() ==> digit(#[trigger] pan[i])
}

/// The characters of a string of digits.
pub open spec fn digit_chars(digits: Seq<u8>) -> Seq<char> {
    digits.map_values(|b: u8| b as char)
}

/// Digits are text, one character for each.
proof fn lemma_digits_are_text(digits: Seq<u8>)
    requires
        all_digits(digits),
    ensures
        valid_utf8(digits),
        decode_utf8(digits) == digit_chars(digits),
{
    let chars = digit_chars(digits);
    assert forall|i: int| 0 <= i < chars.len() implies '\0' <= #[trigger] chars[i] <= '\u{7f}' by {
        assert(digit(digits[i]));
    }
    is_ascii_chars_encode_utf8(chars);
    assert forall|i: int| 0 <= i < digits.len() implies digits[i] == encode_utf8(chars)[i] by {
        assert(digit(digits[i]));
        assert(chars[i] as u8 == encode_utf8(chars)[i]);
    }
    assert(encode_utf8(chars) =~= digits);
    encode_utf8_valid_utf8(chars);
    encode_utf8_decode_utf8(chars);
}

/// Every string of digits can be masked.
pub proof fn law_digits_can_be_masked(pan: Seq<u8>)
    requires
        all_digits(pan),
    ensures
        maskable(pan),
{
    lemma_digits_are_text(pan);
    if pan.len() >= 10 {
        let n = pan.len() as int;
        is_char_boundary_iff_is_leading_byte(pan, 6);
        is_char_boundary_iff_is_leading_byte(pan, n - 4);
        assert(digit(pan[6]) && digit(pan[n - 4]));
    }
}

/// A masked number of ten or more digits is as long as the number; it shows the first six and
/// the last four digits where they stand, and asterisks everywhere else.
pub proof fn law_mask_shows_ends_only(pan: Seq<u8>, i: int)
    requires
        all_digits(pan),
        pan.len() >= 10,
        0 <= i < pan.len(),
    ensures
        masked_text(pan).len() == pan.len(),
        i < 6 || i >= pan.len() - 4 ==> masked_text(pan)[i] == pan[i] as char,
        6 <= i < pan.len() - 4 ==> masked_text(pan)[i] == '*',
{
    let n = pan.len() as int;
    lemma_digits_are_text(pan);
    lemma_digits_are_text(pan.subrange(0, 6));
    lemma_digits_are_text(pan.subrange(n - 4, n));
}

/// The masked text tells nothing of the middle: numbers of one length with the same ends look
/// alike.
pub proof fn law_mask_hides_middle(a: Seq<u8>, b: Seq<u8>)
    requires
        all_digits(a),
        all_digits(b),
        a.len() == b.len(),
        a.len() >= 10,
        a.subrange(0, 6) == b.subrange(0, 6),
        a.subrange(a.len() - 4, a.len() as int) == b.subrange(b.len() - 4, b.len() as int),
    ensures
        masked_text(a) == masked_text(b),
{
    lemma_digits_are_text(a);
    lemma_digits_are_text(b);
}

/// Digits in full are shown as they are.
pub proof fn law_digits_are_shown_as_they_are(pan: Seq<u8>)
    requires
        all_digits(pan),
    ensures
        valid_utf8(pan),
        plain_pan(pan) == digit_chars(pan),
        shown_pan(pan, true) == digit_chars(pan),
        pan.len() < 10 ==> masked_text(pan) == digit_chars(pan),
{
    lemma_digits_are_text(pan);
}

/// Bytes that are no text are not shown: masked they are nothing, and in debug output a question
/// mark.
pub proof fn law_what_is_no_text_is_not_shown(pan: Seq<u8>)
    requires
        !valid_utf8(pan),
    ensures
        masked_text(pan) == Seq::<char>::empty(),
        shown_pan(pan, false) == Seq::<char>::empty(),
        plain_pan(pan) == "?"@,
{
}

/// A report shows a number of ten or more digits masked unless it is told not to.
pub proof fn law_report_masks_by_default(pan: Seq<u8>, i: int)
    requires
        all_digits(pan),
        pan.len() >= 10,
        6 <= i < pan.len() - 4,
    ensures
        shown_pan(pan, false).len() == pan.len(),
        shown_pan(pan, false)[i] == '*',
        shown_pan(pan, true).len() == pan.len(),
        shown_pan(pan, true)[i] == pan[i] as char,
{
    law_mask_shows_ends_only(pan, i);
    law_digits_are_shown_as_they_are(pan);
}

} // verus!
