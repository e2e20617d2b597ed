//! Byte classes, the bytes that may stand next to a card number, and searches over bytes.

use vstd::prelude::*;

verus! {

/// An ASCII digit.
pub open spec fn digit(b: u8) -> bool {
    '0' as u8 <= b <= '9' as u8
}

/// An ASCII letter.
pub open spec fn letter(b: u8) -> bool {
    'A' as u8 <= b <= 'Z' as u8 || 'a' as u8 <= b <= 'z' as u8
}

/// A byte that may stand, one at a time, between the digits of a typed card number.
pub open spec fn separator(b: u8) -> bool {
    b == '-' as u8 || b == ' ' as u8 || b == '.' as u8
}

/// A byte that is clearly text and no part of an identifier: ASCII whitespace, printable
/// ASCII punctuation other than `_`, or a byte of a multibyte UTF-8 character.
pub open spec fn pan_boundary(b: u8) -> bool {
    ||| b == ' ' as u8 || b == '\t' as u8 || b == '\n' as u8 || b == '\r' as u8
    ||| 0x21 <= b <= 0x7e && !digit(b) && !letter(b) && b != '_' as u8
    ||| 0x80 <= b
}

/// A card number may start at `start`: the buffer starts there, or the byte before is a
/// boundary that does not join it to a digit further left.
pub open spec fn left_boundary(s: Seq<u8>, start: int) -> bool {
    start == 0 || {
        &&& pan_boundary(s[start - 1])
        &&& !(separator(s[start - 1]) && start >= 2 && digit(s[start - 2]))
    }
}

/// A card number may end just before `end`: the buffer ends there, or the byte at `end` is a
/// boundary that does not join it to a digit further right.
pub open spec fn right_boundary(s: Seq<u8>, end: int) -> bool {
    end >= s.len() || {
        &&& pan_boundary(s[end])
        &&& !(separator(s[end]) && end + 1 < s.len() && digit(s[end + 1]))
    }
}

/// `needle` stands in `haystack` at index `at`.
pub open spec fn occurs_at(haystack: Seq<u8>, needle: Seq<u8>, at: int) -> bool {
    &&& 0 <= at
    &&& at + needle.len() <= haystack.len()
    &&& haystack.subrange(at, at + needle.len()) == needle
}

/// The ASCII lower-case form of a byte; other bytes stand for themselves.
pub open spec fn lower(b: u8) -> u8 {
    if 'A' as u8 <= b <= 'Z' as u8 {
        (b + 0x20) as u8
    } else {
        b
    }
}

pub fn is_digit(b: u8) -> (r: bool)
    ensures
        r == digit(b),
{
    '0' as u8 <= b && b <= '9' as u8
}

pub fn is_separator(b: u8) -> (r: bool)
    ensures
        r == separator(b),
{
    b == '-' as u8 || b == ' ' as u8 || b == '.' as u8
}

/// A card number must be bracketed by a clearly textual byte, or a buffer edge, on both sides.
/// Letters, digits and `_` mean a hex blob or an identifier; control bytes mean binary noise.
pub fn is_pan_boundary(b: u8) -> (r: bool)
    ensures
        r == pan_boundary(b),
{
    if b == ' ' as u8 || b == '\t' as u8 || b == '\n' as u8 || b == '\r' as u8 {
        true
    } else if 'A' as u8 <= b && b <= 'Z' as u8 || 'a' as u8 <= b && b <= 'z' as u8 || is_digit(b)
        || b == '_' as u8 {
        false
    } else {
        !(b <= 0x1f || b == 0x7f)
    }
}

/// The left side of a candidate that starts at `start`: a boundary byte, unless it is a
/// separator with a digit before it, which makes the candidate the tail of a numeric chain.
pub fn is_left_boundary(data: &[u8], start: usize) -> (r: bool)
    requires
        start <= data@.len(),
    ensures
        r == left_boundary(data@, start as int),
{
    if start == 0 {
        return true;
    }
    let b: u8 = data[start - 1];
    is_pan_boundary(b) && !(is_separator(b) && start >= 2 && is_digit(data[start - 2]))
}

/// The right side of a candidate that ends before `end`, the mirror of [`is_left_boundary`].
pub fn is_right_boundary(data: &[u8], end: usize) -> (r: bool)
    ensures
        r == right_boundary(data@, end as int),
{
    let n: usize = data.len();
    if end >= n {
        return true;
    }
    let b: u8 = data[end];
    is_pan_boundary(b) && !(end + 1 < n && is_separator(b) && is_digit(data[end + 1]))
}

/// The index of the first digit.
pub fn find_first_digit(haystack: &[u8]) -> (r: Option<usize>)
    ensures
        match r {
            Some(at) => at < haystack@.len() && digit(haystack@[at as int]) && forall|j: int|
                0 <= j < at ==> !digit(#[trigger] haystack@[j]),
            None => forall|j: int| 0 <= j < haystack@.len() ==> !digit(#[trigger] haystack@[j]),
        },
{
    let n: usize = haystack.len();
    let mut i: usize = 0;
    while i < n
        invariant
            i <= n == haystack@.len(),
            forall|j: int| 0 <= j < i ==> !digit(#[trigger] haystack@[j]),
        decreases n - i,
    {
        if is_digit(haystack[i]) {
            return Some(i);
        }
        i += 1;
    }
    None
}

/// The index of the first byte that is no digit.
pub fn find_first_non_digit(haystack: &[u8]) -> (r: Option<usize>)
    ensures
        match r {
            Some(at) => at < haystack@.len() && !digit(haystack@[at as int]) && forall|j: int|
                0 <= j < at ==> digit(#[trigger] haystack@[j]),
            None => forall|j: int| 0 <= j < haystack@.len() ==> digit(#[trigger] haystack@[j]),
        },
{
    let n: usize = haystack.len();
    let mut i: usize = 0;
    while i < n
        invariant
            i <= n == haystack@.len(),
            forall|j: int| 0 <= j < i ==> digit(#[trigger] haystack@[j]),
        decreases n - i,
    {
        if !is_digit(haystack[i]) {
            return Some(i);
        }
        i += 1;
    }
    None
}

/// Whether `needle` stands in `haystack` at `at`.
fn matches_at(haystack: &[u8], needle: &[u8], at: usize) -> (r: bool)
    requires
        at + needle@.len() <= haystack@.len(),
    ensures
        r == occurs_at(haystack@, needle@, at as int),
{
    let n: usize = haystack.len();
    let m: usize = needle.len();
    let ghost part = haystack@.subrange(at as int, at + m);
    let mut k: usize = 0;
    while k < m
        invariant
            k <= m == needle@.len(),
            at + m <= n == haystack@.len(),
            part == haystack@.subrange(at as int, at + m),
            forall|j: int| 0 <= j < k ==> part[j] == needle@[j],
        decreases m - k,
    {
        if haystack[at + k] != needle[k] {
            assert(part[k as int] != needle@[k as int]);
            return false;
        }
        assert(part[k as int] == needle@[k as int]);
        k += 1;
    }
    assert(part =~= needle@);
    true
}

/// The first index at which `needle` stands in `haystack`. An empty needle is never found.
pub fn subslice_find(haystack: &[u8], needle: &[u8]) -> (r: Option<usize>)
    ensures
        match r {
            Some(at) => needle@.len() > 0 && occurs_at(haystack@, needle@, at as int)
                && forall|j: int| 0 <= j < at ==> !occurs_at(haystack@, needle@, j),
            None => needle@.len() == 0 || forall|j: int| !occurs_at(haystack@, needle@, j),
        },
{
    let n: usize = haystack.len();
    let m: usize = needle.len();
    if m == 0 || n < m {
        return None;
    }
    let mut i: usize = 0;
    while i <= n - m
        invariant
            0 < m <= n,
            n == haystack@.len(),
            m == needle@.len(),
            i <= n - m + 1,
            forall|j: int| 0 <= j < i ==> !occurs_at(haystack@, needle@, j),
        decreases n - m + 1 - i,
    {
        if matches_at(haystack, needle, i) {
            return Some(i);
        }
        i += 1;
    }
    None
}

/// The classes of bytes by their codes: the digits, and the three separators.
pub proof fn law_digits_and_separators_by_code(b: u8)
    ensures
        digit(b) <==> b - 48 >= 0 && b - 48 < 10,
        separator(b) <==> b == 0x20 || b == 0x2d || b == 0x2e,
        !(digit(b) && separator(b)),
{
}

/// Of all bytes exactly these are no boundaries: the control codes but for tab, line feed and
/// carriage return, the digits, the letters and the underscore. So every other whitespace and
/// punctuation byte is one, and so is every byte from 0x80 on.
pub proof fn law_boundaries_by_code(b: u8)
    ensures
        !pan_boundary(b) <==> {
            ||| b < 9 || 10 < b < 13 || 13 < b < 32 || b == 127
            ||| 48 <= b < 58
            ||| 65 <= b < 91
            ||| 97 <= b < 123
            ||| b == 95
        },
        separator(b) ==> pan_boundary(b),
{
}

/// Which byte of text stands before a number does not matter: behind any that is no separator
/// the number has a left boundary, and before any that is none it has a right boundary.
pub proof fn law_text_bounds_a_number(s: Seq<u8>, at: int)
    requires
        0 <= at < s.len(),
        s[at] != 0x20 && s[at] != 0x2d && s[at] != 0x2e,
    ensures
        pan_boundary(s[at]) ==> left_boundary(s, at + 1) && right_boundary(s, at),
        !pan_boundary(s[at]) ==> !left_boundary(s, at + 1) && !right_boundary(s, at),
{
}

/// A separator bounds a number unless a digit stands on its other side.
pub proof fn law_separator_bounds_unless_it_joins(s: Seq<u8>, at: int)
    requires
        0 <= at < s.len(),
        s[at] == 0x20 || s[at] == 0x2d || s[at] == 0x2e,
    ensures
        left_boundary(s, at + 1) <==> at == 0 || s[at - 1] < 48 || s[at - 1] > 57,
        right_boundary(s, at) <==> at == s.len() - 1 || s[at + 1] < 48 || s[at + 1] > 57,
{
}

/// The edges of a buffer bound a number.
pub proof fn law_edges_bound_a_number(s: Seq<u8>, end: int)
    requires
        s.len() <= end,
    ensures
        left_boundary(s, 0),
        right_boundary(s, end),
{
}

/// Both sides are judged alike: the left boundary of a place is the right boundary of the same
/// place in the reversed buffer.
pub proof fn law_boundaries_are_mirrored(s: Seq<u8>, at: int)
    requires
        0 <= at <= s.len(),
    ensures
        left_boundary(s, at) == right_boundary(s.reverse(), s.len() - at),
{
    let r = s.reverse();
    if at > 0 {
        assert(r[s.len() - at] == s[at - 1]);
    }
    if at > 1 {
        assert(r[s.len() - at + 1] == s[at - 2]);
    }
}

/// Boundaries depend on the two bytes next to the place alone.
pub proof fn law_boundaries_look_two_bytes_far(
    before: Seq<u8>,
    near: Seq<u8>,
    number: Seq<u8>,
    other: Seq<u8>,
)
    requires
        near.len() >= 2,
    ensures
        left_boundary(before + near + number, (before.len() + near.len()) as int)
            == left_boundary(near + other, near.len() as int),
        right_boundary(number + near + before, number.len() as int) == right_boundary(
            other + near,
            other.len() as int,
        ),
{
    let n = near.len() as int;
    let a = before + near + number;
    let b = near + other;
    assert(a[before.len() + n - 1] == near[n - 1] && b[n - 1] == near[n - 1]);
    assert(a[before.len() + n - 2] == near[n - 2] && b[n - 2] == near[n - 2]);
    let c = number + near + before;
    let d = other + near;
    assert(c[number.len() as int] == near[0] && d[other.len() as int] == near[0]);
    assert(c[(number.len() + 1) as int] == near[1] && d[(other.len() + 1) as int] == near[1]);
}

/// Lower case by code: each of the 26 capitals is moved by 32, and nothing else is moved.
pub proof fn law_lower_case_by_code(b: u8)
    ensures
        65 <= b < 91 ==> lower(b) == b + 32,
        b < 65 || 91 <= b ==> lower(b) == b,
        lower(lower(b)) == lower(b),
{
}

/// A text stands where it was put.
pub proof fn law_text_stands_where_it_is_put(a: Seq<u8>, text: Seq<u8>, b: Seq<u8>)
    ensures
        occurs_at(a + text + b, text, a.len() as int),
{
    assert((a + text + b).subrange(a.len() as int, (a.len() + text.len()) as int) =~= text);
}

/// A text stands at a place if and only if all its bytes follow each other from there.
pub proof fn law_text_stands_byte_by_byte(haystack: Seq<u8>, needle: Seq<u8>, at: int)
    ensures
        occurs_at(haystack, needle, at) <==> 0 <= at <= haystack.len() - needle.len() && (forall|
            i: int,
        |
            0 <= i < needle.len() ==> haystack[at + i] == #[trigger] needle[i]),
{
    if 0 <= at && at + needle.len() <= haystack.len() {
        let part = haystack.subrange(at, at + needle.len());
        if part == needle {
            assert forall|i: int| 0 <= i < needle.len() implies haystack[at + i]
                == #[trigger] needle[i] by {
                assert(part[i] == needle[i]);
            }
        }
        if forall|i: int| 0 <= i < needle.len() ==> haystack[at + i] == #[trigger] needle[i] {
            assert forall|i: int| 0 <= i < needle.len() implies part[i] == needle[i] by {
                assert(haystack[at + i] == needle[i]);
            }
            assert(part =~= needle);
        }
    }
}

} // verus!
