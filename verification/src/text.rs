//! Numbers and padding as text.

use vstd::prelude::*;
use vstd::string::{StrSliceExecFns, StringExecFns};
use vstd::utf8::{encode_utf8, encode_utf8_decode_utf8};

verus! {

/// The character of a decimal digit.
pub open spec fn digit_char(d: nat) -> char {
    ('0' as u32 + d) as char
}

/// A number in decimal notation.
pub open spec fn decimal_text(n: nat) -> Seq<char>
    decreases n,
{
    if n < 10 {
        seq![digit_char(n)]
    } else {
        decimal_text(n / 10).push(digit_char(n % 10))
    }
}

/// A text of `n` equal characters.
pub open spec fn repeat_char(c: char, n: int) -> Seq<char> {
    Seq::new(
        if n > 0 {
            n as nat
        } else {
            0
        },
        |i: int| c,
    )
}

/// A text, filled up with spaces behind it to `width` characters.
pub open spec fn padded(text: Seq<char>, width: int) -> Seq<char> {
    text + repeat_char(' ', width - text.len())
}

fn digit_text(d: u8) -> (r: &'static str)
    requires
        d < 10,
    ensures
        r@ == seq![digit_char(d as nat)],
{
    proof {
        reveal_strlit("0");
        reveal_strlit("1");
        reveal_strlit("2");
        reveal_strlit("3");
        reveal_strlit("4");
        reveal_strlit("5");
        reveal_strlit("6");
        reveal_strlit("7");
        reveal_strlit("8");
        reveal_strlit("9");
    }
    let r: &'static str = match d {
        0 => "0",
        1 => "1",
        2 => "2",
        3 => "3",
        4 => "4",
        5 => "5",
        6 => "6",
        7 => "7",
        8 => "8",
        _ => "9",
    };
    proof {
        assert(r@ =~= seq![digit_char(d as nat)]);
    }
    r
}

/// A number in decimal notation.
pub fn decimal(n: u64) -> (r: String)
    ensures
        r@ == decimal_text(n as nat),
    decreases n,
{
    if n < 10 {
        digit_text(n as u8).to_owned()
    } else {
        let mut r: String = decimal(n / 10);
        r.append(digit_text((n % 10) as u8));
        proof {
            assert(r@ =~= decimal_text(n as nat));
        }
        r
    }
}

/// Appends `n` copies of a text of one character.
pub fn append_copies(text: &mut String, one: &str, n: usize)
    requires
        one@.len() == 1,
    ensures
        final(text)@ == old(text)@ + repeat_char(one@[0], n as int),
{
    let ghost before = text@;
    let mut i: usize = 0;
    proof {
        assert(before + repeat_char(one@[0], 0) =~= before);
    }
    while i < n
        invariant
            i <= n,
            one@.len() == 1,
            text@ == before + repeat_char(one@[0], i as int),
        decreases n - i,
    {
        text.append(one);
        proof {
            assert(text@ =~= before + repeat_char(one@[0], i + 1));
        }
        i += 1;
    }
}

/// A text, filled up with spaces behind it to `width` characters.
pub fn pad(text: &str, width: usize) -> (r: String)
    ensures
        r@ == padded(text@, width as int),
{
    let len: usize = text.unicode_len();
    let mut r: String = text.to_owned();
    proof {
        reveal_strlit(" ");
    }
    if len < width {
        append_copies(&mut r, " ", width - len);
    } else {
        proof {
            assert(r@ =~= padded(text@, width as int));
        }
    }
    r
}

/// The texts of a list of strings.
pub open spec fn texts(list: Seq<String>) -> Seq<Seq<char>> {
    list.map_values(|text: String| text@)
}

/// Two texts are the same.
pub fn same_text(a: &str, b: &str) -> (r: bool)
    ensures
        r == (a@ == b@),
{
    let x: &[u8] = a.as_bytes();
    let y: &[u8] = b.as_bytes();
    proof {
        encode_utf8_decode_utf8(a@);
        encode_utf8_decode_utf8(b@);
    }
    if x.len() != y.len() {
        return false;
    }
    let mut i: usize = 0;
    while i < x.len()
        invariant
            i <= x@.len() == y@.len(),
            x@ == encode_utf8(a@),
            y@ == encode_utf8(b@),
            forall|k: int| 0 <= k < i ==> x@[k] == y@[k],
        decreases x@.len() - i,
    {
        if x[i] != y[i] {
            return false;
        }
        i += 1;
    }
    proof {
        assert(x@ =~= y@);
    }
    true
}

/// Copies of the texts of a list.
pub fn owned(list: &[&'static str]) -> (r: Vec<String>)
    ensures
        texts(r@) == list@.map_values(|text: &'static str| text@),
{
    let mut r: Vec<String> = Vec::new();
    let mut i: usize = 0;
    while i < list.len()
        invariant
            i <= list@.len(),
            r@.len() == i,
            forall|k: int| 0 <= k < i ==> (#[trigger] r@[k])@ == list@[k]@,
        decreases list@.len() - i,
    {
        r.push(list[i].to_owned());
        i += 1;
    }
    proof {
        assert(texts(r@) =~= list@.map_values(|text: &'static str| text@));
    }
    r
}

/// Ten times a number and a digit are written as the number, with the digit behind it.
pub proof fn law_digit_is_written_behind(n: nat, d: nat)
    requires
        n > 0,
        d < 10,
    ensures
        decimal_text(10 * n + d) == decimal_text(n).push((48 + d) as char),
{
    assert((10 * n + d) / 10 == n && (10 * n + d) % 10 == d);
}

/// A number below ten is written as its digit.
pub proof fn law_small_number_is_its_digit(d: nat)
    requires
        d < 10,
    ensures
        decimal_text(d) == seq![(48 + d) as char],
{
}

/// The number that digits write.
pub open spec fn written(text: Seq<char>) -> int
    decreases text.len(),
{
    if text.len() == 0 {
        0
    } else {
        10 * written(text.drop_last()) + (text.last() as int - 48)
    }
}

/// What is written can be read back, and it starts with a zero only if it is one.
pub proof fn law_number_is_read_back(n: nat)
    ensures
        written(decimal_text(n)) == n,
        decimal_text(n).len() > 0,
        decimal_text(n).len() > 1 ==> decimal_text(n)[0] != '0',
        forall|i: int|
            0 <= i < decimal_text(n).len() ==> '0' <= #[trigger] decimal_text(n)[i] <= '9',
        n > 0 ==> decimal_text(n)[0] != '0',
    decreases n,
{
    let text = decimal_text(n);
    if n < 10 {
        assert(text.drop_last() =~= Seq::<char>::empty());
        assert(written(text.drop_last()) == 0);
    } else {
        law_number_is_read_back(n / 10);
        assert(text.drop_last() =~= decimal_text(n / 10));
    }
}

/// A padded text starts with the text, goes on with spaces, and is as wide as asked for, or as
/// the text where that is wider.
pub proof fn law_padding_is_behind(text: Seq<char>, width: int, i: int)
    ensures
        text.len() >= width ==> padded(text, width) == text,
        text.len() < width ==> padded(text, width).len() == width,
        padded(text, width).take(text.len() as int) == text,
        text.len() <= i < width ==> padded(text, width)[i] == ' ',
{
    assert(padded(text, width).take(text.len() as int) =~= text);
    if text.len() >= width {
        assert(padded(text, width) =~= text);
    }
}

} // verus!
