//! Card schemes, told apart by the leading digits and the length of a number.

use vstd::prelude::*;

verus! {

/// A card scheme.
#[derive(Clone, Copy, Debug, PartialEq, Eq, Structural)]
pub enum Scheme {
    Visa,
    Mastercard,
    Amex,
    Diners,
    Jcb,
}

impl Scheme {
    pub open spec fn label(self) -> Seq<char> {
        match self {
            Scheme::Visa => "Visa"@,
            Scheme::Mastercard => "Mastercard"@,
            Scheme::Amex => "Amex"@,
            Scheme::Diners => "Diners"@,
            Scheme::Jcb => "JCB"@,
        }
    }

    /// The name of the scheme as reports print it.
    pub fn name(self) -> (r: &'static str)
        ensures
            r@ == self.label(),
    {
        match self {
            Scheme::Visa => "Visa",
            Scheme::Mastercard => "Mastercard",
            Scheme::Amex => "Amex",
            Scheme::Diners => "Diners",
            Scheme::Jcb => "JCB",
        }
    }
}

/// The scheme issues numbers with this length and these leading digits: Visa 4, Mastercard 51
/// to 55, JCB 3528 to 3589, each with 16 digits; Amex 34 and 37, with 15; Diners 300 to 305,
/// 3095, 36, 38 and 39, with 14 or 16.
pub open spec fn issues(scheme: Scheme, pan: Seq<u8>) -> bool {
    match scheme {
        Scheme::Visa => pan.len() == 16 && pan[0] == '4' as u8,
        Scheme::Mastercard => pan.len() == 16 && pan[0] == '5' as u8 && '1' as u8 <= pan[1]
            <= '5' as u8,
        Scheme::Amex => pan.len() == 15 && pan[0] == '3' as u8 && (pan[1] == '4' as u8 || pan[1]
            == '7' as u8),
        Scheme::Diners => {
            &&& pan.len() == 14 || pan.len() == 16
            &&& pan[0] == '3' as u8
            &&& {
                ||| pan[1] == '6' as u8 || pan[1] == '8' as u8 || pan[1] == '9' as u8
                ||| pan[1] == '0' as u8 && '0' as u8 <= pan[2] <= '5' as u8
                ||| pan[1] == '0' as u8 && pan[2] == '9' as u8 && pan[3] == '5' as u8
            }
        },
        Scheme::Jcb => {
            &&& pan.len() == 16
            &&& pan[0] == '3' as u8
            &&& pan[1] == '5' as u8
            &&& {
                ||| pan[2] == '2' as u8 && '8' as u8 <= pan[3] <= '9' as u8
                ||| '3' as u8 <= pan[2] <= '8' as u8
            }
        },
    }
}

/// The scheme that issues a number, if one does.
pub open spec fn scheme_of(pan: Seq<u8>) -> Option<Scheme> {
    if exists|scheme: Scheme| issues(scheme, pan) {
        Some(choose|scheme: Scheme| issues(scheme, pan))
    } else {
        None
    }
}

/// The scheme by which a number with these leading digits and this length is issued.
pub fn detect_scheme(pan: &[u8]) -> (r: Option<Scheme>)
    ensures
        r == scheme_of(pan@),
        match r {
            Some(scheme) => issues(scheme, pan@),
            None => forall|scheme: Scheme| !issues(scheme, pan@),
        },
{
    let r = detect_by_prefix(pan);
    proof {
        if let Some(scheme) = r {
            law_one_scheme(pan@, scheme, scheme_of(pan@).unwrap());
        }
    }
    r
}

fn detect_by_prefix(pan: &[u8]) -> (r: Option<Scheme>)
    ensures
        match r {
            Some(scheme) => issues(scheme, pan@),
            None => forall|scheme: Scheme| !issues(scheme, pan@),
        },
{
    let len: usize = pan.len();
    if len < 14 || len > 16 {
        return None;
    }
    let p2: u8 = pan[1];
    let p3: u8 = pan[2];
    let p4: u8 = pan[3];
    if pan[0] == '4' as u8 {
        if len == 16 {
            Some(Scheme::Visa)
        } else {
            None
        }
    } else if pan[0] == '5' as u8 {
        if len == 16 && '1' as u8 <= p2 && p2 <= '5' as u8 {
            Some(Scheme::Mastercard)
        } else {
            None
        }
    } else if pan[0] == '3' as u8 {
        if p2 == '4' as u8 || p2 == '7' as u8 {
            if len == 15 {
                Some(Scheme::Amex)
            } else {
                None
            }
        } else if p2 == '5' as u8 {
            if len == 16 && ('3' as u8 <= p3 && p3 <= '8' as u8 || p3 == '2' as u8 && (p4
                == '8' as u8 || p4 == '9' as u8)) {
                Some(Scheme::Jcb)
            } else {
                None
            }
        } else if len == 15 {
            None
        } else if p2 == '0' as u8 {
            if '0' as u8 <= p3 && p3 <= '5' as u8 || p3 == '9' as u8 && p4 == '5' as u8 {
                Some(Scheme::Diners)
            } else {
                None
            }
        } else if p2 == '6' as u8 || p2 == '8' as u8 || p2 == '9' as u8 {
            Some(Scheme::Diners)
        } else {
            None
        }
    } else {
        None
    }
}

/// No number is issued by two schemes.
pub proof fn law_one_scheme(pan: Seq<u8>, a: Scheme, b: Scheme)
    requires
        issues(a, pan),
        issues(b, pan),
    ensures
        a == b,
{
}

/// A number that a scheme issues has 14 to 16 digits and starts with 3, 4 or 5.
pub proof fn law_issued_numbers_start_with_3_4_or_5(pan: Seq<u8>)
    requires
        scheme_of(pan) is Some,
    ensures
        14 <= pan.len() <= 16,
        pan[0] == '3' as u8 || pan[0] == '4' as u8 || pan[0] == '5' as u8,
{
    assert(issues(scheme_of(pan)->0, pan));
}

/// The number that the first `n` digits of a card number write.
pub open spec fn leading(pan: Seq<u8>, n: nat) -> int
    decreases n,
{
    if n == 0 {
        0
    } else {
        10 * leading(pan, (n - 1) as nat) + (pan[n - 1] - 48)
    }
}

/// Nothing but digits.
pub open spec fn is_number(pan: Seq<u8>) -> bool {
    forall|i: int| 0 <= i < pan.len() ==> 48 <= #[trigger] pan[i] <= 57
}

proof fn lemma_leading(pan: Seq<u8>)
    requires
        is_number(pan),
        pan.len() >= 4,
    ensures
        leading(pan, 1) == pan[0] - 48,
        leading(pan, 2) == 10 * (pan[0] - 48) + (pan[1] - 48),
        leading(pan, 3) == 100 * (pan[0] - 48) + 10 * (pan[1] - 48) + (pan[2] - 48),
        leading(pan, 4) == 1000 * (pan[0] - 48) + 100 * (pan[1] - 48) + 10 * (pan[2] - 48) + (pan[3]
            - 48),
        48 <= pan[0] <= 57 && 48 <= pan[1] <= 57 && 48 <= pan[2] <= 57 && 48 <= pan[3] <= 57,
{
    reveal_with_fuel(leading, 5);
}

/// The scheme of a number, where one issues it, is the one that does.
proof fn lemma_scheme_of(pan: Seq<u8>, scheme: Scheme)
    ensures
        scheme_of(pan) == Some(scheme) <==> issues(scheme, pan),
{
    if issues(scheme, pan) {
        law_one_scheme(pan, scheme, scheme_of(pan)->0);
    }
}

/// Visa issues the numbers of 16 digits from 4 on.
pub proof fn law_visa_numbers(pan: Seq<u8>)
    requires
        is_number(pan),
    ensures
        scheme_of(pan) == Some(Scheme::Visa) <==> pan.len() == 16 && leading(pan, 1) == 4,
{
    lemma_scheme_of(pan, Scheme::Visa);
    if pan.len() >= 4 {
        lemma_leading(pan);
    }
}

/// Mastercard issues the numbers of 16 digits from 51 to 55.
pub proof fn law_mastercard_numbers(pan: Seq<u8>)
    requires
        is_number(pan),
    ensures
        scheme_of(pan) == Some(Scheme::Mastercard) <==> pan.len() == 16 && 51 <= leading(pan, 2)
            <= 55,
{
    lemma_scheme_of(pan, Scheme::Mastercard);
    if pan.len() >= 4 {
        lemma_leading(pan);
    }
}

/// Amex issues the numbers of 15 digits from 34 and from 37.
pub proof fn law_amex_numbers(pan: Seq<u8>)
    requires
        is_number(pan),
    ensures
        scheme_of(pan) == Some(Scheme::Amex) <==> pan.len() == 15 && (leading(pan, 2) == 34
            || leading(pan, 2) == 37),
{
    lemma_scheme_of(pan, Scheme::Amex);
    if pan.len() >= 4 {
        lemma_leading(pan);
    }
}

/// Diners issues the numbers of 14 and of 16 digits from 300 to 305, from 3095, and from 36, 38
/// and 39.
pub proof fn law_diners_numbers(pan: Seq<u8>)
    requires
        is_number(pan),
    ensures
        scheme_of(pan) == Some(Scheme::Diners) <==> (pan.len() == 14 || pan.len() == 16) && (300
            <= leading(pan, 3) <= 305 || leading(pan, 4) == 3095 || leading(pan, 2) == 36
            || leading(pan, 2) == 38 || leading(pan, 2) == 39),
{
    lemma_scheme_of(pan, Scheme::Diners);
    if pan.len() >= 4 {
        lemma_leading(pan);
    }
}

/// JCB issues the numbers of 16 digits from 3528 to 3589.
pub proof fn law_jcb_numbers(pan: Seq<u8>)
    requires
        is_number(pan),
    ensures
        scheme_of(pan) == Some(Scheme::Jcb) <==> pan.len() == 16 && 3528 <= leading(pan, 4) <= 3589,
{
    lemma_scheme_of(pan, Scheme::Jcb);
    if pan.len() >= 4 {
        lemma_leading(pan);
    }
}

/// The first four digits and the length decide on the scheme: what follows does not matter.
pub proof fn law_four_digits_tell_the_scheme(a: Seq<u8>, b: Seq<u8>)
    requires
        a.len() == b.len(),
        a.len() >= 4,
        a.take(4) == b.take(4),
    ensures
        scheme_of(a) == scheme_of(b),
{
    assert(a[0] == a.take(4)[0] && a[1] == a.take(4)[1] && a[2] == a.take(4)[2] && a[3] == a.take(
        4,
    )[3]);
    assert(b[0] == b.take(4)[0] && b[1] == b.take(4)[1] && b[2] == b.take(4)[2] && b[3] == b.take(
        4,
    )[3]);
    if scheme_of(a) is Some {
        assert(issues(scheme_of(a)->0, b));
        lemma_scheme_of(b, scheme_of(a)->0);
    }
    if scheme_of(b) is Some {
        assert(issues(scheme_of(b)->0, a));
        lemma_scheme_of(a, scheme_of(b)->0);
    }
}

/// The names of the schemes.
pub proof fn law_scheme_names(scheme: Scheme)
    ensures
        scheme.label() == (if scheme == Scheme::Visa {
            "Visa"@
        } else if scheme == Scheme::Mastercard {
            "Mastercard"@
        } else if scheme == Scheme::Amex {
            "Amex"@
        } else if scheme == Scheme::Diners {
            "Diners"@
        } else {
            "JCB"@
        }),
{
}

} // verus!
