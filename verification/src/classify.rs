//! From the signals of a candidate to a decision: rejected, or accepted with a confidence.

use vstd::prelude::*;
use crate::grouping::{card_shaped, grouping_is_card_shaped, Grouping, GroupingView};
use crate::scheme::{detect_scheme, scheme_of, Scheme};
use crate::signals::{
    density_of, digit_density, keyword_distance, keyword_distance_of, window_start, DigitDensity,
    KEYWORD_WINDOW,
};

verus! {

/// Above this share of digits, as a fraction, the bytes around a candidate are a numeric blob.
pub const DENSITY_MAX_NUMERATOR: u128 = 11;

/// The other part of the fraction, which makes it 0.55.
pub const DENSITY_MAX_DENOMINATOR: u128 = 20;

/// Above this many bits per byte, the bytes around a candidate are compressed or encrypted.
/// The number is the encoding of 7.0 as an IEEE-754 single.
pub const ENTROPY_MAX_BITS: u32 = 0x40e0_0000;

/// The encoding of infinity as an IEEE-754 single. Above it are what is no number and what is
/// negative.
pub const INFINITY_BITS: u32 = 0x7f80_0000;

/// Up to this many bytes away, a card word makes a candidate certain.
pub const KEYWORD_HIGH_DIST: u16 = 64;

/// How sure it is that a candidate is a card number.
#[derive(Clone, Copy, Debug, PartialEq, Eq, PartialOrd, Ord, Structural)]
pub enum Confidence {
    Low,
    Medium,
    High,
}

impl Confidence {
    pub open spec fn label(self) -> Seq<char> {
        match self {
            Confidence::Low => "low"@,
            Confidence::Medium => "medium"@,
            Confidence::High => "high"@,
        }
    }

    /// The place of a confidence in their order, from low to high.
    pub open spec fn level(self) -> int {
        match self {
            Confidence::Low => 0,
            Confidence::Medium => 1,
            Confidence::High => 2,
        }
    }

    /// The name of the confidence as reports print it.
    pub fn name(self) -> (r: &'static str)
        ensures
            r@ == self.label(),
    {
        match self {
            Confidence::Low => "low",
            Confidence::Medium => "medium",
            Confidence::High => "high",
        }
    }

    /// The place of the confidence in their order, from low to high.
    pub fn rank(self) -> (r: u8)
        ensures
            r == self.level(),
    {
        match self {
            Confidence::Low => 0,
            Confidence::Medium => 1,
            Confidence::High => 2,
        }
    }
}

/// The least confidence that a user asks for.
#[derive(Clone, Copy, Debug, PartialEq, Eq, PartialOrd, Ord, Structural)]
pub enum MinConfidence {
    Low,
    Medium,
    High,
}

impl MinConfidence {
    pub fn to_confidence(self) -> (r: Confidence)
        ensures
            r == match self {
                MinConfidence::Low => Confidence::Low,
                MinConfidence::Medium => Confidence::Medium,
                MinConfidence::High => Confidence::High,
            },
    {
        match self {
            MinConfidence::Low => Confidence::Low,
            MinConfidence::Medium => Confidence::Medium,
            MinConfidence::High => Confidence::High,
        }
    }
}

/// What is known of a candidate and the bytes around it.
#[derive(Clone, Copy, Debug, PartialEq, Eq, Structural)]
pub struct PanSignals {
    pub scheme: Option<Scheme>,
    pub digit_density: DigitDensity,
    /// The Shannon entropy of the bytes around the candidate, in bits per byte, as the encoding
    /// of an IEEE-754 single.
    pub entropy_bits: u32,
    pub keyword_distance: Option<u16>,
    pub grouping_card_shaped: bool,
}

/// Why a candidate was rejected.
#[derive(Clone, Copy, Debug, PartialEq, Eq, Structural)]
pub enum RejectReason {
    Grouping,
    Entropy,
    Density,
    Scheme,
}

impl RejectReason {
    pub open spec fn label(self) -> Seq<char> {
        match self {
            RejectReason::Grouping => "grouping pattern not card-shaped"@,
            RejectReason::Entropy => "high-entropy surround (binary blob)"@,
            RejectReason::Density => "dense-numeric surround (not a PAN context)"@,
            RejectReason::Scheme => "BIN/length doesn't match any known scheme"@,
        }
    }

    /// The reason as debug output prints it.
    pub fn text(self) -> (r: &'static str)
        ensures
            r@ == self.label(),
    {
        match self {
            RejectReason::Grouping => "grouping pattern not card-shaped",
            RejectReason::Entropy => "high-entropy surround (binary blob)",
            RejectReason::Density => "dense-numeric surround (not a PAN context)",
            RejectReason::Scheme => "BIN/length doesn't match any known scheme",
        }
    }
}

/// What becomes of a candidate.
#[derive(Clone, Copy, Debug, PartialEq, Eq, Structural)]
pub enum Decision {
    Reject(RejectReason),
    Accept(Confidence),
}

/// More than 0.55 of the bytes around are digits.
pub open spec fn dense(d: DigitDensity) -> bool {
    d.digits * DENSITY_MAX_DENOMINATOR > d.total * DENSITY_MAX_NUMERATOR
}

/// The encoded number is greater than 7. The encodings of numbers from zero up to infinity are
/// ordered as the numbers are.
pub open spec fn noisy(entropy_bits: u32) -> bool {
    ENTROPY_MAX_BITS < entropy_bits <= INFINITY_BITS
}

/// The confidence that a card word at this distance gives.
pub open spec fn keyword_confidence(distance: Option<u16>) -> Confidence {
    match distance {
        Some(d) => if d <= KEYWORD_HIGH_DIST {
            Confidence::High
        } else {
            Confidence::Medium
        },
        None => Confidence::Low,
    }
}

/// What becomes of a candidate with these signals. The properties that no card number has come
/// first; what is left gets its confidence from the nearest card word, and no more than medium
/// where no scheme issues it.
pub open spec fn decide(s: PanSignals, strict: bool) -> Decision {
    if !s.grouping_card_shaped {
        Decision::Reject(RejectReason::Grouping)
    } else if noisy(s.entropy_bits) {
        Decision::Reject(RejectReason::Entropy)
    } else if dense(s.digit_density) {
        Decision::Reject(RejectReason::Density)
    } else if strict && s.scheme is None {
        Decision::Reject(RejectReason::Scheme)
    } else if s.scheme is None && keyword_confidence(s.keyword_distance) == Confidence::High {
        Decision::Accept(Confidence::Medium)
    } else {
        Decision::Accept(keyword_confidence(s.keyword_distance))
    }
}

fn is_dense(d: DigitDensity) -> (r: bool)
    ensures
        r == dense(d),
{
    let digits: u128 = d.digits as u128;
    let total: u128 = d.total as u128;
    digits * DENSITY_MAX_DENOMINATOR > total * DENSITY_MAX_NUMERATOR
}

/// The decision on a candidate with these signals. `strict` rejects what no scheme issues.
pub fn classify(s: &PanSignals, strict: bool) -> (r: Decision)
    ensures
        r == decide(*s, strict),
{
    if !s.grouping_card_shaped {
        return Decision::Reject(RejectReason::Grouping);
    }
    if ENTROPY_MAX_BITS < s.entropy_bits && s.entropy_bits <= INFINITY_BITS {
        return Decision::Reject(RejectReason::Entropy);
    }
    if is_dense(s.digit_density) {
        return Decision::Reject(RejectReason::Density);
    }
    if strict && s.scheme.is_none() {
        return Decision::Reject(RejectReason::Scheme);
    }
    let tier: Confidence = match s.keyword_distance {
        Some(d) => if d <= KEYWORD_HIGH_DIST {
            Confidence::High
        } else {
            Confidence::Medium
        },
        None => Confidence::Low,
    };
    let cap: Confidence = if s.scheme.is_some() {
        Confidence::High
    } else {
        Confidence::Medium
    };
    if tier.rank() <= cap.rank() {
        Decision::Accept(tier)
    } else {
        Decision::Accept(cap)
    }
}

/// The signals of the candidate from `start` up to `end`, given the entropy of the bytes around
/// it.
pub open spec fn signals_of(
    s: Seq<u8>,
    start: int,
    end: int,
    pan: Seq<u8>,
    grouping: GroupingView,
    entropy_bits: u32,
) -> PanSignals {
    PanSignals {
        scheme: scheme_of(pan),
        digit_density: density_of(s, start, end),
        entropy_bits,
        keyword_distance: keyword_distance_of(s, start, end),
        grouping_card_shaped: card_shaped(grouping),
    }
}

/// The signals of the candidate from `start` up to `end`, given the entropy of the bytes around
/// it.
pub fn score(
    data: &[u8],
    start: usize,
    end: usize,
    pan: &[u8],
    grouping: &Grouping,
    entropy_bits: u32,
) -> (r: PanSignals)
    requires
        start <= data@.len(),
        end <= data@.len(),
        window_start(start as int, KEYWORD_WINDOW as int) <= end,
    ensures
        r == signals_of(data@, start as int, end as int, pan@, grouping@, entropy_bits),
{
    PanSignals {
        scheme: detect_scheme(pan),
        digit_density: digit_density(data, start, end),
        entropy_bits,
        keyword_distance: keyword_distance(data, start, end),
        grouping_card_shaped: grouping_is_card_shaped(grouping),
    }
}

/// Strict mode only removes: what it accepts is accepted without it, with the same confidence,
/// and what it rejects beyond that is issued by no scheme.
pub proof fn law_strict_only_removes(s: PanSignals)
    ensures
        decide(s, true) is Accept ==> decide(s, false) == decide(s, true),
        decide(s, true) != decide(s, false) ==> s.scheme is None && decide(s, true)
            == Decision::Reject(RejectReason::Scheme),
{
}

/// The density and the entropy around a candidate can reject it, but never change the
/// confidence of one that is accepted.
pub proof fn law_context_only_rejects(a: PanSignals, b: PanSignals, strict: bool)
    requires
        a.scheme == b.scheme,
        a.keyword_distance == b.keyword_distance,
        decide(a, strict) is Accept,
        decide(b, strict) is Accept,
    ensures
        decide(a, strict) == decide(b, strict),
{
}

/// Nor does strict mode: of two candidates with the same scheme and the same card word, each
/// accepted with strict mode or without it, both get the same confidence.
pub proof fn law_context_and_mode_only_reject(
    a: PanSignals,
    b: PanSignals,
    strict_a: bool,
    strict_b: bool,
)
    requires
        a.scheme == b.scheme,
        a.keyword_distance == b.keyword_distance,
        decide(a, strict_a) is Accept,
        decide(b, strict_b) is Accept,
    ensures
        decide(a, strict_a) == decide(b, strict_b),
{
}

/// High confidence takes a scheme that issues the number and a card word within 64 bytes.
pub proof fn law_high_needs_scheme_and_word(s: PanSignals, strict: bool)
    requires
        decide(s, strict) == Decision::Accept(Confidence::High),
    ensures
        s.scheme is Some,
        s.keyword_distance is Some && s.keyword_distance->0 <= KEYWORD_HIGH_DIST,
{
}

/// A nearer card word never lowers the confidence.
pub proof fn law_nearer_word_is_no_worse(s: PanSignals, distance: u16, strict: bool)
    requires
        s.keyword_distance is Some ==> distance <= s.keyword_distance->0,
        decide(s, strict) is Accept,
    ensures
        decide((PanSignals { keyword_distance: Some(distance), ..s }), strict) is Accept,
        decide(s, strict)->Accept_0.level() <= decide(
            (PanSignals { keyword_distance: Some(distance), ..s }),
            strict,
        )->Accept_0.level(),
{
}

/// No reason to reject but the missing scheme applies: the grouping is card-shaped, the entropy
/// is a number of at most 7 bits per byte, and at most 55 of a hundred bytes around are digits.
pub open spec fn plausible(s: PanSignals) -> bool {
    &&& s.grouping_card_shaped
    &&& s.entropy_bits <= 0x40e0_0000 || s.entropy_bits > 0x7f80_0000
    &&& 100 * s.digit_density.digits <= 55 * s.digit_density.total
}

/// A plausible number of a known scheme, whichever it is, is accepted: with high confidence if a
/// card word is within 64 bytes, with medium confidence if one is farther away, and with low
/// confidence if there is none. Strict mode makes no difference.
pub proof fn law_issued_numbers_are_accepted(s: PanSignals, scheme: Scheme, strict: bool)
    requires
        plausible(s),
        s.scheme == Some(scheme),
    ensures
        s.keyword_distance is Some && s.keyword_distance->0 <= 64 ==> decide(s, strict)
            == Decision::Accept(Confidence::High),
        s.keyword_distance is Some && s.keyword_distance->0 > 64 ==> decide(s, strict)
            == Decision::Accept(Confidence::Medium),
        s.keyword_distance is None ==> decide(s, strict) == Decision::Accept(Confidence::Low),
{
}

/// A plausible number of no known scheme is rejected in strict mode, for that reason; without it,
/// it is accepted with medium confidence if a card word is near, at any distance, and with low
/// confidence otherwise.
pub proof fn law_unissued_numbers_are_capped(s: PanSignals)
    requires
        plausible(s),
        s.scheme is None,
    ensures
        decide(s, true) == Decision::Reject(RejectReason::Scheme),
        s.keyword_distance is Some ==> decide(s, false) == Decision::Accept(Confidence::Medium),
        s.keyword_distance is None ==> decide(s, false) == Decision::Accept(Confidence::Low),
{
}

/// What is not plausible is rejected, with or without strict mode, whatever scheme and card word
/// there are; the reason is the first of grouping, entropy and density that applies.
pub proof fn law_implausible_numbers_are_rejected(s: PanSignals, strict: bool)
    requires
        !plausible(s),
    ensures
        decide(s, strict) == Decision::Reject(
            if !s.grouping_card_shaped {
                RejectReason::Grouping
            } else if 0x40e0_0000 < s.entropy_bits && s.entropy_bits <= 0x7f80_0000 {
                RejectReason::Entropy
            } else {
                RejectReason::Density
            },
        ),
{
}

/// All known schemes are treated alike: numbers that differ in which scheme issues them, and in
/// nothing else, are decided on alike.
pub proof fn law_schemes_are_alike(s: PanSignals, a: Scheme, b: Scheme, strict: bool)
    ensures
        decide((PanSignals { scheme: Some(a), ..s }), strict) == decide(
            (PanSignals { scheme: Some(b), ..s }),
            strict,
        ),
{
}

/// Fewer digits around, or more bytes around with no more digits, never turn an accepted number
/// into a rejected one.
pub proof fn law_thinner_digits_are_no_worse(s: PanSignals, thinner: DigitDensity, strict: bool)
    requires
        decide(s, strict) is Accept,
        thinner.digits <= s.digit_density.digits,
        thinner.total >= s.digit_density.total,
    ensures
        decide((PanSignals { digit_density: thinner, ..s }), strict) == decide(s, strict),
{
}

/// A known scheme never makes things worse than none, in either mode.
pub proof fn law_a_scheme_is_no_worse(s: PanSignals, scheme: Scheme, strict: bool)
    requires
        s.scheme is None,
        decide(s, strict) is Accept,
    ensures
        decide((PanSignals { scheme: Some(scheme), ..s }), strict) is Accept,
        decide(s, strict)->Accept_0.level() <= decide(
            (PanSignals { scheme: Some(scheme), ..s }),
            strict,
        )->Accept_0.level(),
{
}

/// The names of the confidences, and their order.
pub proof fn law_confidence_names(c: Confidence)
    ensures
        c.label() == (if c == Confidence::High {
            "high"@
        } else if c == Confidence::Medium {
            "medium"@
        } else {
            "low"@
        }),
        Confidence::Low.level() < Confidence::Medium.level() < Confidence::High.level(),
{
}

/// The signals of a candidate are read off the buffer, the number and the groups, each from what
/// it is about.
pub proof fn law_signals_come_from_their_sources(
    s: Seq<u8>,
    start: int,
    end: int,
    pan: Seq<u8>,
    grouping: GroupingView,
    entropy_bits: u32,
)
    ensures
        ({
            let r = signals_of(s, start, end, pan, grouping, entropy_bits);
            &&& r.scheme == scheme_of(pan)
            &&& r.digit_density == density_of(s, start, end)
            &&& r.entropy_bits == entropy_bits
            &&& r.keyword_distance == keyword_distance_of(s, start, end)
            &&& r.grouping_card_shaped == card_shaped(grouping)
        }),
{
}

} // verus!
