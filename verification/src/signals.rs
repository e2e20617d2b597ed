//! What the bytes around a candidate say about it: how many of them are digits, how evenly
//! they are spread over the byte values, and how near a word about cards is.

use vstd::prelude::*;
use crate::bytes::{is_digit, law_text_stands_byte_by_byte, lower, occurs_at, subslice_find};
use crate::detect::{digits_of, is_digit_code, law_digits_are_picked_by_code};
use vstd::utf8::encode_utf8;

verus! {

/// The bytes on each side of a candidate that are inspected for digits.
pub const DENSITY_WINDOW: usize = 64;

/// The bytes on each side of a candidate over which byte values are counted.
pub const ENTROPY_WINDOW: usize = 128;

/// The bytes on each side of a candidate in which card words are looked for.
pub const KEYWORD_WINDOW: usize = 256;

/// The most bytes that are searched for card words: both windows, with room for the candidate.
pub const KEYWORD_BYTES: usize = 544;

/// Words that stand near card numbers, in lower case. The last three are Hebrew for card,
/// credit and number.
pub const KEYWORDS: [&'static str; 22] = [
    "card",
    "pan",
    "visa",
    "mastercard",
    "amex",
    "cvv",
    "cvc",
    "creditcard",
    "credit",
    "ccnum",
    "cc_num",
    "cardnumber",
    "card_number",
    "cardno",
    "card_no",
    "iin",
    "primary account",
    "payment",
    "cardholder",
    "כרטיס",
    "אשראי",
    "מספר",
];

/// Where a window of `reach` bytes on each side begins.
pub open spec fn window_start(start: int, reach: int) -> int {
    if start <= reach {
        0
    } else {
        start - reach
    }
}

/// Where a window of `reach` bytes on each side ends in a buffer of `len` bytes.
pub open spec fn window_end(len: int, end: int, reach: int) -> int {
    if end + reach <= len {
        end + reach
    } else {
        len
    }
}

fn window_low(start: usize, reach: usize) -> (r: usize)
    ensures
        r == window_start(start as int, reach as int),
{
    if start <= reach {
        0
    } else {
        start - reach
    }
}

fn window_high(len: usize, end: usize, reach: usize) -> (r: usize)
    ensures
        r == window_end(len as int, end as int, reach as int),
{
    if end <= len && reach <= len - end {
        end + reach
    } else {
        len
    }
}

/// How many of the bytes around a candidate are digits.
#[derive(Clone, Copy, Debug, PartialEq, Eq, Structural)]
pub struct DigitDensity {
    /// The digits around the candidate, its own not counted.
    pub digits: usize,
    /// The bytes around the candidate.
    pub total: usize,
}

/// The digits among the bytes on both sides of a candidate, and the number of those bytes.
pub open spec fn density_of(s: Seq<u8>, start: int, end: int) -> DigitDensity {
    let left = s.subrange(window_start(start, DENSITY_WINDOW as int), start);
    let right = s.subrange(end, window_end(s.len() as int, end, DENSITY_WINDOW as int));
    DigitDensity {
        digits: (digits_of(left).len() + digits_of(right).len()) as usize,
        total: (left.len() + right.len()) as usize,
    }
}

/// The number of digits from `from` up to `to`.
fn count_digits(data: &[u8], from: usize, to: usize) -> (r: usize)
    requires
        from <= to <= data@.len(),
    ensures
        r == digits_of(data@.subrange(from as int, to as int)).len(),
        r <= to - from,
{
    let mut count: usize = 0;
    let mut i: usize = from;
    while i < to
        invariant
            from <= i <= to <= data@.len(),
            count == digits_of(data@.subrange(from as int, i as int)).len(),
            count <= i - from,
        decreases to - i,
    {
        proof {
            assert(data@.subrange(from as int, i + 1).drop_last() =~= data@.subrange(
                from as int,
                i as int,
            ));
        }
        if is_digit(data[i]) {
            count += 1;
        }
        i += 1;
    }
    count
}

/// The share of digits around the candidate from `start` up to `end`.
pub fn digit_density(data: &[u8], start: usize, end: usize) -> (r: DigitDensity)
    requires
        start <= data@.len(),
        end <= data@.len(),
    ensures
        r == density_of(data@, start as int, end as int),
        r.digits <= r.total <= 2 * DENSITY_WINDOW,
{
    let lo: usize = window_low(start, DENSITY_WINDOW);
    let hi: usize = window_high(data.len(), end, DENSITY_WINDOW);
    let left: usize = count_digits(data, lo, start);
    let right: usize = count_digits(data, end, hi);
    DigitDensity { digits: left + right, total: (start - lo) + (hi - end) }
}

/// How often a byte occurs.
pub open spec fn occurrences(s: Seq<u8>, b: u8) -> nat
    decreases s.len(),
{
    if s.len() == 0 {
        0
    } else {
        occurrences(s.drop_last(), b) + if s.last() == b {
            1nat
        } else {
            0
        }
    }
}

/// The bytes over which the entropy of a candidate is taken; the candidate is among them.
pub open spec fn entropy_window(s: Seq<u8>, start: int, end: int) -> Seq<u8> {
    s.subrange(
        window_start(start, ENTROPY_WINDOW as int),
        window_end(s.len() as int, end, ENTROPY_WINDOW as int),
    )
}

/// How often each byte value occurs in a text, by value.
pub open spec fn is_histogram(counts: Seq<u32>, text: Seq<u8>) -> bool {
    &&& counts.len() == 256
    &&& forall|b: u8| #[trigger] counts[b as int] == occurrences(text, b)
}

proof fn lemma_occurrences_bound(s: Seq<u8>, b: u8)
    ensures
        occurrences(s, b) <= s.len(),
    decreases s.len(),
{
    if s.len() > 0 {
        lemma_occurrences_bound(s.drop_last(), b);
    }
}

/// How often each byte value occurs around, and in, the candidate from `start` up to `end`.
pub fn byte_counts(data: &[u8], start: usize, end: usize) -> (r: Vec<u32>)
    requires
        window_start(start as int, ENTROPY_WINDOW as int) <= window_end(
            data@.len() as int,
            end as int,
            ENTROPY_WINDOW as int,
        ),
        entropy_window(data@, start as int, end as int).len() <= u32::MAX,
    ensures
        is_histogram(r@, entropy_window(data@, start as int, end as int)),
{
    let lo: usize = window_low(start, ENTROPY_WINDOW);
    let hi: usize = window_high(data.len(), end, ENTROPY_WINDOW);
    let ghost window = data@.subrange(lo as int, hi as int);
    let mut counts: Vec<u32> = Vec::new();
    counts.resize(256, 0);
    let mut i: usize = lo;
    while i < hi
        invariant
            lo <= i <= hi <= data@.len(),
            hi - lo <= u32::MAX,
            is_histogram(counts@, data@.subrange(lo as int, i as int)),
        decreases hi - i,
    {
        let b: u8 = data[i];
        let ghost before = counts@;
        proof {
            let seen = data@.subrange(lo as int, i as int);
            lemma_occurrences_bound(seen, b);
            assert(data@.subrange(lo as int, i + 1).drop_last() =~= seen);
            assert(before[b as int] == occurrences(seen, b));
        }
        let more: u32 = counts[b as usize] + 1;
        counts.set(b as usize, more);
        proof {
            assert forall|v: u8| #[trigger] counts@[v as int] == occurrences(
                data@.subrange(lo as int, i + 1),
                v,
            ) by {
                assert(before[v as int] == occurrences(data@.subrange(lo as int, i as int), v));
            }
        }
        i += 1;
    }
    counts
}

/// The sum of the counts of a histogram.
pub open spec fn counts_total(counts: Seq<u32>) -> nat
    decreases counts.len(),
{
    if counts.len() == 0 {
        0
    } else {
        counts_total(counts.drop_last()) + counts.last() as nat
    }
}

/// The first `n` byte values account for this many bytes of a text.
spec fn values_below(text: Seq<u8>, n: nat) -> nat
    decreases n,
{
    if n == 0 {
        0
    } else {
        values_below(text, (n - 1) as nat) + occurrences(text, (n - 1) as u8)
    }
}

proof fn lemma_values_below_push(text: Seq<u8>, b: u8, n: nat)
    requires
        n <= 256,
    ensures
        values_below(text.push(b), n) == values_below(text, n) + if b < n {
            1nat
        } else {
            0
        },
    decreases n,
{
    if n > 0 {
        lemma_values_below_push(text, b, (n - 1) as nat);
        assert(text.push(b).drop_last() =~= text);
    }
}

proof fn lemma_values_below_all(text: Seq<u8>)
    ensures
        values_below(text, 256) == text.len(),
    decreases text.len(),
{
    if text.len() == 0 {
        lemma_values_below_none(text, 256);
    } else {
        lemma_values_below_all(text.drop_last());
        lemma_values_below_push(text.drop_last(), text.last(), 256);
        assert(text.drop_last().push(text.last()) =~= text);
    }
}

proof fn lemma_values_below_none(text: Seq<u8>, n: nat)
    requires
        text.len() == 0,
    ensures
        values_below(text, n) == 0,
    decreases n,
{
    if n > 0 {
        lemma_values_below_none(text, (n - 1) as nat);
    }
}

proof fn lemma_counts_prefix(counts: Seq<u32>, text: Seq<u8>, n: nat)
    requires
        is_histogram(counts, text),
        n <= 256,
    ensures
        counts_total(counts.take(n as int)) == values_below(text, n),
    decreases n,
{
    if n > 0 {
        lemma_counts_prefix(counts, text, (n - 1) as nat);
        assert(counts.take(n as int).drop_last() =~= counts.take(n - 1));
        assert(counts[(n - 1) as u8 as int] == occurrences(text, (n - 1) as u8));
    }
}

/// Every byte of a text is counted once in its histogram.
pub proof fn law_counts_add_up(counts: Seq<u32>, text: Seq<u8>)
    requires
        is_histogram(counts, text),
    ensures
        counts_total(counts) == text.len(),
{
    lemma_counts_prefix(counts, text, 256);
    assert(counts.take(256) =~= counts);
    lemma_values_below_all(text);
}

/// The bytes that are searched for card words, in lower case.
pub open spec fn keyword_text(s: Seq<u8>, start: int, end: int) -> Seq<u8> {
    let lo = window_start(start, KEYWORD_WINDOW as int);
    let hi = window_end(s.len() as int, end, KEYWORD_WINDOW as int);
    let cut = if hi - lo <= KEYWORD_BYTES {
        hi
    } else {
        lo + KEYWORD_BYTES
    };
    s.subrange(lo, cut).map_values(|b: u8| lower(b))
}

/// The bytes of the `k`th card word.
pub open spec fn keyword(k: int) -> Seq<u8> {
    encode_utf8(KEYWORDS@[k]@)
}

/// The `k`th card word stands at `at` in `text`.
pub open spec fn keyword_at(text: Seq<u8>, k: int, at: int) -> bool {
    0 <= k < KEYWORDS@.len() && occurs_at(text, keyword(k), at)
}

/// The number of bytes between a word of `len` bytes at `at` and what stands from `start` up
/// to `end`; zero where they overlap.
pub open spec fn gap(at: int, len: int, start: int, end: int) -> int {
    if at + len <= start {
        start - (at + len)
    } else if at >= end {
        at - end
    } else {
        0
    }
}

/// `d` is the least gap between the candidate and a card word near it, or `None` if there is no
/// such word.
pub open spec fn is_keyword_distance(s: Seq<u8>, start: int, end: int, d: Option<u16>) -> bool {
    let text = keyword_text(s, start, end);
    let lo = window_start(start, KEYWORD_WINDOW as int);
    match d {
        Some(d) => {
            &&& exists|k: int, at: int| #[trigger]
                keyword_at(text, k, at) && d == gap(at, keyword(k).len() as int, start - lo, end - lo)
            &&& forall|k: int, at: int| #[trigger]
                keyword_at(text, k, at) ==> d <= gap(
                    at,
                    keyword(k).len() as int,
                    start - lo,
                    end - lo,
                )
        },
        None => forall|k: int, at: int| !#[trigger] keyword_at(text, k, at),
    }
}

/// The least gap between the candidate and a card word near it.
pub open spec fn keyword_distance_of(s: Seq<u8>, start: int, end: int) -> Option<u16> {
    choose|d: Option<u16>| is_keyword_distance(s, start, end, d)
}

/// There is one keyword distance only.
proof fn lemma_keyword_distance_unique(
    s: Seq<u8>,
    start: int,
    end: int,
    a: Option<u16>,
    b: Option<u16>,
)
    requires
        is_keyword_distance(s, start, end, a),
        is_keyword_distance(s, start, end, b),
    ensures
        a == b,
{
}

proof fn lemma_encoding_len(chars: Seq<char>)
    ensures
        encode_utf8(chars).len() >= chars.len(),
    decreases chars.len(),
{
    if chars.len() > 0 {
        lemma_encoding_len(chars.drop_first());
    }
}

/// No card word is empty.
proof fn lemma_keywords_not_empty()
    ensures
        forall|k: int| 0 <= k < KEYWORDS@.len() ==> #[trigger] keyword(k).len() > 0,
{
    reveal_strlit("card");
    reveal_strlit("pan");
    reveal_strlit("visa");
    reveal_strlit("mastercard");
    reveal_strlit("amex");
    reveal_strlit("cvv");
    reveal_strlit("cvc");
    reveal_strlit("creditcard");
    reveal_strlit("credit");
    reveal_strlit("ccnum");
    reveal_strlit("cc_num");
    reveal_strlit("cardnumber");
    reveal_strlit("card_number");
    reveal_strlit("cardno");
    reveal_strlit("card_no");
    reveal_strlit("iin");
    reveal_strlit("primary account");
    reveal_strlit("payment");
    reveal_strlit("cardholder");
    reveal_strlit("כרטיס");
    reveal_strlit("אשראי");
    reveal_strlit("מספר");
    assert forall|k: int| 0 <= k < KEYWORDS@.len() implies #[trigger] keyword(k).len() > 0 by {
        assert(KEYWORDS@[k]@.len() > 0);
        lemma_encoding_len(KEYWORDS@[k]@);
    }
}

/// `best` is no more than the gap of any place of `word` before `before`.
spec fn bounds(
    best: Option<usize>,
    text: Seq<u8>,
    word: Seq<u8>,
    before: int,
    start: int,
    end: int,
) -> bool {
    forall|at: int| #[trigger]
        occurs_at(text, word, at) && at < before ==> best is Some && best->0 <= gap(
            at,
            word.len() as int,
            start,
            end,
        )
}

/// `new` is `old`, or the gap of some place of `word` and no more than `old`.
spec fn improves(
    old_best: Option<usize>,
    new_best: Option<usize>,
    text: Seq<u8>,
    word: Seq<u8>,
    start: int,
    end: int,
) -> bool {
    new_best == old_best || {
        &&& new_best is Some
        &&& old_best is Some ==> new_best->0 <= old_best->0
        &&& exists|at: int| #[trigger]
            occurs_at(text, word, at) && new_best->0 == gap(at, word.len() as int, start, end)
    }
}

/// Takes the places of one word into account.
fn nearest_place(
    text: &[u8],
    word: &[u8],
    start: usize,
    end: usize,
    best: Option<usize>,
) -> (r: Option<usize>)
    requires
        word@.len() > 0,
    ensures
        bounds(r, text@, word@, text@.len() as int, start as int, end as int),
        improves(best, r, text@, word@, start as int, end as int),
{
    let n: usize = text.len();
    let m: usize = word.len();
    let mut nearest: Option<usize> = best;
    let mut from: usize = 0;
    while from < n && m <= n - from
        invariant
            n == text@.len(),
            m == word@.len() > 0,
            from <= n,
            bounds(nearest, text@, word@, from as int, start as int, end as int),
            improves(best, nearest, text@, word@, start as int, end as int),
        ensures
            bounds(nearest, text@, word@, n as int, start as int, end as int),
        decreases n - from,
    {
        let rest: &[u8] = &text[from..n];
        match subslice_find(rest, word) {
            None => {
                proof {
                    assert forall|at: int| #[trigger]
                        occurs_at(text@, word@, at) && at < n implies nearest is Some
                        && nearest->0 <= gap(at, m as int, start as int, end as int) by {
                        if at >= from {
                            lemma_shift(text@, word@, from as int, at);
                        }
                    }
                }
                break;
            },
            Some(rel) => {
                let at: usize = from + rel;
                proof {
                    lemma_shift(text@, word@, from as int, at as int);
                }
                let word_end: usize = at + m;
                let d: usize = if word_end <= start {
                    start - word_end
                } else if at >= end {
                    at - end
                } else {
                    0
                };
                let ghost before = nearest;
                nearest = match nearest {
                    Some(old_d) => if old_d <= d {
                        Some(old_d)
                    } else {
                        Some(d)
                    },
                    None => Some(d),
                };
                proof {
                    assert(d == gap(at as int, m as int, start as int, end as int));
                    assert(occurs_at(text@, word@, at as int));
                    assert forall|p: int| #[trigger]
                        occurs_at(text@, word@, p) && p < at + 1 implies nearest is Some
                        && nearest->0 <= gap(p, m as int, start as int, end as int) by {
                        if from <= p < at {
                            lemma_shift(text@, word@, from as int, p);
                        }
                    }
                }
                if d == 0 {
                    // Nothing is nearer than zero.
                    break;
                }
                from = at + 1;
            },
        }
    }
    nearest
}

/// A place in a text is a place in what is left of it behind `from`.
proof fn lemma_shift(text: Seq<u8>, word: Seq<u8>, from: int, at: int)
    requires
        0 <= from <= at,
        from <= text.len(),
    ensures
        occurs_at(text, word, at) == occurs_at(
            text.subrange(from, text.len() as int),
            word,
            at - from,
        ),
{
    let rest = text.subrange(from, text.len() as int);
    if at + word.len() <= text.len() {
        assert(rest.subrange(at - from, at - from + word.len()) =~= text.subrange(
            at,
            at + word.len(),
        ));
    }
}

/// The least number of bytes between the candidate from `start` up to `end` and a card word
/// near it. ASCII letters match in either case.
pub fn keyword_distance(data: &[u8], start: usize, end: usize) -> (r: Option<u16>)
    requires
        window_start(start as int, KEYWORD_WINDOW as int) <= window_end(
            data@.len() as int,
            end as int,
            KEYWORD_WINDOW as int,
        ),
        window_start(start as int, KEYWORD_WINDOW as int) <= end,
    ensures
        is_keyword_distance(data@, start as int, end as int, r),
        r == keyword_distance_of(data@, start as int, end as int),
{
    let lo: usize = window_low(start, KEYWORD_WINDOW);
    let n: usize = data.len();
    let hi: usize = window_high(n, end, KEYWORD_WINDOW);
    let len: usize = if hi - lo <= KEYWORD_BYTES {
        hi - lo
    } else {
        KEYWORD_BYTES
    };
    let ghost text = keyword_text(data@, start as int, end as int);
    let mut low: Vec<u8> = Vec::new();
    let mut i: usize = 0;
    while i < len
        invariant
            i <= len,
            lo + len <= n == data@.len(),
            text.len() == len,
            low@.len() == i,
            forall|j: int| 0 <= j < i ==> #[trigger] low@[j] == text[j],
            forall|j: int| 0 <= j < len ==> #[trigger] text[j] == lower(data@[lo + j]),
        decreases len - i,
    {
        let b: u8 = data[lo + i];
        low.push(
            if 'A' as u8 <= b && b <= 'Z' as u8 {
                b + 0x20
            } else {
                b
            },
        );
        i += 1;
    }
    proof {
        assert(low@ =~= text);
        lemma_keywords_not_empty();
    }
    let from: usize = start - lo;
    let to: usize = end - lo;
    let mut best: Option<usize> = None;
    let mut k: usize = 0;
    while k < 22
        invariant
            k <= 22,
            low@ == text,
            text.len() <= KEYWORD_BYTES,
            from <= KEYWORD_WINDOW,
            forall|j: int| 0 <= j < KEYWORDS@.len() ==> #[trigger] keyword(j).len() > 0,
            forall|j: int| #![trigger keyword(j)]
                0 <= j < k ==> bounds(
                    best,
                    text,
                    keyword(j),
                    text.len() as int,
                    from as int,
                    to as int,
                ),
            best is Some ==> exists|j: int, at: int| #[trigger]
                keyword_at(text, j, at) && best->0 == gap(
                    at,
                    keyword(j).len() as int,
                    from as int,
                    to as int,
                ),
        decreases 22 - k,
    {
        let word: &[u8] = KEYWORDS[k].as_bytes();
        let ghost before = best;
        proof {
            assert(word@ == keyword(k as int));
        }
        best = nearest_place(low.as_slice(), word, from, to, best);
        proof {
            assert forall|j: int| #![trigger keyword(j)] 0 <= j < k + 1 implies bounds(
                best,
                text,
                keyword(j),
                text.len() as int,
                from as int,
                to as int,
            ) by {
                if j < k {
                    assert(bounds(
                        before,
                        text,
                        keyword(j),
                        text.len() as int,
                        from as int,
                        to as int,
                    ));
                }
            }
            if best != before {
                let at = choose|at: int| #[trigger]
                    occurs_at(text, word@, at) && best->0 == gap(
                        at,
                        word@.len() as int,
                        from as int,
                        to as int,
                    );
                assert(keyword_at(text, k as int, at));
            }
        }
        k += 1;
    }
    proof {
        assert forall|j: int, at: int| #[trigger] keyword_at(text, j, at) implies best is Some
            && best->0 <= gap(at, keyword(j).len() as int, from as int, to as int) by {
            assert(bounds(best, text, keyword(j), text.len() as int, from as int, to as int));
            assert(keyword(j).len() > 0);
            assert(occurs_at(text, keyword(j), at));
        }
    }
    let r: Option<u16> = match best {
        Some(d) => {
            proof {
                let (j, at) = choose|j: int, at: int| #[trigger]
                    keyword_at(text, j, at) && d == gap(
                        at,
                        keyword(j).len() as int,
                        from as int,
                        to as int,
                    );
                assert(occurs_at(text, keyword(j), at));
                assert(d <= KEYWORD_BYTES);
            }
            Some(d as u16)
        },
        None => None,
    };
    proof {
        assert(is_keyword_distance(data@, start as int, end as int, r));
        lemma_keyword_distance_unique(
            data@,
            start as int,
            end as int,
            r,
            keyword_distance_of(data@, start as int, end as int),
        );
    }
    r
}

proof fn lemma_few_digits(text: Seq<u8>)
    ensures
        digits_of(text).len() <= text.len(),
    decreases text.len(),
{
    if text.len() > 0 {
        lemma_few_digits(text.drop_last());
    }
}

/// The density is taken over up to 64 bytes on each side, the candidate left out: it has the
/// number of these bytes, and the number of digits among them.
pub proof fn law_density_is_taken_over_64_bytes(s: Seq<u8>, start: int, end: int)
    requires
        0 <= start <= s.len(),
        0 <= end <= s.len(),
    ensures
        ({
            let left = s.subrange(
                if start < 64 {
                    0
                } else {
                    start - 64
                },
                start,
            );
            let right = s.subrange(
                end,
                if s.len() - end < 64 {
                    s.len() as int
                } else {
                    end + 64
                },
            );
            &&& density_of(s, start, end).total == left.len() + right.len()
            &&& density_of(s, start, end).digits == left.filter(is_digit_code()).len()
                + right.filter(is_digit_code()).len()
        }),
{
    let left = s.subrange(window_start(start, 64), start);
    let right = s.subrange(end, window_end(s.len() as int, end, 64));
    law_digits_are_picked_by_code(left);
    law_digits_are_picked_by_code(right);
    lemma_few_digits(left);
    lemma_few_digits(right);
}

/// The entropy is taken over the candidate and up to 128 bytes on each side.
pub proof fn law_entropy_is_taken_over_128_bytes(s: Seq<u8>, start: int, end: int)
    ensures
        entropy_window(s, start, end) == s.subrange(
            if start < 128 {
                0
            } else {
                start - 128
            },
            if s.len() < end + 128 {
                s.len() as int
            } else {
                end + 128
            },
        ),
{
}

/// What is this byte.
pub open spec fn is_byte(b: u8) -> spec_fn(u8) -> bool {
    |x: u8| x == b
}

/// A byte is counted once for every place where it stands.
pub proof fn law_occurrences_count_places(text: Seq<u8>, b: u8)
    ensures
        occurrences(text, b) == text.filter(is_byte(b)).len(),
    decreases text.len(),
{
    reveal(Seq::filter);
    if text.len() > 0 {
        law_occurrences_count_places(text.drop_last(), b);
    }
}

/// The card words.
pub open spec fn card_words() -> Seq<Seq<char>> {
    seq![
        "card"@,
        "pan"@,
        "visa"@,
        "mastercard"@,
        "amex"@,
        "cvv"@,
        "cvc"@,
        "creditcard"@,
        "credit"@,
        "ccnum"@,
        "cc_num"@,
        "cardnumber"@,
        "card_number"@,
        "cardno"@,
        "card_no"@,
        "iin"@,
        "primary account"@,
        "payment"@,
        "cardholder"@,
        "כרטיס"@,
        "אשראי"@,
        "מספר"@,
    ]
}

/// Exactly these are the card words that are looked for.
pub proof fn law_card_words(k: int)
    requires
        0 <= k < 22,
    ensures
        KEYWORDS@.len() == 22,
        card_words().len() == 22,
        KEYWORDS@[k]@ == card_words()[k],
        keyword(k) == encode_utf8(card_words()[k]),
{
}

/// The `k`th card word stands at `at` in a buffer, in capitals, in small letters or in both.
pub open spec fn word_stands(s: Seq<u8>, k: int, at: int) -> bool {
    let word = encode_utf8(card_words()[k]);
    &&& 0 <= k < 22
    &&& 0 <= at <= s.len() - word.len()
    &&& forall|i: int|
        0 <= i < word.len() ==> #[trigger] word[i] == if 65 <= s[at + i] && s[at + i] < 91 {
            s[at + i] + 32
        } else {
            s[at + i] as int
        }
}

/// A card word at `at` ends no later than 256 bytes behind a candidate, and starts no earlier
/// than 256 bytes before it.
pub open spec fn word_in_reach(k: int, at: int, start: int, end: int) -> bool {
    start - 256 <= at && at + encode_utf8(card_words()[k]).len() <= end + 256
}

/// How many bytes stand between a card word at `at` and a candidate.
pub open spec fn bytes_between(k: int, at: int, start: int, end: int) -> int {
    let stop = at + encode_utf8(card_words()[k]).len();
    if stop < start {
        start - stop
    } else if end < at {
        at - end
    } else {
        0
    }
}

/// What the words around a candidate are, in the buffer and in what is searched.
proof fn lemma_word_stands(s: Seq<u8>, start: int, end: int, k: int, at: int)
    requires
        0 <= start <= end <= s.len(),
        end - start <= 32,
    ensures
        ({
            let lo = window_start(start, KEYWORD_WINDOW as int);
            keyword_at(keyword_text(s, start, end), k, at - lo) <==> word_stands(s, k, at)
                && word_in_reach(k, at, start, end)
        }),
{
    let lo = window_start(start, KEYWORD_WINDOW as int);
    let text = keyword_text(s, start, end);
    if 0 <= k < 22 {
        law_card_words(k);
        let word = keyword(k);
        law_text_stands_byte_by_byte(text, word, at - lo);
        if keyword_at(text, k, at - lo) {
            assert forall|i: int| 0 <= i < word.len() implies #[trigger] word[i] == if 65 <= s[at
                + i] && s[at + i] < 91 {
                s[at + i] + 32
            } else {
                s[at + i] as int
            } by {
                assert(text[at - lo + i] == word[i]);
                assert(text[at - lo + i] == lower(s[at + i]));
            }
        }
        if word_stands(s, k, at) && word_in_reach(k, at, start, end) {
            assert forall|i: int| 0 <= i < word.len() implies text[at - lo + i]
                == #[trigger] word[i] by {
                assert(text[at - lo + i] == lower(s[at + i]));
            }
        }
    }
}

/// Some card word is at most `d` bytes away.
spec fn some_within(text: Seq<u8>, from: int, to: int, d: int) -> bool {
    exists|k: int, at: int| #[trigger]
        keyword_at(text, k, at) && gap(at, keyword(k).len() as int, from, to) <= d
}

proof fn lemma_least_gap(text: Seq<u8>, from: int, to: int, d: nat) -> (least: nat)
    requires
        some_within(text, from, to, d as int),
    ensures
        least <= d,
        exists|k: int, at: int| #[trigger]
            keyword_at(text, k, at) && gap(at, keyword(k).len() as int, from, to) == least,
        forall|k: int, at: int| #[trigger]
            keyword_at(text, k, at) ==> least <= gap(at, keyword(k).len() as int, from, to),
    decreases d,
{
    if d > 0 && some_within(text, from, to, d - 1) {
        lemma_least_gap(text, from, to, (d - 1) as nat)
    } else {
        let (k, at) = choose|k: int, at: int| #[trigger]
            keyword_at(text, k, at) && gap(at, keyword(k).len() as int, from, to) <= d;
        assert(gap(at, keyword(k).len() as int, from, to) == d);
        d
    }
}

/// There is a keyword distance.
proof fn lemma_keyword_distance_exists(s: Seq<u8>, start: int, end: int)
    requires
        0 <= start <= end <= s.len(),
    ensures
        is_keyword_distance(s, start, end, keyword_distance_of(s, start, end)),
{
    let text = keyword_text(s, start, end);
    let lo = window_start(start, KEYWORD_WINDOW as int);
    let from = start - lo;
    let to = end - lo;
    if exists|k: int, at: int| #[trigger] keyword_at(text, k, at) {
        let (k, at) = choose|k: int, at: int| #[trigger] keyword_at(text, k, at);
        let d = gap(at, keyword(k).len() as int, from, to);
        assert(occurs_at(text, keyword(k), at));
        assert(some_within(text, from, to, d));
        let least = lemma_least_gap(text, from, to, d as nat);
        assert(least <= 544);
        assert(is_keyword_distance(s, start, end, Some(least as u16)));
    } else {
        assert(is_keyword_distance(s, start, end, None));
    }
}

/// The distance is that of the nearest of all card words in reach, wherever they stand and in
/// whichever case: none of them is nearer, and one of them is as near. Without a card word in
/// reach there is no distance. This is so for everything as long as a candidate may be.
pub proof fn law_distance_is_that_of_the_nearest_word(s: Seq<u8>, start: int, end: int)
    requires
        0 <= start <= end <= s.len(),
        end - start <= 32,
    ensures
        forall|k: int, at: int| #[trigger]
            word_stands(s, k, at) && word_in_reach(k, at, start, end) ==> {
                &&& keyword_distance_of(s, start, end) is Some
                &&& keyword_distance_of(s, start, end)->0 <= bytes_between(k, at, start, end)
            },
        keyword_distance_of(s, start, end) is Some ==> exists|k: int, at: int| #[trigger]
            word_stands(s, k, at) && word_in_reach(k, at, start, end) && keyword_distance_of(
                s,
                start,
                end,
            )->0 == bytes_between(k, at, start, end),
{
    let lo = window_start(start, KEYWORD_WINDOW as int);
    let text = keyword_text(s, start, end);
    let r = keyword_distance_of(s, start, end);
    lemma_keyword_distance_exists(s, start, end);
    assert forall|k: int, at: int| #[trigger]
        word_stands(s, k, at) && word_in_reach(k, at, start, end) implies r is Some && r->0
        <= bytes_between(k, at, start, end) by {
        lemma_word_stands(s, start, end, k, at);
        law_card_words(k);
        assert(keyword_at(text, k, at - lo));
    }
    if r is Some {
        let (k, p) = choose|k: int, p: int| #[trigger]
            keyword_at(text, k, p) && r->0 == gap(p, keyword(k).len() as int, start - lo, end - lo);
        lemma_word_stands(s, start, end, k, p + lo);
        law_card_words(k);
        assert(word_stands(s, k, p + lo));
    }
}

/// Bytes that are the same but for the case of a letter.
pub open spec fn same_but_for_case(a: u8, b: u8) -> bool {
    a == b || 65 <= a <= 90 && b == a + 32 || 65 <= b <= 90 && a == b + 32
}

/// The case of letters does not matter: buffers that differ in it alone have the same distances.
pub proof fn law_case_does_not_matter(a: Seq<u8>, b: Seq<u8>, start: int, end: int)
    requires
        a.len() == b.len(),
        forall|i: int| 0 <= i < a.len() ==> same_but_for_case(#[trigger] a[i], b[i]),
        0 <= start <= end <= a.len(),
    ensures
        keyword_distance_of(a, start, end) == keyword_distance_of(b, start, end),
{
    let x = keyword_text(a, start, end);
    let y = keyword_text(b, start, end);
    let lo = window_start(start, KEYWORD_WINDOW as int);
    assert forall|j: int| 0 <= j < x.len() implies x[j] == y[j] by {
        assert(same_but_for_case(a[lo + j], b[lo + j]));
        assert(x[j] == lower(a[lo + j]) && y[j] == lower(b[lo + j]));
    }
    assert(x =~= y);
    lemma_keyword_distance_exists(a, start, end);
    lemma_keyword_distance_exists(b, start, end);
    lemma_keyword_distance_unique(
        a,
        start,
        end,
        keyword_distance_of(a, start, end),
        keyword_distance_of(b, start, end),
    );
}

/// What stands more than 256 bytes before a candidate, or behind it, does not matter for the
/// distance.
pub proof fn law_far_bytes_do_not_matter(
    before: Seq<u8>,
    near: Seq<u8>,
    after: Seq<u8>,
    start: int,
    end: int,
)
    requires
        256 <= start <= end <= near.len() - 256,
    ensures
        keyword_distance_of(before + near + after, before.len() + start, before.len() + end)
            == keyword_distance_of(near, start, end),
{
    let s = before + near + after;
    let n = before.len() as int;
    let x = keyword_text(s, n + start, n + end);
    let y = keyword_text(near, start, end);
    assert forall|j: int| 0 <= j < y.len() implies x[j] == y[j] by {
        assert(s[n + start - 256 + j] == near[start - 256 + j]);
    }
    assert(x =~= y);
    lemma_keyword_distance_exists(s, n + start, n + end);
    lemma_keyword_distance_exists(near, start, end);
    let d = keyword_distance_of(s, n + start, n + end);
    assert(is_keyword_distance(near, start, end, d));
    lemma_keyword_distance_unique(near, start, end, d, keyword_distance_of(near, start, end));
}

} // verus!
