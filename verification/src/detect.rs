//! Detection: every run of digits, or of digits joined by single separators, that could be a
//! card number. This stage only proposes; what a proposal is worth is decided later.

use vstd::prelude::*;
use crate::bytes::{
    digit, find_first_digit, find_first_non_digit, is_digit, is_left_boundary, is_right_boundary,
    is_separator, left_boundary, right_boundary, separator,
};
use crate::grouping::{
    group_sizes, grouping_of, law_unseparated_text_is_one_group, separators, Grouping, GroupingView,
};
use crate::luhn::{lemma_sum_bound, luhn_ok, luhn_valid};

verus! {

/// The fewest digits of a card number that is looked for.
pub const MIN_DIGITS: usize = 14;

/// The most digits of a card number that is looked for.
pub const MAX_DIGITS: usize = 16;

/// The digits of a text, from left to right.
pub open spec fn digits_of(text: Seq<u8>) -> Seq<u8>
    decreases text.len(),
{
    if text.len() == 0 {
        seq![]
    } else if digit(text.last()) {
        digits_of(text.drop_last()).push(text.last())
    } else {
        digits_of(text.drop_last())
    }
}

/// Digits from `start` up to `end`, with at most one separator between any two of them.
pub open spec fn is_chain(s: Seq<u8>, start: int, end: int) -> bool {
    &&& 0 <= start < end <= s.len()
    &&& digit(s[start])
    &&& digit(s[end - 1])
    &&& forall|i: int| start <= i < end ==> digit(#[trigger] s[i]) || separator(s[i])
    &&& forall|i: int| start <= i < end - 1 ==> digit(#[trigger] s[i]) || digit(s[i + 1])
}

/// The bytes from `start` up to `end` could be a card number: a chain of 14 to 16 digits that
/// pass the Luhn check, with a boundary on both sides.
pub open spec fn is_pan_span(s: Seq<u8>, start: int, end: int) -> bool {
    &&& is_chain(s, start, end)
    &&& MIN_DIGITS <= digits_of(s.subrange(start, end)).len() <= MAX_DIGITS
    &&& left_boundary(s, start)
    &&& right_boundary(s, end)
    &&& luhn_valid(digits_of(s.subrange(start, end)))
}

/// A possible card number starts at `start`.
pub open spec fn starts_pan(s: Seq<u8>, start: int) -> bool {
    exists|end: int| is_pan_span(s, start, end)
}

/// Where the possible card number that starts at `start` ends. There is only one such end; see
/// [`law_span_end_is_unique`].
pub open spec fn pan_end(s: Seq<u8>, start: int) -> int {
    choose|end: int| is_pan_span(s, start, end)
}

/// A possible card number in a buffer.
#[derive(Clone, Debug)]
pub struct Candidate {
    /// The index of its first digit.
    pub offset: usize,
    /// Its digits, without the separators.
    pub pan: Vec<u8>,
    /// How separators group the digits.
    pub grouping: Grouping,
}

/// The mathematical content of a [`Candidate`].
#[verifier::ext_equal]
pub struct CandidateView {
    pub offset: int,
    pub pan: Seq<u8>,
    pub grouping: GroupingView,
}

impl CandidateView {
    /// The index just behind the last digit: the digits and the separators between their groups
    /// make up the bytes of a candidate.
    pub open spec fn end(self) -> int {
        self.offset + self.pan.len() + self.grouping.sizes.len() - 1
    }
}

impl View for Candidate {
    type V = CandidateView;

    open spec fn view(&self) -> CandidateView {
        CandidateView {
            offset: self.offset as int,
            pan: self.pan@,
            grouping: self.grouping@,
        }
    }
}

/// The candidate that is read off the bytes from `start` up to `end`.
pub open spec fn candidate_at(s: Seq<u8>, start: int, end: int) -> CandidateView {
    let text = s.subrange(start, end);
    CandidateView { offset: start, pan: digits_of(text), grouping: grouping_of(text) }
}

/// The candidates that start at `from` or later, from left to right.
pub open spec fn candidates(s: Seq<u8>, from: int) -> Seq<CandidateView>
    decreases s.len() - from,
{
    if from >= s.len() {
        seq![]
    } else if starts_pan(s, from) {
        seq![candidate_at(s, from, pan_end(s, from))] + candidates(s, from + 1)
    } else {
        candidates(s, from + 1)
    }
}

/// Digits behind a text extend its last group.
proof fn lemma_append_digits(text: Seq<u8>, run: Seq<u8>)
    requires
        forall|i: int| 0 <= i < run.len() ==> digit(#[trigger] run[i]),
    ensures
        digits_of(text + run) == digits_of(text) + run,
        separators(text + run) == separators(text),
        group_sizes(text).len() > 0,
        group_sizes(text + run) == group_sizes(text).update(
            group_sizes(text).len() - 1,
            group_sizes(text).last() + run.len(),
        ),
    decreases run.len(),
{
    lemma_sizes_len(text);
    let sizes = group_sizes(text);
    if run.len() == 0 {
        assert(text + run =~= text);
        assert(digits_of(text) + run =~= digits_of(text));
        assert(sizes.update(sizes.len() - 1, sizes.last() + 0) =~= sizes);
    } else {
        let shorter = run.drop_last();
        lemma_append_digits(text, shorter);
        assert((text + run).drop_last() =~= text + shorter);
        assert(digit(run.last()));
        assert(digits_of(text + run) =~= digits_of(text) + run);
        assert(group_sizes(text + run) =~= sizes.update(
            sizes.len() - 1,
            sizes.last() + run.len(),
        ));
    }
}

/// A separator behind a text opens a new group.
proof fn lemma_append_separator(text: Seq<u8>, sep: u8)
    requires
        separator(sep),
    ensures
        digits_of(text.push(sep)) == digits_of(text),
        separators(text.push(sep)) == separators(text).push(sep),
        group_sizes(text.push(sep)) == group_sizes(text).push(0),
{
    assert(text.push(sep).drop_last() =~= text);
}

/// There is one group more than there are separators.
proof fn lemma_sizes_len(text: Seq<u8>)
    ensures
        group_sizes(text).len() == separators(text).len() + 1,
    decreases text.len(),
{
    if text.len() > 0 {
        lemma_sizes_len(text.drop_last());
    }
}

/// In digits and separators, both together make up the length.
proof fn lemma_parts(text: Seq<u8>)
    requires
        forall|i: int| 0 <= i < text.len() ==> digit(#[trigger] text[i]) || separator(text[i]),
    ensures
        text.len() == digits_of(text).len() + separators(text).len(),
    decreases text.len(),
{
    if text.len() > 0 {
        assert(digit(text.last()) || separator(text.last()));
        assert forall|i: int| 0 <= i < text.drop_last().len() implies digit(
            #[trigger] text.drop_last()[i],
        ) || separator(text.drop_last()[i]) by {
            assert(text.drop_last()[i] == text[i]);
        }
        lemma_parts(text.drop_last());
    }
}

/// All that [`digits_of`] returns are digits.
proof fn lemma_digits_are_digits(text: Seq<u8>)
    ensures
        forall|i: int| 0 <= i < digits_of(text).len() ==> digit(#[trigger] digits_of(text)[i]),
    decreases text.len(),
{
    if text.len() > 0 {
        let before = digits_of(text.drop_last());
        lemma_digits_are_digits(text.drop_last());
        assert forall|i: int| 0 <= i < digits_of(text).len() implies digit(
            #[trigger] digits_of(text)[i],
        ) by {
            if i < before.len() {
                assert(digit(before[i]));
            }
        }
    }
}

/// A longer prefix has no fewer digits.
proof fn lemma_digits_grow(s: Seq<u8>, start: int, mid: int, end: int)
    requires
        0 <= start <= mid <= end <= s.len(),
    ensures
        digits_of(s.subrange(start, mid)).len() <= digits_of(s.subrange(start, end)).len(),
    decreases end - mid,
{
    if mid < end {
        lemma_digits_grow(s, start, mid, end - 1);
        assert(s.subrange(start, end).drop_last() =~= s.subrange(start, end - 1));
    }
}

/// The chain that ends before `end` is not continued there.
spec fn chain_stops(s: Seq<u8>, end: int) -> bool {
    end >= s.len() || {
        &&& !digit(s[end])
        &&& !(separator(s[end]) && end + 1 < s.len() && digit(s[end + 1]))
    }
}

/// A possible card number that starts where a chain starts is no shorter than the chain.
proof fn lemma_span_covers_chain(s: Seq<u8>, start: int, mid: int, end: int)
    requires
        is_chain(s, start, mid),
        is_pan_span(s, start, end),
    ensures
        mid <= end,
{
    if end < mid {
        assert(digit(s[end]) || separator(s[end]));
        assert(digit(s[end]) || digit(s[end + 1]));
    }
}

/// No possible card number starts inside a chain.
proof fn lemma_no_start_inside(s: Seq<u8>, start: int, end: int, at: int)
    requires
        is_chain(s, start, end),
        start < at < end,
    ensures
        !starts_pan(s, at),
{
    if starts_pan(s, at) {
        let e = choose|e: int| is_pan_span(s, at, e);
        assert(digit(s[at]));
        assert(digit(s[at - 1]) || separator(s[at - 1]));
        if separator(s[at - 1]) {
            assert(at - 1 > start);
            assert(digit(s[at - 2]) || digit(s[at - 2 + 1]));
        }
    }
}

/// A possible card number that starts where a chain starts is the whole chain.
proof fn lemma_span_is_chain(s: Seq<u8>, start: int, mid: int, end: int)
    requires
        is_chain(s, start, mid),
        chain_stops(s, mid),
        is_pan_span(s, start, end),
    ensures
        mid == end,
{
    lemma_span_covers_chain(s, start, mid, end);
    if mid < end {
        assert(digit(s[mid]) || separator(s[mid]));
        assert(digit(s[mid]) || digit(s[mid + 1]));
    }
}

/// Where nothing starts, nothing is skipped.
proof fn lemma_skip(s: Seq<u8>, from: int, to: int)
    requires
        0 <= from <= to <= s.len(),
        forall|at: int| from <= at < to ==> !#[trigger] starts_pan(s, at),
    ensures
        candidates(s, from) == candidates(s, to),
    decreases to - from,
{
    if from < to {
        assert(!starts_pan(s, from));
        lemma_skip(s, from + 1, to);
    }
}

/// Where the run of digits at `from` ends.
fn run_end(data: &[u8], from: usize) -> (r: usize)
    requires
        from <= data@.len(),
    ensures
        from <= r <= data@.len(),
        forall|i: int| from <= i < r ==> digit(#[trigger] data@[i]),
        r < data@.len() ==> !digit(data@[r as int]),
{
    let n: usize = data.len();
    let rest: &[u8] = &data[from..n];
    match find_first_non_digit(rest) {
        Some(len) => {
            proof {
                assert forall|i: int| from <= i < from + len implies digit(#[trigger] data@[i]) by {
                    assert(digit(rest@[i - from]));
                }
                assert(data@[from + len] == rest@[len as int]);
            }
            from + len
        },
        None => {
            proof {
                assert forall|i: int| from <= i < n implies digit(#[trigger] data@[i]) by {
                    assert(digit(rest@[i - from]));
                }
            }
            n
        },
    }
}

/// Appends the bytes from `from` up to `to`.
fn push_range(pan: &mut Vec<u8>, data: &[u8], from: usize, to: usize)
    requires
        from <= to <= data@.len(),
    ensures
        final(pan)@ == old(pan)@ + data@.subrange(from as int, to as int),
{
    let ghost before = pan@;
    let mut i: usize = from;
    proof {
        assert(before + data@.subrange(from as int, from as int) =~= before);
    }
    while i < to
        invariant
            from <= i <= to <= data@.len(),
            pan@ == before + data@.subrange(from as int, i as int),
        decreases to - i,
    {
        pan.push(data[i]);
        proof {
            assert(pan@ =~= before + data@.subrange(from as int, i + 1));
        }
        i += 1;
    }
}

/// What a scan of a chain knows of the separators behind it.
spec fn seps_seen(seps: Seq<u8>, sep: u8, mixed_sep: bool) -> bool {
    &&& sep == if seps.len() == 0 {
        0
    } else {
        seps[0]
    }
    &&& forall|i: int| 0 <= i < seps.len() ==> separator(#[trigger] seps[i])
    &&& mixed_sep == exists|i: int| 0 <= i < seps.len() && #[trigger] seps[i] != seps[0]
}

/// One more separator.
proof fn lemma_seps_push(seps: Seq<u8>, sep: u8, mixed_sep: bool, next: u8)
    requires
        seps_seen(seps, sep, mixed_sep),
        separator(next),
    ensures
        seps_seen(
            seps.push(next),
            if sep == 0 {
                next
            } else {
                sep
            },
            mixed_sep || (sep != 0 && sep != next),
        ),
{
    let more = seps.push(next);
    if seps.len() > 0 {
        assert(separator(seps[0]));
    }
    if mixed_sep {
        let i = choose|i: int| 0 <= i < seps.len() && #[trigger] seps[i] != seps[0];
        assert(more[i] != more[0]);
    } else if sep != 0 && sep != next {
        assert(more[seps.len() as int] != more[0]);
    } else {
        assert forall|i: int| 0 <= i < more.len() implies #[trigger] more[i] == more[0] by {
            if i < seps.len() {
                assert(seps[i] == seps[0]);
            }
        }
    }
}

/// A chain, a separator and a run of digits make a chain.
proof fn lemma_chain_grows(s: Seq<u8>, start: int, mid: int, end: int)
    requires
        is_chain(s, start, mid),
        mid + 1 < end <= s.len(),
        separator(s[mid]),
        forall|i: int| mid + 1 <= i < end ==> digit(#[trigger] s[i]),
    ensures
        is_chain(s, start, end),
        ({
            let text = s.subrange(start, mid);
            let more = s.subrange(start, end);
            &&& digits_of(more) == digits_of(text) + s.subrange(mid + 1, end)
            &&& separators(more) == separators(text).push(s[mid])
            &&& group_sizes(more) == group_sizes(text).push((end - mid - 1) as nat)
        }),
{
    let text = s.subrange(start, mid);
    let run = s.subrange(mid + 1, end);
    lemma_append_separator(text, s[mid]);
    assert forall|i: int| 0 <= i < run.len() implies digit(#[trigger] run[i]) by {
        assert(digit(s[mid + 1 + i]));
    }
    lemma_append_digits(text.push(s[mid]), run);
    assert(s.subrange(start, end) =~= text.push(s[mid]) + run);
    assert(group_sizes(s.subrange(start, end)) =~= group_sizes(text).push(
        (end - mid - 1) as nat,
    ));
    assert forall|i: int| start <= i < end - 1 implies digit(#[trigger] s[i]) || digit(
        s[i + 1],
    ) by {
        if i == mid {
            assert(digit(s[mid + 1]));
        }
    }
}

/// The chain that starts at `start`: where it ends and, unless it has more than 16 digits, its
/// digits and their grouping. A chain of more digits is followed only until that shows.
fn chain_from(data: &[u8], start: usize) -> (r: (usize, Option<(Vec<u8>, Grouping)>))
    requires
        start < data@.len(),
        digit(data@[start as int]),
    ensures
        is_chain(data@, start as int, r.0 as int),
        match r.1 {
            Some((pan, grouping)) => {
                let text = data@.subrange(start as int, r.0 as int);
                &&& pan@ == digits_of(text)
                &&& pan@.len() <= MAX_DIGITS
                &&& grouping@ == grouping_of(text)
                &&& chain_stops(data@, r.0 as int)
            },
            None => digits_of(data@.subrange(start as int, r.0 as int)).len() > MAX_DIGITS,
        },
{
    let n: usize = data.len();
    let mut i: usize = run_end(data, start);
    let ghost s = data@;
    proof {
        let run = s.subrange(start as int, i as int);
        let none = Seq::<u8>::empty();
        assert forall|k: int| 0 <= k < run.len() implies digit(#[trigger] run[k]) by {
            assert(digit(s[start + k]));
        }
        lemma_append_digits(none, run);
        assert(none + run =~= run);
        assert(digits_of(run) =~= run);
        assert(group_sizes(run) =~= seq![run.len()]);
    }
    if i - start > MAX_DIGITS {
        return (i, None);
    }
    let mut pan: Vec<u8> = Vec::new();
    push_range(&mut pan, data, start, i);
    let mut sizes: Vec<u8> = Vec::new();
    sizes.push((i - start) as u8);
    let mut sep: u8 = 0;
    let mut mixed_sep: bool = false;
    proof {
        assert(pan@ =~= s.subrange(start as int, i as int));
        assert(sizes@.map_values(|size: u8| size as nat) =~= group_sizes(
            s.subrange(start as int, i as int),
        ));
    }
    while i < n && n - i > 1 && is_separator(data[i]) && is_digit(data[i + 1])
        invariant
            s == data@,
            n == s.len(),
            is_chain(s, start as int, i as int),
            i < n ==> !digit(s[i as int]),
            pan@ == digits_of(s.subrange(start as int, i as int)),
            pan@.len() <= MAX_DIGITS,
            sizes@.map_values(|size: u8| size as nat) == group_sizes(
                s.subrange(start as int, i as int),
            ),
            seps_seen(separators(s.subrange(start as int, i as int)), sep, mixed_sep),
        decreases n - i,
    {
        let here: u8 = data[i];
        let ghost text = s.subrange(start as int, i as int);
        let next_end: usize = run_end(data, i + 1);
        proof {
            lemma_chain_grows(s, start as int, i as int, next_end as int);
            lemma_seps_push(separators(text), sep, mixed_sep, here);
        }
        if sep == 0 {
            sep = here;
        } else if sep != here {
            mixed_sep = true;
        }
        let next_len: usize = next_end - (i + 1);
        if next_len > MAX_DIGITS - pan.len() {
            return (next_end, None);
        }
        push_range(&mut pan, data, i + 1, next_end);
        let ghost before = sizes@;
        sizes.push(next_len as u8);
        proof {
            assert(sizes@.map_values(|size: u8| size as nat) =~= before.map_values(
                |size: u8| size as nat,
            ).push(next_len as nat));
        }
        i = next_end;
    }
    let grouping = Grouping { sizes, sep, mixed_sep };
    (i, Some((pan, grouping)))
}

impl Candidate {
    /// The index just behind the last digit.
    pub fn span_end(&self) -> (r: usize)
        requires
            self@.grouping.sizes.len() > 0,
            self@.end() <= usize::MAX,
        ensures
            r == self@.end(),
    {
        self.offset + self.pan.len() + (self.grouping.sizes.len() - 1)
    }
}

/// The first candidate that starts at `from` or later, and where to look for the one after it.
pub fn next_pan_candidate(data: &[u8], from: usize) -> (r: Option<(Candidate, usize)>)
    requires
        from <= data@.len(),
    ensures
        match r {
            Some((candidate, next)) => {
                &&& from < next <= data@.len()
                &&& candidates(data@, from as int) == seq![candidate@] + candidates(
                    data@,
                    next as int,
                )
            },
            None => candidates(data@, from as int) == Seq::<CandidateView>::empty(),
        },
{
    let n: usize = data.len();
    let ghost s = data@;
    let mut i: usize = from;
    loop
        invariant
            s == data@,
            n == s.len(),
            from <= i <= n,
            candidates(s, from as int) == candidates(s, i as int),
        decreases n - i,
    {
        let rest: &[u8] = &data[i..n];
        let start: usize = match find_first_digit(rest) {
            Some(off) => i + off,
            None => {
                proof {
                    assert forall|at: int| i <= at < n implies !#[trigger] starts_pan(s, at) by {
                        assert(!digit(rest@[at - i]));
                    }
                    lemma_skip(s, i as int, n as int);
                }
                return None;
            },
        };
        proof {
            assert(s[start as int] == rest@[start - i]);
            assert forall|at: int| i <= at < start implies !#[trigger] starts_pan(s, at) by {
                assert(!digit(rest@[at - i]));
            }
            lemma_skip(s, i as int, start as int);
        }
        let (end, found) = chain_from(data, start);
        proof {
            assert forall|at: int| start < at < end implies !#[trigger] starts_pan(s, at) by {
                lemma_no_start_inside(s, start as int, end as int, at);
            }
            lemma_skip(s, start + 1, end as int);
        }
        if let Some((pan, grouping)) = found {
            proof {
                lemma_digits_are_digits(s.subrange(start as int, end as int));
                lemma_sum_bound(pan@);
            }
            if pan.len() >= MIN_DIGITS && is_left_boundary(data, start) && is_right_boundary(
                data,
                end,
            ) && luhn_ok(pan.as_slice()) {
                proof {
                    assert(is_pan_span(s, start as int, end as int));
                    lemma_span_is_chain(s, start as int, end as int, pan_end(s, start as int));
                }
                return Some((Candidate { offset: start, pan, grouping }, end));
            }
            proof {
                if starts_pan(s, start as int) {
                    let e = choose|e: int| is_pan_span(s, start as int, e);
                    lemma_span_is_chain(s, start as int, end as int, e);
                }
            }
        } else {
            proof {
                if starts_pan(s, start as int) {
                    let e = choose|e: int| is_pan_span(s, start as int, e);
                    lemma_span_covers_chain(s, start as int, end as int, e);
                    lemma_digits_grow(s, start as int, end as int, e);
                }
            }
        }
        i = end;
    }
}

/// Every candidate of a buffer, from left to right.
pub fn for_each_pan_candidate(data: &[u8]) -> (r: Vec<Candidate>)
    ensures
        r@.map_values(|candidate: Candidate| candidate@) == candidates(data@, 0),
{
    let mut found: Vec<Candidate> = Vec::new();
    let mut i: usize = 0;
    let ghost all = candidates(data@, 0);
    proof {
        assert(found@.map_values(|candidate: Candidate| candidate@) + all =~= all);
    }
    loop
        invariant
            i <= data@.len(),
            all == candidates(data@, 0),
            all == found@.map_values(|candidate: Candidate| candidate@) + candidates(
                data@,
                i as int,
            ),
        decreases data@.len() - i,
    {
        let ghost before = found@.map_values(|candidate: Candidate| candidate@);
        match next_pan_candidate(data, i) {
            Some((candidate, next)) => {
                let ghost shown = candidate@;
                found.push(candidate);
                i = next;
                proof {
                    let after = found@.map_values(|candidate: Candidate| candidate@);
                    assert(after =~= before.push(shown));
                    assert(after + candidates(data@, i as int) =~= all);
                }
            },
            None => {
                proof {
                    assert(before =~= all);
                }
                return found;
            },
        }
    }
}

/// A possible card number that starts at `start` has one end only.
pub proof fn law_span_end_is_unique(s: Seq<u8>, start: int, end: int, other: int)
    requires
        is_pan_span(s, start, end),
        is_pan_span(s, start, other),
    ensures
        end == other,
{
    lemma_span_covers_chain(s, start, end, other);
    lemma_span_covers_chain(s, start, other, end);
}

/// Two possible card numbers never share a byte.
pub proof fn law_spans_are_disjoint(s: Seq<u8>, start: int, end: int, start2: int, end2: int)
    requires
        is_pan_span(s, start, end),
        is_pan_span(s, start2, end2),
        start < start2,
    ensures
        end <= start2,
{
    if start2 < end {
        lemma_no_start_inside(s, start, end, start2);
    }
}

/// Every possible card number of a buffer is among its candidates, and every candidate is a
/// possible card number.
pub proof fn law_detection_is_exact(s: Seq<u8>, from: int)
    requires
        0 <= from,
    ensures
        forall|start: int, end: int|
            from <= start && is_pan_span(s, start, end) ==> candidates(s, from).contains(
                #[trigger] candidate_at(s, start, end),
            ),
        forall|i: int|
            0 <= i < candidates(s, from).len() ==> {
                let c = #[trigger] candidates(s, from)[i];
                &&& from <= c.offset < s.len()
                &&& is_pan_span(s, c.offset, pan_end(s, c.offset))
                &&& c == candidate_at(s, c.offset, pan_end(s, c.offset))
            },
    decreases s.len() - from,
{
    if from < s.len() {
        law_detection_is_exact(s, from + 1);
        let rest = candidates(s, from + 1);
        let all = candidates(s, from);
        let skipped = all.len() - rest.len();
        assert forall|start: int, end: int|
            from <= start && is_pan_span(s, start, end) implies all.contains(
            #[trigger] candidate_at(s, start, end),
        ) by {
            if start == from {
                assert(starts_pan(s, from));
                law_span_end_is_unique(s, start, end, pan_end(s, from));
                assert(all[0] == candidate_at(s, start, end));
            } else {
                let k = choose|k: int| 0 <= k < rest.len() && rest[k] == candidate_at(
                    s,
                    start,
                    end,
                );
                assert(rest.contains(candidate_at(s, start, end)));
                assert(all[k + skipped] == candidate_at(s, start, end));
            }
        }
        assert forall|i: int| 0 <= i < all.len() implies {
            let c = #[trigger] all[i];
            &&& from <= c.offset < s.len()
            &&& is_pan_span(s, c.offset, pan_end(s, c.offset))
            &&& c == candidate_at(s, c.offset, pan_end(s, c.offset))
        } by {
            if i >= skipped {
                assert(all[i] == rest[i - skipped]);
            }
        }
    }
}

/// Candidates come in the order of their offsets, each offset once.
pub proof fn law_candidates_are_ordered(s: Seq<u8>, from: int, i: int, j: int)
    requires
        0 <= from,
        0 <= i < j < candidates(s, from).len(),
    ensures
        candidates(s, from)[i].offset < candidates(s, from)[j].offset,
    decreases s.len() - from,
{
    let rest = candidates(s, from + 1);
    if starts_pan(s, from) {
        assert(candidates(s, from)[j] == rest[j - 1]);
        if i == 0 {
            law_detection_is_exact(s, from + 1);
        } else {
            assert(candidates(s, from)[i] == rest[i - 1]);
            law_candidates_are_ordered(s, from + 1, i - 1, j - 1);
        }
    } else {
        law_candidates_are_ordered(s, from + 1, i, j);
    }
}

/// A chain has fewer separators than digits.
proof fn lemma_fewer_separators(s: Seq<u8>, start: int, end: int)
    requires
        is_chain(s, start, end),
    ensures
        separators(s.subrange(start, end)).len() < digits_of(s.subrange(start, end)).len(),
    decreases end - start,
{
    let text = s.subrange(start, end);
    let one = s.subrange(start, end - 1);
    assert(text.drop_last() =~= one);
    if end - start == 1 {
        assert(one =~= Seq::<u8>::empty());
        assert(digits_of(one).len() == 0 && separators(one).len() == 0);
    } else if digit(s[end - 2]) {
        lemma_fewer_separators(s, start, end - 1);
    } else {
        assert(separator(s[end - 2]));
        assert(digit(s[end - 3]) || digit(s[end - 3 + 1]));
        assert(one.drop_last() =~= s.subrange(start, end - 2));
        assert(digits_of(one) == digits_of(one.drop_last()));
        assert(separators(one) == separators(one.drop_last()).push(s[end - 2]));
        lemma_fewer_separators(s, start, end - 2);
    }
}

/// A suffix has no more digits than the whole.
proof fn lemma_digits_of_suffix(text: Seq<u8>, from: int)
    requires
        0 <= from <= text.len(),
    ensures
        digits_of(text.subrange(from, text.len() as int)).len() <= digits_of(text).len(),
    decreases text.len(),
{
    if from < text.len() {
        let suffix = text.subrange(from, text.len() as int);
        assert(suffix.drop_last() =~= text.drop_last().subrange(from, text.len() - 1));
        lemma_digits_of_suffix(text.drop_last(), from);
    }
}

/// A chain of more than 16 digits is discarded as a whole: no possible card number shares a
/// byte with it. So two numbers with one separator between them hide each other.
pub proof fn law_long_chain_is_discarded(
    s: Seq<u8>,
    start: int,
    end: int,
    pan_start: int,
    pan_stop: int,
)
    requires
        is_chain(s, start, end),
        digits_of(s.subrange(start, end)).len() > MAX_DIGITS,
        is_pan_span(s, pan_start, pan_stop),
    ensures
        pan_stop <= start || end <= pan_start,
{
    if start < pan_start < end {
        lemma_no_start_inside(s, start, end, pan_start);
    } else if pan_start <= start < pan_stop {
        if pan_stop < end {
            assert(digit(s[pan_stop]) || separator(s[pan_stop]));
            assert(digit(s[pan_stop]) || digit(s[pan_stop + 1]));
        }
        let text = s.subrange(pan_start, pan_stop);
        lemma_digits_of_suffix(text, start - pan_start);
        assert(text.subrange(start - pan_start, text.len() as int) =~= s.subrange(
            start,
            pan_stop,
        ));
        lemma_digits_grow(s, start, end, pan_stop);
    }
}

/// What every candidate of a buffer is like: it lies in the buffer, has 14 to 16 digits that
/// pass the Luhn check, and with its separators spans no more than 31 bytes.
pub proof fn law_candidate_is_sound(s: Seq<u8>, from: int, i: int)
    requires
        0 <= from,
        0 <= i < candidates(s, from).len(),
    ensures
        ({
            let c = candidates(s, from)[i];
            &&& from <= c.offset < c.end() <= s.len()
            &&& c.end() - c.offset <= 31
            &&& is_pan_span(s, c.offset, c.end())
            &&& c == candidate_at(s, c.offset, c.end())
            &&& MIN_DIGITS <= c.pan.len() <= MAX_DIGITS
            &&& forall|k: int| 0 <= k < c.pan.len() ==> digit(#[trigger] c.pan[k])
            &&& luhn_valid(c.pan)
            &&& 0 < c.grouping.sizes.len() <= c.pan.len()
        }),
{
    law_detection_is_exact(s, from);
    let c = candidates(s, from)[i];
    let end = pan_end(s, c.offset);
    law_span_length(s, c.offset, end);
    lemma_fewer_separators(s, c.offset, end);
    lemma_sizes_len(s.subrange(c.offset, end));
    lemma_digits_are_digits(s.subrange(c.offset, end));
}

/// The digits of a candidate and the separators between its groups make up its bytes.
pub proof fn law_span_length(s: Seq<u8>, start: int, end: int)
    requires
        is_chain(s, start, end),
    ensures
        ({
            let c = candidate_at(s, start, end);
            c.end() == end
        }),
{
    let text = s.subrange(start, end);
    assert forall|i: int| 0 <= i < text.len() implies digit(#[trigger] text[i]) || separator(
        text[i],
    ) by {
        assert(text[i] == s[start + i]);
    }
    lemma_parts(text);
    lemma_sizes_len(text);
}

/// What is a digit by its code.
pub open spec fn is_digit_code() -> spec_fn(u8) -> bool {
    |b: u8| 48 <= b <= 57
}

/// The digits of a text are its bytes from 48 to 57, in their order, and no others.
pub proof fn law_digits_are_picked_by_code(text: Seq<u8>)
    ensures
        digits_of(text) == text.filter(is_digit_code()),
    decreases text.len(),
{
    reveal(Seq::filter);
    if text.len() > 0 {
        law_digits_are_picked_by_code(text.drop_last());
    }
}

/// A string of digits is all digits, and what stands in two parts has the digits of both.
pub proof fn law_digits_of_parts(a: Seq<u8>, b: Seq<u8>)
    ensures
        digits_of(a + b) == digits_of(a) + digits_of(b),
    decreases b.len(),
{
    if b.len() == 0 {
        assert(a + b =~= a);
        assert(digits_of(a) + digits_of(b) =~= digits_of(a));
    } else {
        law_digits_of_parts(a, b.drop_last());
        assert((a + b).drop_last() =~= a + b.drop_last());
        assert(digits_of(a + b) =~= digits_of(a) + digits_of(b));
    }
}

/// The bytes from `start` up to `end` are digits with at most one space, dash or dot between two
/// of them.
pub open spec fn typed_digits(s: Seq<u8>, start: int, end: int) -> bool {
    &&& 0 <= start < end <= s.len()
    &&& is_digit_code()(s[start]) && is_digit_code()(s[end - 1])
    &&& forall|i: int|
        start <= i < end ==> {
            let b = #[trigger] s[i];
            48 <= b <= 57 || (b == 0x20 || b == 0x2d || b == 0x2e) && 48 <= s[i + 1] <= 57
        }
}

proof fn lemma_typed_digits_are_a_chain(s: Seq<u8>, start: int, end: int)
    ensures
        typed_digits(s, start, end) <==> is_chain(s, start, end),
{
    if is_chain(s, start, end) {
        assert forall|i: int| start <= i < end implies {
            let b = #[trigger] s[i];
            48 <= b <= 57 || (b == 0x20 || b == 0x2d || b == 0x2e) && 48 <= s[i + 1] <= 57
        } by {
            assert(digit(s[i]) || separator(s[i]));
            if i < end - 1 {
                assert(digit(s[i]) || digit(s[i + 1]));
            }
        }
    }
    if typed_digits(s, start, end) {
        assert forall|i: int| start <= i < end implies digit(#[trigger] s[i]) || separator(
            s[i],
        ) by {}
        assert forall|i: int| start <= i < end - 1 implies digit(#[trigger] s[i]) || digit(
            s[i + 1],
        ) by {}
    }
}

/// Every typed card number is detected, as it stands: 14 to 16 digits that pass the Luhn check,
/// with single separators between them or with none, and a boundary on both sides.
pub proof fn law_typed_number_is_detected(s: Seq<u8>, start: int, end: int)
    requires
        typed_digits(s, start, end),
        14 <= s.subrange(start, end).filter(is_digit_code()).len() <= 16,
        luhn_valid(s.subrange(start, end).filter(is_digit_code())),
        left_boundary(s, start),
        right_boundary(s, end),
    ensures
        candidates(s, 0).contains(
            (CandidateView {
                offset: start,
                pan: s.subrange(start, end).filter(is_digit_code()),
                grouping: grouping_of(s.subrange(start, end)),
            }),
        ),
{
    lemma_typed_digits_are_a_chain(s, start, end);
    law_digits_are_picked_by_code(s.subrange(start, end));
    law_detection_is_exact(s, 0);
    assert(is_pan_span(s, start, end));
    assert(candidates(s, 0).contains(candidate_at(s, start, end)));
}

/// A run of 14 to 16 digits that passes the Luhn check, with a boundary on both sides, is
/// detected, as one group.
pub proof fn law_plain_number_is_detected(before: Seq<u8>, number: Seq<u8>, after: Seq<u8>)
    requires
        14 <= number.len() <= 16,
        forall|i: int| 0 <= i < number.len() ==> 48 <= #[trigger] number[i] <= 57,
        luhn_valid(number),
        left_boundary(before + number + after, before.len() as int),
        right_boundary(before + number + after, (before.len() + number.len()) as int),
    ensures
        candidates(before + number + after, 0).contains(
            (CandidateView {
                offset: before.len() as int,
                pan: number,
                grouping: GroupingView { sizes: seq![number.len()], sep: 0, mixed_sep: false },
            }),
        ),
{
    let s = before + number + after;
    let start = before.len() as int;
    let end = (before.len() + number.len()) as int;
    assert(s.subrange(start, end) =~= number);
    assert forall|i: int| start <= i < end implies 48 <= #[trigger] s[i] <= 57 by {
        assert(s[i] == number[i - start]);
    }
    assert(typed_digits(s, start, end));
    lemma_all_digits_stay(number);
    law_unseparated_text_is_one_group(number);
    law_typed_number_is_detected(s, start, end);
}

proof fn lemma_all_digits_stay(number: Seq<u8>)
    requires
        forall|i: int| 0 <= i < number.len() ==> 48 <= #[trigger] number[i] <= 57,
    ensures
        number.filter(is_digit_code()) == number,
    decreases number.len(),
{
    reveal(Seq::filter);
    if number.len() > 0 {
        let fewer = number.drop_last();
        assert forall|i: int| 0 <= i < fewer.len() implies 48 <= #[trigger] fewer[i] <= 57 by {
            assert(fewer[i] == number[i]);
        }
        lemma_all_digits_stay(fewer);
        assert(fewer.push(number.last()) =~= number);
    }
}

/// Nothing else is detected: every candidate is a typed card number with a boundary on both
/// sides, and its number and its groups are read off its bytes.
pub proof fn law_only_typed_numbers_are_detected(s: Seq<u8>, i: int)
    requires
        0 <= i < candidates(s, 0).len(),
    ensures
        ({
            let c = candidates(s, 0)[i];
            &&& typed_digits(s, c.offset, c.end())
            &&& c.pan == s.subrange(c.offset, c.end()).filter(is_digit_code())
            &&& 14 <= c.pan.len() <= 16
            &&& luhn_valid(c.pan)
            &&& left_boundary(s, c.offset)
            &&& right_boundary(s, c.end())
            &&& c.grouping == grouping_of(s.subrange(c.offset, c.end()))
        }),
{
    law_candidate_is_sound(s, 0, i);
    let c = candidates(s, 0)[i];
    lemma_typed_digits_are_a_chain(s, c.offset, c.end());
    law_digits_are_picked_by_code(s.subrange(c.offset, c.end()));
}

/// Where a candidate stands does not depend on what stands further away: bytes before the last
/// two on its left, and behind the next two on its right, change nothing.
pub proof fn law_detection_is_local(
    before: Seq<u8>,
    near_left: Seq<u8>,
    text: Seq<u8>,
    near_right: Seq<u8>,
    after: Seq<u8>,
)
    requires
        near_left.len() >= 2,
        near_right.len() >= 2,
        starts_pan(near_left + text + near_right, near_left.len() as int),
        pan_end(near_left + text + near_right, near_left.len() as int) == near_left.len()
            + text.len(),
    ensures
        candidates(before + near_left + text + near_right + after, 0).contains(
            candidate_at(
                before + near_left + text + near_right + after,
                (before.len() + near_left.len()) as int,
                (before.len() + near_left.len() + text.len()) as int,
            ),
        ),
{
    let small = near_left + text + near_right;
    let large = before + near_left + text + near_right + after;
    let from = near_left.len() as int;
    let to = (near_left.len() + text.len()) as int;
    let shift = before.len() as int;
    assert(is_pan_span(small, from, to));
    assert forall|i: int| 0 <= i < small.len() implies #[trigger] small[i] == large[shift + i] by {}
    assert(small.subrange(from, to) =~= large.subrange(shift + from, shift + to));
    assert(digit(small[from]) && digit(small[to - 1]));
    assert forall|i: int| shift + from <= i < shift + to implies digit(#[trigger] large[i])
        || separator(large[i]) by {
        assert(small[i - shift] == large[i]);
    }
    assert forall|i: int| shift + from <= i < shift + to - 1 implies digit(#[trigger] large[i])
        || digit(large[i + 1]) by {
        assert(small[i - shift] == large[i]);
        assert(small[i - shift + 1] == large[i + 1]);
    }
    assert(small[from - 1] == large[shift + from - 1] && small[from - 2] == large[shift + from
        - 2]);
    assert(small[to] == large[shift + to] && small[to + 1] == large[shift + to + 1]);
    assert(is_pan_span(large, shift + from, shift + to));
    law_detection_is_exact(large, 0);
}

} // verus!
