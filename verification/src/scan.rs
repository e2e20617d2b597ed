//! The scan of one buffer: every card number in it, each reported once.

use vstd::prelude::*;
use crate::bytes::digit;
use crate::classify::{
    classify, decide, law_implausible_numbers_are_rejected, law_issued_numbers_are_accepted,
    law_strict_only_removes, law_unissued_numbers_are_capped, plausible, score, signals_of,
    Confidence, Decision, PanSignals, RejectReason,
};
use crate::dedup::{key_of, law_keys_tell_numbers_apart, pan_key, DedupSet};
use crate::detect::{
    candidates, digits_of, is_pan_span, law_candidate_is_sound, law_candidates_are_ordered,
    next_pan_candidate, Candidate, CandidateView, MAX_DIGITS, MIN_DIGITS,
};
use crate::grouping::card_shaped;
use crate::luhn::luhn_valid;
use crate::scheme::{scheme_of, Scheme};
use crate::signals::{
    byte_counts, density_of, entropy_window, is_byte, is_histogram, keyword_distance_of,
    keyword_text, law_entropy_is_taken_over_128_bytes, law_occurrences_count_places, occurrences,
    window_end, window_start, KEYWORD_WINDOW,
};

verus! {

/// What to look for, and what to report.
#[derive(Clone, Debug)]
pub struct ScanOpts {
    /// Reject candidates that no known scheme issues.
    pub strict: bool,
    /// Files with more bytes than this are not read.
    pub max_bytes: u64,
    /// Keep the candidates that were rejected, with the reasons.
    pub debug: bool,
    /// The least confidence that is reported.
    pub min_confidence: Confidence,
}

/// A card number in a buffer.
#[derive(Clone, Debug)]
pub struct Hit {
    /// The index of its first digit.
    pub offset: usize,
    /// Its digits.
    pub pan: Vec<u8>,
    pub scheme: Option<Scheme>,
    pub confidence: Confidence,
}

/// The mathematical content of a [`Hit`].
#[verifier::ext_equal]
pub struct HitView {
    pub offset: int,
    pub pan: Seq<u8>,
    pub scheme: Option<Scheme>,
    pub confidence: Confidence,
}

impl View for Hit {
    type V = HitView;

    open spec fn view(&self) -> HitView {
        HitView {
            offset: self.offset as int,
            pan: self.pan@,
            scheme: self.scheme,
            confidence: self.confidence,
        }
    }
}

/// A candidate that was rejected.
#[derive(Clone, Debug)]
pub struct Rejection {
    /// The index of its first digit.
    pub offset: usize,
    /// Its digits.
    pub pan: Vec<u8>,
    pub reason: RejectReason,
    pub signals: PanSignals,
}

/// The mathematical content of a [`Rejection`].
#[verifier::ext_equal]
pub struct RejectionView {
    pub offset: int,
    pub pan: Seq<u8>,
    pub reason: RejectReason,
    pub signals: PanSignals,
}

impl View for Rejection {
    type V = RejectionView;

    open spec fn view(&self) -> RejectionView {
        RejectionView {
            offset: self.offset as int,
            pan: self.pan@,
            reason: self.reason,
            signals: self.signals,
        }
    }
}

/// What a scan found.
#[derive(Clone, Debug)]
pub struct ScanReport {
    /// The card numbers, from left to right.
    pub hits: Vec<Hit>,
    /// The candidates that were rejected, from left to right, if they were asked for.
    pub rejected: Vec<Rejection>,
}

impl ScanReport {
    pub open spec fn hit_views(self) -> Seq<HitView> {
        self.hits@.map_values(|hit: Hit| hit@)
    }

    pub open spec fn rejection_views(self) -> Seq<RejectionView> {
        self.rejected@.map_values(|rejection: Rejection| rejection@)
    }
}

/// The decision on a candidate, given the entropy of the bytes around it.
pub open spec fn verdict(s: Seq<u8>, c: CandidateView, entropy_bits: u32, strict: bool) -> Decision {
    decide(signals_of(s, c.offset, c.end(), c.pan, c.grouping, entropy_bits), strict)
}

/// A number was reported.
pub open spec fn reported(hits: Seq<HitView>, pan: Seq<u8>) -> bool {
    exists|i: int| 0 <= i < hits.len() && (#[trigger] hits[i]).pan == pan
}

/// The hits among the first candidates: those that are accepted with enough confidence, each
/// number where it is accepted first. `entropies` holds the entropy around each candidate.
pub open spec fn hits_among(
    s: Seq<u8>,
    found: Seq<CandidateView>,
    entropies: Seq<u32>,
    strict: bool,
    least: Confidence,
) -> Seq<HitView>
    decreases found.len(),
{
    if found.len() == 0 {
        seq![]
    } else {
        let before = hits_among(s, found.drop_last(), entropies, strict, least);
        let c = found.last();
        match verdict(s, c, entropies[found.len() - 1], strict) {
            Decision::Accept(confidence) => if confidence.level() >= least.level() && !reported(
                before,
                c.pan,
            ) {
                before.push(
                    HitView {
                        offset: c.offset,
                        pan: c.pan,
                        scheme: scheme_of(c.pan),
                        confidence,
                    },
                )
            } else {
                before
            },
            Decision::Reject(_) => before,
        }
    }
}

/// The rejected ones among the first candidates.
pub open spec fn rejections_among(
    s: Seq<u8>,
    found: Seq<CandidateView>,
    entropies: Seq<u32>,
    strict: bool,
) -> Seq<RejectionView>
    decreases found.len(),
{
    if found.len() == 0 {
        seq![]
    } else {
        let before = rejections_among(s, found.drop_last(), entropies, strict);
        let c = found.last();
        let entropy_bits = entropies[found.len() - 1];
        match verdict(s, c, entropy_bits, strict) {
            Decision::Accept(_) => before,
            Decision::Reject(reason) => before.push(
                RejectionView {
                    offset: c.offset,
                    pan: c.pan,
                    reason,
                    signals: signals_of(s, c.offset, c.end(), c.pan, c.grouping, entropy_bits),
                },
            ),
        }
    }
}

/// `entropy_bits` is what `entropy` may return for the byte counts around a candidate.
pub open spec fn measured<F: Fn(&[u32]) -> u32>(
    entropy: F,
    s: Seq<u8>,
    c: CandidateView,
    entropy_bits: u32,
) -> bool {
    exists|counts: &[u32]|
        is_histogram(counts@, entropy_window(s, c.offset, c.end())) && #[trigger] call_ensures(
            entropy,
            (counts,),
            entropy_bits,
        )
}

/// `entropies` holds what `entropy` may return for each candidate.
pub open spec fn all_measured<F: Fn(&[u32]) -> u32>(
    entropy: F,
    s: Seq<u8>,
    found: Seq<CandidateView>,
    entropies: Seq<u32>,
) -> bool {
    &&& entropies.len() == found.len()
    &&& forall|i: int|
        0 <= i < found.len() ==> #[trigger] measured(entropy, s, found[i], entropies[i])
}

/// Only the entropies of the candidates themselves matter.
proof fn lemma_more_entropies(
    s: Seq<u8>,
    found: Seq<CandidateView>,
    entropies: Seq<u32>,
    next: u32,
    strict: bool,
    least: Confidence,
)
    requires
        entropies.len() >= found.len(),
    ensures
        hits_among(s, found, entropies.push(next), strict, least) == hits_among(
            s,
            found,
            entropies,
            strict,
            least,
        ),
        rejections_among(s, found, entropies.push(next), strict) == rejections_among(
            s,
            found,
            entropies,
            strict,
        ),
    decreases found.len(),
{
    if found.len() > 0 {
        lemma_more_entropies(s, found.drop_last(), entropies, next, strict, least);
    }
}

/// The set holds the keys of the numbers that were reported, and no others.
spec fn remembers(seen: Set<Seq<u8>>, hits: Seq<HitView>) -> bool {
    &&& forall|i: int| 0 <= i < hits.len() ==> seen.contains(key_of((#[trigger] hits[i]).pan))
    &&& forall|key: Seq<u8>| #[trigger]
        seen.contains(key) ==> exists|i: int|
            0 <= i < hits.len() && key_of((#[trigger] hits[i]).pan) == key
}

/// Numbers of digits, short enough for a key.
spec fn keyed(pan: Seq<u8>) -> bool {
    pan.len() <= MAX_DIGITS && forall|k: int| 0 <= k < pan.len() ==> digit(#[trigger] pan[k])
}

proof fn lemma_reported_is_remembered(seen: Set<Seq<u8>>, hits: Seq<HitView>, pan: Seq<u8>)
    requires
        remembers(seen, hits),
        keyed(pan),
        forall|i: int| 0 <= i < hits.len() ==> keyed((#[trigger] hits[i]).pan),
    ensures
        seen.contains(key_of(pan)) == reported(hits, pan),
{
    if seen.contains(key_of(pan)) {
        let i = choose|i: int| 0 <= i < hits.len() && key_of((#[trigger] hits[i]).pan) == key_of(pan);
        assert(keyed(hits[i].pan));
        assert forall|k: int| 0 <= k < pan.len() implies #[trigger] pan[k] != 0 by {
            assert(digit(pan[k]));
        }
        let other = hits[i].pan;
        assert forall|k: int| 0 <= k < other.len() implies #[trigger] other[k] != 0 by {
            assert(digit(other[k]));
        }
        law_keys_tell_numbers_apart(pan, other);
    }
}

/// The report of a scan: the hits among all candidates, and the rejected ones if they were asked
/// for, with an entropy around each candidate that `entropy` may return.
pub open spec fn is_scan<F: Fn(&[u32]) -> u32>(
    entropy: F,
    s: Seq<u8>,
    opts: ScanOpts,
    r: ScanReport,
) -> bool {
    exists|entropies: Seq<u32>| #[trigger]
        all_measured(entropy, s, candidates(s, 0), entropies) && {
            &&& r.hit_views() == hits_among(
                s,
                candidates(s, 0),
                entropies,
                opts.strict,
                opts.min_confidence,
            )
            &&& r.rejection_views() == if opts.debug {
                rejections_among(s, candidates(s, 0), entropies, opts.strict)
            } else {
                seq![]
            }
        }
}

/// Every card number in `data`, from left to right, each where it is accepted first.
/// `entropy` turns the byte counts around a candidate into their Shannon entropy, in bits per
/// byte, encoded as an IEEE-754 single.
pub fn find_pans<F: Fn(&[u32]) -> u32>(data: &[u8], opts: &ScanOpts, entropy: F) -> (r: ScanReport)
    requires
        forall|counts: &[u32]| #[trigger] call_requires(entropy, (counts,)),
    ensures
        is_scan(entropy, data@, *opts, r),
{
    let n: usize = data.len();
    let ghost s = data@;
    let ghost all = candidates(s, 0);
    let ghost mut found: Seq<CandidateView> = seq![];
    let ghost mut entropies: Seq<u32> = seq![];
    let mut seen: DedupSet = DedupSet::new();
    let mut report: ScanReport = ScanReport { hits: Vec::new(), rejected: Vec::new() };
    let mut i: usize = 0;
    proof {
        assert(found + all =~= all);
        assert(report.hit_views() =~= seq![]);
        assert(report.rejection_views() =~= seq![]);
    }
    loop
        invariant
            s == data@,
            all == candidates(s, 0),
            i <= n == s.len(),
            forall|counts: &[u32]| #[trigger] call_requires(entropy, (counts,)),
            all == found + candidates(s, i as int),
            all_measured(entropy, s, found, entropies),
            report.hit_views() == hits_among(
                s,
                found,
                entropies,
                opts.strict,
                opts.min_confidence,
            ),
            report.rejection_views() == if opts.debug {
                rejections_among(s, found, entropies, opts.strict)
            } else {
                seq![]
            },
            seen.wf(),
            remembers(seen@, report.hit_views()),
            forall|k: int|
                0 <= k < report.hit_views().len() ==> keyed((#[trigger] report.hit_views()[k]).pan),
        decreases s.len() - i,
    {
        let (candidate, next): (Candidate, usize) = match next_pan_candidate(data, i) {
            Some(step) => step,
            None => {
                proof {
                    assert(found =~= all);
                }
                return report;
            },
        };
        let ghost c = candidate@;
        proof {
            law_candidate_is_sound(s, i as int, 0);
            assert(candidates(s, i as int)[0] == c);
        }
        let end: usize = candidate.span_end();
        let counts: Vec<u32> = byte_counts(data, candidate.offset, end);
        let entropy_bits: u32 = entropy(counts.as_slice());
        let signals: PanSignals = score(
            data,
            candidate.offset,
            end,
            candidate.pan.as_slice(),
            &candidate.grouping,
            entropy_bits,
        );
        let ghost hits_before = report.hit_views();
        let ghost rejected_before = report.rejection_views();
        let ghost found_before = found;
        proof {
            lemma_more_entropies(
                s,
                found,
                entropies,
                entropy_bits,
                opts.strict,
                opts.min_confidence,
            );
            assert(measured(entropy, s, c, entropy_bits));
            found = found.push(c);
            entropies = entropies.push(entropy_bits);
            assert(found.drop_last() =~= found_before);
            assert(all =~= found + candidates(s, next as int));
            assert forall|k: int| 0 <= k < found.len() implies #[trigger] measured(
                entropy,
                s,
                found[k],
                entropies[k],
            ) by {
                if k < found_before.len() {
                    assert(measured(entropy, s, found_before[k], entropies[k]));
                }
            }
        }
        match classify(&signals, opts.strict) {
            Decision::Reject(reason) => {
                if opts.debug {
                    let rejection = Rejection {
                        offset: candidate.offset,
                        pan: candidate.pan,
                        reason,
                        signals,
                    };
                    let ghost shown = rejection@;
                    report.rejected.push(rejection);
                    proof {
                        assert(report.rejection_views() =~= rejected_before.push(shown));
                    }
                }
            },
            Decision::Accept(confidence) => {
                if confidence.rank() >= opts.min_confidence.rank() {
                    proof {
                        lemma_reported_is_remembered(seen@, hits_before, c.pan);
                    }
                    if seen.insert(pan_key(candidate.pan.as_slice())) {
                        let hit = Hit {
                            offset: candidate.offset,
                            pan: candidate.pan,
                            scheme: signals.scheme,
                            confidence,
                        };
                        let ghost shown = hit@;
                        report.hits.push(hit);
                        proof {
                            let after = report.hit_views();
                            assert(after =~= hits_before.push(shown));
                            assert forall|key: Seq<u8>| #[trigger] seen@.contains(key) implies exists|
                                k: int,
                            | 0 <= k < after.len() && key_of((#[trigger] after[k]).pan) == key by {
                                if key == key_of(c.pan) {
                                    assert(key_of(after[hits_before.len() as int].pan) == key);
                                } else {
                                    let k = choose|k: int|
                                        0 <= k < hits_before.len() && key_of(
                                            (#[trigger] hits_before[k]).pan,
                                        ) == key;
                                    assert(key_of(after[k].pan) == key);
                                }
                            }
                        }
                    }
                }
            },
        }
        i = next;
    }
}

/// The scan of one file, given its bytes. A file whose bytes cannot be had, or are not wanted,
/// has no hits.
pub fn scan_file_deep<F: Fn(&[u32]) -> u32>(
    data: Option<&[u8]>,
    opts: &ScanOpts,
    entropy: F,
) -> (r: ScanReport)
    requires
        forall|counts: &[u32]| #[trigger] call_requires(entropy, (counts,)),
    ensures
        match data {
            Some(data) => is_scan(entropy, data@, *opts, r),
            None => r.hit_views() == Seq::<HitView>::empty() && r.rejection_views() == Seq::<
                RejectionView,
            >::empty(),
        },
{
    match data {
        Some(data) => find_pans(data, opts, entropy),
        None => {
            let r = ScanReport { hits: Vec::new(), rejected: Vec::new() };
            proof {
                assert(r.hit_views() =~= Seq::<HitView>::empty());
                assert(r.rejection_views() =~= Seq::<RejectionView>::empty());
            }
            r
        },
    }
}

/// The candidate is accepted with at least this confidence.
pub open spec fn accepted(
    s: Seq<u8>,
    c: CandidateView,
    entropy_bits: u32,
    strict: bool,
    least: Confidence,
) -> bool {
    verdict(s, c, entropy_bits, strict) matches Decision::Accept(confidence) && confidence.level()
        >= least.level()
}

/// Exactly the numbers of the accepted candidates are reported.
pub proof fn law_reported_iff_accepted(
    s: Seq<u8>,
    found: Seq<CandidateView>,
    entropies: Seq<u32>,
    strict: bool,
    least: Confidence,
    pan: Seq<u8>,
)
    requires
        entropies.len() == found.len(),
    ensures
        reported(hits_among(s, found, entropies, strict, least), pan) <==> exists|i: int|
            0 <= i < found.len() && (#[trigger] found[i]).pan == pan && accepted(
                s,
                found[i],
                entropies[i],
                strict,
                least,
            ),
{
    lemma_reported_iff_accepted(s, found, entropies, strict, least, pan);
}

proof fn lemma_reported_iff_accepted(
    s: Seq<u8>,
    found: Seq<CandidateView>,
    entropies: Seq<u32>,
    strict: bool,
    least: Confidence,
    pan: Seq<u8>,
)
    requires
        entropies.len() >= found.len(),
    ensures
        reported(hits_among(s, found, entropies, strict, least), pan) <==> exists|i: int|
            0 <= i < found.len() && (#[trigger] found[i]).pan == pan && accepted(
                s,
                found[i],
                entropies[i],
                strict,
                least,
            ),
    decreases found.len(),
{
    let hits = hits_among(s, found, entropies, strict, least);
    if found.len() > 0 {
        let fewer = found.drop_last();
        let last = found.len() - 1;
        let before = hits_among(s, fewer, entropies, strict, least);
        lemma_reported_iff_accepted(s, fewer, entropies, strict, least, pan);
        if reported(hits, pan) {
            let k = choose|k: int| 0 <= k < hits.len() && (#[trigger] hits[k]).pan == pan;
            if k < before.len() {
                assert(before[k].pan == pan);
                let i = choose|i: int|
                    0 <= i < fewer.len() && (#[trigger] fewer[i]).pan == pan && accepted(
                        s,
                        fewer[i],
                        entropies[i],
                        strict,
                        least,
                    );
                assert(found[i].pan == pan);
            } else {
                assert(found[last].pan == pan);
            }
        }
        if exists|i: int|
            0 <= i < found.len() && (#[trigger] found[i]).pan == pan && accepted(
                s,
                found[i],
                entropies[i],
                strict,
                least,
            ) {
            let i = choose|i: int|
                0 <= i < found.len() && (#[trigger] found[i]).pan == pan && accepted(
                    s,
                    found[i],
                    entropies[i],
                    strict,
                    least,
                );
            if i < last {
                assert(fewer[i].pan == pan);
            }
            if reported(before, pan) {
                let k = choose|k: int| 0 <= k < before.len() && (#[trigger] before[k]).pan == pan;
                assert(hits[k].pan == pan);
            } else {
                assert(hits[before.len() as int].pan == pan);
            }
        }
    }
}

/// No number is reported twice.
pub proof fn law_each_number_once(
    s: Seq<u8>,
    found: Seq<CandidateView>,
    entropies: Seq<u32>,
    strict: bool,
    least: Confidence,
    i: int,
    j: int,
)
    requires
        0 <= i < j < hits_among(s, found, entropies, strict, least).len(),
    ensures
        hits_among(s, found, entropies, strict, least)[i].pan != hits_among(
            s,
            found,
            entropies,
            strict,
            least,
        )[j].pan,
    decreases found.len(),
{
    let hits = hits_among(s, found, entropies, strict, least);
    let before = hits_among(s, found.drop_last(), entropies, strict, least);
    if j < before.len() {
        law_each_number_once(s, found.drop_last(), entropies, strict, least, i, j);
    } else {
        assert(before[i] == hits[i]);
    }
}

/// Every hit is an accepted candidate: the number, its offset and its scheme are those of the
/// candidate, and the confidence is that of the decision on it.
pub proof fn law_hit_is_accepted_candidate(
    s: Seq<u8>,
    found: Seq<CandidateView>,
    entropies: Seq<u32>,
    strict: bool,
    least: Confidence,
    i: int,
)
    requires
        0 <= i < hits_among(s, found, entropies, strict, least).len(),
    ensures
        ({
            let hit = hits_among(s, found, entropies, strict, least)[i];
            exists|k: int|
                0 <= k < found.len() && (#[trigger] found[k]).offset == hit.offset && found[k].pan
                    == hit.pan && hit.scheme == scheme_of(hit.pan) && verdict(
                    s,
                    found[k],
                    entropies[k],
                    strict,
                ) == Decision::Accept(hit.confidence) && hit.confidence.level() >= least.level()
        }),
    decreases found.len(),
{
    let fewer = found.drop_last();
    let before = hits_among(s, fewer, entropies, strict, least);
    if i < before.len() {
        law_hit_is_accepted_candidate(s, fewer, entropies, strict, least, i);
        let hit = before[i];
        let k = choose|k: int|
            0 <= k < fewer.len() && (#[trigger] fewer[k]).offset == hit.offset && fewer[k].pan
                == hit.pan && hit.scheme == scheme_of(hit.pan) && verdict(
                s,
                fewer[k],
                entropies[k],
                strict,
            ) == Decision::Accept(hit.confidence) && hit.confidence.level() >= least.level();
        assert(found[k].offset == hit.offset);
    } else {
        assert(found[found.len() - 1] == found.last());
    }
}

/// What every hit in a buffer is like: 14 to 16 digits that pass the Luhn check, at the place
/// that it names; in strict mode a known scheme issues it; and the confidence is no less than
/// what was asked for.
pub proof fn law_hit_is_a_card_number(
    s: Seq<u8>,
    entropies: Seq<u32>,
    strict: bool,
    least: Confidence,
    i: int,
)
    requires
        0 <= i < hits_among(s, candidates(s, 0), entropies, strict, least).len(),
    ensures
        ({
            let hit = hits_among(s, candidates(s, 0), entropies, strict, least)[i];
            &&& MIN_DIGITS <= hit.pan.len() <= MAX_DIGITS
            &&& forall|k: int| 0 <= k < hit.pan.len() ==> digit(#[trigger] hit.pan[k])
            &&& luhn_valid(hit.pan)
            &&& exists|end: int| #[trigger]
                is_pan_span(s, hit.offset, end) && hit.pan == digits_of(
                    s.subrange(hit.offset, end),
                )
            &&& hit.scheme == scheme_of(hit.pan)
            &&& strict ==> hit.scheme is Some
            &&& hit.confidence.level() >= least.level()
        }),
{
    let found = candidates(s, 0);
    let hit = hits_among(s, found, entropies, strict, least)[i];
    law_hit_is_accepted_candidate(s, found, entropies, strict, least, i);
    let k = choose|k: int|
        0 <= k < found.len() && (#[trigger] found[k]).offset == hit.offset && found[k].pan
            == hit.pan && hit.scheme == scheme_of(hit.pan) && verdict(
            s,
            found[k],
            entropies[k],
            strict,
        ) == Decision::Accept(hit.confidence) && hit.confidence.level() >= least.level();
    law_candidate_is_sound(s, 0, k);
    assert(is_pan_span(s, hit.offset, found[k].end()));
}

/// Hits come in the order of their offsets, each offset once.
pub proof fn law_hits_are_ordered(
    s: Seq<u8>,
    entropies: Seq<u32>,
    strict: bool,
    least: Confidence,
    i: int,
    j: int,
)
    requires
        0 <= i < j < hits_among(s, candidates(s, 0), entropies, strict, least).len(),
    ensures
        hits_among(s, candidates(s, 0), entropies, strict, least)[i].offset < hits_among(
            s,
            candidates(s, 0),
            entropies,
            strict,
            least,
        )[j].offset,
{
    let all = candidates(s, 0);
    assert forall|a: int, b: int| 0 <= a < b < all.len() implies #[trigger] all[a].offset
        < #[trigger] all[b].offset by {
        law_candidates_are_ordered(s, 0, a, b);
    }
    lemma_hits_are_ordered(s, all, entropies, strict, least, i, j);
}

proof fn lemma_hits_are_ordered(
    s: Seq<u8>,
    found: Seq<CandidateView>,
    entropies: Seq<u32>,
    strict: bool,
    least: Confidence,
    i: int,
    j: int,
)
    requires
        forall|a: int, b: int|
            0 <= a < b < found.len() ==> #[trigger] found[a].offset < #[trigger] found[b].offset,
        0 <= i < j < hits_among(s, found, entropies, strict, least).len(),
    ensures
        hits_among(s, found, entropies, strict, least)[i].offset < hits_among(
            s,
            found,
            entropies,
            strict,
            least,
        )[j].offset,
    decreases found.len(),
{
    let fewer = found.drop_last();
    let before = hits_among(s, fewer, entropies, strict, least);
    if j < before.len() {
        lemma_hits_are_ordered(s, fewer, entropies, strict, least, i, j);
    } else {
        law_hit_is_accepted_candidate(s, fewer, entropies, strict, least, i);
        let hit = before[i];
        let k = choose|k: int|
            0 <= k < fewer.len() && (#[trigger] fewer[k]).offset == hit.offset && fewer[k].pan
                == hit.pan && hit.scheme == scheme_of(hit.pan) && verdict(
                s,
                fewer[k],
                entropies[k],
                strict,
            ) == Decision::Accept(hit.confidence) && hit.confidence.level() >= least.level();
        assert(found[k].offset < found[found.len() - 1].offset);
    }
}

/// Asking for less confidence, or leaving strict mode, loses no number.
pub proof fn law_laxer_options_lose_nothing(
    s: Seq<u8>,
    found: Seq<CandidateView>,
    entropies: Seq<u32>,
    strict: bool,
    least: Confidence,
    lax: bool,
    lower: Confidence,
    pan: Seq<u8>,
)
    requires
        entropies.len() == found.len(),
        lax ==> strict,
        lower.level() <= least.level(),
        reported(hits_among(s, found, entropies, strict, least), pan),
    ensures
        reported(hits_among(s, found, entropies, lax, lower), pan),
{
    law_reported_iff_accepted(s, found, entropies, strict, least, pan);
    let i = choose|i: int|
        0 <= i < found.len() && (#[trigger] found[i]).pan == pan && accepted(
            s,
            found[i],
            entropies[i],
            strict,
            least,
        );
    let c = found[i];
    law_strict_only_removes(
        signals_of(s, c.offset, c.end(), c.pan, c.grouping, entropies[i]),
    );
    assert(accepted(s, found[i], entropies[i], lax, lower));
    law_reported_iff_accepted(s, found, entropies, lax, lower, pan);
}

/// The entropy depends on the byte counts alone.
pub open spec fn is_function<F: Fn(&[u32]) -> u32>(entropy: F) -> bool {
    forall|a: &[u32], b: &[u32], x: u32, y: u32|
        #![trigger call_ensures(entropy, (a,), x), call_ensures(entropy, (b,), y)]
        a@ == b@ && call_ensures(entropy, (a,), x) && call_ensures(entropy, (b,), y) ==> x == y
}

/// Scanning the same bytes again gives the same report, if the entropy depends on the byte
/// counts alone.
pub proof fn law_scan_is_determined<F: Fn(&[u32]) -> u32>(
    entropy: F,
    s: Seq<u8>,
    opts: ScanOpts,
    first: ScanReport,
    second: ScanReport,
)
    requires
        is_function(entropy),
        is_scan(entropy, s, opts, first),
        is_scan(entropy, s, opts, second),
    ensures
        first.hit_views() == second.hit_views(),
        first.rejection_views() == second.rejection_views(),
{
    let all = candidates(s, 0);
    let x = choose|entropies: Seq<u32>| #[trigger]
        all_measured(entropy, s, all, entropies) && {
            &&& first.hit_views() == hits_among(s, all, entropies, opts.strict, opts.min_confidence)
            &&& first.rejection_views() == if opts.debug {
                rejections_among(s, all, entropies, opts.strict)
            } else {
                seq![]
            }
        };
    let y = choose|entropies: Seq<u32>| #[trigger]
        all_measured(entropy, s, all, entropies) && {
            &&& second.hit_views() == hits_among(
                s,
                all,
                entropies,
                opts.strict,
                opts.min_confidence,
            )
            &&& second.rejection_views() == if opts.debug {
                rejections_among(s, all, entropies, opts.strict)
            } else {
                seq![]
            }
        };
    lemma_entropies_are_unique(entropy, s, all, x, y);
}

proof fn lemma_entropies_are_unique<F: Fn(&[u32]) -> u32>(
    entropy: F,
    s: Seq<u8>,
    found: Seq<CandidateView>,
    x: Seq<u32>,
    y: Seq<u32>,
)
    requires
        is_function(entropy),
        all_measured(entropy, s, found, x),
        all_measured(entropy, s, found, y),
    ensures
        x == y,
{
    assert forall|i: int| 0 <= i < found.len() implies x[i] == y[i] by {
        assert(measured(entropy, s, found[i], x[i]));
        assert(measured(entropy, s, found[i], y[i]));
        let window = entropy_window(s, found[i].offset, found[i].end());
        let a = choose|counts: &[u32]|
            is_histogram(counts@, window) && #[trigger] call_ensures(entropy, (counts,), x[i]);
        let b = choose|counts: &[u32]|
            is_histogram(counts@, window) && #[trigger] call_ensures(entropy, (counts,), y[i]);
        assert forall|k: int| 0 <= k < 256 implies a@[k] == b@[k] by {
            assert(a@[k as u8 as int] == b@[k as u8 as int]);
        }
        assert(a@ =~= b@);
    }
    assert(x =~= y);
}

/// A number is reported where it is accepted first: no candidate before a hit has its number and
/// is accepted.
pub proof fn law_hit_is_first_accepted(
    s: Seq<u8>,
    entropies: Seq<u32>,
    strict: bool,
    least: Confidence,
    i: int,
    k: int,
)
    requires
        entropies.len() == candidates(s, 0).len(),
        0 <= i < hits_among(s, candidates(s, 0), entropies, strict, least).len(),
        0 <= k < candidates(s, 0).len(),
        candidates(s, 0)[k].pan == hits_among(s, candidates(s, 0), entropies, strict, least)[i].pan,
        candidates(s, 0)[k].offset < hits_among(
            s,
            candidates(s, 0),
            entropies,
            strict,
            least,
        )[i].offset,
    ensures
        !accepted(s, candidates(s, 0)[k], entropies[k], strict, least),
{
    let all = candidates(s, 0);
    assert forall|a: int, b: int| 0 <= a < b < all.len() implies #[trigger] all[a].offset
        < #[trigger] all[b].offset by {
        law_candidates_are_ordered(s, 0, a, b);
    }
    lemma_hit_is_first(s, all, entropies, strict, least, i, k);
}

proof fn lemma_hit_is_first(
    s: Seq<u8>,
    found: Seq<CandidateView>,
    entropies: Seq<u32>,
    strict: bool,
    least: Confidence,
    i: int,
    k: int,
)
    requires
        forall|a: int, b: int|
            0 <= a < b < found.len() ==> #[trigger] found[a].offset < #[trigger] found[b].offset,
        entropies.len() >= found.len(),
        0 <= i < hits_among(s, found, entropies, strict, least).len(),
        0 <= k < found.len(),
        found[k].pan == hits_among(s, found, entropies, strict, least)[i].pan,
        found[k].offset < hits_among(s, found, entropies, strict, least)[i].offset,
    ensures
        !accepted(s, found[k], entropies[k], strict, least),
    decreases found.len(),
{
    let fewer = found.drop_last();
    let before = hits_among(s, fewer, entropies, strict, least);
    let last = found.len() - 1;
    if i < before.len() {
        if k < last {
            lemma_hit_is_first(s, fewer, entropies, strict, least, i, k);
        } else {
            lemma_hit_among(s, fewer, entropies, strict, least, i);
            let m = choose|m: int|
                0 <= m < fewer.len() && (#[trigger] fewer[m]).offset == before[i].offset;
            assert(found[m].offset < found[last].offset);
        }
    } else {
        assert(hits_among(s, found, entropies, strict, least)[i].offset == found[last].offset);
        assert(k < last);
        if accepted(s, found[k], entropies[k], strict, least) {
            lemma_reported_iff_accepted(s, fewer, entropies, strict, least, found[k].pan);
            assert(fewer[k].pan == found[k].pan);
        }
    }
}

proof fn lemma_hit_among(
    s: Seq<u8>,
    found: Seq<CandidateView>,
    entropies: Seq<u32>,
    strict: bool,
    least: Confidence,
    i: int,
)
    requires
        0 <= i < hits_among(s, found, entropies, strict, least).len(),
    ensures
        exists|m: int|
            0 <= m < found.len() && (#[trigger] found[m]).offset == hits_among(
                s,
                found,
                entropies,
                strict,
                least,
            )[i].offset,
{
    law_hit_is_accepted_candidate(s, found, entropies, strict, least, i);
}

/// The bytes around a candidate are searched for card words to the end of both windows: the
/// limit on how many are searched never cuts them.
pub proof fn law_card_words_are_searched_for_everywhere(s: Seq<u8>, k: int)
    requires
        0 <= k < candidates(s, 0).len(),
    ensures
        ({
            let c = candidates(s, 0)[k];
            keyword_text(s, c.offset, c.end()).len() == window_end(
                s.len() as int,
                c.end(),
                KEYWORD_WINDOW as int,
            ) - window_start(c.offset, KEYWORD_WINDOW as int)
        }),
{
    law_candidate_is_sound(s, 0, k);
}

/// The hits whose numbers a known scheme issues, in their order.
pub open spec fn issued_hits(hits: Seq<HitView>) -> Seq<HitView> {
    hits.filter(|hit: HitView| hit.scheme is Some)
}

proof fn lemma_issued_push(hits: Seq<HitView>, hit: HitView)
    ensures
        issued_hits(hits.push(hit)) == if hit.scheme is Some {
            issued_hits(hits).push(hit)
        } else {
            issued_hits(hits)
        },
{
    reveal(Seq::filter);
    assert(hits.push(hit).drop_last() =~= hits);
}

/// Leaving out the numbers of no scheme changes nothing for the others.
proof fn lemma_issued_are_reported(hits: Seq<HitView>, pan: Seq<u8>)
    requires
        forall|i: int| 0 <= i < hits.len() ==> (#[trigger] hits[i]).scheme == scheme_of(
            hits[i].pan,
        ),
        scheme_of(pan) is Some,
    ensures
        reported(issued_hits(hits), pan) == reported(hits, pan),
    decreases hits.len(),
{
    reveal(Seq::filter);
    if hits.len() > 0 {
        let fewer = hits.drop_last();
        let last = hits.last();
        lemma_issued_are_reported(fewer, pan);
        lemma_issued_push(fewer, last);
        assert(fewer.push(last) =~= hits);
        lemma_reported_push(fewer, last, pan);
        lemma_reported_push(issued_hits(fewer), last, pan);
    }
}

proof fn lemma_reported_push(hits: Seq<HitView>, hit: HitView, pan: Seq<u8>)
    ensures
        reported(hits.push(hit), pan) == (reported(hits, pan) || hit.pan == pan),
{
    let more = hits.push(hit);
    if reported(hits, pan) {
        let i = choose|i: int| 0 <= i < hits.len() && (#[trigger] hits[i]).pan == pan;
        assert(more[i].pan == pan);
    }
    if hit.pan == pan {
        assert(more[hits.len() as int].pan == pan);
    }
    if reported(more, pan) {
        let i = choose|i: int| 0 <= i < more.len() && (#[trigger] more[i]).pan == pan;
        if i < hits.len() {
            assert(hits[i].pan == pan);
        }
    }
}

/// Leaving strict mode only adds: the hits of strict mode are those without it, less the numbers
/// that no scheme issues, in the same order, at the same offsets and with the same confidences.
pub proof fn law_strict_hits_are_the_issued_ones(
    s: Seq<u8>,
    found: Seq<CandidateView>,
    entropies: Seq<u32>,
    least: Confidence,
)
    ensures
        hits_among(s, found, entropies, true, least) == issued_hits(
            hits_among(s, found, entropies, false, least),
        ),
    decreases found.len(),
{
    reveal(Seq::filter);
    if found.len() > 0 {
        let fewer = found.drop_last();
        let c = found.last();
        let entropy_bits = entropies[found.len() - 1];
        let before = hits_among(s, fewer, entropies, false, least);
        law_strict_hits_are_the_issued_ones(s, fewer, entropies, least);
        law_strict_only_removes(
            signals_of(s, c.offset, c.end(), c.pan, c.grouping, entropy_bits),
        );
        assert forall|i: int| 0 <= i < before.len() implies (#[trigger] before[i]).scheme
            == scheme_of(before[i].pan) by {
            law_hit_is_accepted_candidate(s, fewer, entropies, false, least, i);
        }
        if scheme_of(c.pan) is Some {
            lemma_issued_are_reported(before, c.pan);
        }
        if let Decision::Accept(confidence) = verdict(s, c, entropy_bits, false) {
            lemma_issued_push(
                before,
                HitView {
                    offset: c.offset,
                    pan: c.pan,
                    scheme: scheme_of(c.pan),
                    confidence,
                },
            );
        }
    }
}

/// Scanning the same bytes without strict mode only adds hits: the strict scan has those of the
/// other that a known scheme issues, and no others, if the entropy depends on the byte counts
/// alone.
pub proof fn law_strict_scan_is_the_issued_part<F: Fn(&[u32]) -> u32>(
    entropy: F,
    s: Seq<u8>,
    strict_opts: ScanOpts,
    lax_opts: ScanOpts,
    strict: ScanReport,
    lax: ScanReport,
)
    requires
        is_function(entropy),
        strict_opts.strict,
        !lax_opts.strict,
        strict_opts.min_confidence == lax_opts.min_confidence,
        is_scan(entropy, s, strict_opts, strict),
        is_scan(entropy, s, lax_opts, lax),
    ensures
        strict.hit_views() == issued_hits(lax.hit_views()),
{
    let all = candidates(s, 0);
    let least = strict_opts.min_confidence;
    let x = choose|entropies: Seq<u32>| #[trigger]
        all_measured(entropy, s, all, entropies) && strict.hit_views() == hits_among(
            s,
            all,
            entropies,
            true,
            least,
        );
    let y = choose|entropies: Seq<u32>| #[trigger]
        all_measured(entropy, s, all, entropies) && lax.hit_views() == hits_among(
            s,
            all,
            entropies,
            false,
            least,
        );
    lemma_entropies_are_unique(entropy, s, all, x, y);
    law_strict_hits_are_the_issued_ones(s, all, x, least);
}

/// The confidence that a number of a scheme, or of none, has with its nearest card word at this
/// distance.
pub open spec fn expected_confidence(
    scheme: Option<Scheme>,
    distance: Option<u16>,
) -> Confidence {
    match (scheme, distance) {
        (_, None) => Confidence::Low,
        (None, Some(_)) => Confidence::Medium,
        (Some(_), Some(d)) => if d > 64 {
            Confidence::Medium
        } else {
            Confidence::High
        },
    }
}

/// The number of a candidate that nothing speaks against is reported: its groups are card-shaped,
/// the entropy around it is at most 7, at most 55 of a hundred bytes around it are digits, a known
/// scheme issues it, or strict mode is off, and its scheme and the nearest card word give it
/// enough confidence.
pub proof fn law_good_number_is_reported(
    s: Seq<u8>,
    entropies: Seq<u32>,
    strict: bool,
    least: Confidence,
    k: int,
)
    requires
        entropies.len() == candidates(s, 0).len(),
        0 <= k < candidates(s, 0).len(),
        entropies[k] <= 0x40e0_0000,
        ({
            let c = candidates(s, 0)[k];
            let density = density_of(s, c.offset, c.end());
            &&& card_shaped(c.grouping)
            &&& 100 * density.digits <= 55 * density.total
            &&& !strict || scheme_of(c.pan) is Some
            &&& expected_confidence(
                scheme_of(c.pan),
                keyword_distance_of(s, c.offset, c.end()),
            ).level() >= least.level()
        }),
    ensures
        reported(hits_among(s, candidates(s, 0), entropies, strict, least), candidates(s, 0)[k].pan),
{
    let all = candidates(s, 0);
    let c = all[k];
    let signals = signals_of(s, c.offset, c.end(), c.pan, c.grouping, entropies[k]);
    lemma_decision(signals, strict);
    assert(accepted(s, all[k], entropies[k], strict, least));
    law_reported_iff_accepted(s, all, entropies, strict, least, c.pan);
}

/// The decision on a plausible candidate.
proof fn lemma_decision(signals: PanSignals, strict: bool)
    ensures
        plausible(signals) && (!strict || signals.scheme is Some) ==> decide(signals, strict)
            == Decision::Accept(expected_confidence(signals.scheme, signals.keyword_distance)),
        decide(signals, strict) is Accept ==> plausible(signals) && (!strict
            || signals.scheme is Some),
{
    if plausible(signals) {
        if signals.scheme is Some {
            law_issued_numbers_are_accepted(signals, signals.scheme->0, strict);
        } else {
            law_unissued_numbers_are_capped(signals);
        }
    } else {
        law_implausible_numbers_are_rejected(signals, strict);
    }
}

/// Every hit is a candidate that nothing speaks against, with the confidence that its scheme and
/// the nearest card word give it.
pub proof fn law_only_good_numbers_are_reported(
    s: Seq<u8>,
    entropies: Seq<u32>,
    strict: bool,
    least: Confidence,
    i: int,
)
    requires
        entropies.len() == candidates(s, 0).len(),
        0 <= i < hits_among(s, candidates(s, 0), entropies, strict, least).len(),
    ensures
        exists|k: int|
            0 <= k < candidates(s, 0).len() && is_good_hit(
                s,
                #[trigger] candidates(s, 0)[k],
                entropies[k],
                strict,
                least,
                hits_among(s, candidates(s, 0), entropies, strict, least)[i],
            ),
{
    let all = candidates(s, 0);
    let hit = hits_among(s, all, entropies, strict, least)[i];
    law_hit_is_accepted_candidate(s, all, entropies, strict, least, i);
    let k = choose|k: int|
        0 <= k < all.len() && (#[trigger] all[k]).offset == hit.offset && all[k].pan == hit.pan
            && hit.scheme == scheme_of(hit.pan) && verdict(s, all[k], entropies[k], strict)
            == Decision::Accept(hit.confidence) && hit.confidence.level() >= least.level();
    let c = all[k];
    lemma_decision(signals_of(s, c.offset, c.end(), c.pan, c.grouping, entropies[k]), strict);
    assert(is_good_hit(s, all[k], entropies[k], strict, least, hit));
}

/// The hit names the candidate, nothing speaks against it, and the confidence is the one that it
/// should have.
pub open spec fn is_good_hit(
    s: Seq<u8>,
    c: CandidateView,
    entropy_bits: u32,
    strict: bool,
    least: Confidence,
    hit: HitView,
) -> bool {
    let density = density_of(s, c.offset, c.end());
    &&& hit.offset == c.offset
    &&& hit.pan == c.pan
    &&& hit.scheme == scheme_of(c.pan)
    &&& hit.confidence == expected_confidence(
        scheme_of(c.pan),
        keyword_distance_of(s, c.offset, c.end()),
    )
    &&& hit.confidence.level() >= least.level()
    &&& !strict || hit.scheme is Some
    &&& card_shaped(c.grouping)
    &&& entropy_bits <= 0x40e0_0000 || entropy_bits > 0x7f80_0000
    &&& 100 * density.digits <= 55 * density.total
}

/// A scan reports every number that nothing speaks against, if the entropy around it is measured
/// as at most 7.
pub proof fn law_scan_reports_good_numbers<F: Fn(&[u32]) -> u32>(
    entropy: F,
    s: Seq<u8>,
    opts: ScanOpts,
    r: ScanReport,
    k: int,
)
    requires
        is_scan(entropy, s, opts, r),
        0 <= k < candidates(s, 0).len(),
        forall|bits: u32| #[trigger]
            measured(entropy, s, candidates(s, 0)[k], bits) ==> bits <= 0x40e0_0000,
        ({
            let c = candidates(s, 0)[k];
            let density = density_of(s, c.offset, c.end());
            &&& card_shaped(c.grouping)
            &&& 100 * density.digits <= 55 * density.total
            &&& !opts.strict || scheme_of(c.pan) is Some
            &&& expected_confidence(
                scheme_of(c.pan),
                keyword_distance_of(s, c.offset, c.end()),
            ).level() >= opts.min_confidence.level()
        }),
    ensures
        reported(r.hit_views(), candidates(s, 0)[k].pan),
{
    let all = candidates(s, 0);
    let entropies = lemma_scan_entropies(entropy, s, opts, r);
    assert(measured(entropy, s, all[k], entropies[k]));
    law_good_number_is_reported(s, entropies, opts.strict, opts.min_confidence, k);
}

/// A scan reports nothing else, each number once and in the order of the buffer.
pub proof fn law_scan_reports_only_good_numbers<F: Fn(&[u32]) -> u32>(
    entropy: F,
    s: Seq<u8>,
    opts: ScanOpts,
    r: ScanReport,
    i: int,
)
    requires
        is_scan(entropy, s, opts, r),
        0 <= i < r.hit_views().len(),
    ensures
        exists|k: int, bits: u32|
            0 <= k < candidates(s, 0).len() && #[trigger] measured(
                entropy,
                s,
                candidates(s, 0)[k],
                bits,
            ) && is_good_hit(
                s,
                candidates(s, 0)[k],
                bits,
                opts.strict,
                opts.min_confidence,
                r.hit_views()[i],
            ),
        forall|j: int|
            i < j < r.hit_views().len() ==> r.hit_views()[i].offset < (
            #[trigger] r.hit_views()[j]).offset && r.hit_views()[i].pan != r.hit_views()[j].pan,
{
    let all = candidates(s, 0);
    let entropies = lemma_scan_entropies(entropy, s, opts, r);
    law_only_good_numbers_are_reported(s, entropies, opts.strict, opts.min_confidence, i);
    let k = choose|k: int|
        0 <= k < all.len() && is_good_hit(
            s,
            #[trigger] all[k],
            entropies[k],
            opts.strict,
            opts.min_confidence,
            r.hit_views()[i],
        );
    assert(measured(entropy, s, all[k], entropies[k]));
    assert forall|j: int| i < j < r.hit_views().len() implies r.hit_views()[i].offset < (
    #[trigger] r.hit_views()[j]).offset && r.hit_views()[i].pan != r.hit_views()[j].pan by {
        law_hits_are_ordered(s, entropies, opts.strict, opts.min_confidence, i, j);
        law_each_number_once(s, all, entropies, opts.strict, opts.min_confidence, i, j);
    }
}

/// The entropies with which a scan was made.
proof fn lemma_scan_entropies<F: Fn(&[u32]) -> u32>(
    entropy: F,
    s: Seq<u8>,
    opts: ScanOpts,
    r: ScanReport,
) -> (entropies: Seq<u32>)
    requires
        is_scan(entropy, s, opts, r),
    ensures
        all_measured(entropy, s, candidates(s, 0), entropies),
        r.hit_views() == hits_among(
            s,
            candidates(s, 0),
            entropies,
            opts.strict,
            opts.min_confidence,
        ),
        r.rejection_views() == if opts.debug {
            rejections_among(s, candidates(s, 0), entropies, opts.strict)
        } else {
            seq![]
        },
{
    choose|entropies: Seq<u32>| #[trigger]
        all_measured(entropy, s, candidates(s, 0), entropies) && {
            &&& r.hit_views() == hits_among(
                s,
                candidates(s, 0),
                entropies,
                opts.strict,
                opts.min_confidence,
            )
            &&& r.rejection_views() == if opts.debug {
                rejections_among(s, candidates(s, 0), entropies, opts.strict)
            } else {
                seq![]
            }
        }
}

/// What is measured around a candidate is how often each byte value occurs in the candidate and
/// in up to 128 bytes on each side.
pub proof fn law_entropy_is_measured_over_128_bytes<F: Fn(&[u32]) -> u32>(
    entropy: F,
    s: Seq<u8>,
    c: CandidateView,
    entropy_bits: u32,
)
    ensures
        measured(entropy, s, c, entropy_bits) <==> exists|counts: &[u32]| #[trigger]
            call_ensures(entropy, (counts,), entropy_bits) && counts@.len() == 256 && forall|b: u8|
                #[trigger]
                counts@[b as int] == s.subrange(
                    if c.offset < 128 {
                        0
                    } else {
                        c.offset - 128
                    },
                    if s.len() < c.end() + 128 {
                        s.len() as int
                    } else {
                        c.end() + 128
                    },
                ).filter(is_byte(b)).len(),
{
    law_entropy_is_taken_over_128_bytes(s, c.offset, c.end());
    let window = entropy_window(s, c.offset, c.end());
    assert forall|b: u8| #[trigger] occurrences(window, b) == window.filter(is_byte(b)).len() by {
        law_occurrences_count_places(window, b);
    }
    if measured(entropy, s, c, entropy_bits) {
        let counts = choose|counts: &[u32]|
            is_histogram(counts@, window) && #[trigger] call_ensures(
                entropy,
                (counts,),
                entropy_bits,
            );
        assert forall|b: u8| #[trigger] counts@[b as int] == window.filter(is_byte(b)).len() by {
            assert(counts@[b as int] == occurrences(window, b));
        }
    }
    if exists|counts: &[u32]| #[trigger]
        call_ensures(entropy, (counts,), entropy_bits) && counts@.len() == 256 && forall|b: u8|
            #[trigger]
            counts@[b as int] == window.filter(is_byte(b)).len() {
        let counts = choose|counts: &[u32]| #[trigger]
            call_ensures(entropy, (counts,), entropy_bits) && counts@.len() == 256 && forall|b: u8|
                #[trigger]
                counts@[b as int] == window.filter(is_byte(b)).len();
        assert forall|b: u8| #[trigger] counts@[b as int] == occurrences(window, b) by {
            assert(counts@[b as int] == window.filter(is_byte(b)).len());
        }
        assert(is_histogram(counts@, window));
    }
}

/// The record of a rejected candidate.
pub open spec fn rejection_of(
    s: Seq<u8>,
    c: CandidateView,
    entropy_bits: u32,
    reason: RejectReason,
) -> RejectionView {
    RejectionView {
        offset: c.offset,
        pan: c.pan,
        reason,
        signals: PanSignals {
            scheme: scheme_of(c.pan),
            digit_density: density_of(s, c.offset, c.end()),
            entropy_bits,
            keyword_distance: keyword_distance_of(s, c.offset, c.end()),
            grouping_card_shaped: card_shaped(c.grouping),
        },
    }
}

/// Every rejected candidate is recorded with its reason and its signals, and nothing else is.
pub proof fn law_rejections_are_recorded(
    s: Seq<u8>,
    found: Seq<CandidateView>,
    entropies: Seq<u32>,
    strict: bool,
)
    requires
        entropies.len() >= found.len(),
    ensures
        forall|k: int|
            0 <= k < found.len() && verdict(s, found[k], entropies[k], strict) is Reject
                ==> rejections_among(s, found, entropies, strict).contains(
                rejection_of(
                    s,
                    #[trigger] found[k],
                    entropies[k],
                    verdict(s, found[k], entropies[k], strict)->Reject_0,
                ),
            ),
        forall|i: int|
            0 <= i < rejections_among(s, found, entropies, strict).len() ==> is_rejection_among(
                s,
                found,
                entropies,
                strict,
                #[trigger] rejections_among(s, found, entropies, strict)[i],
            ),
    decreases found.len(),
{
    let all = rejections_among(s, found, entropies, strict);
    if found.len() > 0 {
        let fewer = found.drop_last();
        let before = rejections_among(s, fewer, entropies, strict);
        let last = found.len() - 1;
        law_rejections_are_recorded(s, fewer, entropies, strict);
        assert forall|k: int|
            0 <= k < found.len() && verdict(s, found[k], entropies[k], strict) is Reject implies all.contains(
            rejection_of(
                s,
                #[trigger] found[k],
                entropies[k],
                verdict(s, found[k], entropies[k], strict)->Reject_0,
            ),
        ) by {
            if k < last {
                assert(fewer[k] == found[k]);
                let r = rejection_of(
                    s,
                    fewer[k],
                    entropies[k],
                    verdict(s, fewer[k], entropies[k], strict)->Reject_0,
                );
                assert(before.contains(r));
                let i = choose|i: int| 0 <= i < before.len() && before[i] == r;
                assert(all[i] == r);
            } else {
                assert(all[before.len() as int] == all.last());
            }
        }
        assert forall|i: int| 0 <= i < all.len() implies is_rejection_among(
            s,
            found,
            entropies,
            strict,
            #[trigger] all[i],
        ) by {
            if i < before.len() {
                assert(is_rejection_among(s, fewer, entropies, strict, before[i]));
                let k = choose|k: int|
                    0 <= k < fewer.len() && is_rejection_of(
                        s,
                        #[trigger] fewer[k],
                        entropies[k],
                        strict,
                        before[i],
                    );
                assert(is_rejection_of(s, found[k], entropies[k], strict, all[i]));
            } else {
                assert(is_rejection_of(s, found[last], entropies[last], strict, all[i]));
            }
        }
    }
}

/// A record is that of a candidate, which is rejected.
pub open spec fn is_rejection_of(
    s: Seq<u8>,
    c: CandidateView,
    entropy_bits: u32,
    strict: bool,
    r: RejectionView,
) -> bool {
    verdict(s, c, entropy_bits, strict) == Decision::Reject(r.reason) && r == rejection_of(
        s,
        c,
        entropy_bits,
        r.reason,
    )
}

/// A record is that of one of some candidates.
pub open spec fn is_rejection_among(
    s: Seq<u8>,
    found: Seq<CandidateView>,
    entropies: Seq<u32>,
    strict: bool,
    r: RejectionView,
) -> bool {
    exists|k: int|
        0 <= k < found.len() && is_rejection_of(s, #[trigger] found[k], entropies[k], strict, r)
}

/// A scan without debug output keeps no rejections; one with it keeps the rejection of every
/// candidate that is rejected, such as one whose groups are not card-shaped.
pub proof fn law_scan_keeps_rejections_for_debug<F: Fn(&[u32]) -> u32>(
    entropy: F,
    s: Seq<u8>,
    opts: ScanOpts,
    r: ScanReport,
    k: int,
)
    requires
        is_scan(entropy, s, opts, r),
        0 <= k < candidates(s, 0).len(),
    ensures
        !opts.debug ==> r.rejection_views().len() == 0,
        opts.debug ==> exists|bits: u32| #[trigger]
            measured(entropy, s, candidates(s, 0)[k], bits) && (verdict(
                s,
                candidates(s, 0)[k],
                bits,
                opts.strict,
            ) is Reject ==> r.rejection_views().contains(
                rejection_of(
                    s,
                    candidates(s, 0)[k],
                    bits,
                    verdict(s, candidates(s, 0)[k], bits, opts.strict)->Reject_0,
                ),
            )),
        opts.debug && !card_shaped(candidates(s, 0)[k].grouping) ==> exists|i: int|
            0 <= i < r.rejection_views().len() && (#[trigger] r.rejection_views()[i]).offset
                == candidates(s, 0)[k].offset && r.rejection_views()[i].reason
                == RejectReason::Grouping,
{
    let all = candidates(s, 0);
    let entropies = lemma_scan_entropies(entropy, s, opts, r);
    law_rejections_are_recorded(s, all, entropies, opts.strict);
    assert(measured(entropy, s, all[k], entropies[k]));
    if opts.debug && !card_shaped(all[k].grouping) {
        let c = all[k];
        law_implausible_numbers_are_rejected(
            signals_of(s, c.offset, c.end(), c.pan, c.grouping, entropies[k]),
            opts.strict,
        );
        let record = rejection_of(
            s,
            all[k],
            entropies[k],
            verdict(s, all[k], entropies[k], opts.strict)->Reject_0,
        );
        assert(r.rejection_views().contains(record));
        let i = choose|i: int| 0 <= i < r.rejection_views().len() && r.rejection_views()[i] == record;
        assert(r.rejection_views()[i].offset == c.offset);
    }
}

} // verus!
