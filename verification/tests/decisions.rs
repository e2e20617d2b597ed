use panscan::classify::{
    classify, score, Confidence, Decision, MinConfidence, PanSignals, RejectReason,
};
use panscan::dedup::{pan_key, DedupSet};
use panscan::grouping::Grouping;
use panscan::scan::{find_pans, scan_file_deep, ScanOpts, ScanReport};
use panscan::scheme::Scheme;
use panscan::signals::{byte_counts, digit_density, keyword_distance, DigitDensity};

fn entropy(counts: &[u32]) -> u32 {
    let total: u64 = counts.iter().map(|&count| u64::from(count)).sum();
    let n = total as f32;
    let mut bits = 0.0f32;
    for &count in counts {
        if count > 0 {
            let p = count as f32 / n;
            bits -= p * p.log2();
        }
    }
    bits.to_bits()
}

fn opts(strict: bool, min_confidence: Confidence) -> ScanOpts {
    ScanOpts { strict, max_bytes: 1 << 20, debug: true, min_confidence }
}

fn scan(text: &[u8], strict: bool, least: Confidence) -> ScanReport {
    find_pans(text, &opts(strict, least), entropy)
}

fn lax(text: &str) -> ScanReport {
    scan(text.as_bytes(), false, Confidence::Low)
}

fn plain() -> PanSignals {
    PanSignals {
        scheme: Some(Scheme::Visa),
        digit_density: DigitDensity { digits: 0, total: 128 },
        entropy_bits: 4.5f32.to_bits(),
        keyword_distance: Some(10),
        grouping_card_shaped: true,
    }
}

#[test]
fn densities() {
    let text = b"12ab 4111111111111111 cd34";
    assert_eq!(digit_density(text, 5, 21), DigitDensity { digits: 4, total: 10 });
    assert_eq!(digit_density(b"4111111111111111", 0, 16), DigitDensity { digits: 0, total: 0 });
    let long = vec![b'7'; 400];
    assert_eq!(digit_density(&long, 200, 216), DigitDensity { digits: 128, total: 128 });
}

#[test]
fn density_limit_agrees_with_single_precision() {
    for total in 0..=128usize {
        for digits in 0..=total {
            let signals = PanSignals { digit_density: DigitDensity { digits, total }, ..plain() };
            let share = if total == 0 { 0.0 } else { digits as f32 / total as f32 };
            let rejected =
                classify(&signals, true) == Decision::Reject(RejectReason::Density);
            assert_eq!(rejected, share > 0.55f32, "{}/{}", digits, total);
        }
    }
}

#[test]
fn entropy_limit_agrees_with_single_precision() {
    for bits in [
        0.0f32, -0.0, 1.0, 6.5, 6.999_999_5, 7.0, 7.000_000_5, 7.5, 8.0, -8.0, f32::MAX,
        f32::INFINITY, f32::NEG_INFINITY, f32::NAN, -f32::NAN, f32::MIN_POSITIVE,
    ] {
        let signals = PanSignals { entropy_bits: bits.to_bits(), ..plain() };
        let rejected = classify(&signals, true) == Decision::Reject(RejectReason::Entropy);
        assert_eq!(rejected, bits > 7.0, "{}", bits);
    }
}

#[test]
fn counts_of_bytes() {
    let counts = byte_counts(b"aab 41", 4, 6);
    assert_eq!(counts.len(), 256);
    assert_eq!(counts[b'a' as usize], 2);
    assert_eq!(counts[b'b' as usize], 1);
    assert_eq!(counts[b'4' as usize], 1);
    assert_eq!(counts[b'z' as usize], 0);
    assert_eq!(counts.iter().sum::<u32>(), 6);
    let long = vec![b'x'; 1000];
    assert_eq!(byte_counts(&long, 500, 516)[b'x' as usize], 128 + 16 + 128);
}

#[test]
fn distances_to_card_words() {
    let text = b"card 4111111111111111";
    assert_eq!(keyword_distance(text, 5, 21), Some(1));
    let text = b"4111111111111111 CVV";
    assert_eq!(keyword_distance(text, 0, 16), Some(1));
    let text = b"nothing of note 4111111111111111";
    assert_eq!(keyword_distance(text, 16, 32), None);
    let text = b"visa then more words 4111111111111111 VISA";
    assert_eq!(keyword_distance(text, 21, 37), Some(1));
    let text = "כרטיס 4111111111111111".as_bytes();
    assert_eq!(keyword_distance(text, 11, 27), Some(1));
    let text = "אשראי: 4111111111111111".as_bytes();
    assert_eq!(keyword_distance(text, 12, 28), Some(2));
    let text = "מספר4111111111111111".as_bytes();
    assert_eq!(keyword_distance(text, 8, 24), Some(0));
}

#[test]
fn card_words_out_of_reach() {
    let mut text = b"card".to_vec();
    text.extend(vec![b'x'; 252]);
    let start = text.len();
    text.extend_from_slice(b"4111111111111111");
    assert_eq!(keyword_distance(&text, start, start + 16), Some(252));
    text.insert(4, b'x');
    assert_eq!(keyword_distance(&text, start + 1, start + 17), None);
}

#[test]
fn card_words_behind_the_longest_candidate() {
    let mut text = vec![b'x'; 256];
    text.extend_from_slice(b"4-1-1-1-1-1-1-1-1-1-1-1-1-1-1-1");
    text.extend(vec![b'x'; 252]);
    text.extend_from_slice(b"CARD");
    assert_eq!(keyword_distance(&text, 256, 287), Some(252));
}

#[test]
fn a_nearer_word_is_no_worse() {
    let mut last = Confidence::High;
    for distance in 0..300u16 {
        let signals = PanSignals { keyword_distance: Some(distance), ..plain() };
        let Decision::Accept(confidence) = classify(&signals, true) else {
            panic!("rejected");
        };
        assert!(confidence.rank() <= last.rank());
        last = confidence;
    }
    assert_eq!(last, Confidence::Medium);
}

#[test]
fn every_card_word_counts() {
    let words = [
        "card", "pan", "visa", "mastercard", "amex", "cvv", "cvc", "creditcard", "credit",
        "ccnum", "cc_num", "cardnumber", "card_number", "cardno", "card_no", "iin",
        "primary account", "payment", "cardholder", "כרטיס", "אשראי", "מספר",
    ];
    for word in words {
        let text = format!("{} 4111111111111111", word);
        let start = word.len() + 1;
        assert!(keyword_distance(text.as_bytes(), start, start + 16).is_some(), "{}", word);
    }
}

#[test]
fn each_reason_to_reject() {
    let grouping = PanSignals { grouping_card_shaped: false, ..plain() };
    assert_eq!(classify(&grouping, false), Decision::Reject(RejectReason::Grouping));
    let noisy = PanSignals { entropy_bits: 7.5f32.to_bits(), ..plain() };
    assert_eq!(classify(&noisy, false), Decision::Reject(RejectReason::Entropy));
    let dense = PanSignals { digit_density: DigitDensity { digits: 100, total: 128 }, ..plain() };
    assert_eq!(classify(&dense, false), Decision::Reject(RejectReason::Density));
    let unknown = PanSignals { scheme: None, ..plain() };
    assert_eq!(classify(&unknown, true), Decision::Reject(RejectReason::Scheme));
    assert_eq!(RejectReason::Grouping.text(), "grouping pattern not card-shaped");
    assert_eq!(RejectReason::Entropy.text(), "high-entropy surround (binary blob)");
    assert_eq!(RejectReason::Density.text(), "dense-numeric surround (not a PAN context)");
    assert_eq!(RejectReason::Scheme.text(), "BIN/length doesn't match any known scheme");
}

#[test]
fn tiers_of_confidence() {
    let at = |distance| PanSignals { keyword_distance: distance, ..plain() };
    assert_eq!(classify(&at(Some(0)), true), Decision::Accept(Confidence::High));
    assert_eq!(classify(&at(Some(64)), true), Decision::Accept(Confidence::High));
    assert_eq!(classify(&at(Some(65)), true), Decision::Accept(Confidence::Medium));
    assert_eq!(classify(&at(None), true), Decision::Accept(Confidence::Low));
    let unknown = |distance| PanSignals { scheme: None, ..at(distance) };
    assert_eq!(classify(&unknown(Some(0)), false), Decision::Accept(Confidence::Medium));
    assert_eq!(classify(&unknown(Some(65)), false), Decision::Accept(Confidence::Medium));
    assert_eq!(classify(&unknown(None), false), Decision::Accept(Confidence::Low));
}

#[test]
fn context_and_mode_never_change_a_confidence() {
    for distance in [None, Some(0), Some(64), Some(65), Some(256)] {
        let quiet = PanSignals { keyword_distance: distance, entropy_bits: 0, ..plain() };
        let busy = PanSignals {
            digit_density: DigitDensity { digits: 70, total: 128 },
            entropy_bits: 7.0f32.to_bits(),
            ..quiet
        };
        assert_eq!(classify(&quiet, true), classify(&busy, false));
        assert_eq!(classify(&quiet, false), classify(&busy, true));
    }
}

#[test]
fn order_of_reasons() {
    let all_wrong = PanSignals {
        scheme: None,
        digit_density: DigitDensity { digits: 128, total: 128 },
        entropy_bits: 8.0f32.to_bits(),
        keyword_distance: None,
        grouping_card_shaped: false,
    };
    assert_eq!(classify(&all_wrong, true), Decision::Reject(RejectReason::Grouping));
    let next = PanSignals { grouping_card_shaped: true, ..all_wrong };
    assert_eq!(classify(&next, true), Decision::Reject(RejectReason::Entropy));
    let next = PanSignals { entropy_bits: 0, ..next };
    assert_eq!(classify(&next, true), Decision::Reject(RejectReason::Density));
    let next = PanSignals { digit_density: DigitDensity { digits: 0, total: 0 }, ..next };
    assert_eq!(classify(&next, true), Decision::Reject(RejectReason::Scheme));
    assert_eq!(classify(&next, false), Decision::Accept(Confidence::Low));
}

#[test]
fn names_and_ranks() {
    assert_eq!(Confidence::Low.name(), "low");
    assert_eq!(Confidence::Medium.name(), "medium");
    assert_eq!(Confidence::High.name(), "high");
    assert!(Confidence::Low.rank() < Confidence::Medium.rank());
    assert!(Confidence::Medium.rank() < Confidence::High.rank());
    assert_eq!(MinConfidence::Low.to_confidence(), Confidence::Low);
    assert_eq!(MinConfidence::Medium.to_confidence(), Confidence::Medium);
    assert_eq!(MinConfidence::High.to_confidence(), Confidence::High);
}

#[test]
fn signals_of_a_candidate() {
    let text = b"card 4111-1111-1111-1111 ok";
    let grouping = Grouping { sizes: vec![4, 4, 4, 4], sep: b'-', mixed_sep: false };
    let signals = score(text, 5, 24, b"4111111111111111", &grouping, 17);
    assert_eq!(signals.scheme, Some(Scheme::Visa));
    assert_eq!(signals.digit_density, DigitDensity { digits: 0, total: 8 });
    assert_eq!(signals.entropy_bits, 17);
    assert_eq!(signals.keyword_distance, Some(1));
    assert!(signals.grouping_card_shaped);
}

#[test]
fn keys_of_numbers() {
    let mut expected = [0u8; 16];
    expected[..14].copy_from_slice(b"30569309025904");
    assert_eq!(pan_key(b"30569309025904"), expected);
    assert_eq!(&pan_key(b"4111111111111111"), b"4111111111111111");
    assert_ne!(pan_key(b"30569309025904"), pan_key(b"305693090259040"));
}

#[test]
fn each_key_is_new_once() {
    let mut seen = DedupSet::new();
    assert!(seen.insert(pan_key(b"4111111111111111")));
    assert!(seen.insert(pan_key(b"5555555555554444")));
    assert!(!seen.insert(pan_key(b"4111111111111111")));
    assert!(!seen.insert(pan_key(b"5555555555554444")));
    assert!(seen.insert(pan_key(b"378282246310005")));
}

#[test]
fn hits_of_a_scan() {
    let text = "Visa card 4111111111111111 paid; Amex 3782 822463 10005.";
    let report = scan(text.as_bytes(), true, Confidence::Medium);
    assert_eq!(report.hits.len(), 2);
    assert_eq!(report.hits[0].offset, 10);
    assert_eq!(report.hits[0].pan, b"4111111111111111".to_vec());
    assert_eq!(report.hits[0].scheme, Some(Scheme::Visa));
    assert_eq!(report.hits[0].confidence, Confidence::High);
    assert_eq!(report.hits[1].offset, 38);
    assert_eq!(report.hits[1].pan, b"378282246310005".to_vec());
    assert_eq!(report.hits[1].scheme, Some(Scheme::Amex));
}

#[test]
fn least_confidence_of_a_scan() {
    let text = b"some words, then 4111111111111111, and more words";
    assert_eq!(scan(text, true, Confidence::Low).hits.len(), 1);
    assert_eq!(scan(text, true, Confidence::Low).hits[0].confidence, Confidence::Low);
    assert!(scan(text, true, Confidence::Medium).hits.is_empty());
    assert!(scan(text, true, Confidence::High).hits.is_empty());
}

#[test]
fn strict_mode_of_a_scan() {
    let text = b"card number 6011111111111117 on file";
    assert!(scan(text, true, Confidence::Low).hits.is_empty());
    let report = scan(text, false, Confidence::Low);
    assert_eq!(report.hits.len(), 1);
    assert_eq!(report.hits[0].scheme, None);
    assert_eq!(report.hits[0].confidence, Confidence::Medium);
}

#[test]
fn each_number_once_where_accepted_first() {
    let text = "4111111111111111 was charged first, then the card 4111111111111111 once more; \
        and for the last time the card 4111-1111-1111-1111 on the same day.";
    let low = scan(text.as_bytes(), true, Confidence::Low);
    assert_eq!(low.hits.len(), 1);
    assert_eq!(low.hits[0].offset, 0);
    let mut far = "4111111111111111 ".to_owned();
    far.push_str(&"x".repeat(300));
    far.push_str(" card: 4111111111111111.");
    let high = scan(far.as_bytes(), true, Confidence::High);
    assert_eq!(high.hits.len(), 1);
    assert_eq!(high.hits[0].offset, 324);
}

#[test]
fn rejections_of_a_scan() {
    let report = lax("card 4111 11111 1111111; card 4111111111111111");
    assert_eq!(report.hits.len(), 1);
    assert_eq!(report.rejected.len(), 1);
    assert_eq!(report.rejected[0].reason, RejectReason::Grouping);
    assert_eq!(report.rejected[0].offset, 5);
    assert_eq!(report.rejected[0].pan, b"4111111111111111".to_vec());
    let quiet = ScanOpts { debug: false, ..opts(false, Confidence::Low) };
    let silent = find_pans(b"card 4111 11111 1111111", &quiet, entropy);
    assert!(silent.rejected.is_empty());
    assert!(silent.hits.is_empty());
}

#[test]
fn dense_surroundings_are_rejected() {
    let text = "12345,67890,12345,67890,4111111111111111,12345,67890,12345,67890";
    let report = lax(text);
    assert!(report.hits.is_empty());
    assert_eq!(report.rejected[0].reason, RejectReason::Density);
}

#[test]
fn noisy_surroundings_are_rejected() {
    let mut text: Vec<u8> = (0..120u8).map(|b| b | 0x80).collect();
    text.extend((0..=127u8).filter(|b| !b.is_ascii_digit() && *b != b'~'));
    text.push(b'~');
    let start = text.len();
    text.extend_from_slice(b"4111111111111111");
    text.push(b'~');
    text.extend((128..=255u8).rev());
    let report = scan(&text, false, Confidence::Low);
    assert!(report.hits.is_empty());
    assert_eq!(report.rejected.len(), 1);
    assert_eq!(report.rejected[0].offset, start);
    assert_eq!(report.rejected[0].reason, RejectReason::Entropy);
}

#[test]
fn laxer_options_lose_nothing() {
    let text = "the card 4111111111111111 was charged, then the number 6011111111111117 too";
    let numbers = |report: ScanReport| -> Vec<Vec<u8>> {
        report.hits.into_iter().map(|hit| hit.pan).collect()
    };
    let strict = numbers(scan(text.as_bytes(), true, Confidence::High));
    let loose = numbers(lax(text));
    assert!(strict.iter().all(|pan| loose.contains(pan)));
    assert!(loose.len() > strict.len());
}

#[test]
fn strict_hits_are_the_issued_ones() {
    let text = "the card 4111111111111111 was charged, then the number 6011111111111117 too, \
        the number 6011111111111117 again, and at last 378282246310005 from another place";
    for least in [Confidence::Low, Confidence::Medium, Confidence::High] {
        let shown = |report: ScanReport| -> Vec<(usize, Vec<u8>, Option<Scheme>, Confidence)> {
            report.hits.into_iter().map(|h| (h.offset, h.pan, h.scheme, h.confidence)).collect()
        };
        let strict = shown(scan(text.as_bytes(), true, least));
        let mut issued = shown(scan(text.as_bytes(), false, least));
        let all = issued.len();
        issued.retain(|hit| hit.2.is_some());
        assert_eq!(strict, issued);
        assert_eq!(all > issued.len(), least != Confidence::High);
    }
}

#[test]
fn scanning_again_gives_the_same() {
    let text = "the card 4111111111111111 was charged, then the pan: 5555555555554444";
    let (first, second) = (lax(text), lax(text));
    assert_eq!(first.hits.len(), 2);
    for (a, b) in first.hits.iter().zip(second.hits.iter()) {
        assert_eq!((a.offset, &a.pan, a.confidence), (b.offset, &b.pan, b.confidence));
    }
}

#[test]
fn files_with_and_without_bytes() {
    let opts = opts(true, Confidence::Low);
    assert!(scan_file_deep(None, &opts, entropy).hits.is_empty());
    let bytes: &[u8] = b"card 4111111111111111";
    assert_eq!(scan_file_deep(Some(bytes), &opts, entropy).hits.len(), 1);
}
