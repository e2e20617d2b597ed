use panscan::bytes::{
    find_first_digit, find_first_non_digit, is_digit, is_left_boundary, is_pan_boundary,
    is_right_boundary, is_separator, subslice_find,
};
use panscan::detect::{for_each_pan_candidate, next_pan_candidate, Candidate};
use panscan::grouping::{grouping_is_card_shaped, Grouping};
use panscan::luhn::luhn_ok;
use panscan::scheme::{detect_scheme, Scheme};

fn found(text: &str) -> Vec<(usize, String)> {
    for_each_pan_candidate(text.as_bytes())
        .iter()
        .map(|c| (c.offset, String::from_utf8(c.pan.clone()).unwrap()))
        .collect()
}

fn only(text: &str) -> Candidate {
    let mut all = for_each_pan_candidate(text.as_bytes());
    assert_eq!(all.len(), 1, "{}", text);
    all.remove(0)
}

fn shape(sizes: &[u8], sep: u8, mixed_sep: bool) -> bool {
    grouping_is_card_shaped(&Grouping { sizes: sizes.to_vec(), sep, mixed_sep })
}

fn sum_passes(digits: &[u8]) -> bool {
    let mut sum = 0;
    for (i, b) in digits.iter().rev().enumerate() {
        let mut d = u32::from(b - b'0');
        if i % 2 == 1 {
            d *= 2;
            if d > 9 {
                d -= 9;
            }
        }
        sum += d;
    }
    sum % 10 == 0
}

#[test]
fn digits_and_separators() {
    for b in 0..=255u8 {
        assert_eq!(is_digit(b), b.is_ascii_digit());
        assert_eq!(is_separator(b), matches!(b, b'-' | b' ' | b'.'));
    }
}

#[test]
fn boundary_bytes() {
    for b in 0..=255u8 {
        let expected = match b {
            b' ' | b'\t' | b'\n' | b'\r' => true,
            b'_' => false,
            b if b.is_ascii_alphanumeric() => false,
            b if b.is_ascii_control() => false,
            _ => true,
        };
        assert_eq!(is_pan_boundary(b), expected, "{}", b);
    }
}

#[test]
fn left_boundaries() {
    assert!(is_left_boundary(b"4", 0));
    assert!(is_left_boundary(b",4", 1));
    assert!(is_left_boundary(b".4", 1));
    assert!(!is_left_boundary(b"1.4", 2));
    assert!(is_left_boundary(b"a.4", 2));
    assert!(!is_left_boundary(b"x4", 1));
    assert!(!is_left_boundary(b"_4", 1));
}

#[test]
fn right_boundaries() {
    assert!(is_right_boundary(b"4", 1));
    assert!(is_right_boundary(b"4", 9));
    assert!(is_right_boundary(b"4.", 1));
    assert!(!is_right_boundary(b"4.1", 1));
    assert!(is_right_boundary(b"4,1", 1));
    assert!(!is_right_boundary(b"4x", 1));
    assert!(!is_right_boundary(b"4\0", 1));
}

#[test]
fn first_digits() {
    assert_eq!(find_first_digit(b""), None);
    assert_eq!(find_first_digit(b"no digits in these twenty-odd bytes"), None);
    assert_eq!(find_first_digit(b"7"), Some(0));
    assert_eq!(find_first_digit(b"fifteen letters and 1"), Some(20));
    assert_eq!(find_first_digit(&[0xff, 0x2f, 0x3a, b'9']), Some(3));
    assert_eq!(find_first_non_digit(b""), None);
    assert_eq!(find_first_non_digit(b"0123456789012345678"), None);
    assert_eq!(find_first_non_digit(b"01234567890123456:"), Some(17));
    assert_eq!(find_first_non_digit(b"x1"), Some(0));
}

#[test]
fn subslices() {
    assert_eq!(subslice_find(b"the card, the card", b"card"), Some(4));
    assert_eq!(subslice_find(b"the card", b""), None);
    assert_eq!(subslice_find(b"car", b"card"), None);
    assert_eq!(subslice_find(b"aab", b"ab"), Some(1));
    assert_eq!(subslice_find(b"aab", b"ba"), None);
}

#[test]
fn luhn_on_known_numbers() {
    assert!(luhn_ok(b"4111111111111111"));
    assert!(luhn_ok(b"378282246310005"));
    assert!(luhn_ok(b"5555555555554444"));
    assert!(luhn_ok(b"30569309025904"));
    assert!(!luhn_ok(b"4111111111111112"));
    assert!(luhn_ok(b""));
    assert!(luhn_ok(b"0"));
    assert!(luhn_ok(b"18"));
    assert!(!luhn_ok(b"81"));
}

#[test]
fn luhn_agrees_with_the_sum() {
    for n in 0..20_000u32 {
        let digits = n.to_string();
        assert_eq!(luhn_ok(digits.as_bytes()), sum_passes(digits.as_bytes()), "{}", n);
    }
}

#[test]
fn one_wrong_digit_is_noticed() {
    let good = b"4111111111111111";
    for i in 0..good.len() {
        for b in b'0'..=b'9' {
            let mut changed = good.to_vec();
            changed[i] = b;
            assert_eq!(luhn_ok(&changed), b == good[i]);
        }
    }
}

#[test]
fn schemes() {
    let of = |text: &str| detect_scheme(text.as_bytes());
    assert_eq!(of("4111111111111111"), Some(Scheme::Visa));
    assert_eq!(of("41111111111111"), None);
    assert_eq!(of("5100000000000000"), Some(Scheme::Mastercard));
    assert_eq!(of("5500000000000000"), Some(Scheme::Mastercard));
    assert_eq!(of("5000000000000000"), None);
    assert_eq!(of("5600000000000000"), None);
    assert_eq!(of("510000000000000"), None);
    assert_eq!(of("340000000000000"), Some(Scheme::Amex));
    assert_eq!(of("370000000000000"), Some(Scheme::Amex));
    assert_eq!(of("3400000000000000"), None);
    assert_eq!(of("3528000000000000"), Some(Scheme::Jcb));
    assert_eq!(of("3529000000000000"), Some(Scheme::Jcb));
    assert_eq!(of("3527000000000000"), None);
    assert_eq!(of("3530000000000000"), Some(Scheme::Jcb));
    assert_eq!(of("3589000000000000"), Some(Scheme::Jcb));
    assert_eq!(of("3590000000000000"), None);
    assert_eq!(of("35300000000000"), None);
    assert_eq!(of("30000000000000"), Some(Scheme::Diners));
    assert_eq!(of("3050000000000000"), Some(Scheme::Diners));
    assert_eq!(of("30600000000000"), None);
    assert_eq!(of("30950000000000"), Some(Scheme::Diners));
    assert_eq!(of("30960000000000"), None);
    assert_eq!(of("305000000000000"), None);
    assert_eq!(of("36000000000000"), Some(Scheme::Diners));
    assert_eq!(of("3800000000000000"), Some(Scheme::Diners));
    assert_eq!(of("39000000000000"), Some(Scheme::Diners));
    assert_eq!(of("390000000000000"), None);
    assert_eq!(of("31000000000000"), None);
    assert_eq!(of("6011000000000000"), None);
    assert_eq!(of("2221000000000000"), None);
    assert_eq!(of(""), None);
    assert_eq!(of("3"), None);
    assert_eq!(of("35"), None);
}

#[test]
fn scheme_names() {
    assert_eq!(Scheme::Visa.name(), "Visa");
    assert_eq!(Scheme::Mastercard.name(), "Mastercard");
    assert_eq!(Scheme::Amex.name(), "Amex");
    assert_eq!(Scheme::Diners.name(), "Diners");
    assert_eq!(Scheme::Jcb.name(), "JCB");
}

#[test]
fn card_shapes() {
    assert!(shape(&[16], 0, false));
    assert!(shape(&[], 0, false));
    assert!(shape(&[1; 16], b' ', false));
    assert!(shape(&[1; 16], b'-', false));
    assert!(!shape(&[1; 16], b'-', true));
    assert!(shape(&[4, 4, 4, 4], b' ', false));
    assert!(shape(&[4, 6, 5], b' ', false));
    assert!(shape(&[4, 6, 4], b' ', false));
    assert!(!shape(&[4, 5, 5], b' ', false));
    assert!(!shape(&[1, 5, 2, 4, 1, 1], b' ', false));
    assert!(shape(&[4, 5, 5], b'-', false));
    assert!(shape(&[3, 3, 3, 6], b'.', false));
    assert!(!shape(&[2, 4, 4, 4], b'-', false));
    assert!(!shape(&[7, 7], b'.', false));
    assert!(!shape(&[4, 4, 4, 4], b'/', false));
    assert!(!shape(&[4, 4, 4, 4], b' ', true));
}

#[test]
fn contiguous_and_grouped_candidates() {
    assert_eq!(found("4111111111111111"), vec![(0, "4111111111111111".to_owned())]);
    assert_eq!(found("4111-1111-1111-1111"), vec![(0, "4111111111111111".to_owned())]);
    assert_eq!(found("4111 1111 1111 1111"), vec![(0, "4111111111111111".to_owned())]);
    assert_eq!(found("4111.1111.1111.1111"), vec![(0, "4111111111111111".to_owned())]);
    assert_eq!(
        found("4-1-1-1-1-1-1-1-1-1-1-1-1-1-1-1"),
        vec![(0, "4111111111111111".to_owned())]
    );
}

#[test]
fn groups_of_a_candidate() {
    let c = only("on 3782-822463-10005.");
    assert_eq!(c.offset, 3);
    assert_eq!(c.pan, b"378282246310005".to_vec());
    assert_eq!(c.grouping.sizes, vec![4, 6, 5]);
    assert_eq!(c.grouping.sep, b'-');
    assert!(!c.grouping.mixed_sep);
    assert_eq!(c.span_end(), 20);
    let c = only("4111-1111 1111.1111");
    assert_eq!(c.grouping.sizes, vec![4, 4, 4, 4]);
    assert_eq!(c.grouping.sep, b'-');
    assert!(c.grouping.mixed_sep);
    assert_eq!(c.span_end(), 19);
    let c = only("4111111111111111");
    assert_eq!(c.grouping.sizes, vec![16]);
    assert_eq!(c.grouping.sep, 0);
    assert_eq!(c.span_end(), 16);
}

#[test]
fn what_is_no_candidate() {
    let none: Vec<(usize, String)> = Vec::new();
    assert_eq!(found("4111111111111112"), none);
    assert_eq!(found("4111--1111-1111-1111"), none);
    assert_eq!(found("id_4111111111111111_token"), none);
    assert_eq!(found("a4111111111111111"), none);
    assert_eq!(found("\u{0}4111111111111111\u{0}"), none);
    assert_eq!(found("1234567890123"), none);
    assert_eq!(found("41111111111111111"), none);
    assert_eq!(found("19.47879981994629"), none);
    assert_eq!(found(""), none);
}

#[test]
fn other_boundaries_are_fine() {
    assert_eq!(found("(4111111111111111)").len(), 1);
    assert_eq!(found("מספר4111111111111111מספר").len(), 1);
    assert_eq!(found("4111111111111111.").len(), 1);
    assert_eq!(found("pan=4111111111111111;").len(), 1);
}

#[test]
fn neighbours_with_one_space_are_discarded_together() {
    assert!(found("4111111111111111 4111111111111111").is_empty());
    let two = found("4111111111111111,5555555555554444");
    assert_eq!(
        two,
        vec![(0, "4111111111111111".to_owned()), (17, "5555555555554444".to_owned())]
    );
    assert_eq!(found("4111111111111111\n4111111111111111").len(), 2);
    assert_eq!(found("4111111111111111\t4111111111111111").len(), 2);
}

#[test]
fn candidates_are_ordered_and_apart() {
    let text = "4111111111111111, 5555-5555-5555-4444; 378282246310005";
    let all = for_each_pan_candidate(text.as_bytes());
    assert_eq!(all.len(), 3);
    for pair in all.windows(2) {
        assert!(pair[0].span_end() <= pair[1].offset);
    }
}

#[test]
fn candidates_one_by_one() {
    let text = b"4111111111111111,5555555555554444";
    let (first, next) = next_pan_candidate(text, 0).unwrap();
    assert_eq!(first.offset, 0);
    let (second, next) = next_pan_candidate(text, next).unwrap();
    assert_eq!(second.offset, 17);
    assert!(next_pan_candidate(text, next).is_none());
}

#[test]
fn chain_that_grows_too_long_is_discarded() {
    assert!(found("4111-1111-1111-1111-1").is_empty());
    assert!(found("1 4111111111111111").is_empty());
    assert_eq!(found("4111111111111111, 4111-1111-1111-1111-1").len(), 1);
}
