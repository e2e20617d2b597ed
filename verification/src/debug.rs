//! What debug output says of hits and of rejected candidates.

use vstd::prelude::*;
use vstd::string::StringExecFns;
use crate::mask::{
    all_digits, digit_chars, law_digits_are_shown_as_they_are, plain_pan, plain_text,
};
use crate::report::{scheme_label, scheme_text};
use crate::scan::{Hit, HitView, Rejection, RejectionView};
use crate::text::{decimal, decimal_text, pad, padded};

verus! {

/// The line on one hit.
pub open spec fn hit_line(hit: HitView) -> Seq<char> {
    "  offset="@ + padded(decimal_text(hit.offset as nat), 10) + " scheme="@ + padded(
        scheme_label(hit.scheme),
        10,
    ) + " conf="@ + padded(hit.confidence.label(), 6) + " pan="@ + plain_pan(hit.pan) + "\n"@
}

fn hit_text(hit: &Hit) -> (r: String)
    ensures
        r@ == hit_line(hit@),
{
    let mut text: String = "  offset=".to_owned();
    text.append(pad(decimal(hit.offset as u64).as_str(), 10).as_str());
    text.append(" scheme=");
    text.append(pad(scheme_text(hit.scheme), 10).as_str());
    text.append(" conf=");
    text.append(pad(hit.confidence.name(), 6).as_str());
    text.append(" pan=");
    text.append(plain_text(hit.pan.as_slice()).as_str());
    text.append("\n");
    text
}

/// The lines on some hits.
pub open spec fn hit_lines(hits: Seq<HitView>) -> Seq<char>
    decreases hits.len(),
{
    if hits.len() == 0 {
        seq![]
    } else {
        hit_lines(hits.drop_last()) + hit_line(hits.last())
    }
}

/// What is said of a file with hits.
pub open spec fn file_message(location: Seq<char>, hits: Seq<HitView>) -> Seq<char> {
    "[DEBUG] "@ + location + ": "@ + decimal_text(hits.len()) + " PAN(s)\n"@ + hit_lines(hits)
}

/// What is said of a file with hits: a line on the file, and a line on every hit.
pub fn file_text(location: &str, hits: &Vec<Hit>) -> (r: String)
    ensures
        r@ == file_message(location@, hits@.map_values(|hit: Hit| hit@)),
{
    let ghost views = hits@.map_values(|hit: Hit| hit@);
    let mut text: String = "[DEBUG] ".to_owned();
    text.append(location);
    text.append(": ");
    text.append(decimal(hits.len() as u64).as_str());
    text.append(" PAN(s)\n");
    let ghost head = text@;
    let mut i: usize = 0;
    proof {
        assert(views.take(0) =~= seq![]);
        assert(head + hit_lines(views.take(0)) =~= head);
    }
    while i < hits.len()
        invariant
            i <= hits@.len(),
            views == hits@.map_values(|hit: Hit| hit@),
            text@ == head + hit_lines(views.take(i as int)),
        decreases hits@.len() - i,
    {
        let hit: &Hit = &hits[i];
        text.append(hit_text(hit).as_str());
        proof {
            assert(views[i as int] == hit@);
            assert(views.take(i + 1).drop_last() =~= views.take(i as int));
            assert(text@ =~= head + hit_lines(views.take(i + 1)));
        }
        i += 1;
    }
    proof {
        assert(views.take(i as int) =~= views);
        assert(text@ =~= file_message(location@, views));
    }
    text
}

/// The distance of a card word.
pub open spec fn distance_label(distance: Option<u16>) -> Seq<char> {
    match distance {
        Some(distance) => "Some("@ + decimal_text(distance as nat) + ")"@,
        None => "None"@,
    }
}

fn distance_text(distance: Option<u16>) -> (r: String)
    ensures
        r@ == distance_label(distance),
{
    match distance {
        Some(distance) => {
            let mut text: String = "Some(".to_owned();
            text.append(decimal(distance as u64).as_str());
            text.append(")");
            text
        },
        None => "None".to_owned(),
    }
}

/// What is said of a rejected candidate, given its density and entropy as text.
pub open spec fn rejection_message(
    rejection: RejectionView,
    density: Seq<char>,
    entropy: Seq<char>,
) -> Seq<char> {
    "[DEBUG-REJECT] offset="@ + decimal_text(rejection.offset as nat) + " pan="@ + plain_pan(
        rejection.pan,
    ) + " reason="@ + rejection.reason.label() + " density="@ + density + " entropy="@ + entropy
        + " kwdist="@ + distance_label(rejection.signals.keyword_distance)
}

/// What is said of a rejected candidate, given its density and entropy as text.
pub fn rejection_text(rejection: &Rejection, density: &str, entropy: &str) -> (r: String)
    ensures
        r@ == rejection_message(rejection@, density@, entropy@),
{
    let mut text: String = "[DEBUG-REJECT] offset=".to_owned();
    text.append(decimal(rejection.offset as u64).as_str());
    text.append(" pan=");
    text.append(plain_text(rejection.pan.as_slice()).as_str());
    text.append(" reason=");
    text.append(rejection.reason.text());
    text.append(" density=");
    text.append(density);
    text.append(" entropy=");
    text.append(entropy);
    text.append(" kwdist=");
    text.append(distance_text(rejection.signals.keyword_distance).as_str());
    text
}

/// The messages on a file: its line, and the line of every hit below it, in their order.
pub proof fn law_hits_are_told_in_order(location: Seq<char>, hits: Seq<HitView>, hit: HitView)
    ensures
        file_message(location, Seq::<HitView>::empty()) == "[DEBUG] "@ + location + ": "@
            + seq!['0'] + " PAN(s)\n"@,
        hit_lines(hits.push(hit)) == hit_lines(hits) + hit_line(hit),
        hit_lines(Seq::<HitView>::empty()) == Seq::<char>::empty(),
{
    assert(hits.push(hit).drop_last() =~= hits);
    assert(hit_lines(Seq::<HitView>::empty()) =~= Seq::<char>::empty());
    assert(decimal_text(0) =~= seq!['0']);
    assert(file_message(location, Seq::<HitView>::empty()) =~= "[DEBUG] "@ + location + ": "@
        + seq!['0'] + " PAN(s)\n"@);
}

/// Debug output shows a number of digits in full.
pub proof fn law_debug_shows_all_digits(hit: HitView)
    requires
        all_digits(hit.pan),
    ensures
        exists|head: Seq<char>| hit_line(hit) == #[trigger] (head + digit_chars(hit.pan)) + "\n"@,
{
    law_digits_are_shown_as_they_are(hit.pan);
    let head = "  offset="@ + padded(decimal_text(hit.offset as nat), 10) + " scheme="@ + padded(
        scheme_label(hit.scheme),
        10,
    ) + " conf="@ + padded(hit.confidence.label(), 6) + " pan="@;
    assert(hit_line(hit) == (head + digit_chars(hit.pan)) + "\n"@);
}

/// The distance of a card word is written as a number, or as none.
pub proof fn law_distances_are_written(distance: u16)
    ensures
        distance_label(Some(distance)) == "Some("@ + decimal_text(distance as nat) + ")"@,
        distance_label(None) == "None"@,
{
}

} // verus!
