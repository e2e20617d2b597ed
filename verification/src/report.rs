//! The report: one line for every card number, by path and offset.

use vstd::prelude::*;
use vstd::utf8::encode_utf8;
use crate::classify::Confidence;
use crate::csv_line::{csv_line, write_line};
use crate::detect::candidates;
use crate::files::{file_views, FileHits, FileHitsView};
use crate::mask::{
    all_digits, digit_chars, is_maskable, law_digits_are_shown_as_they_are,
    law_digits_can_be_masked, law_mask_hides_middle, maskable, show_pan, shown_pan,
};
use crate::order::{
    in_row_order, keys_of, law_paths_are_ordered, law_row_order_is_unique, path_before, row_before,
    sort_rows, FilePath, RowKey,
};
use crate::scan::{hits_among, law_hit_is_a_card_number, Hit, HitView};
use crate::scheme::Scheme;
use crate::text::{decimal, decimal_text};

verus! {

/// The name of a scheme, or a question mark.
pub open spec fn scheme_label(scheme: Option<Scheme>) -> Seq<char> {
    match scheme {
        Some(scheme) => scheme.label(),
        None => "?"@,
    }
}

/// The name of a scheme, or a question mark.
pub fn scheme_text(scheme: Option<Scheme>) -> (r: &'static str)
    ensures
        r@ == scheme_label(scheme),
{
    match scheme {
        Some(scheme) => scheme.name(),
        None => "?",
    }
}

/// The place of every hit: the index of the file, and the index among the hits of the file.
pub open spec fn places(files: Seq<FileHitsView>) -> Seq<(int, int)>
    decreases files.len(),
{
    if files.len() == 0 {
        seq![]
    } else {
        places(files.drop_last()) + places_in(files.len() - 1, files.last().hits.len())
    }
}

/// The places of the first `n` hits of one file.
pub open spec fn places_in(file: int, n: nat) -> Seq<(int, int)> {
    Seq::new(n, |hit: int| (file, hit))
}

/// The hit at a place.
pub open spec fn hit_at(files: Seq<FileHitsView>, place: (int, int)) -> HitView {
    files[place.0].hits[place.1]
}

/// What the row of a hit is ordered by.
pub open spec fn row_key(files: Seq<FileHitsView>, place: (int, int)) -> RowKey {
    RowKey {
        path: place.0 as usize,
        offset: hit_at(files, place).offset as usize,
    }
}

/// What the rows are ordered by, in the order of their places.
pub open spec fn row_keys(files: Seq<FileHitsView>) -> Seq<RowKey> {
    places(files).map_values(|place: (int, int)| row_key(files, place))
}

/// What the files are ordered by.
pub open spec fn path_keys(files: Seq<FileHitsView>) -> Seq<Seq<Seq<u8>>> {
    files.map_values(|file: FileHitsView| file.key)
}

/// The order of the rows of a report: by path, then by offset. Rows that neither tells apart keep
/// the order of their places.
pub open spec fn is_report_order(files: Seq<FileHitsView>, order: Seq<usize>) -> bool {
    in_row_order(path_keys(files), row_keys(files), order, 0, places(files).len() as int)
}

/// The fields of the row of a hit, given how its number is shown.
pub open spec fn row_fields(location: Seq<char>, hit: HitView, pan: Seq<char>) -> Seq<Seq<u8>> {
    seq![
        encode_utf8(location),
        encode_utf8(decimal_text(hit.offset as nat)),
        encode_utf8(scheme_label(hit.scheme)),
        encode_utf8(hit.confidence.label()),
        encode_utf8(pan),
    ]
}

/// The names of the columns.
pub open spec fn header_fields() -> Seq<Seq<u8>> {
    seq![
        encode_utf8("location"@),
        encode_utf8("offset"@),
        encode_utf8("scheme"@),
        encode_utf8("confidence"@),
        encode_utf8("pan"@),
    ]
}

/// The line of the hit at a place.
pub open spec fn line_at(files: Seq<FileHitsView>, place: (int, int), unmask: bool) -> Seq<u8> {
    let hit = hit_at(files, place);
    csv_line(row_fields(files[place.0].location, hit, shown_pan(hit.pan, unmask)))
}

/// The lines of the first rows.
pub open spec fn report_lines(
    files: Seq<FileHitsView>,
    order: Seq<usize>,
    unmask: bool,
) -> Seq<u8>
    decreases order.len(),
{
    if order.len() == 0 {
        seq![]
    } else {
        report_lines(files, order.drop_last(), unmask) + line_at(
            files,
            places(files)[order.last() as int],
            unmask,
        )
    }
}

/// The whole report, given the order of its rows.
pub open spec fn report_bytes(
    files: Seq<FileHitsView>,
    order: Seq<usize>,
    unmask: bool,
) -> Seq<u8> {
    csv_line(header_fields()) + report_lines(files, order, unmask)
}

/// Every number can be masked.
pub open spec fn all_maskable(files: Seq<FileHitsView>) -> bool {
    forall|i: int, k: int|
        0 <= i < files.len() && 0 <= k < files[i].hits.len() ==> maskable(
            (#[trigger] files[i].hits[k]).pan,
        )
}

/// Every number can be masked.
pub fn can_be_masked(files: &Vec<FileHits>) -> (r: bool)
    ensures
        r == all_maskable(file_views(files@)),
{
    let ghost views = file_views(files@);
    let mut i: usize = 0;
    while i < files.len()
        invariant
            i <= files@.len(),
            views == file_views(files@),
            forall|j: int, k: int|
                0 <= j < i && 0 <= k < views[j].hits.len() ==> maskable(
                    (#[trigger] views[j].hits[k]).pan,
                ),
        decreases files@.len() - i,
    {
        let hits: &Vec<Hit> = &files[i].hits;
        proof {
            assert(views[i as int].hits == hits@.map_values(|hit: Hit| hit@));
        }
        let mut k: usize = 0;
        while k < hits.len()
            invariant
                i < files@.len(),
                k <= hits@.len(),
                views == file_views(files@),
                views[i as int].hits == hits@.map_values(|hit: Hit| hit@),
                forall|m: int|
                    0 <= m < k ==> maskable((#[trigger] views[i as int].hits[m]).pan),
            decreases hits@.len() - k,
        {
            proof {
                assert(views[i as int].hits[k as int].pan == hits@[k as int].pan@);
            }
            if !is_maskable(hits[k].pan.as_slice()) {
                return false;
            }
            k += 1;
        }
        i += 1;
    }
    true
}

/// The line of a hit, given how its number is shown.
pub fn csv_row(location: &str, hit: &Hit, pan: &str) -> (r: Vec<u8>)
    ensures
        r@ == csv_line(row_fields(location@, hit@, pan@)),
{
    let offset: String = decimal(hit.offset as u64);
    write_line(
        location,
        offset.as_str(),
        scheme_text(hit.scheme),
        hit.confidence.name(),
        pan,
    ).unwrap()
}

/// The line with the names of the columns.
pub fn csv_header() -> (r: Vec<u8>)
    ensures
        r@ == csv_line(header_fields()),
{
    write_line("location", "offset", "scheme", "confidence", "pan").unwrap()
}

/// Every place names a hit.
proof fn lemma_places_are_hits(files: Seq<FileHitsView>, m: int)
    requires
        0 <= m < places(files).len(),
    ensures
        0 <= places(files)[m].0 < files.len(),
        0 <= places(files)[m].1 < files[places(files)[m].0].hits.len(),
    decreases files.len(),
{
    let fewer = places(files.drop_last());
    if m < fewer.len() {
        lemma_places_are_hits(files.drop_last(), m);
    }
}

/// Every hit has a place.
proof fn lemma_hits_have_places(files: Seq<FileHitsView>, i: int, k: int) -> (m: int)
    requires
        0 <= i < files.len(),
        0 <= k < files[i].hits.len(),
    ensures
        0 <= m < places(files).len(),
        places(files)[m] == (i, k),
    decreases files.len(),
{
    let fewer = places(files.drop_last());
    if i < files.len() - 1 {
        lemma_hits_have_places(files.drop_last(), i, k)
    } else {
        fewer.len() + k
    }
}

/// No place is named twice.
proof fn lemma_places_differ(files: Seq<FileHitsView>, m: int, n: int)
    requires
        0 <= m < n < places(files).len(),
    ensures
        places(files)[m] != places(files)[n],
    decreases files.len(),
{
    let fewer = places(files.drop_last());
    if n < fewer.len() {
        lemma_places_differ(files.drop_last(), m, n);
    } else if m < fewer.len() {
        lemma_places_are_hits(files.drop_last(), m);
    }
}

/// The same place in numbers of the machine.
spec fn as_place(pair: (usize, usize)) -> (int, int) {
    (pair.0 as int, pair.1 as int)
}

/// The places of all hits.
fn hit_places(files: &Vec<FileHits>) -> (r: Vec<(usize, usize)>)
    ensures
        r@.len() == places(file_views(files@)).len(),
        forall|m: int|
            0 <= m < r@.len() ==> as_place(#[trigger] r@[m]) == places(file_views(files@))[m],
{
    let ghost views = file_views(files@);
    let n: usize = files.len();
    let mut out: Vec<(usize, usize)> = Vec::new();
    let mut i: usize = 0;
    proof {
        assert(views.take(0) =~= seq![]);
    }
    while i < n
        invariant
            i <= n == files@.len(),
            views == file_views(files@),
            out@.len() == places(views.take(i as int)).len(),
            forall|m: int|
                0 <= m < out@.len() ==> as_place(#[trigger] out@[m]) == places(
                    views.take(i as int),
                )[m],
        decreases n - i,
    {
        let count: usize = files[i].hits.len();
        let ghost before = places(views.take(i as int));
        let ghost after = places(views.take(i + 1));
        proof {
            assert(views.take(i + 1).drop_last() =~= views.take(i as int));
            assert(views.take(i + 1).last().hits.len() == count);
            assert(after =~= before + places_in(i as int, count as nat));
        }
        let mut k: usize = 0;
        while k < count
            invariant
                k <= count,
                after == before + places_in(i as int, count as nat),
                out@.len() == before.len() + k,
                forall|m: int| 0 <= m < out@.len() ==> as_place(#[trigger] out@[m]) == after[m],
            decreases count - k,
        {
            out.push((i, k));
            k += 1;
        }
        i += 1;
    }
    proof {
        assert(views.take(n as int) =~= views);
    }
    out
}

/// The rows of a report, named by their places, in their order.
fn order_of_places(files: &Vec<FileHits>, found: &Vec<(usize, usize)>) -> (r: Vec<usize>)
    requires
        found@.len() == places(file_views(files@)).len(),
        forall|m: int|
            0 <= m < found@.len() ==> as_place(#[trigger] found@[m]) == places(
                file_views(files@),
            )[m],
    ensures
        is_report_order(file_views(files@), r@),
{
    let ghost views = file_views(files@);
    let n: usize = files.len();
    let mut paths: Vec<&FilePath> = Vec::new();
    let mut i: usize = 0;
    while i < n
        invariant
            i <= n == files@.len(),
            views == file_views(files@),
            paths@.len() == i,
            forall|k: int| 0 <= k < i ==> (#[trigger] paths@[k]).key() == views[k].key,
        decreases n - i,
    {
        paths.push(&files[i].path);
        i += 1;
    }
    let mut rows: Vec<RowKey> = Vec::new();
    let mut m: usize = 0;
    while m < found.len()
        invariant
            m <= found@.len(),
            n == files@.len() == paths@.len(),
            views == file_views(files@),
            found@.len() == places(views).len(),
            forall|m: int| 0 <= m < found@.len() ==> as_place(#[trigger] found@[m]) == places(views)[m],
            rows@.len() == m,
            forall|k: int| 0 <= k < m ==> #[trigger] rows@[k] == row_keys(views)[k],
            forall|k: int| 0 <= k < m ==> (#[trigger] rows@[k]).path < paths@.len(),
        decreases found@.len() - m,
    {
        proof {
            lemma_places_are_hits(views, m as int);
            assert(as_place(found@[m as int]) == places(views)[m as int]);
        }
        let place: (usize, usize) = found[m];
        let hit: &Hit = &files[place.0].hits[place.1];
        proof {
            assert(hit_at(views, places(views)[m as int]) == hit@);
        }
        rows.push(RowKey { path: place.0, offset: hit.offset });
        m += 1;
    }
    proof {
        assert(rows@ =~= row_keys(views));
        assert(keys_of(paths@) =~= path_keys(views));
    }
    sort_rows(&paths, &rows)
}

/// A report, and what it counts.
#[derive(Clone, Debug)]
pub struct CsvReport {
    /// The bytes of the file.
    pub bytes: Vec<u8>,
    /// The number of files with card numbers.
    pub files: usize,
    /// The number of card numbers.
    pub rows: usize,
}

/// The report on some files: a line with the names of the columns, and a line for every card
/// number.
pub fn csv_report(files: &Vec<FileHits>, unmask: bool) -> (r: CsvReport)
    requires
        unmask || all_maskable(file_views(files@)),
    ensures
        exists|order: Seq<usize>| #[trigger]
            is_report_order(file_views(files@), order) && r.bytes@ == report_bytes(
                file_views(files@),
                order,
                unmask,
            ),
        r.files == files@.len(),
        r.rows == places(file_views(files@)).len(),
{
    let ghost views = file_views(files@);
    let found: Vec<(usize, usize)> = hit_places(files);
    let order: Vec<usize> = order_of_places(files, &found);
    let mut bytes: Vec<u8> = csv_header();
    let mut k: usize = 0;
    proof {
        assert(order@.take(0) =~= seq![]);
        assert(bytes@ =~= report_bytes(views, order@.take(0), unmask));
    }
    while k < order.len()
        invariant
            k <= order@.len(),
            views == file_views(files@),
            unmask || all_maskable(views),
            found@.len() == places(views).len(),
            forall|m: int| 0 <= m < found@.len() ==> as_place(#[trigger] found@[m]) == places(views)[m],
            is_report_order(views, order@),
            bytes@ == report_bytes(views, order@.take(k as int), unmask),
        decreases order@.len() - k,
    {
        let m: usize = order[k];
        proof {
            lemma_places_are_hits(views, m as int);
            assert(as_place(found@[m as int]) == places(views)[m as int]);
        }
        let place: (usize, usize) = found[m];
        let file: &FileHits = &files[place.0];
        let hit: &Hit = &file.hits[place.1];
        proof {
            assert(views[place.0 as int] == file@);
            assert(views[place.0 as int].hits[place.1 as int] == hit@);
        }
        let pan: String = show_pan(hit.pan.as_slice(), unmask);
        let mut line: Vec<u8> = csv_row(file.path.location.as_str(), hit, pan.as_str());
        let ghost before = bytes@;
        let ghost more = line@;
        bytes.append(&mut line);
        proof {
            assert(order@.take(k + 1).drop_last() =~= order@.take(k as int));
            assert(more == line_at(views, places(views)[m as int], unmask));
            assert(bytes@ =~= report_bytes(views, order@.take(k + 1), unmask));
        }
        k += 1;
    }
    proof {
        assert(order@.take(k as int) =~= order@);
    }
    CsvReport { bytes, files: files.len(), rows: found.len() }
}

/// The confidence of every hit, in the order of the places.
pub open spec fn confidences(files: Seq<FileHitsView>) -> Seq<Confidence> {
    places(files).map_values(|place: (int, int)| hit_at(files, place).confidence)
}

/// How many of some hits have a confidence.
pub open spec fn how_many(found: Seq<Confidence>, confidence: Confidence) -> nat
    decreases found.len(),
{
    if found.len() == 0 {
        0
    } else {
        let before = how_many(found.drop_last(), confidence);
        if found.last() == confidence {
            before + 1
        } else {
            before
        }
    }
}

/// The numbers of hits.
#[derive(Clone, Copy, Debug, PartialEq, Eq, Structural)]
pub struct Tally {
    pub total: usize,
    pub high: usize,
    pub medium: usize,
    pub low: usize,
}

/// Counts the hits, all of them and by confidence.
pub fn tally(files: &Vec<FileHits>) -> (r: Tally)
    ensures
        r.total == places(file_views(files@)).len(),
        r.high == how_many(confidences(file_views(files@)), Confidence::High),
        r.medium == how_many(confidences(file_views(files@)), Confidence::Medium),
        r.low == how_many(confidences(file_views(files@)), Confidence::Low),
{
    let ghost views = file_views(files@);
    let ghost all = confidences(views);
    let found: Vec<(usize, usize)> = hit_places(files);
    let n: usize = found.len();
    let mut r: Tally = Tally { total: n, high: 0, medium: 0, low: 0 };
    let mut m: usize = 0;
    proof {
        assert(all.take(0) =~= seq![]);
    }
    while m < n
        invariant
            m <= n == found@.len() == places(views).len() == all.len(),
            views == file_views(files@),
            all == confidences(views),
            forall|m: int| 0 <= m < found@.len() ==> as_place(#[trigger] found@[m]) == places(views)[m],
            r.total == n,
            r.high == how_many(all.take(m as int), Confidence::High),
            r.medium == how_many(all.take(m as int), Confidence::Medium),
            r.low == how_many(all.take(m as int), Confidence::Low),
            r.high + r.medium + r.low == m,
        decreases n - m,
    {
        proof {
            lemma_places_are_hits(views, m as int);
            assert(as_place(found@[m as int]) == places(views)[m as int]);
            assert(all.take(m + 1).drop_last() =~= all.take(m as int));
        }
        let place: (usize, usize) = found[m];
        let hit: &Hit = &files[place.0].hits[place.1];
        proof {
            assert(views[place.0 as int].hits[place.1 as int] == hit@);
            assert(all.take(m + 1).last() == hit.confidence);
        }
        match hit.confidence {
            Confidence::High => {
                r.high += 1;
            },
            Confidence::Medium => {
                r.medium += 1;
            },
            Confidence::Low => {
                r.low += 1;
            },
        }
        m += 1;
    }
    proof {
        assert(all.take(n as int) =~= all);
    }
    r
}

/// Every hit is counted under one confidence.
pub proof fn law_tally_adds_up(found: Seq<Confidence>)
    ensures
        how_many(found, Confidence::High) + how_many(found, Confidence::Medium) + how_many(
            found,
            Confidence::Low,
        ) == found.len(),
    decreases found.len(),
{
    if found.len() > 0 {
        law_tally_adds_up(found.drop_last());
    }
}

/// Indices and offsets fit the machine.
pub open spec fn in_range(files: Seq<FileHitsView>) -> bool {
    &&& files.len() <= usize::MAX
    &&& forall|i: int, k: int|
        0 <= i < files.len() && 0 <= k < files[i].hits.len() ==> 0 <= (
        #[trigger] files[i].hits[k]).offset <= usize::MAX
}

/// Rows are sorted by path, and rows of one path by offset, whatever their confidence. Rows of
/// one path and offset keep the order of their places.
pub proof fn law_rows_are_sorted_by_path_and_offset(
    files: Seq<FileHitsView>,
    order: Seq<usize>,
    i: int,
    j: int,
)
    requires
        in_range(files),
        is_report_order(files, order),
        0 <= i < j < order.len(),
    ensures
        ({
            let a = places(files)[order[i] as int];
            let b = places(files)[order[j] as int];
            let offset_a = hit_at(files, a).offset;
            let offset_b = hit_at(files, b).offset;
            ||| path_before(files[a.0].key, files[b.0].key)
            ||| files[a.0].key == files[b.0].key && (offset_a < offset_b || offset_a == offset_b
                && order[i] < order[j])
        }),
{
    lemma_places_are_hits(files, order[i] as int);
    lemma_places_are_hits(files, order[j] as int);
    assert(row_before(path_keys(files), row_keys(files), order[i] as int, order[j] as int));
}

/// Every hit has a row, and only one.
pub proof fn law_every_hit_has_one_row(
    files: Seq<FileHitsView>,
    order: Seq<usize>,
    file: int,
    hit: int,
)
    requires
        is_report_order(files, order),
        places(files).len() <= usize::MAX,
        0 <= file < files.len(),
        0 <= hit < files[file].hits.len(),
    ensures
        exists|k: int|
            0 <= k < order.len() && places(files)[#[trigger] order[k] as int] == (file, hit),
        forall|i: int, j: int|
            0 <= i < j < order.len() ==> places(files)[#[trigger] order[i] as int]
                != places(files)[#[trigger] order[j] as int],
{
    let m = lemma_hits_have_places(files, file, hit);
    assert(order.contains(m as usize));
    let k = choose|k: int| 0 <= k < order.len() && order[k] == m as usize;
    assert(places(files)[order[k] as int] == (file, hit));
    assert forall|i: int, j: int| 0 <= i < j < order.len() implies places(
        files,
    )[#[trigger] order[i] as int] != places(files)[#[trigger] order[j] as int] by {
        let a = order[i] as int;
        let b = order[j] as int;
        assert(row_before(path_keys(files), row_keys(files), a, b));
        if a < b {
            lemma_places_differ(files, a, b);
        } else if b < a {
            lemma_places_differ(files, b, a);
        } else {
            law_paths_are_ordered(
                path_keys(files)[row_keys(files)[a].path as int],
                path_keys(files)[row_keys(files)[a].path as int],
            );
        }
    }
}

/// One report only can be written on some files.
pub proof fn law_report_is_determined(
    files: Seq<FileHitsView>,
    a: Seq<usize>,
    b: Seq<usize>,
    unmask: bool,
)
    requires
        is_report_order(files, a),
        is_report_order(files, b),
    ensures
        report_bytes(files, a, unmask) == report_bytes(files, b, unmask),
{
    law_row_order_is_unique(
        path_keys(files),
        row_keys(files),
        a,
        b,
        0,
        places(files).len() as int,
    );
}

/// Numbers of digits that differ in their middle only.
pub open spec fn same_ends(a: Seq<u8>, b: Seq<u8>) -> bool {
    &&& all_digits(a)
    &&& all_digits(b)
    &&& a.len() == b.len()
    &&& a.len() >= 10
    &&& a.subrange(0, 6) == b.subrange(0, 6)
    &&& a.subrange(a.len() - 4, a.len() as int) == b.subrange(b.len() - 4, b.len() as int)
}

/// Hits that differ in the middle of the number only.
pub open spec fn alike(a: HitView, b: HitView) -> bool {
    &&& a.offset == b.offset
    &&& a.scheme == b.scheme
    &&& a.confidence == b.confidence
    &&& same_ends(a.pan, b.pan)
}

/// Files that differ in the middle of the numbers only.
pub open spec fn files_alike(a: Seq<FileHitsView>, b: Seq<FileHitsView>) -> bool {
    &&& a.len() == b.len()
    &&& forall|i: int|
        0 <= i < a.len() ==> (#[trigger] a[i]).location == b[i].location && a[i].key == b[i].key
            && a[i].hits.len() == b[i].hits.len()
    &&& forall|i: int, k: int|
        0 <= i < a.len() && 0 <= k < a[i].hits.len() ==> alike(
            #[trigger] a[i].hits[k],
            b[i].hits[k],
        )
}

proof fn lemma_alike_places(a: Seq<FileHitsView>, b: Seq<FileHitsView>)
    requires
        a.len() == b.len(),
        forall|i: int| 0 <= i < a.len() ==> (#[trigger] a[i]).hits.len() == b[i].hits.len(),
    ensures
        places(a) == places(b),
    decreases a.len(),
{
    if a.len() > 0 {
        lemma_alike_places(a.drop_last(), b.drop_last());
    }
}

proof fn lemma_alike_lines(a: Seq<FileHitsView>, b: Seq<FileHitsView>, order: Seq<usize>)
    requires
        files_alike(a, b),
        places(a) == places(b),
        forall|k: int| 0 <= k < order.len() ==> 0 <= #[trigger] order[k] < places(a).len(),
    ensures
        report_lines(a, order, false) == report_lines(b, order, false),
    decreases order.len(),
{
    if order.len() > 0 {
        lemma_alike_lines(a, b, order.drop_last());
        let m = order[order.len() - 1] as int;
        lemma_places_are_hits(a, m);
        let place = places(a)[m];
        assert(alike(a[place.0].hits[place.1], b[place.0].hits[place.1]));
        law_mask_hides_middle(hit_at(a, place).pan, hit_at(b, place).pan);
    }
}

/// A masked report tells nothing of the middle of the numbers: files that differ in nothing else
/// have the same report.
pub proof fn law_masked_report_hides_middles(
    a: Seq<FileHitsView>,
    b: Seq<FileHitsView>,
    order: Seq<usize>,
)
    requires
        files_alike(a, b),
        is_report_order(a, order),
    ensures
        is_report_order(b, order),
        report_bytes(a, order, false) == report_bytes(b, order, false),
{
    lemma_alike_places(a, b);
    assert forall|m: int| 0 <= m < places(a).len() implies #[trigger] row_keys(a)[m]
        == row_keys(b)[m] by {
        lemma_places_are_hits(a, m);
        let place = places(a)[m];
        assert(alike(a[place.0].hits[place.1], b[place.0].hits[place.1]));
    }
    assert(row_keys(a) =~= row_keys(b));
    assert(path_keys(a) =~= path_keys(b));
    lemma_alike_lines(a, b, order);
}

/// What a scan finds can be masked.
pub proof fn law_found_numbers_can_be_masked(
    s: Seq<u8>,
    entropies: Seq<u32>,
    strict: bool,
    least: Confidence,
    i: int,
)
    requires
        0 <= i < hits_among(s, candidates(s, 0), entropies, strict, least).len(),
    ensures
        maskable(hits_among(s, candidates(s, 0), entropies, strict, least)[i].pan),
{
    law_hit_is_a_card_number(s, entropies, strict, least, i);
    law_digits_can_be_masked(hits_among(s, candidates(s, 0), entropies, strict, least)[i].pan);
}

/// The row of a number of digits shows all of them, in their order, if the report is not masked.
pub proof fn law_unmasked_row_shows_all_digits(files: Seq<FileHitsView>, place: (int, int))
    requires
        0 <= place.0 < files.len(),
        0 <= place.1 < files[place.0].hits.len(),
        all_digits(hit_at(files, place).pan),
    ensures
        line_at(files, place, true) == csv_line(
            row_fields(
                files[place.0].location,
                hit_at(files, place),
                digit_chars(hit_at(files, place).pan),
            ),
        ),
{
    law_digits_are_shown_as_they_are(hit_at(files, place).pan);
}

/// The columns of a row, in the order of the header: where the file is, the offset in decimal
/// notation, the scheme or a question mark, the confidence, and the number as it is shown.
pub proof fn law_columns_of_a_row(location: Seq<char>, hit: HitView, pan: Seq<char>)
    ensures
        header_fields().len() == 5,
        row_fields(location, hit, pan).len() == 5,
        header_fields()[0] == encode_utf8("location"@),
        row_fields(location, hit, pan)[0] == encode_utf8(location),
        header_fields()[1] == encode_utf8("offset"@),
        row_fields(location, hit, pan)[1] == encode_utf8(decimal_text(hit.offset as nat)),
        header_fields()[2] == encode_utf8("scheme"@),
        hit.scheme is Some ==> row_fields(location, hit, pan)[2] == encode_utf8(
            hit.scheme->0.label(),
        ),
        hit.scheme is None ==> row_fields(location, hit, pan)[2] == encode_utf8("?"@),
        header_fields()[3] == encode_utf8("confidence"@),
        row_fields(location, hit, pan)[3] == encode_utf8(hit.confidence.label()),
        header_fields()[4] == encode_utf8("pan"@),
        row_fields(location, hit, pan)[4] == encode_utf8(pan),
{
}

/// A report is its header and the lines of its rows, one behind the other: what stands before
/// and behind the line of a row are the lines of the rows before and behind it.
pub proof fn law_lines_follow_each_other(
    files: Seq<FileHitsView>,
    first: Seq<usize>,
    row: usize,
    rest: Seq<usize>,
    unmask: bool,
)
    ensures
        report_bytes(files, first + seq![row] + rest, unmask) == csv_line(header_fields())
            + report_lines(files, first, unmask) + line_at(
            files,
            places(files)[row as int],
            unmask,
        ) + report_lines(files, rest, unmask),
        report_lines(files, seq![], unmask) == Seq::<u8>::empty(),
{
    lemma_lines_of_parts(files, first, seq![row], unmask);
    lemma_lines_of_parts(files, first + seq![row], rest, unmask);
    assert(seq![row].drop_last() =~= Seq::<usize>::empty());
    let none = report_lines(files, Seq::<usize>::empty(), unmask);
    assert(none =~= Seq::<u8>::empty());
    let line = line_at(files, places(files)[row as int], unmask);
    assert(report_lines(files, seq![row], unmask) =~= line);
    assert(report_bytes(files, first + seq![row] + rest, unmask) =~= csv_line(header_fields())
        + report_lines(files, first, unmask) + line + report_lines(files, rest, unmask));
}

proof fn lemma_lines_of_parts(
    files: Seq<FileHitsView>,
    a: Seq<usize>,
    b: Seq<usize>,
    unmask: bool,
)
    ensures
        report_lines(files, a + b, unmask) == report_lines(files, a, unmask) + report_lines(
            files,
            b,
            unmask,
        ),
    decreases b.len(),
{
    if b.len() == 0 {
        assert(a + b =~= a);
        assert(report_lines(files, a, unmask) + report_lines(files, b, unmask) =~= report_lines(
            files,
            a,
            unmask,
        ));
    } else {
        lemma_lines_of_parts(files, a, b.drop_last(), unmask);
        assert((a + b).drop_last() =~= a + b.drop_last());
        assert(report_lines(files, a + b, unmask) =~= report_lines(files, a, unmask)
            + report_lines(files, b, unmask));
    }
}

/// The line of a hit has the path of its own file, and its own offset, scheme, confidence and
/// number.
pub proof fn law_line_speaks_of_its_hit(
    files: Seq<FileHitsView>,
    file: int,
    hit: int,
    unmask: bool,
)
    ensures
        line_at(files, (file, hit), unmask) == csv_line(
            row_fields(
                files[file].location,
                files[file].hits[hit],
                shown_pan(files[file].hits[hit].pan, unmask),
            ),
        ),
{
}

/// What has a confidence.
pub open spec fn is_confidence(confidence: Confidence) -> spec_fn(Confidence) -> bool {
    |c: Confidence| c == confidence
}

/// A confidence is counted once for every hit that has it.
pub proof fn law_tally_counts_hits(found: Seq<Confidence>, confidence: Confidence)
    ensures
        how_many(found, confidence) == found.filter(is_confidence(confidence)).len(),
    decreases found.len(),
{
    reveal(Seq::filter);
    if found.len() > 0 {
        law_tally_counts_hits(found.drop_last(), confidence);
    }
}

/// The hits of a list of files are those of its parts, and each hit of a file has a place.
pub proof fn law_places_of_one_more_file(files: Seq<FileHitsView>, file: FileHitsView, k: int)
    requires
        0 <= k < file.hits.len(),
    ensures
        places(files.push(file)).len() == places(files).len() + file.hits.len(),
        places(files.push(file))[places(files).len() + k] == (files.len() as int, k),
        places(files.push(file)).take(places(files).len() as int) == places(files),
        confidences(files.push(file))[places(files).len() + k] == file.hits[k].confidence,
{
    assert(files.push(file).drop_last() =~= files);
    assert(places(files.push(file)).take(places(files).len() as int) =~= places(files));
}

/// One more file changes nothing for the hits of the others.
pub proof fn law_other_places_stay(files: Seq<FileHitsView>, file: FileHitsView, m: int)
    requires
        0 <= m < places(files).len(),
    ensures
        places(files.push(file))[m] == places(files)[m],
        confidences(files.push(file))[m] == confidences(files)[m],
        confidences(files)[m] == files[places(files)[m].0].hits[places(files)[m].1].confidence,
{
    assert(files.push(file).drop_last() =~= files);
    lemma_places_are_hits(files, m);
}

} // verus!
