//! One record of a CSV file.

use vstd::prelude::*;
use vstd::string::StringSliceAdditionalSpecFns;

verus! {

/// What the `csv` crate reports when it cannot write.
#[verifier::external_type_specification]
#[verifier::external_body]
pub struct ExCsvError(csv::Error);

/// A byte that a field may hold only in quotes: a comma, a quote, or the end of a line.
pub open spec fn needs_quotes(b: u8) -> bool {
    b == ',' as u8 || b == '"' as u8 || b == '\r' as u8 || b == '\n' as u8
}

/// The bytes of a field, with every quote doubled.
pub open spec fn doubled_quotes(field: Seq<u8>) -> Seq<u8>
    decreases field.len(),
{
    if field.len() == 0 {
        seq![]
    } else {
        let one = if field[0] == '"' as u8 {
            seq!['"' as u8, '"' as u8]
        } else {
            seq![field[0]]
        };
        one + doubled_quotes(field.drop_first())
    }
}

/// A field cannot stand as it is.
pub open spec fn quoted(field: Seq<u8>) -> bool {
    exists|i: int| 0 <= i < field.len() && needs_quotes(#[trigger] field[i])
}

/// A field as it is written: as it is where it can be, and in quotes where it must be.
pub open spec fn csv_field(field: Seq<u8>) -> Seq<u8> {
    if quoted(field) {
        seq!['"' as u8] + doubled_quotes(field) + seq!['"' as u8]
    } else {
        field
    }
}

/// Fields, with commas between them, and the end of the line.
pub open spec fn joined_fields(fields: Seq<Seq<u8>>) -> Seq<u8>
    decreases fields.len(),
{
    if fields.len() == 0 {
        seq!['\n' as u8]
    } else if fields.len() == 1 {
        csv_field(fields[0]) + seq!['\n' as u8]
    } else {
        csv_field(fields[0]) + seq![',' as u8] + joined_fields(fields.drop_first())
    }
}

/// A record: its fields, with commas between them, and the end of the line. A record that would
/// be an empty line has two quotes before the end of the line.
pub open spec fn csv_line(fields: Seq<Seq<u8>>) -> Seq<u8> {
    if fields.len() == 0 || fields.len() == 1 && fields[0].len() == 0 {
        seq!['"' as u8, '"' as u8, '\n' as u8]
    } else {
        joined_fields(fields)
    }
}

/// Writes a record of five fields to memory.
///
/// Calls `csv::Writer::write_record` of a writer with the default settings that holds nothing
/// yet, and takes the bytes out with `csv::Writer::into_inner`. The fields are separated by
/// commas and the record ends in a line feed. A field is quoted only if it holds a comma, a
/// quote, a carriage return or a line feed, and quotes within it are doubled. Nothing fails: a
/// vector takes every byte, and a first record may have any number of fields.
#[verifier::external_body]
pub(crate) fn write_line(a: &str, b: &str, c: &str, d: &str, e: &str) -> (r: Result<
    Vec<u8>,
    csv::Error,
>)
    ensures
        r is Ok,
        r->Ok_0@ == csv_line(
            seq![a.spec_bytes(), b.spec_bytes(), c.spec_bytes(), d.spec_bytes(), e.spec_bytes()],
        ),
{
    let mut writer = csv::Writer::from_writer(Vec::new());
    writer.write_record([a, b, c, d, e])?;
    writer.into_inner().map_err(|e| csv::Error::from(e.into_error()))
}

/// What ends a field: a comma or the end of a line.
spec fn ends_field(rest: Seq<u8>) -> bool {
    rest.len() > 0 && (rest[0] == ',' as u8 || rest[0] == '\n' as u8)
}

proof fn lemma_quoted_end(a: Seq<u8>, b: Seq<u8>, rest_a: Seq<u8>, rest_b: Seq<u8>)
    requires
        doubled_quotes(a) + seq!['"' as u8] + rest_a == doubled_quotes(b) + seq!['"' as u8]
            + rest_b,
        ends_field(rest_a),
        ends_field(rest_b),
    ensures
        a == b,
        rest_a == rest_b,
    decreases a.len(),
{
    let q = '"' as u8;
    let whole_a = doubled_quotes(a) + seq![q] + rest_a;
    let whole_b = doubled_quotes(b) + seq![q] + rest_b;
    if a.len() == 0 && b.len() == 0 {
        assert(a =~= b);
        assert(rest_a =~= whole_a.skip(1));
        assert(rest_b =~= whole_b.skip(1));
    } else if a.len() == 0 {
        assert(whole_a[0] == q && whole_a[1] == rest_a[0]);
        assert(whole_b[0] == doubled_quotes(b)[0]);
        assert(whole_b[1] == q);
    } else if b.len() == 0 {
        assert(whole_b[0] == q && whole_b[1] == rest_b[0]);
        assert(whole_a[0] == doubled_quotes(a)[0]);
        assert(whole_a[1] == q);
    } else {
        assert(whole_a[0] == a[0]);
        assert(whole_b[0] == b[0]);
        let k: int = if a[0] == q {
            2
        } else {
            1
        };
        assert(whole_a.skip(k) =~= doubled_quotes(a.drop_first()) + seq![q] + rest_a);
        assert(whole_b.skip(k) =~= doubled_quotes(b.drop_first()) + seq![q] + rest_b);
        lemma_quoted_end(a.drop_first(), b.drop_first(), rest_a, rest_b);
        assert(a =~= seq![a[0]] + a.drop_first());
        assert(b =~= seq![b[0]] + b.drop_first());
    }
}

proof fn lemma_plain_end(a: Seq<u8>, b: Seq<u8>, rest_a: Seq<u8>, rest_b: Seq<u8>)
    requires
        a + rest_a == b + rest_b,
        !quoted(a),
        !quoted(b),
        ends_field(rest_a),
        ends_field(rest_b),
    ensures
        a == b,
        rest_a == rest_b,
{
    let whole = a + rest_a;
    if a.len() < b.len() {
        assert(whole[a.len() as int] == rest_a[0]);
        assert((b + rest_b)[a.len() as int] == b[a.len() as int]);
        assert(needs_quotes(b[a.len() as int]));
    } else if b.len() < a.len() {
        assert((b + rest_b)[b.len() as int] == rest_b[0]);
        assert(whole[b.len() as int] == a[b.len() as int]);
        assert(needs_quotes(a[b.len() as int]));
    } else {
        let n = a.len() as int;
        assert(a =~= whole.take(n));
        assert(b =~= (b + rest_b).take(n));
        assert(rest_a =~= whole.skip(n));
        assert(rest_b =~= (b + rest_b).skip(n));
    }
}

proof fn lemma_field_end(a: Seq<u8>, b: Seq<u8>, rest_a: Seq<u8>, rest_b: Seq<u8>)
    requires
        csv_field(a) + rest_a == csv_field(b) + rest_b,
        ends_field(rest_a),
        ends_field(rest_b),
    ensures
        a == b,
        rest_a == rest_b,
{
    let whole_a = csv_field(a) + rest_a;
    let whole_b = csv_field(b) + rest_b;
    if quoted(a) && quoted(b) {
        assert(whole_a.skip(1) =~= doubled_quotes(a) + seq!['"' as u8] + rest_a);
        assert(whole_b.skip(1) =~= doubled_quotes(b) + seq!['"' as u8] + rest_b);
        lemma_quoted_end(a, b, rest_a, rest_b);
    } else if quoted(a) {
        assert(whole_a[0] == '"' as u8);
        if b.len() > 0 {
            assert(whole_b[0] == b[0]);
            assert(needs_quotes(b[0]));
        } else {
            assert(whole_b[0] == rest_b[0]);
        }
    } else if quoted(b) {
        assert(whole_b[0] == '"' as u8);
        if a.len() > 0 {
            assert(whole_a[0] == a[0]);
            assert(needs_quotes(a[0]));
        } else {
            assert(whole_a[0] == rest_a[0]);
        }
    } else {
        lemma_plain_end(a, b, rest_a, rest_b);
    }
}

proof fn lemma_joined_fields(
    a: Seq<Seq<u8>>,
    b: Seq<Seq<u8>>,
    rest_a: Seq<u8>,
    rest_b: Seq<u8>,
)
    requires
        a.len() == b.len(),
        a.len() > 0,
        joined_fields(a) + rest_a == joined_fields(b) + rest_b,
    ensures
        a == b,
        rest_a == rest_b,
    decreases a.len(),
{
    if a.len() == 1 {
        let more_a = seq!['\n' as u8] + rest_a;
        let more_b = seq!['\n' as u8] + rest_b;
        assert(joined_fields(a) + rest_a =~= csv_field(a[0]) + more_a);
        assert(joined_fields(b) + rest_b =~= csv_field(b[0]) + more_b);
        lemma_field_end(a[0], b[0], more_a, more_b);
        assert(rest_a =~= more_a.skip(1));
        assert(rest_b =~= more_b.skip(1));
        assert(a =~= b);
    } else {
        let more_a = seq![',' as u8] + (joined_fields(a.drop_first()) + rest_a);
        let more_b = seq![',' as u8] + (joined_fields(b.drop_first()) + rest_b);
        assert(joined_fields(a) + rest_a =~= csv_field(a[0]) + more_a);
        assert(joined_fields(b) + rest_b =~= csv_field(b[0]) + more_b);
        lemma_field_end(a[0], b[0], more_a, more_b);
        assert(joined_fields(a.drop_first()) + rest_a =~= more_a.skip(1));
        assert(joined_fields(b.drop_first()) + rest_b =~= more_b.skip(1));
        lemma_joined_fields(a.drop_first(), b.drop_first(), rest_a, rest_b);
        assert(a =~= seq![a[0]] + a.drop_first());
        assert(b =~= seq![b[0]] + b.drop_first());
    }
}

/// Two quotes at the start of a line are no field with something in it.
proof fn lemma_empty_field_differs(field: Seq<u8>, rest: Seq<u8>, other: Seq<u8>)
    requires
        field.len() > 0,
    ensures
        csv_field(field) + seq!['\n' as u8] + rest != seq!['"' as u8, '"' as u8, '\n' as u8]
            + other,
{
    let q = '"' as u8;
    let whole = csv_field(field) + seq!['\n' as u8] + rest;
    let empty = seq![q, q, '\n' as u8] + other;
    assert(empty[0] == q && empty[1] == q && empty[2] == '\n' as u8);
    if quoted(field) {
        assert(whole[1] == doubled_quotes(field)[0]);
        if field[0] == q {
            assert(whole[2] == doubled_quotes(field)[1]);
        }
    } else {
        assert(whole[0] == field[0]);
        assert(!needs_quotes(field[0]));
    }
}

/// A record can be read back: its fields, and where it ends, follow from the bytes and the
/// number of fields alone, whatever the fields hold.
pub proof fn law_line_gives_fields_back(
    a: Seq<Seq<u8>>,
    b: Seq<Seq<u8>>,
    rest_a: Seq<u8>,
    rest_b: Seq<u8>,
)
    requires
        a.len() == b.len(),
        a.len() > 0,
        csv_line(a) + rest_a == csv_line(b) + rest_b,
    ensures
        a == b,
        rest_a == rest_b,
{
    let empty_a = a.len() == 1 && a[0].len() == 0;
    let empty_b = b.len() == 1 && b[0].len() == 0;
    if empty_a && empty_b {
        assert(a[0] =~= b[0]);
        assert(a =~= b);
        assert(rest_a =~= (csv_line(a) + rest_a).skip(3));
        assert(rest_b =~= (csv_line(b) + rest_b).skip(3));
    } else if empty_a {
        lemma_empty_field_differs(b[0], rest_b, rest_a);
    } else if empty_b {
        lemma_empty_field_differs(a[0], rest_a, rest_b);
    } else {
        lemma_joined_fields(a, b, rest_a, rest_b);
    }
}

/// A field stands as it is unless it holds a comma, a quote, a carriage return or a line feed;
/// then it stands in quotes.
pub proof fn law_fields_are_quoted_by_need(field: Seq<u8>)
    ensures
        !field.contains(44) && !field.contains(34) && !field.contains(13) && !field.contains(10)
            ==> csv_field(field) == field,
        field.contains(44) || field.contains(34) || field.contains(13) || field.contains(10)
            ==> csv_field(field) == seq![34u8] + doubled_quotes(field) + seq![34u8],
{
    if quoted(field) {
        let i = choose|i: int| 0 <= i < field.len() && needs_quotes(#[trigger] field[i]);
        assert(field.contains(field[i]));
    }
    assert forall|b: u8| #[trigger] field.contains(b) && needs_quotes(b) implies quoted(field) by {
        let i = choose|i: int| 0 <= i < field.len() && field[i] == b;
        assert(needs_quotes(field[i]));
    }
}

/// Within quotes every quote stands twice, and everything else as it is.
pub proof fn law_quotes_are_doubled(a: Seq<u8>, b: u8)
    ensures
        doubled_quotes(a.push(b)) == if b == 34 {
            doubled_quotes(a).push(34).push(34)
        } else {
            doubled_quotes(a).push(b)
        },
        doubled_quotes(Seq::<u8>::empty()) == Seq::<u8>::empty(),
    decreases a.len(),
{
    let all = a.push(b);
    if a.len() == 0 {
        assert(all.drop_first() =~= Seq::<u8>::empty());
        assert(doubled_quotes(Seq::<u8>::empty()) =~= Seq::<u8>::empty());
        assert(doubled_quotes(all) =~= if b == 34 {
            doubled_quotes(a).push(34).push(34)
        } else {
            doubled_quotes(a).push(b)
        });
    } else {
        law_quotes_are_doubled(a.drop_first(), b);
        assert(all.drop_first() =~= a.drop_first().push(b));
        assert(all[0] == a[0]);
        assert(doubled_quotes(all) =~= if b == 34 {
            doubled_quotes(a).push(34).push(34)
        } else {
            doubled_quotes(a).push(b)
        });
    }
}

/// A record of two or more fields is its first field, a comma, and the record of the others, and
/// it ends in a line feed.
pub proof fn law_commas_separate_fields(first: Seq<u8>, rest: Seq<Seq<u8>>)
    requires
        rest.len() > 0,
    ensures
        csv_line(seq![first] + rest) == csv_field(first) + seq![44u8] + joined_fields(rest),
        joined_fields(rest).last() == 10,
    decreases rest.len(),
{
    let all = seq![first] + rest;
    assert(all.drop_first() =~= rest);
    if rest.len() > 1 {
        law_commas_separate_fields(rest[0], rest.drop_first());
        assert(seq![rest[0]] + rest.drop_first() =~= rest);
        let tail = joined_fields(rest.drop_first());
        lemma_joined_not_empty(rest.drop_first());
        assert(joined_fields(rest).last() == tail.last());
    }
}

proof fn lemma_joined_not_empty(fields: Seq<Seq<u8>>)
    ensures
        joined_fields(fields).len() > 0,
{
}

} // verus!
