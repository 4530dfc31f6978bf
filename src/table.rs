use vstd::prelude::*;
use vstd::utf8::valid_utf8;
use crate::aggregate::{aggregate, positions, readable, reads_as, CountryData, ReadData};
use crate::normalize::{
    canonical_header_of, has_noise_header, kept_rows, normalize, record_fields, row_texts, texts,
    CleanedRecord, Normalized,
};

verus! {

/// The rows that the csv crate's reader gets from a text (fields trimmed, rows of any length).
pub uninterp spec fn csv_rows(text: Seq<u8>) -> Seq<Seq<Seq<char>>>;

/// The text that the csv crate's writer makes of a list of rows.
pub uninterp spec fn csv_text(rows: Seq<Seq<Seq<char>>>) -> Seq<u8>;

/// Relies on `csv::Reader`, built with `flexible(true)`, `trim(Trim::All)` and no header row,
/// and on its `records` iterator: the rows it yields depend on the bytes alone. Reading from a
/// byte slice cannot fail on I/O and a flexible reader accepts rows of any length, so the only
/// error left is a field that is not UTF-8, which valid UTF-8 text never has.
#[verifier::external_body]
fn parse_rows(text: &[u8]) -> (r: Option<Vec<Vec<String>>>)
    ensures
        valid_utf8(text@) ==> r is Some,
        r matches Some(rows) ==> row_texts(rows@) == csv_rows(text@),
{
    let mut rdr = csv::ReaderBuilder::new()
        .has_headers(false)
        .flexible(true)
        .trim(csv::Trim::All)
        .from_reader(text);
    rdr.records().map(|rec| rec.ok().map(|r| r.iter().map(String::from).collect())).collect()
}

/// Relies on `csv::Writer`, built with `flexible(true)` (`write_record`, then `into_inner`):
/// the bytes it writes depend on the rows alone. A flexible writer accepts rows of any length
/// and writing into a `Vec` cannot fail, so it always succeeds.
#[verifier::external_body]
fn write_rows(rows: &Vec<Vec<String>>) -> (r: Option<Vec<u8>>)
    ensures
        r is Some,
        r matches Some(b) ==> b@ == csv_text(row_texts(rows@)),
{
    let mut wtr = csv::WriterBuilder::new().flexible(true).from_writer(Vec::new());
    for row in rows.iter() {
        wtr.write_record(row).ok()?;
    }
    wtr.into_inner().ok()
}

pub open spec fn header_row(rows: Seq<Seq<Seq<char>>>) -> Seq<Seq<char>> {
    if rows.len() > 0 {
        rows[0]
    } else {
        Seq::empty()
    }
}

pub open spec fn body_rows(rows: Seq<Seq<Seq<char>>>) -> Seq<Seq<Seq<char>>> {
    if rows.len() > 0 {
        rows.drop_first()
    } else {
        rows
    }
}

/// A cleaned table and the text written for it.
#[derive(Clone, Debug)]
pub struct CleanedTable {
    pub normalized: Normalized,
    pub text: Vec<u8>,
}

fn split_header(rows: &mut Vec<Vec<String>>) -> (h: Vec<String>)
    ensures
        texts(h@) == header_row(row_texts(old(rows)@)),
        row_texts(final(rows)@) == body_rows(row_texts(old(rows)@)),
{
    if rows.len() > 0 {
        let h = rows.remove(0);
        assert(row_texts(final(rows)@) =~= row_texts(old(rows)@).drop_first());
        h
    } else {
        Vec::new()
    }
}

fn copy_fields(v: &Vec<String>) -> (r: Vec<String>)
    ensures
        texts(r@) == texts(v@),
{
    let mut out: Vec<String> = Vec::new();
    let mut i: usize = 0;
    while i < v.len()
        invariant
            i <= v@.len(),
            texts(out@) == texts(v@.subrange(0, i as int)),
        decreases v.len() - i,
    {
        let ghost prev = out@;
        let c = v[i].clone();
        out.push(c);
        assert(texts(v@.subrange(0, i + 1)) =~= texts(v@.subrange(0, i as int)).push(v@[i as int]@));
        assert(texts(out@) =~= texts(prev).push(c@));
        i = i + 1;
    }
    assert(v@.subrange(0, v.len() as int) =~= v@);
    out
}

/// Cleans a delimited-text table: the first row is the header, the others are data rows.
/// The written text holds the canonical header and then one line per kept record. `None`
/// only where the input is not UTF-8 text.
pub fn clean_csv(input: &[u8]) -> (r: Option<CleanedTable>)
    ensures
        valid_utf8(input@) ==> r is Some,
        r matches Some(t) ==> ({
            let rows = csv_rows(input@);
            &&& texts(t.normalized.header@) == canonical_header_of(header_row(rows))
            &&& record_fields(t.normalized.records@) == kept_rows(
                has_noise_header(header_row(rows)),
                body_rows(rows),
            )
            &&& t.normalized.records@.len() + t.normalized.skipped@.len() == body_rows(rows).len()
            &&& t.text@ == csv_text(
                seq![texts(t.normalized.header@)] + record_fields(t.normalized.records@),
            )
        }),
{
    let mut rows = match parse_rows(input) {
        Some(rows) => rows,
        None => {
            return None;
        },
    };
    let header = split_header(&mut rows);
    let normalized = normalize(&header, &rows);
    let mut out: Vec<Vec<String>> = Vec::new();
    out.push(copy_fields(&normalized.header));
    let ghost first = texts(normalized.header@);
    assert(row_texts(out@) =~= seq![first]);
    let mut i: usize = 0;
    while i < normalized.records.len()
        invariant
            i <= normalized.records@.len(),
            first == texts(normalized.header@),
            row_texts(out@) == seq![first] + record_fields(
                normalized.records@.subrange(0, i as int),
            ),
        decreases normalized.records.len() - i,
    {
        let ghost prev = out@;
        let f = normalized.records[i].to_fields();
        out.push(f);
        assert(record_fields(normalized.records@.subrange(0, i + 1)) =~= record_fields(
            normalized.records@.subrange(0, i as int),
        ).push(normalized.records@[i as int].fields()));
        assert(row_texts(out@) =~= row_texts(prev).push(texts(f@)));
        i = i + 1;
    }
    assert(normalized.records@.subrange(0, normalized.records.len() as int)
        =~= normalized.records@);
    match write_rows(&out) {
        Some(text) => Some(CleanedTable { normalized, text }),
        None => None,
    }
}

/// Positions of the body rows that read as typed records, in order.
pub open spec fn readable_rows(body: Seq<Seq<Seq<char>>>) -> Seq<int>
    decreases body.len(),
{
    if body.len() == 0 {
        Seq::empty()
    } else {
        let p = readable_rows(body.drop_last());
        if readable(body.last()) {
            p.push(body.len() - 1)
        } else {
            p
        }
    }
}

/// Positions of the body rows that do not: not six fields, or a year or value that is not a
/// number.
pub open spec fn unreadable_rows(body: Seq<Seq<Seq<char>>>) -> Seq<int>
    decreases body.len(),
{
    if body.len() == 0 {
        Seq::empty()
    } else {
        let p = unreadable_rows(body.drop_last());
        if readable(body.last()) {
            p
        } else {
            p.push(body.len() - 1)
        }
    }
}

/// Reads a cleaned table (a header row, then six-field records) into typed records and their
/// series. The records are the body rows that read as typed data, in order; `skipped` lists
/// the positions (among the body rows) of the others. `None` only where the text is not UTF-8.
pub fn read_csv(text: &[u8]) -> (r: Option<ReadData>)
    ensures
        valid_utf8(text@) ==> r is Some,
        r matches Some(d) ==> ({
            let body = body_rows(csv_rows(text@));
            &&& d.data.aggregates(d.records@)
            &&& d.records@.len() == readable_rows(body).len()
            &&& forall|k: int|
                0 <= k < d.records@.len() ==> 0 <= readable_rows(body)[k] < body.len() && reads_as(
                    body[readable_rows(body)[k]],
                    #[trigger] d.records@[k],
                )
            &&& positions(d.skipped@) == unreadable_rows(body)
        }),
{
    let mut rows = match parse_rows(text) {
        Some(rows) => rows,
        None => {
            return None;
        },
    };
    let _header = split_header(&mut rows);
    let ghost body = row_texts(rows@);
    let mut typed: Vec<CountryData> = Vec::new();
    let mut skipped: Vec<usize> = Vec::new();
    let ghost mut pos: Seq<int> = Seq::empty();
    let mut i: usize = 0;
    while i < rows.len()
        invariant
            i <= rows@.len(),
            body == row_texts(rows@),
            pos == readable_rows(body.subrange(0, i as int)),
            typed@.len() == pos.len(),
            forall|k: int| 0 <= k < pos.len() ==> 0 <= #[trigger] pos[k] < i,
            forall|k: int|
                0 <= k < typed@.len() ==> reads_as(body[pos[k]], #[trigger] typed@[k]),
            positions(skipped@) == unreadable_rows(body.subrange(0, i as int)),
        decreases rows.len() - i,
    {
        let ghost prev = body.subrange(0, i as int);
        let ghost next = body.subrange(0, i + 1);
        assert(next.drop_last() =~= prev);
        assert(next.last() == body[i as int]);
        let read = match CleanedRecord::from_fields(&rows[i]) {
            Some(rec) => CountryData::from_record(&rec),
            None => None,
        };
        match read {
            Some(d) => {
                typed.push(d);
                proof {
                    pos = pos.push(i as int);
                }
                assert(readable_rows(next) == pos);
                assert(unreadable_rows(next) == unreadable_rows(prev));
            },
            None => {
                let ghost before = skipped@;
                skipped.push(i);
                assert(positions(skipped@) =~= positions(before).push(i as int));
                assert(readable_rows(next) == readable_rows(prev));
            },
        }
        i = i + 1;
    }
    assert(body.subrange(0, rows.len() as int) =~= body);
    let data = aggregate(&typed);
    Some(ReadData { data, records: typed, skipped })
}

} // verus!
