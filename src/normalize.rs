use vstd::prelude::*;
use crate::text::same_text;
use crate::value::{clean_value, cleaned_value, lemma_clean_value_idempotent};

verus! {

/// The characters of Unicode's White_Space property, which `str::trim` removes.
pub open spec fn is_space(c: char) -> bool {
    ('\u{9}' <= c && c <= '\u{d}') || c == ' ' || c == '\u{85}' || c == '\u{a0}'
        || c == '\u{1680}' || ('\u{2000}' <= c && c <= '\u{200a}') || c == '\u{2028}'
        || c == '\u{2029}' || c == '\u{202f}' || c == '\u{205f}' || c == '\u{3000}'
}

/// A field that is empty once trimmed.
pub open spec fn is_blank(s: Seq<char>) -> bool {
    forall|i: int| 0 <= i < s.len() ==> is_space(#[trigger] s[i])
}

pub open spec fn texts(v: Seq<String>) -> Seq<Seq<char>> {
    v.map_values(|s: String| s@)
}

/// The fields of a row once the leading noise column is dropped.
pub open spec fn without_noise(has_noise_column: bool, row: Seq<Seq<char>>) -> Seq<Seq<char>> {
    if has_noise_column && row.len() > 0 {
        row.drop_first()
    } else {
        row
    }
}

/// The row with its value field (the fourth) cleaned; `None` when that value makes the row
/// unusable. A row too short to have a value field is left as it is.
pub open spec fn with_clean_value(f: Seq<Seq<char>>) -> Option<Seq<Seq<char>>> {
    if f.len() > 3 {
        match cleaned_value(f[3]) {
            Some(v) => Some(f.update(3, v)),
            None => None,
        }
    } else {
        Some(f)
    }
}

/// The fields that are not blank, in their order.
pub open spec fn non_blank(f: Seq<Seq<char>>) -> Seq<Seq<char>>
    decreases f.len(),
{
    if f.len() == 0 {
        f
    } else {
        let rest = non_blank(f.drop_last());
        if is_blank(f.last()) {
            rest
        } else {
            rest.push(f.last())
        }
    }
}

/// Brings a row of non-blank fields to six: five get an empty footnote, six get their last
/// two fields (source and footnote) swapped; any other count has no shape.
pub open spec fn shaped(f: Seq<Seq<char>>) -> Option<Seq<Seq<char>>> {
    if f.len() == 5 {
        Some(f.push(Seq::<char>::empty()))
    } else if f.len() == 6 {
        Some(f.update(4, f[5]).update(5, f[4]))
    } else {
        None
    }
}

/// The six fields that a raw row becomes, or `None` when it is dropped.
pub open spec fn normalized_fields(has_noise_column: bool, row: Seq<Seq<char>>) -> Option<
    Seq<Seq<char>>,
> {
    match with_clean_value(without_noise(has_noise_column, row)) {
        Some(f) => shaped(non_blank(f)),
        None => None,
    }
}

/// One row of the canonical six-column schema.
#[derive(Clone, Debug)]
pub struct CleanedRecord {
    pub region: String,
    pub year: String,
    pub species: String,
    pub value: String,
    pub source: String,
    pub footnote: String,
}

impl CleanedRecord {
    pub open spec fn fields(&self) -> Seq<Seq<char>> {
        seq![self.region@, self.year@, self.species@, self.value@, self.source@, self.footnote@]
    }

    /// The record that six fields make, in canonical order; `None` for any other count.
    pub fn from_fields(f: &Vec<String>) -> (r: Option<CleanedRecord>)
        ensures
            r is Some <==> f@.len() == 6,
            r matches Some(rec) ==> rec.fields() == texts(f@),
    {
        if f.len() != 6 {
            return None;
        }
        let rec = CleanedRecord {
            region: f[0].clone(),
            year: f[1].clone(),
            species: f[2].clone(),
            value: f[3].clone(),
            source: f[4].clone(),
            footnote: f[5].clone(),
        };
        assert(rec.fields() =~= texts(f@));
        Some(rec)
    }

    /// The six fields in canonical order.
    pub fn to_fields(&self) -> (r: Vec<String>)
        ensures
            texts(r@) == self.fields(),
    {
        let r = vec![
            self.region.clone(),
            self.year.clone(),
            self.species.clone(),
            self.value.clone(),
            self.source.clone(),
            self.footnote.clone(),
        ];
        assert(texts(r@) =~= self.fields());
        r
    }
}

/// Why a row was dropped.
#[derive(Clone, Debug)]
pub enum RowProblem {
    /// The value field was all digits but did not parse as a number; holds its text.
    UnparsableValue { text: String },
    /// After blank fields were removed the row had neither five nor six fields.
    FieldCount { fields: Vec<String> },
}

/// Whether `s` is empty once trimmed.
pub fn is_blank_text(s: &str) -> (r: bool)
    ensures
        r == is_blank(s@),
{
    let n = s.unicode_len();
    let mut i: usize = 0;
    while i < n
        invariant
            n == s@.len(),
            i <= n,
            forall|k: int| 0 <= k < i ==> is_space(#[trigger] s@[k]),
        decreases n - i,
    {
        let c = s.get_char(i);
        if !(('\u{9}' <= c && c <= '\u{d}') || c == ' ' || c == '\u{85}' || c == '\u{a0}'
            || c == '\u{1680}' || ('\u{2000}' <= c && c <= '\u{200a}') || c == '\u{2028}'
            || c == '\u{2029}' || c == '\u{202f}' || c == '\u{205f}' || c == '\u{3000}') {
            return false;
        }
        i = i + 1;
    }
    true
}

/// Keeps the fields that are not blank.
pub fn remove_blank_fields(f: &Vec<String>) -> (r: Vec<String>)
    ensures
        texts(r@) == non_blank(texts(f@)),
{
    let mut out: Vec<String> = Vec::new();
    let mut i: usize = 0;
    while i < f.len()
        invariant
            i <= f.len(),
            texts(out@) == non_blank(texts(f@.subrange(0, i as int))),
        decreases f.len() - i,
    {
        assert(texts(f@.subrange(0, i + 1)).drop_last() =~= texts(f@.subrange(0, i as int)));
        if !is_blank_text(f[i].as_str()) {
            out.push(f[i].clone());
            assert(texts(out@) =~= non_blank(texts(f@.subrange(0, i as int))).push(f@[i as int]@));
        }
        i = i + 1;
    }
    assert(f@.subrange(0, f.len() as int) =~= f@);
    out
}

/// Fills a row of non-blank fields out to the six columns, or refuses it.
pub fn shape_fields(f: Vec<String>) -> (r: Result<CleanedRecord, RowProblem>)
    ensures
        shaped(texts(f@)) matches Some(g) ==> (r matches Ok(rec) && rec.fields() == g),
        shaped(texts(f@)) is None ==> (r matches Err(RowProblem::FieldCount { fields }) && fields
            == f),
{
    if f.len() == 5 {
        let rec = CleanedRecord {
            region: f[0].clone(),
            year: f[1].clone(),
            species: f[2].clone(),
            value: f[3].clone(),
            source: f[4].clone(),
            footnote: String::new(),
        };
        assert(rec.fields() =~= texts(f@).push(Seq::<char>::empty()));
        Ok(rec)
    } else if f.len() == 6 {
        let rec = CleanedRecord {
            region: f[0].clone(),
            year: f[1].clone(),
            species: f[2].clone(),
            value: f[3].clone(),
            source: f[5].clone(),
            footnote: f[4].clone(),
        };
        let ghost g = texts(f@);
        assert(rec.fields() =~= g.update(4, g[5]).update(5, g[4]));
        Ok(rec)
    } else {
        Err(RowProblem::FieldCount { fields: f })
    }
}

/// `p` is why the row is dropped: its value field is digits that do not parse (and `p` holds
/// that field), or the non-blank fields that are left are neither five nor six (and `p` lists
/// them).
pub open spec fn describes_problem(
    has_noise_column: bool,
    row: Seq<Seq<char>>,
    p: RowProblem,
) -> bool {
    let f = without_noise(has_noise_column, row);
    match p {
        RowProblem::UnparsableValue { text } => f.len() > 3 && with_clean_value(f) is None
            && text@ == f[3],
        RowProblem::FieldCount { fields } => with_clean_value(f) matches Some(g) && shaped(
            non_blank(g),
        ) is None && texts(fields@) == non_blank(g),
    }
}

/// Turns one raw row into a canonical record: drops the leading noise column when the input
/// has one, cleans the value field, removes blank fields, then fills out or reorders the
/// source and footnote columns.
pub fn normalize_row(has_noise_column: bool, row: &Vec<String>) -> (r: Result<
    CleanedRecord,
    RowProblem,
>)
    ensures
        normalized_fields(has_noise_column, texts(row@)) matches Some(g) ==> (r matches Ok(rec)
            && rec.fields() == g),
        normalized_fields(has_noise_column, texts(row@)) is None ==> r is Err,
        r matches Err(p) ==> describes_problem(has_noise_column, texts(row@), p),
{
    let start: usize = if has_noise_column && row.len() > 0 {
        1
    } else {
        0
    };
    let ghost f = without_noise(has_noise_column, texts(row@));
    let mut kept: Vec<String> = Vec::new();
    let mut i: usize = start;
    while i < row.len()
        invariant
            start <= i <= row.len(),
            f == without_noise(has_noise_column, texts(row@)),
            f == texts(row@).subrange(start as int, row@.len() as int),
            kept@.len() > 3 ==> cleaned_value(f[3]) is Some,
            kept@.len() == i - start,
            forall|k: int|
                0 <= k < kept@.len() ==> #[trigger] kept@[k]@ == (if k == 3 {
                    cleaned_value(f[3])->0
                } else {
                    f[k]
                }),
        decreases row.len() - i,
    {
        assert(f[i - start] == row@[i as int]@);
        if i - start == 3 {
            match clean_value(row[i].as_str()) {
                Some(v) => kept.push(v),
                None => {
                    let text = row[i].clone();
                    assert(text@ == f[3]);
                    return Err(RowProblem::UnparsableValue { text });
                },
            }
        } else {
            kept.push(row[i].clone());
        }
        i = i + 1;
    }
    proof {
        if f.len() > 3 {
            assert(texts(kept@) =~= f.update(3, cleaned_value(f[3])->0));
        } else {
            assert(texts(kept@) =~= f);
        }
    }
    let compact = remove_blank_fields(&kept);
    shape_fields(compact)
}

/// Whether the header starts with the legacy noise column `T25`.
pub open spec fn has_noise_header(h: Seq<Seq<char>>) -> bool {
    h.len() > 0 && h[0] == "T25"@
}

/// `name` as a one-column header when the source header holds it, else nothing.
pub open spec fn column_if_present(h: Seq<Seq<char>>, name: Seq<char>) -> Seq<Seq<char>> {
    if h.contains(name) {
        seq![name]
    } else {
        Seq::empty()
    }
}

/// The canonical columns that the source header holds, in canonical order.
pub open spec fn canonical_header_of(h: Seq<Seq<char>>) -> Seq<Seq<char>> {
    column_if_present(h, "Region/Country/Area"@) + column_if_present(h, "Year"@)
        + column_if_present(h, "Threatened species"@) + column_if_present(h, "Value"@)
        + column_if_present(h, "Source"@) + column_if_present(h, "Footnotes"@)
}

pub open spec fn row_texts(rows: Seq<Vec<String>>) -> Seq<Seq<Seq<char>>> {
    rows.map_values(|r: Vec<String>| texts(r@))
}

pub open spec fn record_fields(rs: Seq<CleanedRecord>) -> Seq<Seq<Seq<char>>> {
    rs.map_values(|r: CleanedRecord| r.fields())
}

/// The records that the rows give, in row order; dropped rows give none.
pub open spec fn kept_rows(has_noise_column: bool, rows: Seq<Seq<Seq<char>>>) -> Seq<
    Seq<Seq<char>>,
>
    decreases rows.len(),
{
    if rows.len() == 0 {
        Seq::empty()
    } else {
        let rest = kept_rows(has_noise_column, rows.drop_last());
        match normalized_fields(has_noise_column, rows.last()) {
            Some(g) => rest.push(g),
            None => rest,
        }
    }
}

/// Whether the header starts with the legacy noise column `T25`, so that every row
/// carries one leading field to drop.
pub fn has_noise_column(header: &Vec<String>) -> (r: bool)
    ensures
        r == has_noise_header(texts(header@)),
{
    header.len() > 0 && same_text(header[0].as_str(), "T25")
}

/// Whether one of the header's fields is `name`.
pub fn header_contains(header: &Vec<String>, name: &str) -> (r: bool)
    ensures
        r == texts(header@).contains(name@),
{
    let mut i: usize = 0;
    while i < header.len()
        invariant
            i <= header.len(),
            forall|k: int| 0 <= k < i ==> header@[k]@ != name@,
        decreases header.len() - i,
    {
        if same_text(header[i].as_str(), name) {
            assert(texts(header@)[i as int] == name@);
            return true;
        }
        i = i + 1;
    }
    assert(!texts(header@).contains(name@)) by {
        if texts(header@).contains(name@) {
            let k = choose|k: int| 0 <= k < texts(header@).len() && texts(header@)[k] == name@;
            assert(header@[k]@ == name@);
        }
    }
    false
}

fn push_if_present(out: &mut Vec<String>, header: &Vec<String>, name: &str)
    ensures
        texts(final(out)@) == texts(old(out)@) + column_if_present(texts(header@), name@),
{
    if header_contains(header, name) {
        out.push(String::from_str(name));
        assert(texts(final(out)@) =~= texts(old(out)@) + seq![name@]);
    } else {
        assert(texts(final(out)@) =~= texts(old(out)@) + Seq::<Seq<char>>::empty());
    }
}

/// The header to write out: the canonical columns that the source header holds, in
/// canonical order. Noise columns (`T25`, `Series`) and blank names never appear in it.
pub fn canonical_header(header: &Vec<String>) -> (r: Vec<String>)
    ensures
        texts(r@) == canonical_header_of(texts(header@)),
{
    let mut out: Vec<String> = Vec::new();
    push_if_present(&mut out, header, "Region/Country/Area");
    push_if_present(&mut out, header, "Year");
    push_if_present(&mut out, header, "Threatened species");
    push_if_present(&mut out, header, "Value");
    push_if_present(&mut out, header, "Source");
    push_if_present(&mut out, header, "Footnotes");
    assert(texts(out@) =~= canonical_header_of(texts(header@)));
    out
}

/// A row that did not reach the output, by its position among the data rows.
#[derive(Clone, Debug)]
pub struct SkippedRow {
    pub row: usize,
    pub problem: RowProblem,
}

/// The result of normalizing a whole table.
#[derive(Clone, Debug)]
pub struct Normalized {
    pub header: Vec<String>,
    pub records: Vec<CleanedRecord>,
    pub skipped: Vec<SkippedRow>,
}

/// Normalizes a table: the canonical header, one record per row that survives cleaning,
/// and one skipped-row entry, in row order, for each row that does not.
pub fn normalize(header: &Vec<String>, rows: &Vec<Vec<String>>) -> (r: Normalized)
    ensures
        texts(r.header@) == canonical_header_of(texts(header@)),
        record_fields(r.records@) == kept_rows(
            has_noise_header(texts(header@)),
            row_texts(rows@),
        ),
        r.records@.len() + r.skipped@.len() == rows@.len(),
        forall|k: int|
            0 <= k < r.skipped@.len() ==> #[trigger] r.skipped@[k].row < rows@.len()
                && normalized_fields(
                has_noise_header(texts(header@)),
                texts(rows@[r.skipped@[k].row as int]@),
            ) is None && describes_problem(
                has_noise_header(texts(header@)),
                texts(rows@[r.skipped@[k].row as int]@),
                r.skipped@[k].problem,
            ),
        forall|k: int, l: int|
            0 <= k < l < r.skipped@.len() ==> r.skipped@[k].row < r.skipped@[l].row,
{
    let noise = has_noise_column(header);
    let out_header = canonical_header(header);
    let mut records: Vec<CleanedRecord> = Vec::new();
    let mut skipped: Vec<SkippedRow> = Vec::new();
    let mut i: usize = 0;
    while i < rows.len()
        invariant
            i <= rows.len(),
            noise == has_noise_header(texts(header@)),
            record_fields(records@) == kept_rows(noise, row_texts(rows@.subrange(0, i as int))),
            records@.len() + skipped@.len() == i,
            forall|k: int|
                0 <= k < skipped@.len() ==> #[trigger] skipped@[k].row < i && normalized_fields(
                    noise,
                    texts(rows@[skipped@[k].row as int]@),
                ) is None && describes_problem(
                    noise,
                    texts(rows@[skipped@[k].row as int]@),
                    skipped@[k].problem,
                ),
            forall|k: int, l: int|
                0 <= k < l < skipped@.len() ==> skipped@[k].row < skipped@[l].row,
        decreases rows.len() - i,
    {
        assert(row_texts(rows@.subrange(0, i + 1)).drop_last() =~= row_texts(
            rows@.subrange(0, i as int),
        ));
        assert(row_texts(rows@.subrange(0, i + 1)).last() == texts(rows@[i as int]@));
        match normalize_row(noise, &rows[i]) {
            Ok(rec) => {
                records.push(rec);
                assert(record_fields(records@) =~= kept_rows(
                    noise,
                    row_texts(rows@.subrange(0, i as int)),
                ).push(rec.fields()));
            },
            Err(problem) => {
                skipped.push(SkippedRow { row: i, problem });
            },
        }
        i = i + 1;
    }
    assert(rows@.subrange(0, rows.len() as int) =~= rows@);
    Normalized { header: out_header, records, skipped }
}

/// Removing blank fields keeps a row whose fields are all non-blank as it is.
pub proof fn lemma_non_blank_keeps(f: Seq<Seq<char>>)
    requires
        forall|i: int| 0 <= i < f.len() ==> !is_blank(#[trigger] f[i]),
    ensures
        non_blank(f) == f,
    decreases f.len(),
{
    if f.len() > 0 {
        lemma_non_blank_keeps(f.drop_last());
        assert(f.drop_last().push(f.last()) =~= f);
    }
}

/// Cleaning is idempotent on records: six fields whose first five are non-blank, whose value
/// field is what cleaning made of some text, and whose footnote is empty come back unchanged
/// when normalized again under the header that normalization writes.
pub proof fn lemma_renormalize_is_identity(
    source_header: Seq<Seq<char>>,
    raw_value: Seq<char>,
    f: Seq<Seq<char>>,
)
    requires
        f.len() == 6,
        forall|i: int| 0 <= i < 5 ==> !is_blank(#[trigger] f[i]),
        cleaned_value(raw_value) == Some(f[3]),
        f[5] == Seq::<char>::empty(),
    ensures
        normalized_fields(has_noise_header(canonical_header_of(source_header)), f) == Some(f),
{
    let h = canonical_header_of(source_header);
    lemma_clean_value_idempotent(raw_value);
    reveal_strlit("T25");
    reveal_strlit("Region/Country/Area");
    reveal_strlit("Year");
    reveal_strlit("Threatened species");
    reveal_strlit("Value");
    reveal_strlit("Source");
    reveal_strlit("Footnotes");
    assert(!has_noise_header(h)) by {
        if h.len() > 0 {
            assert(h[0].len() != 3);
        }
    }
    assert(f.update(3, f[3]) =~= f);
    let g = f.drop_last();
    lemma_non_blank_keeps(g);
    assert(f.drop_last() == g);
    assert(is_blank(f.last()));
    assert(non_blank(f) == g);
    assert(g.push(Seq::<char>::empty()) =~= f);
}

/// The written header holds only canonical names: never `T25`, `Series` or a blank name.
pub proof fn lemma_canonical_header_clean(h: Seq<Seq<char>>)
    ensures
        forall|i: int|
            0 <= i < canonical_header_of(h).len() ==> #[trigger] canonical_header_of(h)[i]
                != "T25"@ && canonical_header_of(h)[i] != "Series"@ && !is_blank(
                canonical_header_of(h)[i],
            ),
{
    reveal_strlit("T25");
    reveal_strlit("Series");
    reveal_strlit("Region/Country/Area");
    reveal_strlit("Year");
    reveal_strlit("Threatened species");
    reveal_strlit("Value");
    reveal_strlit("Source");
    reveal_strlit("Footnotes");
    let names = seq![
        "Region/Country/Area"@,
        "Year"@,
        "Threatened species"@,
        "Value"@,
        "Source"@,
        "Footnotes"@,
    ];
    assert forall|i: int| 0 <= i < canonical_header_of(h).len() implies names.contains(
        #[trigger] canonical_header_of(h)[i],
    ) by {
        let c = canonical_header_of(h);
        let a = column_if_present(h, names[0]);
        let b = column_if_present(h, names[1]);
        let e = column_if_present(h, names[2]);
        let f = column_if_present(h, names[3]);
        let g = column_if_present(h, names[4]);
        let k = column_if_present(h, names[5]);
        assert(c == a + b + e + f + g + k);
        assert(forall|x: Seq<char>| #[trigger] a.contains(x) ==> x == names[0]);
        assert(forall|x: Seq<char>| #[trigger] b.contains(x) ==> x == names[1]);
        assert(forall|x: Seq<char>| #[trigger] e.contains(x) ==> x == names[2]);
        assert(forall|x: Seq<char>| #[trigger] f.contains(x) ==> x == names[3]);
        assert(forall|x: Seq<char>| #[trigger] g.contains(x) ==> x == names[4]);
        assert(forall|x: Seq<char>| #[trigger] k.contains(x) ==> x == names[5]);
        let x = c[i];
        if i < a.len() {
            assert(a[i] == x);
            assert(a.contains(x));
        } else if i < a.len() + b.len() {
            assert(b[i - a.len()] == x);
            assert(b.contains(x));
        } else if i < a.len() + b.len() + e.len() {
            assert(e[i - a.len() - b.len()] == x);
            assert(e.contains(x));
        } else if i < a.len() + b.len() + e.len() + f.len() {
            assert(f[i - a.len() - b.len() - e.len()] == x);
            assert(f.contains(x));
        } else if i < a.len() + b.len() + e.len() + f.len() + g.len() {
            assert(g[i - a.len() - b.len() - e.len() - f.len()] == x);
            assert(g.contains(x));
        } else {
            assert(k[i - a.len() - b.len() - e.len() - f.len() - g.len()] == x);
            assert(k.contains(x));
        }
        assert(names[0] == x || names[1] == x || names[2] == x || names[3] == x || names[4] == x
            || names[5] == x);
    }
    assert forall|x: Seq<char>| #[trigger] names.contains(x) implies x != "T25"@ && x != "Series"@
        && !is_blank(x) by {
        let j = choose|j: int| 0 <= j < names.len() && names[j] == x;
        assert(!is_space(x[0]));
        assert(x.len() != 3);
        assert(x.len() != 6 || x[0] != 'S' || x[1] != 'e');
    }
}

} // verus!
