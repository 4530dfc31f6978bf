use vstd::prelude::*;
use crate::normalize::{CleanedRecord, is_blank_text, is_blank};
use crate::text::same_text;
use crate::value::{parse_digits, all_digits, digits_value};

verus! {

/// The four kinds of threatened-species counts that are tracked.
#[derive(Clone, Copy, Debug, PartialEq, Eq, Structural)]
pub enum SpeciesCategory {
    Total,
    Vertebrates,
    Invertebrates,
    Plants,
}

/// The category that a `Threatened species` descriptor of the data set names.
pub open spec fn category_of_descriptor(s: Seq<char>) -> Option<SpeciesCategory> {
    if s == "Threatened Species: Total (number)"@ {
        Some(SpeciesCategory::Total)
    } else if s == "Threatened Species: Vertebrates (number)"@ {
        Some(SpeciesCategory::Vertebrates)
    } else if s == "Threatened Species: Invertebrates (number)"@ {
        Some(SpeciesCategory::Invertebrates)
    } else if s == "Threatened Species: Plants (number)"@ {
        Some(SpeciesCategory::Plants)
    } else {
        None
    }
}

/// The category that a short label (`Total`, `Vertebrates`, `Invertebrates`, `Plants`) names.
pub open spec fn category_of_label(s: Seq<char>) -> Option<SpeciesCategory> {
    if s == "Total"@ {
        Some(SpeciesCategory::Total)
    } else if s == "Vertebrates"@ {
        Some(SpeciesCategory::Vertebrates)
    } else if s == "Invertebrates"@ {
        Some(SpeciesCategory::Invertebrates)
    } else if s == "Plants"@ {
        Some(SpeciesCategory::Plants)
    } else {
        None
    }
}

pub open spec fn label_of(c: SpeciesCategory) -> Seq<char> {
    match c {
        SpeciesCategory::Total => "Total"@,
        SpeciesCategory::Vertebrates => "Vertebrates"@,
        SpeciesCategory::Invertebrates => "Invertebrates"@,
        SpeciesCategory::Plants => "Plants"@,
    }
}

impl SpeciesCategory {
    /// The category of a data-set descriptor such as
    /// `Threatened Species: Total (number)`; `None` for any other text.
    pub fn from_descriptor(s: &str) -> (r: Option<SpeciesCategory>)
        ensures
            r == category_of_descriptor(s@),
    {
        if same_text(s, "Threatened Species: Total (number)") {
            Some(SpeciesCategory::Total)
        } else if same_text(s, "Threatened Species: Vertebrates (number)") {
            Some(SpeciesCategory::Vertebrates)
        } else if same_text(s, "Threatened Species: Invertebrates (number)") {
            Some(SpeciesCategory::Invertebrates)
        } else if same_text(s, "Threatened Species: Plants (number)") {
            Some(SpeciesCategory::Plants)
        } else {
            None
        }
    }

    /// The category that a short label names; `None` for any other text.
    pub fn from_label(s: &str) -> (r: Option<SpeciesCategory>)
        ensures
            r == category_of_label(s@),
    {
        if same_text(s, "Total") {
            Some(SpeciesCategory::Total)
        } else if same_text(s, "Vertebrates") {
            Some(SpeciesCategory::Vertebrates)
        } else if same_text(s, "Invertebrates") {
            Some(SpeciesCategory::Invertebrates)
        } else if same_text(s, "Plants") {
            Some(SpeciesCategory::Plants)
        } else {
            None
        }
    }

    /// The short label of the category.
    pub fn label(&self) -> (r: String)
        ensures
            r@ == label_of(*self),
    {
        match self {
            SpeciesCategory::Total => String::from_str("Total"),
            SpeciesCategory::Vertebrates => String::from_str("Vertebrates"),
            SpeciesCategory::Invertebrates => String::from_str("Invertebrates"),
            SpeciesCategory::Plants => String::from_str("Plants"),
        }
    }
}

/// One typed row of the cleaned data set.
#[derive(Clone, Debug)]
pub struct CountryData {
    pub country_name: String,
    pub year: u64,
    pub species: String,
    pub value: u64,
    pub source: String,
    pub footnote: Option<String>,
}

/// The series key of a record, or `None` when its descriptor is not recognized.
pub open spec fn key_of(r: CountryData) -> Option<(Seq<char>, SpeciesCategory)> {
    match category_of_descriptor(r.species@) {
        Some(c) => Some((r.country_name@, c)),
        None => None,
    }
}

/// The `(year, value)` points of the records with the given key, in record order.
pub open spec fn points_for(
    rs: Seq<CountryData>,
    country: Seq<char>,
    category: SpeciesCategory,
) -> Seq<(u64, u64)>
    decreases rs.len(),
{
    if rs.len() == 0 {
        Seq::empty()
    } else {
        let rest = points_for(rs.drop_last(), country, category);
        if key_of(rs.last()) == Some((country, category)) {
            rest.push((rs.last().year, rs.last().value))
        } else {
            rest
        }
    }
}

/// How many records carry a recognized descriptor.
pub open spec fn recognized_count(rs: Seq<CountryData>) -> nat
    decreases rs.len(),
{
    if rs.len() == 0 {
        0
    } else {
        recognized_count(rs.drop_last()) + if key_of(rs.last()) is Some {
            1nat
        } else {
            0nat
        }
    }
}

/// The time series of one country and category.
#[derive(Clone, Debug)]
pub struct Series {
    pub country: String,
    pub category: SpeciesCategory,
    pub points: Vec<(u64, u64)>,
}

/// How many points the series hold together.
pub open spec fn total_points(ss: Seq<Series>) -> nat
    decreases ss.len(),
{
    if ss.len() == 0 {
        0
    } else {
        total_points(ss.drop_last()) + ss.last().points@.len()
    }
}

/// Every series of the aggregated data set, one per `(country, category)` key.
#[derive(Clone, Debug)]
pub struct ThreatenedData {
    pub series: Vec<Series>,
}

impl ThreatenedData {
    /// No two series share a key.
    pub open spec fn keys_unique(&self) -> bool {
        forall|i: int, j: int|
            0 <= i < j < self.series@.len() ==> !(self.series@[i].country@
                == self.series@[j].country@ && self.series@[i].category
                == self.series@[j].category)
    }

    /// The aggregated data set is exactly what the records give: each series holds the
    /// points of the records with its key, in record order; each recognized record's key has a
    /// series; no series is empty; and the series hold as many points as there are
    /// recognized records.
    pub open spec fn aggregates(&self, rs: Seq<CountryData>) -> bool {
        &&& self.keys_unique()
        &&& forall|i: int|
            0 <= i < self.series@.len() ==> #[trigger] self.series@[i].points@ == points_for(
                rs,
                self.series@[i].country@,
                self.series@[i].category,
            )
        &&& forall|i: int|
            0 <= i < self.series@.len() ==> #[trigger] self.series@[i].points@.len() > 0
        &&& forall|k: int|
            0 <= k < rs.len() && #[trigger] key_of(rs[k]) is Some ==> exists|i: int|
                0 <= i < self.series@.len() && key_of(rs[k]) == Some(
                    (self.series@[i].country@, self.series@[i].category),
                )
        &&& total_points(self.series@) == recognized_count(rs)
    }
}

proof fn lemma_total_update(ss: Seq<Series>, i: int, s: Series)
    requires
        0 <= i < ss.len(),
    ensures
        total_points(ss.update(i, s)) + ss[i].points@.len() == total_points(ss) + s.points@.len(),
    decreases ss.len(),
{
    if i == ss.len() - 1 {
        assert(ss.update(i, s).drop_last() =~= ss.drop_last());
    } else {
        lemma_total_update(ss.drop_last(), i, s);
        assert(ss.update(i, s).drop_last() =~= ss.drop_last().update(i, s));
    }
}

proof fn lemma_points_absent(rs: Seq<CountryData>, country: Seq<char>, category: SpeciesCategory)
    requires
        forall|k: int| 0 <= k < rs.len() ==> #[trigger] key_of(rs[k]) != Some((country, category)),
    ensures
        points_for(rs, country, category) == Seq::<(u64, u64)>::empty(),
    decreases rs.len(),
{
    if rs.len() > 0 {
        assert forall|k: int| 0 <= k < rs.drop_last().len() implies #[trigger] key_of(
            rs.drop_last()[k],
        ) != Some((country, category)) by {
            assert(rs.drop_last()[k] == rs[k]);
        }
        lemma_points_absent(rs.drop_last(), country, category);
        assert(key_of(rs[rs.len() - 1]) != Some((country, category)));
    }
}

/// The position of the series with the given key, if there is one.
fn find_series(series: &Vec<Series>, country: &str, category: SpeciesCategory) -> (r: Option<
    usize,
>)
    ensures
        r matches Some(i) ==> i < series@.len() && series@[i as int].country@ == country@
            && series@[i as int].category == category,
        r is None ==> forall|i: int|
            0 <= i < series@.len() ==> !(#[trigger] series@[i].country@ == country@
                && series@[i].category == category),
{
    let mut i: usize = 0;
    while i < series.len()
        invariant
            i <= series@.len(),
            forall|k: int|
                0 <= k < i ==> !(#[trigger] series@[k].country@ == country@
                    && series@[k].category == category),
        decreases series.len() - i,
    {
        if series[i].category == category && same_text(series[i].country.as_str(), country) {
            return Some(i);
        }
        i = i + 1;
    }
    None
}

/// Buckets records by `(country, category)`. Records whose descriptor is not one of the
/// four recognized ones are left out; every other record adds its `(year, value)` to the end
/// of its key's series. Series appear in the order in which their keys first occur.
pub fn aggregate(records: &Vec<CountryData>) -> (r: ThreatenedData)
    ensures
        r.aggregates(records@),
{
    let mut data = ThreatenedData { series: Vec::new() };
    let mut j: usize = 0;
    while j < records.len()
        invariant
            j <= records@.len(),
            data.aggregates(records@.subrange(0, j as int)),
        decreases records.len() - j,
    {
        let ghost old_rs = records@.subrange(0, j as int);
        let ghost rs = records@.subrange(0, j + 1);
        let ghost old_series = data.series@;
        assert(rs.drop_last() =~= old_rs);
        assert(rs.last() == records@[j as int]);
        assert forall|k: int| 0 <= k < j implies #[trigger] rs[k] == old_rs[k] by {}
        let rec = &records[j];
        match SpeciesCategory::from_descriptor(rec.species.as_str()) {
            None => {
                assert forall|l: int| 0 <= l < data.series@.len() implies #[trigger] data.series@[
                    l
                ].points@ == points_for(rs, data.series@[l].country@, data.series@[l].category) by {
                    assert(key_of(rs.last()) is None);
                    assert(old_series[l].points@ == points_for(
                        old_rs,
                        old_series[l].country@,
                        old_series[l].category,
                    ));
                }
                assert(data.aggregates(rs)) by {
                    assert forall|k: int|
                        0 <= k < rs.len() && #[trigger] key_of(rs[k]) is Some implies exists|i: int|
                        0 <= i < data.series@.len() && key_of(rs[k]) == Some(
                            (data.series@[i].country@, data.series@[i].category),
                        ) by {
                        assert(rs[k] == old_rs[k]);
                    }
                }
            },
            Some(cat) => {
                let point = (rec.year, rec.value);
                match find_series(&data.series, rec.country_name.as_str(), cat) {
                    Some(i) => {
                        data.series[i].points.push(point);
                        proof {
                            lemma_total_update(old_series, i as int, data.series@[i as int]);
                            assert(data.series@ == old_series.update(
                                i as int,
                                data.series@[i as int],
                            ));
                            assert(key_of(rs.last()) == Some((rec.country_name@, cat)));
                            assert forall|l: int| 0 <= l < data.series@.len() implies #[trigger] data.series@[
                                l
                            ].points@ == points_for(
                                rs,
                                data.series@[l].country@,
                                data.series@[l].category,
                            ) by {
                                assert(old_series[l].points@ == points_for(
                                    old_rs,
                                    old_series[l].country@,
                                    old_series[l].category,
                                ));
                                if l == i {
                                    assert(data.series@[l].points@ =~= old_series[l].points@.push(point));
                                } else {
                                    assert(data.series@[l] == old_series[l]);
                                }
                            }
                            assert forall|k: int|
                                0 <= k < rs.len() && #[trigger] key_of(rs[k]) is Some implies exists|
                                l: int,
                            |
                                0 <= l < data.series@.len() && key_of(rs[k]) == Some(
                                    (data.series@[l].country@, data.series@[l].category),
                                ) by {
                                if k < j {
                                    assert(rs[k] == old_rs[k]);
                                    let l = choose|l: int|
                                        0 <= l < old_series.len() && key_of(old_rs[k]) == Some(
                                            (old_series[l].country@, old_series[l].category),
                                        );
                                    assert(data.series@[l].country@ == old_series[l].country@);
                                } else {
                                    assert(key_of(rs[k]) == Some(
                                        (data.series@[i as int].country@, data.series@[i as int].category),
                                    ));
                                }
                            }
                        }
                    },
                    None => {
                        let ghost key = (rec.country_name@, cat);
                        proof {
                            assert forall|k: int| 0 <= k < old_rs.len() implies #[trigger] key_of(
                                old_rs[k],
                            ) != Some(key) by {
                                if key_of(old_rs[k]) == Some(key) {
                                    let l = choose|l: int|
                                        0 <= l < old_series.len() && key_of(old_rs[k]) == Some(
                                            (old_series[l].country@, old_series[l].category),
                                        );
                                    assert(old_series[l].country@ == rec.country_name@);
                                }
                            }
                            lemma_points_absent(old_rs, key.0, key.1);
                        }
                        let fresh = Series {
                            country: rec.country_name.clone(),
                            category: cat,
                            points: vec![point],
                        };
                        data.series.push(fresh);
                        proof {
                            assert(data.series@.drop_last() =~= old_series);
                            assert(key_of(rs.last()) == Some(key));
                            assert(points_for(rs, key.0, key.1) =~= seq![point]);
                            assert forall|l: int| 0 <= l < data.series@.len() implies #[trigger] data.series@[
                                l
                            ].points@ == points_for(
                                rs,
                                data.series@[l].country@,
                                data.series@[l].category,
                            ) by {
                                if l < old_series.len() {
                                    assert(data.series@[l] == old_series[l]);
                                    assert(old_series[l].points@ == points_for(
                                        old_rs,
                                        old_series[l].country@,
                                        old_series[l].category,
                                    ));
                                }
                            }
                            assert forall|k: int|
                                0 <= k < rs.len() && #[trigger] key_of(rs[k]) is Some implies exists|
                                l: int,
                            |
                                0 <= l < data.series@.len() && key_of(rs[k]) == Some(
                                    (data.series@[l].country@, data.series@[l].category),
                                ) by {
                                if k < j {
                                    assert(rs[k] == old_rs[k]);
                                    let l = choose|l: int|
                                        0 <= l < old_series.len() && key_of(old_rs[k]) == Some(
                                            (old_series[l].country@, old_series[l].category),
                                        );
                                    assert(data.series@[l] == old_series[l]);
                                } else {
                                    assert(key_of(rs[k]) == Some(
                                        (data.series@[old_series.len() as int].country@,
                                        data.series@[old_series.len() as int].category),
                                    ));
                                }
                            }
                        }
                    },
                }
            },
        }
        assert(data.aggregates(rs));
        j = j + 1;
    }
    assert(records@.subrange(0, records.len() as int) =~= records@);
    data
}

impl ThreatenedData {
    pub open spec fn has_key(&self, country: Seq<char>, category: SpeciesCategory) -> bool {
        exists|i: int|
            0 <= i < self.series@.len() && #[trigger] self.series@[i].country@ == country
                && self.series@[i].category == category
    }

    /// The points of the series with the given key (meaningful where `has_key` holds).
    pub open spec fn points_of(&self, country: Seq<char>, category: SpeciesCategory) -> Seq<
        (u64, u64),
    > {
        let i = choose|i: int|
            0 <= i < self.series@.len() && #[trigger] self.series@[i].country@ == country
                && self.series@[i].category == category;
        self.series@[i].points@
    }

    pub open spec fn has_country(&self, country: Seq<char>) -> bool {
        exists|i: int| 0 <= i < self.series@.len() && #[trigger] self.series@[i].country@ == country
    }

    /// The points recorded for a country and category, if there are any.
    pub fn get(&self, country: &str, category: SpeciesCategory) -> (r: Option<&Vec<(u64, u64)>>)
        requires
            self.keys_unique(),
        ensures
            r is Some <==> self.has_key(country@, category),
            r matches Some(p) ==> p@ == self.points_of(country@, category),
    {
        match find_series(&self.series, country, category) {
            Some(i) => {
                let ghost j = choose|j: int|
                    0 <= j < self.series@.len() && #[trigger] self.series@[j].country@ == country@
                        && self.series@[j].category == category;
                assert(j == i as int);
                Some(&self.series[i].points)
            },
            None => None,
        }
    }

    /// Whether any series belongs to the country.
    pub fn contains_country(&self, country: &str) -> (r: bool)
        ensures
            r == self.has_country(country@),
    {
        let mut i: usize = 0;
        while i < self.series.len()
            invariant
                i <= self.series@.len(),
                forall|k: int| 0 <= k < i ==> #[trigger] self.series@[k].country@ != country@,
            decreases self.series.len() - i,
        {
            if same_text(self.series[i].country.as_str(), country) {
                return true;
            }
            i = i + 1;
        }
        false
    }
}

/// The number that a field holds, when it is a non-empty run of digits that fits a `u64`.
pub open spec fn field_number(s: Seq<char>) -> Option<u64> {
    if s.len() > 0 && all_digits(s) && digits_value(s) <= u64::MAX {
        Some(digits_value(s) as u64)
    } else {
        None
    }
}

/// Whether the year and the value (second and fourth of six fields) are numbers.
pub open spec fn readable(f: Seq<Seq<char>>) -> bool {
    f.len() == 6 && field_number(f[1]) is Some && field_number(f[3]) is Some
}

/// `d` is what the six fields of a cleaned record read as.
pub open spec fn reads_as(f: Seq<Seq<char>>, d: CountryData) -> bool {
    &&& f.len() == 6
    &&& d.country_name@ == f[0]
    &&& Some(d.year) == field_number(f[1])
    &&& d.species@ == f[2]
    &&& Some(d.value) == field_number(f[3])
    &&& d.source@ == f[4]
    &&& if is_blank(f[5]) {
        d.footnote is None
    } else {
        d.footnote matches Some(n) && n@ == f[5]
    }
}

/// The typed records and their series, read from cleaned records.
#[derive(Clone, Debug)]
pub struct ReadData {
    pub data: ThreatenedData,
    pub records: Vec<CountryData>,
    /// Positions of the cleaned records whose year or value is not a number.
    pub skipped: Vec<usize>,
}

/// Positions of the records whose year and value are numbers, in order.
pub open spec fn readable_positions(rs: Seq<CleanedRecord>) -> Seq<int>
    decreases rs.len(),
{
    if rs.len() == 0 {
        Seq::empty()
    } else {
        let p = readable_positions(rs.drop_last());
        if readable(rs.last().fields()) {
            p.push(rs.len() - 1)
        } else {
            p
        }
    }
}

/// Positions of the records whose year or value is not a number, in order.
pub open spec fn unreadable_positions(rs: Seq<CleanedRecord>) -> Seq<int>
    decreases rs.len(),
{
    if rs.len() == 0 {
        Seq::empty()
    } else {
        let p = unreadable_positions(rs.drop_last());
        if readable(rs.last().fields()) {
            p
        } else {
            p.push(rs.len() - 1)
        }
    }
}

pub open spec fn positions(v: Seq<usize>) -> Seq<int> {
    v.map_values(|i: usize| i as int)
}

/// Reads cleaned records as typed data, skipping (and listing) those whose year or value is
/// not a number, and aggregates the rest into series.
pub fn read_data(records: &Vec<CleanedRecord>) -> (r: ReadData)
    ensures
        r.data.aggregates(r.records@),
        r.records@.len() == readable_positions(records@).len(),
        forall|k: int|
            0 <= k < r.records@.len() ==> 0 <= readable_positions(records@)[k] < records@.len()
                && reads_as(
                records@[readable_positions(records@)[k]].fields(),
                #[trigger] r.records@[k],
            ),
        positions(r.skipped@) == unreadable_positions(records@),
{
    let mut typed: Vec<CountryData> = Vec::new();
    let mut skipped: Vec<usize> = Vec::new();
    let ghost mut pos: Seq<int> = Seq::empty();
    let mut i: usize = 0;
    while i < records.len()
        invariant
            i <= records@.len(),
            pos == readable_positions(records@.subrange(0, i as int)),
            typed@.len() == pos.len(),
            forall|k: int| 0 <= k < pos.len() ==> 0 <= #[trigger] pos[k] < i,
            forall|k: int|
                0 <= k < typed@.len() ==> reads_as(records@[pos[k]].fields(), #[trigger] typed@[k]),
            positions(skipped@) == unreadable_positions(records@.subrange(0, i as int)),
        decreases records.len() - i,
    {
        let ghost prev = records@.subrange(0, i as int);
        let ghost next = records@.subrange(0, i + 1);
        assert(next.drop_last() =~= prev);
        assert(next.last() == records@[i as int]);
        match CountryData::from_record(&records[i]) {
            Some(d) => {
                typed.push(d);
                proof {
                    pos = pos.push(i as int);
                }
                assert(readable_positions(next) == pos);
                assert(unreadable_positions(next) == unreadable_positions(prev));
            },
            None => {
                let ghost before = skipped@;
                skipped.push(i);
                assert(positions(skipped@) =~= positions(before).push(i as int));
                assert(readable_positions(next) == readable_positions(prev));
            },
        }
        i = i + 1;
    }
    assert(records@.subrange(0, records.len() as int) =~= records@);
    let data = aggregate(&typed);
    ReadData { data, records: typed, skipped }
}

impl CountryData {
    /// Reads a cleaned record as typed data: year and value must be numbers, and a blank
    /// footnote becomes `None`. `None` when the year or the value is not a number.
    pub fn from_record(rec: &CleanedRecord) -> (r: Option<CountryData>)
        ensures
            readable(rec.fields()) <==> r is Some,
            r matches Some(d) ==> reads_as(rec.fields(), d),
    {
        let year = match parse_digits(rec.year.as_str()) {
            Some(y) => y,
            None => {
                return None;
            },
        };
        let value = match parse_digits(rec.value.as_str()) {
            Some(v) => v,
            None => {
                return None;
            },
        };
        let footnote = if is_blank_text(rec.footnote.as_str()) {
            None
        } else {
            Some(rec.footnote.clone())
        };
        Some(
            CountryData {
                country_name: rec.region.clone(),
                year,
                species: rec.species.clone(),
                value,
                source: rec.source.clone(),
                footnote,
            },
        )
    }
}

/// The records with a recognized descriptor, in order.
pub open spec fn recognized_records(rs: Seq<CountryData>) -> Seq<CountryData>
    decreases rs.len(),
{
    if rs.len() == 0 {
        rs
    } else {
        let p = recognized_records(rs.drop_last());
        if key_of(rs.last()) is Some {
            p.push(rs.last())
        } else {
            p
        }
    }
}

proof fn lemma_points_of_recognized(rs: Seq<CountryData>, country: Seq<char>, category: SpeciesCategory)
    ensures
        points_for(rs, country, category) == points_for(recognized_records(rs), country, category),
    decreases rs.len(),
{
    if rs.len() > 0 {
        lemma_points_of_recognized(rs.drop_last(), country, category);
        let p = recognized_records(rs.drop_last());
        if key_of(rs.last()) is Some {
            assert(p.push(rs.last()).drop_last() =~= p);
        }
    }
}

proof fn lemma_points_witness(rs: Seq<CountryData>, country: Seq<char>, category: SpeciesCategory)
    requires
        points_for(rs, country, category).len() > 0,
    ensures
        exists|j: int| 0 <= j < rs.len() && #[trigger] key_of(rs[j]) == Some((country, category)),
    decreases rs.len(),
{
    if key_of(rs.last()) == Some((country, category)) {
        assert(key_of(rs[rs.len() - 1]) == Some((country, category)));
    } else {
        lemma_points_witness(rs.drop_last(), country, category);
        let j = choose|j: int|
            0 <= j < rs.drop_last().len() && #[trigger] key_of(rs.drop_last()[j]) == Some(
                (country, category),
            );
        assert(rs.drop_last()[j] == rs[j]);
    }
}

proof fn lemma_has_key_iff_points(
    d: ThreatenedData,
    rs: Seq<CountryData>,
    country: Seq<char>,
    category: SpeciesCategory,
)
    requires
        d.aggregates(rs),
    ensures
        d.has_key(country, category) <==> points_for(rs, country, category).len() > 0,
        d.has_key(country, category) ==> d.points_of(country, category) == points_for(
            rs,
            country,
            category,
        ),
{
    if d.has_key(country, category) {
        let i = choose|i: int|
            0 <= i < d.series@.len() && #[trigger] d.series@[i].country@ == country
                && d.series@[i].category == category;
        assert(d.series@[i].points@.len() > 0);
    }
    if points_for(rs, country, category).len() > 0 {
        lemma_points_witness(rs, country, category);
        let j = choose|j: int| 0 <= j < rs.len() && #[trigger] key_of(rs[j]) == Some((country, category));
        let i = choose|i: int|
            0 <= i < d.series@.len() && key_of(rs[j]) == Some(
                (d.series@[i].country@, d.series@[i].category),
            );
        assert(d.series@[i].country@ == country && d.series@[i].category == category);
    }
}

/// Records with an unrecognized descriptor change nothing: two record lists with the same
/// recognized records, in the same order, aggregate to the same keys with the same points.
pub proof fn lemma_unrecognized_records_ignored(
    rs1: Seq<CountryData>,
    rs2: Seq<CountryData>,
    d1: ThreatenedData,
    d2: ThreatenedData,
)
    requires
        recognized_records(rs1) == recognized_records(rs2),
        d1.aggregates(rs1),
        d2.aggregates(rs2),
    ensures
        forall|country: Seq<char>, category: SpeciesCategory|
            #[trigger] d1.has_key(country, category) == d2.has_key(country, category),
        forall|country: Seq<char>, category: SpeciesCategory|
            #[trigger] d1.has_key(country, category) ==> d1.points_of(country, category)
                == d2.points_of(country, category),
{
    assert forall|country: Seq<char>, category: SpeciesCategory|
        #[trigger] d1.has_key(country, category) == d2.has_key(country, category) && (d1.has_key(
            country,
            category,
        ) ==> d1.points_of(country, category) == d2.points_of(country, category)) by {
        lemma_points_of_recognized(rs1, country, category);
        lemma_points_of_recognized(rs2, country, category);
        lemma_has_key_iff_points(d1, rs1, country, category);
        lemma_has_key_iff_points(d2, rs2, country, category);
    }
}

/// How many times `(year, value)` occurs among the points.
pub open spec fn point_count(p: Seq<(u64, u64)>, year: u64, value: u64) -> nat
    decreases p.len(),
{
    if p.len() == 0 {
        0
    } else {
        point_count(p.drop_last(), year, value) + if p.last() == (year, value) {
            1nat
        } else {
            0nat
        }
    }
}

/// How many records are recognized under `(country, category)` with this year and value.
pub open spec fn record_count(
    rs: Seq<CountryData>,
    country: Seq<char>,
    category: SpeciesCategory,
    year: u64,
    value: u64,
) -> nat
    decreases rs.len(),
{
    if rs.len() == 0 {
        0
    } else {
        record_count(rs.drop_last(), country, category, year, value) + if key_of(rs.last())
            == Some((country, category)) && rs.last().year == year && rs.last().value == value {
            1nat
        } else {
            0nat
        }
    }
}

/// How many times `(year, value)` occurs in the series filed under `(country, category)`.
pub open spec fn series_count(
    ss: Seq<Series>,
    country: Seq<char>,
    category: SpeciesCategory,
    year: u64,
    value: u64,
) -> nat
    decreases ss.len(),
{
    if ss.len() == 0 {
        0
    } else {
        series_count(ss.drop_last(), country, category, year, value) + if ss.last().country@
            == country && ss.last().category == category {
            point_count(ss.last().points@, year, value)
        } else {
            0nat
        }
    }
}

proof fn lemma_record_count(
    rs: Seq<CountryData>,
    country: Seq<char>,
    category: SpeciesCategory,
    year: u64,
    value: u64,
)
    ensures
        record_count(rs, country, category, year, value) == point_count(
            points_for(rs, country, category),
            year,
            value,
        ),
    decreases rs.len(),
{
    if rs.len() > 0 {
        lemma_record_count(rs.drop_last(), country, category, year, value);
        let p = points_for(rs.drop_last(), country, category);
        if key_of(rs.last()) == Some((country, category)) {
            assert(p.push((rs.last().year, rs.last().value)).drop_last() =~= p);
        }
    }
}

proof fn lemma_series_count(
    ss: Seq<Series>,
    country: Seq<char>,
    category: SpeciesCategory,
    year: u64,
    value: u64,
)
    requires
        forall|i: int, j: int|
            0 <= i < j < ss.len() ==> !(ss[i].country@ == ss[j].country@ && ss[i].category
                == ss[j].category),
    ensures
        forall|i: int|
            0 <= i < ss.len() && #[trigger] ss[i].country@ == country && ss[i].category == category
                ==> series_count(ss, country, category, year, value) == point_count(
                ss[i].points@,
                year,
                value,
            ),
        (forall|i: int|
            0 <= i < ss.len() ==> !(#[trigger] ss[i].country@ == country && ss[i].category
                == category)) ==> series_count(ss, country, category, year, value) == 0,
    decreases ss.len(),
{
    if ss.len() > 0 {
        let rest = ss.drop_last();
        assert forall|i: int, j: int| 0 <= i < j < rest.len() implies !(rest[i].country@
            == rest[j].country@ && rest[i].category == rest[j].category) by {
            assert(rest[i] == ss[i] && rest[j] == ss[j]);
        }
        lemma_series_count(rest, country, category, year, value);
        let n = ss.len() - 1;
        if ss[n].country@ == country && ss[n].category == category {
            assert forall|i: int| 0 <= i < rest.len() implies !(#[trigger] rest[i].country@
                == country && rest[i].category == category) by {
                assert(rest[i] == ss[i]);
            }
        } else {
            assert forall|i: int|
                0 <= i < ss.len() && #[trigger] ss[i].country@ == country && ss[i].category
                    == category implies series_count(ss, country, category, year, value)
                == point_count(ss[i].points@, year, value) by {
                assert(rest[i] == ss[i]);
            }
            assert((forall|i: int|
                0 <= i < ss.len() ==> !(#[trigger] ss[i].country@ == country && ss[i].category
                    == category)) ==> (forall|i: int|
                0 <= i < rest.len() ==> !(#[trigger] rest[i].country@ == country
                    && rest[i].category == category))) by {
                if forall|i: int|
                    0 <= i < ss.len() ==> !(#[trigger] ss[i].country@ == country && ss[i].category
                        == category) {
                    assert forall|i: int| 0 <= i < rest.len() implies !(#[trigger] rest[i].country@
                        == country && rest[i].category == category) by {
                        assert(rest[i] == ss[i]);
                    }
                }
            }
        }
    }
}

/// Aggregation partitions the recognized records: every `(country, category, year, value)`
/// occurs across the series exactly as many times as there are recognized records with that
/// country, category, year and value; records with an unrecognized descriptor occur nowhere.
pub proof fn lemma_aggregation_partitions(
    rs: Seq<CountryData>,
    d: ThreatenedData,
    country: Seq<char>,
    category: SpeciesCategory,
    year: u64,
    value: u64,
)
    requires
        d.aggregates(rs),
    ensures
        series_count(d.series@, country, category, year, value) == record_count(
            rs,
            country,
            category,
            year,
            value,
        ),
{
    lemma_record_count(rs, country, category, year, value);
    lemma_series_count(d.series@, country, category, year, value);
    lemma_has_key_iff_points(d, rs, country, category);
    if d.has_key(country, category) {
        let i = choose|i: int|
            0 <= i < d.series@.len() && #[trigger] d.series@[i].country@ == country
                && d.series@[i].category == category;
        assert(d.series@[i].points@ == points_for(rs, country, category));
    } else {
        assert(points_for(rs, country, category).len() == 0);
    }
}

} // verus!
