use threatened_species::aggregate::{aggregate, read_data, CountryData, SpeciesCategory};
use threatened_species::forecast::{
    forecast_years, last_observed_year, plan_forecast, spans_two_years, ForecastQuery,
};
use threatened_species::normalize::{
    canonical_header, has_noise_column, is_blank_text, normalize, normalize_row, CleanedRecord,
    RowProblem,
};
use threatened_species::table::{clean_csv, read_csv};
use threatened_species::value::{clean_value, parse_digits, strip_leading_zeros};

const TOTAL: &str = "Threatened Species: Total (number)";
const PLANTS: &str = "Threatened Species: Plants (number)";

fn row(fields: &[&str]) -> Vec<String> {
    fields.iter().map(|f| f.to_string()).collect()
}

fn record(country: &str, year: u64, species: &str, value: u64) -> CountryData {
    CountryData {
        country_name: country.to_string(),
        year,
        species: species.to_string(),
        value,
        source: "SomeSource".to_string(),
        footnote: None,
    }
}

fn mock_csv() -> String {
    "Region/Country/Area,Year,Threatened species,Value,Source,Footnotes\n\
    Zambia,2004,Threatened Species: Total (number),34,SomeSource,\n\
    Zambia,2010,Threatened Species: Total (number),62,SomeSource,\n\
    Zambia,2015,Threatened Species: Total (number),85,SomeSource,\n\
    Zambia,2019,Threatened Species: Total (number),90,SomeSource,\n\
    Zambia,2020,Threatened Species: Total (number),102,SomeSource,\n\
    Zambia,2021,Threatened Species: Total (number),111,SomeSource,\n\
    Zambia,2022,Threatened Species: Total (number),139,SomeSource,"
        .to_string()
}

#[test]
fn test_read_data_total() {
    let text = mock_csv();
    let data_test = read_csv(text.as_bytes()).unwrap().data;
    assert!(data_test.contains_country("Zambia"), "Expected data to contain key 'Zambia'");
    let total_data = data_test.get("Zambia", SpeciesCategory::Total);
    assert!(total_data.is_some(), "Expected data to contain 'Total' species for Zambia");
    assert_eq!(total_data.unwrap().len(), 7, "Expected 7 entries for Zambia's 'Total' species");
}

#[test]
fn value_cleaning_examples() {
    assert_eq!(clean_value("1,234"), Some("1234".to_string()));
    assert_eq!(clean_value("\"56\""), Some("56".to_string()));
    assert_eq!(clean_value("abc"), Some("abc".to_string()));
    assert_eq!(clean_value("\"1,2a\""), Some("12a".to_string()));
    assert_eq!(clean_value("0012"), Some("12".to_string()));
    assert_eq!(clean_value("000"), Some("0".to_string()));
}

#[test]
fn value_cleaning_drops_unparsable_digits() {
    assert_eq!(clean_value(""), None);
    assert_eq!(clean_value("\",\""), None);
    assert_eq!(clean_value("18446744073709551616"), None);
    assert_eq!(clean_value("18446744073709551615"), Some("18446744073709551615".to_string()));
}

#[test]
fn digit_parsing() {
    assert_eq!(parse_digits("2022"), Some(2022));
    assert_eq!(parse_digits("007"), Some(7));
    assert_eq!(parse_digits(""), None);
    assert_eq!(parse_digits("+5"), None);
    assert_eq!(parse_digits("12x"), None);
    assert_eq!(parse_digits("99999999999999999999"), None);
    assert_eq!(strip_leading_zeros("000120"), "120");
    assert_eq!(strip_leading_zeros("0"), "0");
}

#[test]
fn blank_fields() {
    assert!(is_blank_text(""));
    assert!(is_blank_text(" \t\u{a0}"));
    assert!(!is_blank_text(" x "));
}

#[test]
fn header_is_made_canonical() {
    let header = row(&["T25", "Region/Country/Area", "Year", "Series", "Threatened species",
        "Value", "Footnotes", "Source", ""]);
    assert!(has_noise_column(&header));
    assert_eq!(
        canonical_header(&header),
        row(&["Region/Country/Area", "Year", "Threatened species", "Value", "Source",
            "Footnotes"])
    );
    let partial = row(&["Year", "Value", "Region/Country/Area"]);
    assert!(!has_noise_column(&partial));
    assert_eq!(canonical_header(&partial), row(&["Region/Country/Area", "Year", "Value"]));
}

#[test]
fn five_fields_get_an_empty_footnote() {
    let raw = row(&["1", "Zambia", "2004", TOTAL, "1,234", "", "Src", ""]);
    let rec = normalize_row(true, &raw).unwrap();
    assert_eq!(
        rec.to_fields(),
        row(&["Zambia", "2004", TOTAL, "1234", "Src", ""])
    );
}

#[test]
fn six_fields_swap_source_and_footnote() {
    let raw = row(&["Zambia", "2004", TOTAL, "\"56\"", "Note 3", "Src"]);
    let rec = normalize_row(false, &raw).unwrap();
    assert_eq!(rec.source, "Src");
    assert_eq!(rec.footnote, "Note 3");
    assert_eq!(rec.value, "56");
}

#[test]
fn other_field_counts_are_dropped() {
    let short = row(&["Zambia", "2004", TOTAL, "34"]);
    match normalize_row(false, &short) {
        Err(RowProblem::FieldCount { fields }) => assert_eq!(fields, short),
        other => panic!("unexpected {:?}", other),
    }
    let long = row(&["Zambia", "2004", TOTAL, "34", "a", "b", "c"]);
    assert!(matches!(normalize_row(false, &long), Err(RowProblem::FieldCount { .. })));
    let tiny = row(&["Zambia"]);
    assert!(matches!(normalize_row(true, &tiny), Err(RowProblem::FieldCount { .. })));
}

#[test]
fn unparsable_value_drops_the_row() {
    let raw = row(&["Zambia", "2004", TOTAL, "99999999999999999999", "Src", ""]);
    match normalize_row(false, &raw) {
        Err(RowProblem::UnparsableValue { text }) => assert_eq!(text, "99999999999999999999"),
        other => panic!("unexpected {:?}", other),
    }
}

#[test]
fn non_numeric_value_passes_through() {
    let raw = row(&["Zambia", "2004", TOTAL, "n/a", "Src"]);
    let rec = normalize_row(false, &raw).unwrap();
    assert_eq!(rec.value, "n/a");
    assert_eq!(rec.footnote, "");
}

#[test]
fn table_normalization_reports_each_dropped_row() {
    let header = row(&["T25", "Region/Country/Area", "Year", "Threatened species", "Value",
        "Footnotes", "Source"]);
    let rows = vec![
        row(&["1", "Zambia", "2004", TOTAL, "34", "", "Src"]),
        row(&["2", "Zambia", "2010"]),
        row(&["3", "Zambia", "2015", TOTAL, "99999999999999999999", "", "Src"]),
        row(&["4", "Chad", "2015", PLANTS, "1,005", "Note", "Src"]),
    ];
    let out = normalize(&header, &rows);
    assert_eq!(out.records.len(), 2);
    assert_eq!(out.skipped.len(), 2);
    assert_eq!(out.skipped[0].row, 1);
    assert_eq!(out.skipped[1].row, 2);
    match &out.skipped[0].problem {
        RowProblem::FieldCount { fields } => assert_eq!(fields, &row(&["Zambia", "2010"])),
        other => panic!("unexpected {:?}", other),
    }
    match &out.skipped[1].problem {
        RowProblem::UnparsableValue { text } => assert_eq!(text, "99999999999999999999"),
        other => panic!("unexpected {:?}", other),
    }
    assert_eq!(out.records[1].to_fields(), row(&["Chad", "2015", PLANTS, "1005", "Src", "Note"]));
}

#[test]
fn normalizing_output_again_changes_nothing() {
    let header = row(&["Region/Country/Area", "Year", "Threatened species", "Value", "Source",
        "Footnotes"]);
    let first = normalize(&header, &vec![row(&["Zambia", "2004", TOTAL, "1,234", "Src", ""])]);
    let again_rows: Vec<Vec<String>> = first.records.iter().map(|r| r.to_fields()).collect();
    let second = normalize(&first.header, &again_rows);
    assert_eq!(second.records.len(), 1);
    assert_eq!(second.records[0].to_fields(), first.records[0].to_fields());
}

#[test]
fn aggregation_partitions_recognized_records() {
    let records = vec![
        record("Zambia", 2004, TOTAL, 34),
        record("Zambia", 2004, "Something else", 1),
        record("Chad", 2010, PLANTS, 5),
        record("Zambia", 2010, TOTAL, 62),
        record("Zambia", 2010, TOTAL, 63),
        record("Chad", 2011, "Threatened Species: Vertebrates (number)", 7),
    ];
    let data = aggregate(&records);
    assert_eq!(data.series.len(), 3);
    assert_eq!(data.get("Zambia", SpeciesCategory::Total).unwrap(), &vec![(2004, 34), (2010, 62), (2010, 63)]);
    assert_eq!(data.get("Chad", SpeciesCategory::Plants).unwrap(), &vec![(2010, 5)]);
    assert_eq!(data.get("Chad", SpeciesCategory::Vertebrates).unwrap(), &vec![(2011, 7)]);
    assert!(data.get("Chad", SpeciesCategory::Total).is_none());
    let total: usize = data.series.iter().map(|s| s.points.len()).sum();
    assert_eq!(total, 5);
    assert!(!data.contains_country("zambia"));
}

#[test]
fn categories_by_descriptor_and_label() {
    assert_eq!(SpeciesCategory::from_descriptor(TOTAL), Some(SpeciesCategory::Total));
    assert_eq!(
        SpeciesCategory::from_descriptor("Threatened Species: Invertebrates (number)"),
        Some(SpeciesCategory::Invertebrates)
    );
    assert_eq!(SpeciesCategory::from_descriptor("Total"), None);
    assert_eq!(SpeciesCategory::from_label("Plants"), Some(SpeciesCategory::Plants));
    assert_eq!(SpeciesCategory::from_label("plants"), None);
    assert_eq!(SpeciesCategory::Vertebrates.label(), "Vertebrates");
}

#[test]
fn forecast_years_are_contiguous() {
    assert_eq!(forecast_years(2022, 5), vec![2023, 2024, 2025, 2026, 2027]);
    assert_eq!(forecast_years(7, 0), Vec::<u64>::new());
}

#[test]
fn latest_year_and_span() {
    let points = vec![(2010, 1), (2022, 2), (2004, 3)];
    assert_eq!(last_observed_year(&points), 2022);
    assert!(spans_two_years(&points));
    assert!(!spans_two_years(&vec![(2010, 1), (2010, 2)]));
    assert!(!spans_two_years(&vec![]));
}

#[test]
fn forecast_requests() {
    let records = vec![
        record("Zambia", 2004, TOTAL, 34),
        record("Zambia", 2010, TOTAL, 62),
        record("Chad", 2010, PLANTS, 5),
        record("Chad", u64::MAX - 1, TOTAL, 5),
        record("Chad", u64::MAX - 2, TOTAL, 6),
    ];
    let data = aggregate(&records);
    assert!(matches!(plan_forecast(&data, "Zambia", "Birds", 5), ForecastQuery::NoData));
    assert!(matches!(plan_forecast(&data, "Mali", "Total", 5), ForecastQuery::NoData));
    assert!(matches!(plan_forecast(&data, "Zambia", "Plants", 5), ForecastQuery::NoData));
    assert!(matches!(plan_forecast(&data, "Chad", "Plants", 5), ForecastQuery::InsufficientHistory));
    assert!(matches!(plan_forecast(&data, "Zambia", "Total", 0), ForecastQuery::InvalidHorizon));
    assert!(matches!(plan_forecast(&data, "Chad", "Total", 1), ForecastQuery::Ready(_)));
    assert!(matches!(plan_forecast(&data, "Chad", "Total", 2), ForecastQuery::InvalidHorizon));
    match plan_forecast(&data, "Zambia", "Total", 3) {
        ForecastQuery::Ready(plan) => {
            assert_eq!(plan.points, vec![(2004, 34), (2010, 62)]);
            assert_eq!(plan.last_year, 2010);
            assert_eq!(plan.years, vec![2011, 2012, 2013]);
        }
        other => panic!("unexpected {:?}", other),
    }
}

#[test]
fn zambia_end_to_end() {
    let header = row(&["Region/Country/Area", "Year", "Threatened species", "Value", "Source",
        "Footnotes"]);
    let rows: Vec<Vec<String>> = [(2004, 34), (2010, 62), (2015, 85), (2019, 90), (2020, 102),
        (2021, 111), (2022, 139)]
        .iter()
        .map(|(y, v)| row(&["Zambia", &y.to_string(), TOTAL, &v.to_string(), "SomeSource", ""]))
        .collect();
    let cleaned = normalize(&header, &rows);
    assert_eq!(cleaned.records.len(), 7);
    let read = read_data(&cleaned.records);
    assert!(read.skipped.is_empty());
    assert_eq!(read.data.series.len(), 1);
    assert_eq!(read.data.get("Zambia", SpeciesCategory::Total).unwrap().len(), 7);
    match plan_forecast(&read.data, "Zambia", "Total", 5) {
        ForecastQuery::Ready(plan) => {
            assert_eq!(plan.last_year, 2022);
            assert_eq!(plan.years, vec![2023, 2024, 2025, 2026, 2027]);
        }
        other => panic!("unexpected {:?}", other),
    }
}

#[test]
fn typed_reading_of_cleaned_records() {
    let rec = CleanedRecord::from_fields(&row(&["Zambia", "2004", TOTAL, "34", "Src", "Note"])).unwrap();
    let d = CountryData::from_record(&rec).unwrap();
    assert_eq!(d.year, 2004);
    assert_eq!(d.value, 34);
    assert_eq!(d.footnote, Some("Note".to_string()));
    let bad = CleanedRecord::from_fields(&row(&["Zambia", "2004", TOTAL, "n/a", "Src", ""])).unwrap();
    assert!(CountryData::from_record(&bad).is_none());
    assert!(CleanedRecord::from_fields(&row(&["a", "b"])).is_none());
    let read = read_data(&vec![rec, bad]);
    assert_eq!(read.records.len(), 1);
    assert_eq!(read.skipped, vec![1]);
}

#[test]
fn csv_text_is_cleaned_and_written() {
    let input = "T25,Region/Country/Area,Year,Threatened species,Value,Footnotes,Source\n\
        1, Zambia ,2004,Threatened Species: Total (number),\"1,234\",,Src\n\
        2,Chad,2010,\n";
    let table = clean_csv(input.as_bytes()).unwrap();
    assert_eq!(table.normalized.records.len(), 1);
    assert_eq!(table.normalized.skipped.len(), 1);
    assert_eq!(
        String::from_utf8(table.text).unwrap(),
        "Region/Country/Area,Year,Threatened species,Value,Source,Footnotes\n\
        Zambia,2004,Threatened Species: Total (number),1234,Src,\n"
    );
}

#[test]
fn csv_text_is_read_back() {
    let text = "Region/Country/Area,Year,Threatened species,Value,Source,Footnotes\n\
        Chad,2010,Threatened Species: Plants (number),5,Src,\n\
        Chad,2011\n";
    let read = read_csv(text.as_bytes()).unwrap();
    assert_eq!(read.records.len(), 1);
    assert_eq!(read.records[0].country_name, "Chad");
    assert_eq!(read.data.get("Chad", SpeciesCategory::Plants).unwrap(), &vec![(2010, 5)]);
    assert_eq!(read.skipped, vec![1]);
}

#[test]
fn csv_with_partial_header_is_still_written() {
    let input = "Region/Country/Area,Year,Threatened species,Value,Source\n\
        Zambia,2004,Threatened Species: Total (number),34,Src\n";
    let table = clean_csv(input.as_bytes()).unwrap();
    assert_eq!(table.normalized.records.len(), 1);
    assert_eq!(
        String::from_utf8(table.text).unwrap(),
        "Region/Country/Area,Year,Threatened species,Value,Source\n\
        Zambia,2004,Threatened Species: Total (number),34,Src,\n"
    );
}

#[test]
fn text_that_is_not_utf8_is_refused() {
    let mut input = b"Region/Country/Area,Year\nZambia,".to_vec();
    input.push(0xff);
    input.push(b'\n');
    assert!(clean_csv(&input).is_none());
    assert!(read_csv(&input).is_none());
}
