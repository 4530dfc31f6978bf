//! Cleaning, aggregation and forecast planning for a table of threatened-species counts.
//!
//! `normalize` brings ragged rows to a fixed six-column schema, `aggregate` groups the cleaned
//! records into one time series per country and category, `forecast` lays out the years to
//! predict for one series, and `table` reads and writes whole tables as CSV text.
pub mod text;
pub mod value;
pub mod normalize;
pub mod aggregate;
pub mod forecast;
pub mod table;
