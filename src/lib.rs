//! Ingestion, reference resolution and report aggregation for a dataset of public
//! flood-control infrastructure projects.
//!
//! Money is held in centavos, averages, shares and scores in hundredths, and dates as day
//! numbers, so the whole pipeline runs on exact integer arithmetic. The governing year of a
//! project is its funding year; the reporting window is 2021 to 2023 inclusive; when all
//! positive raw scores are equal, normalization gives 0.
pub mod aggregate;
pub mod laws;
pub mod loader;
pub mod model;
pub mod normalize;
pub mod order;
pub mod parse;
pub mod reports;
pub mod stats;
pub mod summary;
pub mod text;

pub use loader::{filter_by_year, load_projects, LoadError};
pub use model::Project;
pub use normalize::normalize_ratios;
pub use parse::{parse_decimal, parse_int, try_parse_date};
pub use reports::{
    report_annual_trends, report_regional_efficiency, report_top_contractors, ContractorRow,
    RegionRow, TrendRow,
};
pub use stats::{median, round_div};
pub use summary::{clean_contractor, clean_province, summarize, Summary};
pub use text::truncate;
