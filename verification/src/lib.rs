//! Wilderness-permit availability, reconciled and verified.
//!
//! The library decodes the permit service's JSON payloads (a trailhead
//! directory and per-region daily occupancy reports), reconciles each
//! occupancy record against the directory under the fifteen-day walk-up
//! window rule with overbooking clamped, and merges everything into one
//! table ordered by date and trailhead name. Every step carries a contract;
//! the caller does the fetching and printing and hands text in, plain
//! values out.
mod api;
mod date;
mod json;
mod pipeline;
mod reconcile;
mod table;
mod text;

pub use api::{
    convert_report_values, decode_directory, decode_report, DecodeError, ReportDate, ReportValue,
    Status, Trailhead, Trailheads,
};
pub use date::{date_from_ymd, parse_date, today_pacific, Date};
pub use json::{parse_json, JsonValue};
pub use pipeline::{build_table, regions_of};
pub use reconcile::{dir_get, reconcile, WALK_UP_WINDOW_DAYS};
pub use table::ResultTable;
pub use text::{str_eq, str_lt};
