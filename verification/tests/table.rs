use wildtrails::{
    build_table, decode_directory, decode_report, regions_of, today_pacific, Date, DecodeError,
    ReportDate, Status, Trailhead, Trailheads,
};

fn d(year: u16, month: u8, day: u8) -> Date {
    Date { year, month, day }
}

fn th(id: &str, name: &str, region: Option<&str>, quota: u8, capacity: u8) -> (String, Trailhead) {
    (
        String::from(id),
        Trailhead {
            id: String::from(id),
            name: String::from(name),
            region: region.map(String::from),
            quota,
            capacity,
            alert: None,
            notes: None,
        },
    )
}

fn directory() -> Trailheads {
    Trailheads {
        timestamp: String::from("2020-09-06 07:00:00"),
        values: vec![
            th("w35", "Alder Creek", Some("south"), 18, 30),
            th("y12", "Beehive Meadows", Some("north"), 10, 15),
            th("z07", "Chilnualna Falls", Some("south"), 5, 12),
            th("q01", "Quiet Corner", None, 2, 4),
        ],
    }
}

fn row(date: Date, values: Vec<(&str, u8)>) -> ReportDate {
    ReportDate {
        date,
        values: values.into_iter().map(|(id, occ)| (String::from(id), occ)).collect(),
    }
}

#[test]
fn regions_are_distinct_and_complete() {
    let dir = directory();
    let regions = regions_of(&dir);
    assert_eq!(regions, vec![String::from("south"), String::from("north")]);
}

#[test]
fn table_is_ordered_by_date_then_name() {
    let dir = directory();
    let today = d(2020, 9, 6);
    let reports = vec![
        vec![
            row(d(2020, 9, 11), vec![("w35", 1)]),
            row(d(2020, 9, 10), vec![("w35", 2), ("z07", 3)]),
        ],
        vec![row(d(2020, 9, 10), vec![("y12", 4)])],
    ];
    let table = build_table(&dir, &reports, today);
    let got: Vec<(Date, String, u8)> = table.rows;
    assert_eq!(
        got,
        vec![
            (d(2020, 9, 10), String::from("Alder Creek"), 28),
            (d(2020, 9, 10), String::from("Beehive Meadows"), 11),
            (d(2020, 9, 10), String::from("Chilnualna Falls"), 9),
            (d(2020, 9, 11), String::from("Alder Creek"), 29),
        ]
    );
}

#[test]
fn aggregation_is_order_independent() {
    // the same reconciled entries in two different input orders
    let dir = directory();
    let today = d(2020, 9, 6);
    let reports_one = vec![
        vec![row(d(2020, 9, 10), vec![("w35", 2)])],
        vec![row(d(2020, 9, 12), vec![("y12", 1)])],
        vec![row(d(2020, 9, 11), vec![("z07", 3)])],
    ];
    let reports_two = vec![
        vec![row(d(2020, 9, 11), vec![("z07", 3)])],
        vec![
            row(d(2020, 9, 12), vec![("y12", 1)]),
            row(d(2020, 9, 10), vec![("w35", 2)]),
        ],
    ];
    let one = build_table(&dir, &reports_one, today);
    let two = build_table(&dir, &reports_two, today);
    assert_eq!(one.rows, two.rows);
}

#[test]
fn repeated_key_last_write_wins() {
    // two regions report the same trailhead for the same date: the later
    // report's figure stands
    let dir = directory();
    let today = d(2020, 9, 6);
    let reports = vec![
        vec![row(d(2020, 9, 10), vec![("w35", 2)])],
        vec![row(d(2020, 9, 10), vec![("w35", 7)])],
    ];
    let table = build_table(&dir, &reports, today);
    assert_eq!(table.rows, vec![(d(2020, 9, 10), String::from("Alder Creek"), 23)]);
}

#[test]
fn dropped_entries_leave_no_rows() {
    // unknown identifiers and exhausted trailheads leave nothing behind
    let dir = directory();
    let today = d(2020, 9, 6);
    let reports = vec![vec![row(
        d(2020, 9, 10),
        vec![("zz9", 3), ("w35", 30), ("q01", 1)],
    )]];
    let table = build_table(&dir, &reports, today);
    assert_eq!(table.rows, vec![(d(2020, 9, 10), String::from("Quiet Corner"), 3)]);
}

#[test]
fn whole_run_from_payload_texts() {
    let dir_text = r#"{
        "status": {"type": "message", "value": "ok"},
        "response": {"timestamp": "2020-09-06 07:00:00", "values": {
            "w35": {"id": "w35", "name": "Alder Creek", "region": "south", "quota": 18, "capacity": 30}
        }}}"#;
    let report_text = r#"{
        "status": {"type": "message", "value": "ok"},
        "response": {"id": "south", "values": [
            {"date": "2020-09-10", "w35": 5},
            {"date": "2020-10-01", "w35": 20}
        ]}}"#;
    let dir = decode_directory(dir_text).expect("directory should decode");
    assert_eq!(regions_of(&dir), vec![String::from("south")]);
    let report = decode_report(report_text).expect("report should decode");
    let table = build_table(&dir, &vec![report], d(2020, 9, 6));
    // inside the window capacity 30 applies; the overbooked October row is
    // outside the window, exhausts the quota of 18 and is dropped
    assert_eq!(table.rows, vec![(d(2020, 9, 10), String::from("Alder Creek"), 25)]);
}

#[test]
fn error_descriptions() {
    assert_eq!(DecodeError::Malformed.describe(), "malformed response payload");
    assert_eq!(DecodeError::SchemaViolation.describe(), "report date field holds a count");
    let e = DecodeError::UnexpectedResponse(Status {
        kind: String::from("error"),
        value: String::from("limit"),
    });
    assert_eq!(e.describe(), "unexpected response: error limit");
}

#[test]
fn clock_yields_a_real_date() {
    let today = today_pacific().expect("the clock should read a supported date");
    assert!(1 <= today.month && today.month <= 12);
    assert!(1 <= today.day && today.day <= 31);
    assert!(today.year >= 2020);
}
