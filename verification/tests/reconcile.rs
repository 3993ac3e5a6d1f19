use wildtrails::{reconcile, Date, Trailhead, Trailheads};

fn th(id: &str, name: &str, quota: u8, capacity: u8) -> (String, Trailhead) {
    (
        String::from(id),
        Trailhead {
            id: String::from(id),
            name: String::from(name),
            region: Some(String::from("south")),
            quota,
            capacity,
            alert: None,
            notes: None,
        },
    )
}

fn alder_creek_directory() -> Trailheads {
    Trailheads {
        timestamp: String::from("2020-09-06 07:00:00"),
        values: vec![th("w35", "Alder Creek", 18, 30)],
    }
}

#[test]
fn inside_window_uses_capacity() {
    // four days ahead: the full capacity applies
    let dir = alder_creek_directory();
    let today = Date { year: 2020, month: 9, day: 6 };
    let date = Date { year: 2020, month: 9, day: 10 };
    let got = reconcile(&dir, date, "w35", 5, today);
    assert_eq!(got, Some((date, String::from("Alder Creek"), 25)));
}

#[test]
fn outside_window_uses_quota_and_overbooking_drops() {
    // twenty-five days ahead: the walk-up quota applies; occupancy 20
    // overbooks the quota of 18 and the entry is dropped
    let dir = alder_creek_directory();
    let today = Date { year: 2020, month: 9, day: 6 };
    let date = Date { year: 2020, month: 10, day: 1 };
    assert_eq!(reconcile(&dir, date, "w35", 20, today), None);
    // with room under the quota the entry survives
    assert_eq!(
        reconcile(&dir, date, "w35", 5, today),
        Some((date, String::from("Alder Creek"), 13))
    );
}

#[test]
fn unknown_identifier_is_ignored() {
    let dir = alder_creek_directory();
    let today = Date { year: 2020, month: 9, day: 6 };
    let date = Date { year: 2020, month: 9, day: 10 };
    assert_eq!(reconcile(&dir, date, "zz9", 3, today), None);
    assert_eq!(reconcile(&dir, date, "zz9", 0, today), None);
}

#[test]
fn window_boundary_is_strict() {
    // exactly fifteen days ahead is still within the window
    let dir = alder_creek_directory();
    let today = Date { year: 2020, month: 9, day: 6 };
    let at_fifteen = Date { year: 2020, month: 9, day: 21 };
    let at_sixteen = Date { year: 2020, month: 9, day: 22 };
    assert_eq!(
        reconcile(&dir, at_fifteen, "w35", 0, today),
        Some((at_fifteen, String::from("Alder Creek"), 30))
    );
    assert_eq!(
        reconcile(&dir, at_sixteen, "w35", 0, today),
        Some((at_sixteen, String::from("Alder Creek"), 18))
    );
}

#[test]
fn clamping_at_and_above_capacity() {
    let dir = alder_creek_directory();
    let today = Date { year: 2020, month: 9, day: 6 };
    let date = Date { year: 2020, month: 9, day: 10 };
    // occupancy equal to the bound: nothing left, dropped
    assert_eq!(reconcile(&dir, date, "w35", 30, today), None);
    // overbooked beyond the bound: still dropped, never negative
    assert_eq!(reconcile(&dir, date, "w35", 200, today), None);
    // zero occupancy: the whole bound remains
    assert_eq!(
        reconcile(&dir, date, "w35", 0, today),
        Some((date, String::from("Alder Creek"), 30))
    );
}

#[test]
fn window_crosses_month_and_year_ends() {
    let dir = alder_creek_directory();
    let december = Date { year: 2020, month: 12, day: 28 };
    let early_january = Date { year: 2021, month: 1, day: 5 };
    let late_january = Date { year: 2021, month: 1, day: 20 };
    // eight days ahead across the year end: inside the window
    assert_eq!(
        reconcile(&dir, early_january, "w35", 0, december),
        Some((early_january, String::from("Alder Creek"), 30))
    );
    // twenty-three days ahead: outside
    assert_eq!(
        reconcile(&dir, late_january, "w35", 0, december),
        Some((late_january, String::from("Alder Creek"), 18))
    );
}

#[test]
fn dates_before_today_use_capacity() {
    let dir = alder_creek_directory();
    let today = Date { year: 2020, month: 9, day: 6 };
    let yesterday = Date { year: 2020, month: 9, day: 5 };
    assert_eq!(
        reconcile(&dir, yesterday, "w35", 1, today),
        Some((yesterday, String::from("Alder Creek"), 29))
    );
}
