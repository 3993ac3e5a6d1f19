use wildtrails::{
    convert_report_values, decode_directory, decode_report, parse_date, parse_json, Date,
    DecodeError, JsonValue, ReportValue,
};

fn directory_fixture() -> String {
    String::from(
        r#"{
        "status": {"type": "message", "value": "ok"},
        "response": {
            "timestamp": "2020-09-06 07:00:00",
            "values": {
                "w35": {"id": "w35", "name": "Alder Creek", "region": "south", "quota": 18, "capacity": 30},
                "y12": {"id": "y12", "name": "Beehive Meadows", "region": "north", "quota": 10, "capacity": 15, "alert": null, "notes": "steep"},
                "z07": {"id": "z07", "name": "Chilnualna Falls", "quota": 5, "capacity": 12, "extra": [1, 2.5, {"deep": true}]}
            }
        }
    }"#,
    )
}

fn report_fixture() -> String {
    String::from(
        r#"{
        "status": {"type": "message", "value": "ok"},
        "response": {
            "id": "south",
            "values": [
                {"date": "2020-09-10", "w35": 5, "z07": 0},
                {"date": "2020-09-11", "w35": 31}
            ]
        }
    }"#,
    )
}

#[test]
fn parse_trailheads_1() {
    let text = directory_fixture();
    let dir = decode_directory(&text).expect("derp");
    assert_eq!(dir.values.len(), 3);
    assert_eq!(dir.timestamp, "2020-09-06 07:00:00");
}

#[test]
fn parse_trailheads_2() {
    // records in another member order, unknown fields ignored
    let text = String::from(
        r#"{"response": {"values": {"a1": {"capacity": 9, "quota": 4, "name": "Cathedral", "id": "a1", "other": null}}, "timestamp": "t"}, "status": {"value": "", "type": "message"}}"#,
    );
    let dir = decode_directory(&text).expect("derp");
    assert_eq!(dir.values.len(), 1);
    assert_eq!(dir.values[0].0, "a1");
    assert_eq!(dir.values[0].1.name, "Cathedral");
    assert_eq!(dir.values[0].1.quota, 4);
    assert_eq!(dir.values[0].1.capacity, 9);
    assert!(dir.values[0].1.region.is_none());
}

#[test]
fn parse_report_1() {
    let text = report_fixture();
    let rows = decode_report(&text).expect("derp");
    assert_eq!(rows.len(), 2);
    assert_eq!(rows[0].date, Date { year: 2020, month: 9, day: 10 });
    assert_eq!(rows[0].values.len(), 2);
    assert_eq!(rows[1].values, vec![(String::from("w35"), 31)]);
}

#[test]
fn parse_report_2() {
    // a dateless row is dropped; date-valued extra members are dropped
    let text = String::from(
        r#"{"status": {"type": "message", "value": "ok"}, "response": {"id": "north",
            "values": [
                {"y12": 3},
                {"date": "2020-10-01", "opened": "2020-06-01", "y12": 7}
            ]}}"#,
    );
    let rows = decode_report(&text).expect("derp");
    assert_eq!(rows.len(), 1);
    assert_eq!(rows[0].date, Date { year: 2020, month: 10, day: 1 });
    assert_eq!(rows[0].values, vec![(String::from("y12"), 7)]);
}

#[test]
fn status_marker_must_be_message() {
    let text = String::from(
        r#"{"status": {"type": "error", "value": "bad cookie"}, "response": {}}"#,
    );
    match decode_directory(&text) {
        Err(DecodeError::UnexpectedResponse(st)) => {
            assert_eq!(st.kind, "error");
            assert_eq!(st.value, "bad cookie");
        },
        _ => panic!("expected an unexpected-response error"),
    }
}

#[test]
fn broken_json_is_malformed() {
    assert!(matches!(decode_directory("not json"), Err(DecodeError::Malformed)));
    assert!(matches!(decode_report("{\"status\":"), Err(DecodeError::Malformed)));
}

#[test]
fn missing_required_field_is_malformed() {
    // a record without a capacity fails the whole payload
    let text = String::from(
        r#"{"status": {"type": "message", "value": ""}, "response": {"timestamp": "t",
            "values": {"a1": {"id": "a1", "name": "x", "quota": 4}}}}"#,
    );
    assert!(matches!(decode_directory(&text), Err(DecodeError::Malformed)));
}

#[test]
fn date_field_holding_count_is_schema_violation() {
    let text = String::from(
        r#"{"status": {"type": "message", "value": ""}, "response": {"id": "r",
            "values": [{"date": 5, "w35": 1}]}}"#,
    );
    assert!(matches!(decode_report(&text), Err(DecodeError::SchemaViolation)));
}

#[test]
fn report_value_neither_date_nor_count_is_malformed() {
    let text = String::from(
        r#"{"status": {"type": "message", "value": ""}, "response": {"id": "r",
            "values": [{"date": "2020-09-10", "w35": 300}]}}"#,
    );
    assert!(matches!(decode_report(&text), Err(DecodeError::Malformed)));
    let text2 = String::from(
        r#"{"status": {"type": "message", "value": ""}, "response": {"id": "r",
            "values": [{"date": "2020-09-10", "w35": true}]}}"#,
    );
    assert!(matches!(decode_report(&text2), Err(DecodeError::Malformed)));
}

#[test]
fn json_values() {
    assert!(matches!(parse_json("null"), Some(JsonValue::Null)));
    assert!(matches!(parse_json("true"), Some(JsonValue::Bool(true))));
    assert!(matches!(parse_json("false"), Some(JsonValue::Bool(false))));
    assert!(matches!(parse_json("  42 "), Some(JsonValue::Num(42))));
    assert!(matches!(parse_json("-17"), Some(JsonValue::Num(-17))));
    assert!(matches!(parse_json("0"), Some(JsonValue::Num(0))));
    assert!(matches!(parse_json("9223372036854775807"), Some(JsonValue::Num(9223372036854775807))));
    assert!(matches!(parse_json("-9223372036854775808"), Some(JsonValue::Num(-9223372036854775808))));
    // out of the i64 range, or with a fraction or exponent: carried opaquely
    assert!(matches!(parse_json("9223372036854775808"), Some(JsonValue::NumOther)));
    assert!(matches!(parse_json("184467440737095516170"), Some(JsonValue::NumOther)));
    assert!(matches!(parse_json("2.5"), Some(JsonValue::NumOther)));
    assert!(matches!(parse_json("1e9"), Some(JsonValue::NumOther)));
    assert!(matches!(parse_json("1.25E-3"), Some(JsonValue::NumOther)));
}

#[test]
fn json_rejects_broken_syntax() {
    assert!(parse_json("").is_none());
    assert!(parse_json("01").is_none());
    assert!(parse_json("+1").is_none());
    assert!(parse_json("1.").is_none());
    assert!(parse_json("1e").is_none());
    assert!(parse_json("nul").is_none());
    assert!(parse_json("[1,]").is_none());
    assert!(parse_json("{\"a\" 1}").is_none());
    assert!(parse_json("[1, 2").is_none());
    assert!(parse_json("\"unterminated").is_none());
    assert!(parse_json("\"ctrl\u{0001}\"").is_none());
    assert!(parse_json("1 2").is_none());
}

#[test]
fn json_strings_and_escapes() {
    match parse_json(r#""a\n\t\"\\\/b""#) {
        Some(JsonValue::Str(s)) => assert_eq!(s, "a\n\t\"\\/b"),
        _ => panic!("expected a string"),
    }
    // a raw multi-byte character, an escaped code point, and a surrogate
    // pair combining into one character
    match parse_json(r#""Aé""#) {
        Some(JsonValue::Str(s)) => assert_eq!(s, "A\u{00e9}"),
        _ => panic!("expected a string"),
    }
    match parse_json(r#""A\u00e9""#) {
        Some(JsonValue::Str(s)) => assert_eq!(s, "A\u{00e9}"),
        _ => panic!("expected a string"),
    }
    match parse_json(r#""\ud83d\ude00""#) {
        Some(JsonValue::Str(s)) => assert_eq!(s, "\u{1F600}"),
        _ => panic!("expected a string"),
    }
    match parse_json("\"\u{1F600}\"") {
        Some(JsonValue::Str(s)) => assert_eq!(s, "\u{1F600}"),
        _ => panic!("expected a string"),
    }
    // a lone surrogate is refused
    assert!(parse_json(r#""\ud83d""#).is_none());
    assert!(parse_json(r#""\udc00x""#).is_none());
    assert!(parse_json(r#""\q""#).is_none());
}

#[test]
fn json_arrays_and_objects() {
    match parse_json(" [1, [true, null], {\"k\": 2}] ") {
        Some(JsonValue::Arr(items)) => {
            assert_eq!(items.len(), 3);
            assert!(matches!(items[0], JsonValue::Num(1)));
            match &items[1] {
                JsonValue::Arr(inner) => assert_eq!(inner.len(), 2),
                _ => panic!("expected an array"),
            }
            match &items[2] {
                JsonValue::Obj(ms) => {
                    assert_eq!(ms.len(), 1);
                    assert_eq!(ms[0].0, "k");
                    assert!(matches!(ms[0].1, JsonValue::Num(2)));
                },
                _ => panic!("expected an object"),
            }
        },
        _ => panic!("expected an array"),
    }
    assert!(matches!(parse_json("[]"), Some(JsonValue::Arr(v)) if v.is_empty()));
    assert!(matches!(parse_json("{ }"), Some(JsonValue::Obj(v)) if v.is_empty()));
}

#[test]
fn duplicate_keys_last_wins() {
    // in a directory mapping, the later record wins
    let text = String::from(
        r#"{"status": {"type": "message", "value": ""}, "response": {"timestamp": "t",
            "values": {
                "a1": {"id": "a1", "name": "First", "quota": 1, "capacity": 2},
                "a1": {"id": "a1", "name": "Second", "quota": 3, "capacity": 4}
            }}}"#,
    );
    let dir = decode_directory(&text).expect("directory should decode");
    assert_eq!(dir.values.len(), 1);
    assert_eq!(dir.values[0].1.name, "Second");
    assert_eq!(dir.values[0].1.capacity, 4);
}

#[test]
fn normalize_row_directly() {
    let date = Date { year: 2020, month: 9, day: 10 };
    let extra = Date { year: 2020, month: 6, day: 1 };
    let row = vec![
        (String::from("date"), ReportValue::Date(date)),
        (String::from("w35"), ReportValue::Int(5)),
        (String::from("opened"), ReportValue::Date(extra)),
        (String::from("z07"), ReportValue::Int(0)),
    ];
    let rd = convert_report_values(&row).expect("row should normalize").expect("row has a date");
    assert_eq!(rd.date, date);
    assert_eq!(rd.values, vec![(String::from("w35"), 5), (String::from("z07"), 0)]);

    // no date: the row carries nothing
    let dateless = vec![(String::from("w35"), ReportValue::Int(5))];
    assert!(convert_report_values(&dateless).expect("row should normalize").is_none());

    // a count under the date key breaks the upstream contract
    let broken = vec![(String::from("date"), ReportValue::Int(9))];
    assert!(matches!(convert_report_values(&broken), Err(DecodeError::SchemaViolation)));
}

#[test]
fn parse_date_valid_and_invalid() {
    assert_eq!(parse_date("2020-09-06"), Some(Date { year: 2020, month: 9, day: 6 }));
    assert_eq!(parse_date("2020-02-29"), Some(Date { year: 2020, month: 2, day: 29 }));
    assert_eq!(parse_date("1900-02-29"), None);
    assert_eq!(parse_date("2000-02-29"), Some(Date { year: 2000, month: 2, day: 29 }));
    assert_eq!(parse_date("2021-02-29"), None);
    assert_eq!(parse_date("2020-13-01"), None);
    assert_eq!(parse_date("2020-00-10"), None);
    assert_eq!(parse_date("2020-04-31"), None);
    assert_eq!(parse_date("2020-04-00"), None);
    assert_eq!(parse_date("0000-04-01"), None);
    assert_eq!(parse_date("2020/04/01"), None);
    assert_eq!(parse_date("2020-4-01"), None);
    assert_eq!(parse_date("2020-04-011"), None);
    assert_eq!(parse_date(""), None);
}
