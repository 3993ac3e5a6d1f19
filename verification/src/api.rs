//! The upstream service's payload schema: envelope, status marker, trailhead
//! directory and per-region occupancy reports, decoded from parsed JSON with
//! exact contracts.
use vstd::prelude::*;

use crate::date::{Date, spec_parse_date};
use crate::json::{members_jv, seq_jv, JVal, JsonValue};
use crate::text::str_eq;

verus! {

/// The API's status marker: a kind (the JSON `type` field) and a message.
#[derive(Debug)]
pub struct Status {
    pub kind: String,
    pub value: String,
}

pub struct StatusV {
    pub kind: Seq<char>,
    pub value: Seq<char>,
}

impl View for Status {
    type V = StatusV;

    open spec fn view(&self) -> StatusV {
        StatusV { kind: self.kind@, value: self.value@ }
    }
}

/// One trailhead record from the directory.
#[derive(Debug)]
pub struct Trailhead {
    pub id: String,
    pub name: String,
    pub region: Option<String>,
    pub quota: u8,
    pub capacity: u8,
    pub alert: Option<String>,
    pub notes: Option<String>,
}

pub struct TrailheadV {
    pub id: Seq<char>,
    pub name: Seq<char>,
    pub region: Option<Seq<char>>,
    pub quota: u8,
    pub capacity: u8,
    pub alert: Option<Seq<char>>,
    pub notes: Option<Seq<char>>,
}

pub open spec fn opt_view(o: Option<String>) -> Option<Seq<char>> {
    match o {
        Some(s) => Some(s@),
        None => None,
    }
}

impl View for Trailhead {
    type V = TrailheadV;

    open spec fn view(&self) -> TrailheadV {
        TrailheadV {
            id: self.id@,
            name: self.name@,
            region: opt_view(self.region),
            quota: self.quota,
            capacity: self.capacity,
            alert: opt_view(self.alert),
            notes: opt_view(self.notes),
        }
    }
}

/// The directory snapshot: trailhead records addressed by identifier.
/// Identifiers are unique after decoding (later duplicates win).
#[derive(Debug)]
pub struct Trailheads {
    pub timestamp: String,
    pub values: Vec<(String, Trailhead)>,
}

pub struct DirectoryV {
    pub timestamp: Seq<char>,
    pub entries: Seq<(Seq<char>, TrailheadV)>,
}

pub open spec fn entries_view(q: Seq<(String, Trailhead)>) -> Seq<(Seq<char>, TrailheadV)> {
    Seq::new(
        q.len(),
        |i: int|
            if 0 <= i < q.len() {
                (q[i].0@, q[i].1@)
            } else {
                (Seq::<char>::empty(), arbitrary())
            },
    )
}

impl View for Trailheads {
    type V = DirectoryV;

    open spec fn view(&self) -> DirectoryV {
        DirectoryV { timestamp: self.timestamp@, entries: entries_view(self.values@) }
    }
}

/// One value of a report row: the date, or an occupancy count.
#[derive(Debug, Clone, Copy, PartialEq, Eq, Structural)]
pub enum ReportValue {
    Date(Date),
    Int(u8),
}

/// One normalized report row: a date and the occupancies by identifier.
#[derive(Debug)]
pub struct ReportDate {
    pub date: Date,
    pub values: Vec<(String, u8)>,
}

pub struct ReportDateV {
    pub date: Date,
    pub values: Seq<(Seq<char>, u8)>,
}

pub open spec fn occ_view(q: Seq<(String, u8)>) -> Seq<(Seq<char>, u8)> {
    Seq::new(
        q.len(),
        |i: int|
            if 0 <= i < q.len() {
                (q[i].0@, q[i].1)
            } else {
                (Seq::<char>::empty(), 0u8)
            },
    )
}

impl View for ReportDate {
    type V = ReportDateV;

    open spec fn view(&self) -> ReportDateV {
        ReportDateV { date: self.date, values: occ_view(self.values@) }
    }
}

/// How decoding a payload can fail. Transport failures live with the caller
/// that does the I/O; these are the payload-level failures.
#[derive(Debug)]
pub enum DecodeError {
    /// The text is not JSON, or not shaped as the expected payload.
    Malformed,
    /// A row's `date` field holds a count: the upstream contract is broken.
    SchemaViolation,
    /// The envelope's status marker signals failure.
    UnexpectedResponse(Status),
}

pub enum DecodeErrorV {
    Malformed,
    SchemaViolation,
    UnexpectedResponse(StatusV),
}

impl View for DecodeError {
    type V = DecodeErrorV;

    open spec fn view(&self) -> DecodeErrorV {
        match self {
            DecodeError::Malformed => DecodeErrorV::Malformed,
            DecodeError::SchemaViolation => DecodeErrorV::SchemaViolation,
            DecodeError::UnexpectedResponse(st) => DecodeErrorV::UnexpectedResponse(st@),
        }
    }
}

// ------------------------------------------------------------------
// Schema decoding over the JSON model: object field lookup is
// last-occurrence-wins, unknown fields are ignored.
// ------------------------------------------------------------------
/// The value of the last member named `key`.
pub open spec fn obj_lookup(ms: Seq<(Seq<char>, JVal)>, key: Seq<char>) -> Option<JVal>
    decreases ms.len(),
{
    if ms.len() == 0 {
        None
    } else if ms.last().0 == key {
        Some(ms.last().1)
    } else {
        obj_lookup(ms.drop_last(), key)
    }
}

/// A required string field.
pub open spec fn spec_req_str(ms: Seq<(Seq<char>, JVal)>, key: Seq<char>) -> Option<Seq<char>> {
    match obj_lookup(ms, key) {
        Some(JVal::Str(s)) => Some(s),
        _ => None,
    }
}

/// An optional string field: absent and `null` both mean "none".
pub open spec fn spec_opt_str(ms: Seq<(Seq<char>, JVal)>, key: Seq<char>) -> Option<
    Option<Seq<char>>,
> {
    match obj_lookup(ms, key) {
        None => Some(None),
        Some(JVal::Null) => Some(None),
        Some(JVal::Str(s)) => Some(Some(s)),
        _ => None,
    }
}

/// A required small count field: an integer 0 through 255.
pub open spec fn spec_u8_field(ms: Seq<(Seq<char>, JVal)>, key: Seq<char>) -> Option<u8> {
    match obj_lookup(ms, key) {
        Some(JVal::Num(n)) => if 0 <= n <= 255 {
            Some(n as u8)
        } else {
            None
        },
        _ => None,
    }
}

/// One trailhead record: `id`, `name`, `quota`, `capacity` required,
/// `region`, `alert`, `notes` optional, anything else ignored.
pub open spec fn spec_trailhead(v: JVal) -> Option<TrailheadV> {
    match v {
        JVal::Obj(ms) => {
            if spec_req_str(ms, "id"@) is Some && spec_req_str(ms, "name"@) is Some && spec_opt_str(
                ms,
                "region"@,
            ) is Some && spec_u8_field(ms, "quota"@) is Some && spec_u8_field(ms, "capacity"@)
                is Some && spec_opt_str(ms, "alert"@) is Some && spec_opt_str(ms, "notes"@)
                is Some {
                Some(
                    TrailheadV {
                        id: spec_req_str(ms, "id"@)->Some_0,
                        name: spec_req_str(ms, "name"@)->Some_0,
                        region: spec_opt_str(ms, "region"@)->Some_0,
                        quota: spec_u8_field(ms, "quota"@)->Some_0,
                        capacity: spec_u8_field(ms, "capacity"@)->Some_0,
                        alert: spec_opt_str(ms, "alert"@)->Some_0,
                        notes: spec_opt_str(ms, "notes"@)->Some_0,
                    },
                )
            } else {
                None
            }
        },
        _ => None,
    }
}

/// Does a member named `key` stand at position `i` or later?
pub open spec fn has_key_from(ms: Seq<(Seq<char>, JVal)>, i: int, key: Seq<char>) -> bool {
    exists|k: int| i <= k < ms.len() && ms[k].0 == key
}

/// The directory entries from position `i` on: every record must decode,
/// and of entries sharing an identifier only the last is kept.
pub open spec fn spec_entries(ms: Seq<(Seq<char>, JVal)>, i: int) -> Option<
    Seq<(Seq<char>, TrailheadV)>,
>
    decreases ms.len() - i,
{
    if i >= ms.len() || i < 0 {
        Some(Seq::empty())
    } else {
        match spec_trailhead(ms[i].1) {
            None => None,
            Some(th) => match spec_entries(ms, i + 1) {
                None => None,
                Some(rest) => if has_key_from(ms, i + 1, ms[i].0) {
                    Some(rest)
                } else {
                    Some(seq![(ms[i].0, th)] + rest)
                },
            },
        }
    }
}

/// The trailheads payload: a timestamp and the directory mapping.
pub open spec fn spec_dir_payload(v: JVal) -> Option<DirectoryV> {
    match v {
        JVal::Obj(ms) => match (spec_req_str(ms, "timestamp"@), obj_lookup(ms, "values"@)) {
            (Some(ts), Some(JVal::Obj(vs))) => match spec_entries(vs, 0) {
                Some(es) => Some(DirectoryV { timestamp: ts, entries: es }),
                None => None,
            },
            _ => None,
        },
        _ => None,
    }
}

/// The response envelope: a status marker and the payload.
pub open spec fn spec_status(v: JVal) -> Option<StatusV> {
    match v {
        JVal::Obj(ms) => match (spec_req_str(ms, "type"@), spec_req_str(ms, "value"@)) {
            (Some(k), Some(val)) => Some(StatusV { kind: k, value: val }),
            _ => None,
        },
        _ => None,
    }
}

pub open spec fn spec_envelope(v: JVal) -> Option<(StatusV, JVal)> {
    match v {
        JVal::Obj(ms) => match (obj_lookup(ms, "status"@), obj_lookup(ms, "response"@)) {
            (Some(st), Some(resp)) => match spec_status(st) {
                Some(sv) => Some((sv, resp)),
                None => None,
            },
            _ => None,
        },
        _ => None,
    }
}

/// One report-row value: a date-shaped string, or a count 0 through 255.
pub open spec fn spec_report_value(v: JVal) -> Option<ReportValue> {
    match v {
        JVal::Str(s) => match spec_parse_date(s) {
            Some(d) => Some(ReportValue::Date(d)),
            None => None,
        },
        JVal::Num(n) => if 0 <= n <= 255 {
            Some(ReportValue::Int(n as u8))
        } else {
            None
        },
        _ => None,
    }
}

/// One raw report row from position `i` on: every value must decode, and
/// of members sharing a key only the last is kept.
pub open spec fn spec_row(ms: Seq<(Seq<char>, JVal)>, i: int) -> Option<
    Seq<(Seq<char>, ReportValue)>,
>
    decreases ms.len() - i,
{
    if i >= ms.len() || i < 0 {
        Some(Seq::empty())
    } else {
        match spec_report_value(ms[i].1) {
            None => None,
            Some(rv) => match spec_row(ms, i + 1) {
                None => None,
                Some(rest) => if has_key_from(ms, i + 1, ms[i].0) {
                    Some(rest)
                } else {
                    Some(seq![(ms[i].0, rv)] + rest)
                },
            },
        }
    }
}

/// The report rows from position `i` on: each must be an object row.
pub open spec fn spec_rows(vs: Seq<JVal>, i: int) -> Option<Seq<Seq<(Seq<char>, ReportValue)>>>
    decreases vs.len() - i,
{
    if i >= vs.len() || i < 0 {
        Some(Seq::empty())
    } else {
        match vs[i] {
            JVal::Obj(ms) => match (spec_row(ms, 0), spec_rows(vs, i + 1)) {
                (Some(row), Some(rest)) => Some(seq![row] + rest),
                _ => None,
            },
            _ => None,
        }
    }
}

/// The report payload: an identifier and the raw rows.
pub open spec fn spec_report_payload(v: JVal) -> Option<Seq<Seq<(Seq<char>, ReportValue)>>> {
    match v {
        JVal::Obj(ms) => match (spec_req_str(ms, "id"@), obj_lookup(ms, "values"@)) {
            (Some(_id), Some(JVal::Arr(vs))) => spec_rows(vs, 0),
            _ => None,
        },
        _ => None,
    }
}

/// The value of the last row member named `key`.
pub open spec fn row_lookup(row: Seq<(Seq<char>, ReportValue)>, key: Seq<char>) -> Option<
    ReportValue,
>
    decreases row.len(),
{
    if row.len() == 0 {
        None
    } else if row.last().0 == key {
        Some(row.last().1)
    } else {
        row_lookup(row.drop_last(), key)
    }
}

/// The occupancy entries of a row from position `i` on: every member but
/// `date` whose value is a count; date-valued members are dropped.
pub open spec fn spec_occupancies(row: Seq<(Seq<char>, ReportValue)>, i: int) -> Seq<
    (Seq<char>, u8),
>
    decreases row.len() - i,
{
    if i >= row.len() || i < 0 {
        Seq::empty()
    } else {
        let rest = spec_occupancies(row, i + 1);
        if row[i].0 == "date"@ {
            rest
        } else {
            match row[i].1 {
                ReportValue::Int(o) => seq![(row[i].0, o)] + rest,
                ReportValue::Date(_) => rest,
            }
        }
    }
}

/// What normalizing one raw row yields: nothing for a dateless row, the
/// structured row when `date` holds a date, and a schema violation when
/// `date` holds a count.
pub open spec fn spec_normalize(row: Seq<(Seq<char>, ReportValue)>) -> Result<
    Option<ReportDateV>,
    DecodeErrorV,
> {
    match row_lookup(row, "date"@) {
        None => Ok(None),
        Some(ReportValue::Int(_)) => Err(DecodeErrorV::SchemaViolation),
        Some(ReportValue::Date(d)) => Ok(
            Some(ReportDateV { date: d, values: spec_occupancies(row, 0) }),
        ),
    }
}

/// The normalized rows of a report, in order, dateless rows dropped.
pub open spec fn spec_normalized(rows: Seq<Seq<(Seq<char>, ReportValue)>>, i: int) -> Result<
    Seq<ReportDateV>,
    DecodeErrorV,
>
    decreases rows.len() - i,
{
    if i >= rows.len() || i < 0 {
        Ok(Seq::empty())
    } else {
        match spec_normalize(rows[i]) {
            Err(e) => Err(e),
            Ok(None) => spec_normalized(rows, i + 1),
            Ok(Some(rd)) => match spec_normalized(rows, i + 1) {
                Err(e) => Err(e),
                Ok(rest) => Ok(seq![rd] + rest),
            },
        }
    }
}

/// What decoding a directory response from text yields.
pub open spec fn spec_decode_directory(s: Seq<char>) -> Result<DirectoryV, DecodeErrorV> {
    match crate::json::spec_parse_json(s) {
        None => Err(DecodeErrorV::Malformed),
        Some(v) => match spec_envelope(v) {
            None => Err(DecodeErrorV::Malformed),
            Some((st, resp)) => if st.kind != "message"@ {
                Err(DecodeErrorV::UnexpectedResponse(st))
            } else {
                match spec_dir_payload(resp) {
                    Some(d) => Ok(d),
                    None => Err(DecodeErrorV::Malformed),
                }
            },
        },
    }
}

/// The models of a raw report row's members.
pub open spec fn row_view(q: Seq<(String, ReportValue)>) -> Seq<(Seq<char>, ReportValue)> {
    Seq::new(
        q.len(),
        |i: int|
            if 0 <= i < q.len() {
                (q[i].0@, q[i].1)
            } else {
                (Seq::<char>::empty(), ReportValue::Int(0))
            },
    )
}

/// The models of a sequence of raw rows.
pub open spec fn rows_view(q: Seq<Vec<(String, ReportValue)>>) -> Seq<
    Seq<(Seq<char>, ReportValue)>,
> {
    Seq::new(
        q.len(),
        |i: int|
            if 0 <= i < q.len() {
                row_view(q[i]@)
            } else {
                Seq::empty()
            },
    )
}

/// The models of a sequence of normalized rows.
pub open spec fn rds_view(q: Seq<ReportDate>) -> Seq<ReportDateV> {
    Seq::new(
        q.len(),
        |i: int|
            if 0 <= i < q.len() {
                q[i]@
            } else {
                arbitrary()
            },
    )
}

/// What decoding a report response from text yields.
pub open spec fn spec_decode_report(s: Seq<char>) -> Result<Seq<ReportDateV>, DecodeErrorV> {
    match crate::json::spec_parse_json(s) {
        None => Err(DecodeErrorV::Malformed),
        Some(v) => match spec_envelope(v) {
            None => Err(DecodeErrorV::Malformed),
            Some((st, resp)) => if st.kind != "message"@ {
                Err(DecodeErrorV::UnexpectedResponse(st))
            } else {
                match spec_report_payload(resp) {
                    Some(rows) => spec_normalized(rows, 0),
                    None => Err(DecodeErrorV::Malformed),
                }
            },
        },
    }
}


// ------------------------------------------------------------------
// Executable decoding, proved equal to the schema above.
// ------------------------------------------------------------------
/// The value of the last member named `key`, scanning from the end.
fn obj_get<'a>(ms: &'a Vec<(String, JsonValue)>, key: &str) -> (r: Option<&'a JsonValue>)
    ensures
        match r {
            Some(v) => obj_lookup(members_jv(ms@), key@) == Some(v@),
            None => obj_lookup(members_jv(ms@), key@) is None,
        },
{
    let ghost full = members_jv(ms@);
    let mut cur = ms.len();
    proof {
        assert(full.take(ms@.len() as int) =~= full);
    }
    while cur > 0
        invariant
            cur <= ms@.len(),
            full == members_jv(ms@),
            obj_lookup(full, key@) == obj_lookup(full.take(cur as int), key@),
        decreases cur,
    {
        let p = &ms[cur - 1];
        proof {
            assert(full.take(cur as int).last() == full[cur - 1]);
            assert(full[cur - 1] == (ms@[cur - 1].0@, ms@[cur - 1].1.jv()));
            assert(full.take(cur as int).drop_last() =~= full.take(cur - 1));
        }
        if str_eq(p.0.as_str(), key) {
            return Some(&p.1);
        }
        cur = cur - 1;
    }
    proof {
        assert(full.take(0).len() == 0);
    }
    None
}

/// A required string field.
fn get_req_str(ms: &Vec<(String, JsonValue)>, key: &str) -> (r: Option<String>)
    ensures
        match r {
            Some(s) => spec_req_str(members_jv(ms@), key@) == Some(s@),
            None => spec_req_str(members_jv(ms@), key@) is None,
        },
{
    match obj_get(ms, key) {
        Some(JsonValue::Str(s)) => Some(s.clone()),
        _ => None,
    }
}

/// An optional string field.
fn get_opt_str(ms: &Vec<(String, JsonValue)>, key: &str) -> (r: Option<Option<String>>)
    ensures
        match r {
            Some(o) => spec_opt_str(members_jv(ms@), key@) == Some(opt_view(o)),
            None => spec_opt_str(members_jv(ms@), key@) is None,
        },
{
    match obj_get(ms, key) {
        None => Some(None),
        Some(JsonValue::Null) => Some(None),
        Some(JsonValue::Str(s)) => Some(Some(s.clone())),
        _ => None,
    }
}

/// A required count field, 0 through 255.
fn get_u8_field(ms: &Vec<(String, JsonValue)>, key: &str) -> (r: Option<u8>)
    ensures
        match r {
            Some(o) => spec_u8_field(members_jv(ms@), key@) == Some(o),
            None => spec_u8_field(members_jv(ms@), key@) is None,
        },
{
    match obj_get(ms, key) {
        Some(JsonValue::Num(n)) => {
            if 0 <= *n && *n <= 255 {
                Some(*n as u8)
            } else {
                None
            }
        },
        _ => None,
    }
}

/// One trailhead record.
fn decode_trailhead(v: &JsonValue) -> (r: Option<Trailhead>)
    ensures
        match r {
            Some(th) => spec_trailhead(v@) == Some(th@),
            None => spec_trailhead(v@) is None,
        },
{
    match v {
        JsonValue::Obj(ms) => {
            let id = match get_req_str(ms, "id") {
                Some(s) => s,
                None => {
                    return None;
                },
            };
            let name = match get_req_str(ms, "name") {
                Some(s) => s,
                None => {
                    return None;
                },
            };
            let region = match get_opt_str(ms, "region") {
                Some(o) => o,
                None => {
                    return None;
                },
            };
            let quota = match get_u8_field(ms, "quota") {
                Some(q) => q,
                None => {
                    return None;
                },
            };
            let capacity = match get_u8_field(ms, "capacity") {
                Some(c) => c,
                None => {
                    return None;
                },
            };
            let alert = match get_opt_str(ms, "alert") {
                Some(o) => o,
                None => {
                    return None;
                },
            };
            let notes = match get_opt_str(ms, "notes") {
                Some(o) => o,
                None => {
                    return None;
                },
            };
            Some(Trailhead { id, name, region, quota, capacity, alert, notes })
        },
        _ => None,
    }
}

/// Does a member named `key` stand at position `i` or later?
fn has_key_exec(ms: &Vec<(String, JsonValue)>, i: usize, key: &str) -> (r: bool)
    ensures
        r == has_key_from(members_jv(ms@), i as int, key@),
{
    let mut k = i;
    while k < ms.len()
        invariant
            i <= k,
            forall|m: int| i <= m < k && m < ms@.len() ==> members_jv(ms@)[m].0 != key@,
        decreases ms@.len() - k,
    {
        let p = &ms[k];
        if str_eq(p.0.as_str(), key) {
            proof {
                assert(members_jv(ms@)[k as int].0 == key@);
            }
            return true;
        }
        proof {
            assert(members_jv(ms@)[k as int].0 == ms@[k as int].0@);
        }
        k = k + 1;
    }
    proof {
        assert forall|m: int| i <= m < ms@.len() implies members_jv(ms@)[m].0 != key@ by {}
    }
    false
}

proof fn lemma_entries_view_cons(p: (String, Trailhead), q: Seq<(String, Trailhead)>)
    ensures
        entries_view(q.insert(0, p)) == seq![(p.0@, p.1@)] + entries_view(q),
{
    let a = entries_view(q.insert(0, p));
    let b = seq![(p.0@, p.1@)] + entries_view(q);
    assert forall|m: int| 0 <= m < a.len() implies a[m] == b[m] by {
        if m == 0 {
        } else {
            assert(q.insert(0, p)[m] == q[m - 1]);
        }
    }
    assert(a =~= b);
}

/// The directory entries from position `i` on.
fn decode_entries(ms: &Vec<(String, JsonValue)>, i: usize) -> (r: Option<
    Vec<(String, Trailhead)>,
>)
    requires
        i <= ms@.len(),
    ensures
        match r {
            Some(out) => spec_entries(members_jv(ms@), i as int) == Some(entries_view(out@)),
            None => spec_entries(members_jv(ms@), i as int) is None,
        },
    decreases ms@.len() - i,
{
    if i >= ms.len() {
        let out: Vec<(String, Trailhead)> = Vec::new();
        proof {
            assert(entries_view(out@) =~= Seq::<(Seq<char>, TrailheadV)>::empty());
        }
        return Some(out);
    }
    let p = &ms[i];
    proof {
        assert(members_jv(ms@)[i as int] == (ms@[i as int].0@, ms@[i as int].1.jv()));
    }
    let th = match decode_trailhead(&p.1) {
        Some(th) => th,
        None => {
            return None;
        },
    };
    let rest = match decode_entries(ms, i + 1) {
        Some(rest) => rest,
        None => {
            return None;
        },
    };
    if has_key_exec(ms, i + 1, p.0.as_str()) {
        Some(rest)
    } else {
        let mut out = rest;
        let ghost out0 = out@;
        let entry = (p.0.clone(), th);
        let ghost ev = (entry.0@, entry.1@);
        out.insert(0, entry);
        proof {
            lemma_entries_view_cons((ms@[i as int].0, th), out0);
            assert(out@ =~= out0.insert(0, (ms@[i as int].0, th)));
        }
        Some(out)
    }
}

/// The trailheads payload.
fn decode_dir_payload(v: &JsonValue) -> (r: Option<Trailheads>)
    ensures
        match r {
            Some(d) => spec_dir_payload(v@) == Some(d@),
            None => spec_dir_payload(v@) is None,
        },
{
    match v {
        JsonValue::Obj(ms) => {
            let ts = match get_req_str(ms, "timestamp") {
                Some(s) => s,
                None => {
                    return None;
                },
            };
            match obj_get(ms, "values") {
                Some(JsonValue::Obj(vs)) => match decode_entries(vs, 0) {
                    Some(es) => Some(Trailheads { timestamp: ts, values: es }),
                    None => None,
                },
                _ => None,
            }
        },
        _ => None,
    }
}

/// The status marker of an envelope.
fn decode_status(v: &JsonValue) -> (r: Option<Status>)
    ensures
        match r {
            Some(st) => spec_status(v@) == Some(st@),
            None => spec_status(v@) is None,
        },
{
    match v {
        JsonValue::Obj(ms) => {
            let kind = match get_req_str(ms, "type") {
                Some(s) => s,
                None => {
                    return None;
                },
            };
            let value = match get_req_str(ms, "value") {
                Some(s) => s,
                None => {
                    return None;
                },
            };
            Some(Status { kind, value })
        },
        _ => None,
    }
}

/// The response envelope.
fn decode_envelope<'a>(v: &'a JsonValue) -> (r: Option<(Status, &'a JsonValue)>)
    ensures
        match r {
            Some(p) => spec_envelope(v@) == Some((p.0@, p.1@)),
            None => spec_envelope(v@) is None,
        },
{
    match v {
        JsonValue::Obj(ms) => {
            let st = match obj_get(ms, "status") {
                Some(stv) => match decode_status(stv) {
                    Some(st) => st,
                    None => {
                        return None;
                    },
                },
                None => {
                    return None;
                },
            };
            match obj_get(ms, "response") {
                Some(resp) => Some((st, resp)),
                None => None,
            }
        },
        _ => None,
    }
}

/// One report-row value.
fn decode_report_value(v: &JsonValue) -> (r: Option<ReportValue>)
    ensures
        match r {
            Some(rv) => spec_report_value(v@) == Some(rv),
            None => spec_report_value(v@) is None,
        },
{
    match v {
        JsonValue::Str(s) => match crate::date::parse_date(s.as_str()) {
            Some(d) => Some(ReportValue::Date(d)),
            None => None,
        },
        JsonValue::Num(n) => {
            if 0 <= *n && *n <= 255 {
                Some(ReportValue::Int(*n as u8))
            } else {
                None
            }
        },
        _ => None,
    }
}

proof fn lemma_row_view_cons(p: (String, ReportValue), q: Seq<(String, ReportValue)>)
    ensures
        row_view(q.insert(0, p)) == seq![(p.0@, p.1)] + row_view(q),
{
    let a = row_view(q.insert(0, p));
    let b = seq![(p.0@, p.1)] + row_view(q);
    assert forall|m: int| 0 <= m < a.len() implies a[m] == b[m] by {
        if m == 0 {
        } else {
            assert(q.insert(0, p)[m] == q[m - 1]);
        }
    }
    assert(a =~= b);
}

/// One raw report row from position `i` on.
fn decode_row(ms: &Vec<(String, JsonValue)>, i: usize) -> (r: Option<Vec<(String, ReportValue)>>)
    requires
        i <= ms@.len(),
    ensures
        match r {
            Some(out) => spec_row(members_jv(ms@), i as int) == Some(row_view(out@)),
            None => spec_row(members_jv(ms@), i as int) is None,
        },
    decreases ms@.len() - i,
{
    if i >= ms.len() {
        let out: Vec<(String, ReportValue)> = Vec::new();
        proof {
            assert(row_view(out@) =~= Seq::<(Seq<char>, ReportValue)>::empty());
        }
        return Some(out);
    }
    let p = &ms[i];
    proof {
        assert(members_jv(ms@)[i as int] == (ms@[i as int].0@, ms@[i as int].1.jv()));
    }
    let rv = match decode_report_value(&p.1) {
        Some(rv) => rv,
        None => {
            return None;
        },
    };
    let rest = match decode_row(ms, i + 1) {
        Some(rest) => rest,
        None => {
            return None;
        },
    };
    if has_key_exec(ms, i + 1, p.0.as_str()) {
        Some(rest)
    } else {
        let mut out = rest;
        let ghost out0 = out@;
        out.insert(0, (p.0.clone(), rv));
        proof {
            lemma_row_view_cons((ms@[i as int].0, rv), out0);
            assert(out@ =~= out0.insert(0, (ms@[i as int].0, rv)));
        }
        Some(out)
    }
}

proof fn lemma_rows_view_cons(p: Vec<(String, ReportValue)>, q: Seq<Vec<(String, ReportValue)>>)
    ensures
        rows_view(q.insert(0, p)) == seq![row_view(p@)] + rows_view(q),
{
    let a = rows_view(q.insert(0, p));
    let b = seq![row_view(p@)] + rows_view(q);
    assert forall|m: int| 0 <= m < a.len() implies a[m] == b[m] by {
        if m == 0 {
        } else {
            assert(q.insert(0, p)[m] == q[m - 1]);
        }
    }
    assert(a =~= b);
}

/// The raw report rows from position `i` on.
fn decode_rows(vs: &Vec<JsonValue>, i: usize) -> (r: Option<Vec<Vec<(String, ReportValue)>>>)
    requires
        i <= vs@.len(),
    ensures
        match r {
            Some(out) => spec_rows(seq_jv(vs@), i as int) == Some(rows_view(out@)),
            None => spec_rows(seq_jv(vs@), i as int) is None,
        },
    decreases vs@.len() - i,
{
    if i >= vs.len() {
        let out: Vec<Vec<(String, ReportValue)>> = Vec::new();
        proof {
            assert(rows_view(out@) =~= Seq::<Seq<(Seq<char>, ReportValue)>>::empty());
        }
        return Some(out);
    }
    proof {
        assert(seq_jv(vs@)[i as int] == vs@[i as int].jv());
    }
    match &vs[i] {
        JsonValue::Obj(ms) => {
            let row = match decode_row(ms, 0) {
                Some(row) => row,
                None => {
                    return None;
                },
            };
            let rest = match decode_rows(vs, i + 1) {
                Some(rest) => rest,
                None => {
                    return None;
                },
            };
            let ghost rest0 = rest@;
            let ghost rowv = row_view(row@);
            let mut out = rest;
            out.insert(0, row);
            proof {
                let ghost rowx = out@[0];
                lemma_rows_view_cons(rowx, rest0);
                assert(out@ =~= rest0.insert(0, rowx));
                assert(row_view(rowx@) == rowv);
            }
            Some(out)
        },
        _ => None,
    }
}

/// The report payload: raw rows, not yet normalized.
fn decode_report_payload(v: &JsonValue) -> (r: Option<Vec<Vec<(String, ReportValue)>>>)
    ensures
        match r {
            Some(out) => spec_report_payload(v@) == Some(rows_view(out@)),
            None => spec_report_payload(v@) is None,
        },
{
    match v {
        JsonValue::Obj(ms) => {
            let _id = match get_req_str(ms, "id") {
                Some(s) => s,
                None => {
                    return None;
                },
            };
            match obj_get(ms, "values") {
                Some(JsonValue::Arr(vs)) => decode_rows(vs, 0),
                _ => None,
            }
        },
        _ => None,
    }
}

/// The value of the last row member named `key`, scanning from the end.
fn row_get(row: &Vec<(String, ReportValue)>, key: &str) -> (r: Option<ReportValue>)
    ensures
        match r {
            Some(v) => row_lookup(row_view(row@), key@) == Some(v),
            None => row_lookup(row_view(row@), key@) is None,
        },
{
    let ghost full = row_view(row@);
    let mut cur = row.len();
    proof {
        assert(full.take(row@.len() as int) =~= full);
    }
    while cur > 0
        invariant
            cur <= row@.len(),
            full == row_view(row@),
            row_lookup(full, key@) == row_lookup(full.take(cur as int), key@),
        decreases cur,
    {
        let p = &row[cur - 1];
        proof {
            assert(full.take(cur as int).last() == full[cur - 1]);
            assert(full[cur - 1] == (row@[cur - 1].0@, row@[cur - 1].1));
            assert(full.take(cur as int).drop_last() =~= full.take(cur - 1));
        }
        if str_eq(p.0.as_str(), key) {
            return Some(p.1);
        }
        cur = cur - 1;
    }
    proof {
        assert(full.take(0).len() == 0);
    }
    None
}

proof fn lemma_occ_view_cons(p: (String, u8), q: Seq<(String, u8)>)
    ensures
        occ_view(q.insert(0, p)) == seq![(p.0@, p.1)] + occ_view(q),
{
    let a = occ_view(q.insert(0, p));
    let b = seq![(p.0@, p.1)] + occ_view(q);
    assert forall|m: int| 0 <= m < a.len() implies a[m] == b[m] by {
        if m == 0 {
        } else {
            assert(q.insert(0, p)[m] == q[m - 1]);
        }
    }
    assert(a =~= b);
}

/// The occupancy entries of a row from position `i` on.
fn occupancies(row: &Vec<(String, ReportValue)>, i: usize) -> (r: Vec<(String, u8)>)
    requires
        i <= row@.len(),
    ensures
        occ_view(r@) == spec_occupancies(row_view(row@), i as int),
    decreases row@.len() - i,
{
    if i >= row.len() {
        let out: Vec<(String, u8)> = Vec::new();
        proof {
            assert(occ_view(out@) =~= Seq::<(Seq<char>, u8)>::empty());
        }
        return out;
    }
    let p = &row[i];
    proof {
        assert(row_view(row@)[i as int] == (row@[i as int].0@, row@[i as int].1));
    }
    let rest = occupancies(row, i + 1);
    if str_eq(p.0.as_str(), "date") {
        rest
    } else {
        match p.1 {
            ReportValue::Int(o) => {
                let mut out = rest;
                let ghost out0 = out@;
                out.insert(0, (p.0.clone(), o));
                proof {
                    lemma_occ_view_cons((row@[i as int].0, o), out0);
                    assert(out@ =~= out0.insert(0, (row@[i as int].0, o)));
                }
                out
            },
            ReportValue::Date(_) => rest,
        }
    }
}

/// Normalizes one raw report row: drops it when no date is present, fails
/// when the date field holds a count, and otherwise keeps each occupancy
/// entry, dropping date-valued members other than `date` itself.
pub fn convert_report_values(row: &Vec<(String, ReportValue)>) -> (r: Result<
    Option<ReportDate>,
    DecodeError,
>)
    ensures
        match r {
            Ok(Some(rd)) => spec_normalize(row_view(row@)) == Ok::<
                Option<ReportDateV>,
                DecodeErrorV,
            >(Some(rd@)),
            Ok(None) => spec_normalize(row_view(row@)) == Ok::<
                Option<ReportDateV>,
                DecodeErrorV,
            >(None),
            Err(e) => spec_normalize(row_view(row@)) == Err::<
                Option<ReportDateV>,
                DecodeErrorV,
            >(e@),
        },
{
    match row_get(row, "date") {
        None => Ok(None),
        Some(ReportValue::Int(_)) => Err(DecodeError::SchemaViolation),
        Some(ReportValue::Date(d)) => {
            let vals = occupancies(row, 0);
            Ok(Some(ReportDate { date: d, values: vals }))
        },
    }
}

proof fn lemma_rds_view_cons(p: ReportDate, q: Seq<ReportDate>)
    ensures
        rds_view(q.insert(0, p)) == seq![p@] + rds_view(q),
{
    let a = rds_view(q.insert(0, p));
    let b = seq![p@] + rds_view(q);
    assert forall|m: int| 0 <= m < a.len() implies a[m] == b[m] by {
        if m == 0 {
        } else {
            assert(q.insert(0, p)[m] == q[m - 1]);
        }
    }
    assert(a =~= b);
}

/// Normalizes the rows from position `i` on.
fn normalize_rows(rows: &Vec<Vec<(String, ReportValue)>>, i: usize) -> (r: Result<
    Vec<ReportDate>,
    DecodeError,
>)
    requires
        i <= rows@.len(),
    ensures
        match r {
            Ok(out) => spec_normalized(rows_view(rows@), i as int) == Ok::<
                Seq<ReportDateV>,
                DecodeErrorV,
            >(rds_view(out@)),
            Err(e) => spec_normalized(rows_view(rows@), i as int) == Err::<
                Seq<ReportDateV>,
                DecodeErrorV,
            >(e@),
        },
    decreases rows@.len() - i,
{
    if i >= rows.len() {
        let out: Vec<ReportDate> = Vec::new();
        proof {
            assert(rds_view(out@) =~= Seq::<ReportDateV>::empty());
        }
        return Ok(out);
    }
    proof {
        assert(rows_view(rows@)[i as int] == row_view(rows@[i as int]@));
    }
    match convert_report_values(&rows[i]) {
        Err(e) => Err(e),
        Ok(None) => normalize_rows(rows, i + 1),
        Ok(Some(rd)) => match normalize_rows(rows, i + 1) {
            Err(e) => Err(e),
            Ok(rest) => {
                let ghost rest0 = rest@;
                let mut out = rest;
                out.insert(0, rd);
                proof {
                    let ghost rdx = out@[0];
                    lemma_rds_view_cons(rdx, rest0);
                    assert(out@ =~= rest0.insert(0, rdx));
                }
                Ok(out)
            },
        },
    }
}

/// Decodes a trailhead-directory response: parses the text, checks the
/// status marker, and decodes the payload. `Ok` exactly when the text is a
/// well-formed envelope whose marker is `message` and whose payload is a
/// well-formed directory.
pub fn decode_directory(text: &str) -> (r: Result<Trailheads, DecodeError>)
    ensures
        match r {
            Ok(d) => spec_decode_directory(text@) == Ok::<DirectoryV, DecodeErrorV>(d@),
            Err(e) => spec_decode_directory(text@) == Err::<DirectoryV, DecodeErrorV>(e@),
        },
{
    let parsed = match crate::json::parse_json(text) {
        Some(v) => v,
        None => {
            return Err(DecodeError::Malformed);
        },
    };
    let (st, resp) = match decode_envelope(&parsed) {
        Some(p) => p,
        None => {
            return Err(DecodeError::Malformed);
        },
    };
    if !str_eq(st.kind.as_str(), "message") {
        return Err(DecodeError::UnexpectedResponse(st));
    }
    match decode_dir_payload(resp) {
        Some(d) => Ok(d),
        None => Err(DecodeError::Malformed),
    }
}

/// Decodes a per-region report response: parses the text, checks the
/// status marker, decodes the raw rows and normalizes them. `Ok` exactly
/// when the text is a well-formed envelope whose marker is `message`,
/// whose payload is a well-formed report, and no row's `date` field holds
/// a count.
pub fn decode_report(text: &str) -> (r: Result<Vec<ReportDate>, DecodeError>)
    ensures
        match r {
            Ok(rds) => spec_decode_report(text@) == Ok::<Seq<ReportDateV>, DecodeErrorV>(
                rds_view(rds@),
            ),
            Err(e) => spec_decode_report(text@) == Err::<Seq<ReportDateV>, DecodeErrorV>(e@),
        },
{
    let parsed = match crate::json::parse_json(text) {
        Some(v) => v,
        None => {
            return Err(DecodeError::Malformed);
        },
    };
    let (st, resp) = match decode_envelope(&parsed) {
        Some(p) => p,
        None => {
            return Err(DecodeError::Malformed);
        },
    };
    if !str_eq(st.kind.as_str(), "message") {
        return Err(DecodeError::UnexpectedResponse(st));
    }
    let rows = match decode_report_payload(resp) {
        Some(rows) => rows,
        None => {
            return Err(DecodeError::Malformed);
        },
    };
    normalize_rows(&rows, 0)
}

impl DecodeError {
    /// A short description for diagnostics.
    pub fn describe(&self) -> (r: String)
        ensures
            self is Malformed ==> r@ == "malformed response payload"@,
            self is SchemaViolation ==> r@ == "report date field holds a count"@,
            self matches DecodeError::UnexpectedResponse(st) ==> r@ == "unexpected response: "@
                + st.kind@ + " "@ + st.value@,
    {
        match self {
            DecodeError::Malformed => String::from_str("malformed response payload"),
            DecodeError::SchemaViolation => String::from_str("report date field holds a count"),
            DecodeError::UnexpectedResponse(st) => {
                let mut s = String::from_str("unexpected response: ");
                s.append(st.kind.as_str());
                s.append(" ");
                s.append(st.value.as_str());
                s
            },
        }
    }
}

/// The entries a decode keeps have keys drawn from the members at `i` on,
/// and no key twice.
proof fn lemma_entries_keys(ms: Seq<(Seq<char>, JVal)>, i: int, es: Seq<(Seq<char>, TrailheadV)>)
    requires
        spec_entries(ms, i) == Some(es),
    ensures
        forall|p: int|
            0 <= p < es.len() ==> exists|m: int|
                i <= m < ms.len() && (#[trigger] ms[m]).0 == (#[trigger] es[p]).0,
        forall|p: int, q: int|
            0 <= p < q < es.len() ==> (#[trigger] es[p]).0 != (#[trigger] es[q]).0,
    decreases ms.len() - i,
{
    if i >= ms.len() || i < 0 {
    } else {
        let rest = spec_entries(ms, i + 1)->Some_0;
        lemma_entries_keys(ms, i + 1, rest);
        if has_key_from(ms, i + 1, ms[i].0) {
            assert(es == rest);
            assert forall|p: int|
                0 <= p < es.len() implies exists|m: int|
                    i <= m < ms.len() && (#[trigger] ms[m]).0 == (#[trigger] es[p]).0 by {
                let m0 = choose|m: int| i + 1 <= m < ms.len() && (#[trigger] ms[m]).0 == es[p].0;
                assert(i <= m0 < ms.len() && ms[m0].0 == es[p].0);
            }
        } else {
            assert(es == seq![(ms[i].0, spec_trailhead(ms[i].1)->Some_0)] + rest);
            assert forall|p: int|
                0 <= p < es.len() implies exists|m: int|
                    i <= m < ms.len() && (#[trigger] ms[m]).0 == (#[trigger] es[p]).0 by {
                if p == 0 {
                    assert(ms[i].0 == es[0].0);
                } else {
                    assert(es[p] == rest[p - 1]);
                    let m0 = choose|m: int|
                        i + 1 <= m < ms.len() && (#[trigger] ms[m]).0 == rest[p - 1].0;
                    assert(i <= m0 < ms.len() && ms[m0].0 == es[p].0);
                }
            }
            assert forall|p: int, q: int|
                0 <= p < q < es.len() implies (#[trigger] es[p]).0 != (#[trigger] es[q]).0 by {
                if p == 0 {
                    assert(es[q] == rest[q - 1]);
                    let m0 = choose|m: int|
                        i + 1 <= m < ms.len() && (#[trigger] ms[m]).0 == rest[q - 1].0;
                    assert(!(i + 1 <= m0 < ms.len() && ms[m0].0 == ms[i].0));
                } else {
                    assert(es[p] == rest[p - 1]);
                    assert(es[q] == rest[q - 1]);
                }
            }
        }
    }
}

/// The directory invariant: identifiers are unique within a decoded
/// snapshot.
pub proof fn lemma_directory_ids_unique(s: Seq<char>, d: DirectoryV)
    requires
        spec_decode_directory(s) == Ok::<DirectoryV, DecodeErrorV>(d),
    ensures
        forall|p: int, q: int|
            0 <= p < q < d.entries.len() ==> (#[trigger] d.entries[p]).0 != (
            #[trigger] d.entries[q]).0,
{
    let v = crate::json::spec_parse_json(s)->Some_0;
    let resp = spec_envelope(v)->Some_0.1;
    match resp {
        JVal::Obj(ms) => {
            let vs = obj_lookup(ms, "values"@)->Some_0;
            match vs {
                JVal::Obj(inner) => {
                    lemma_entries_keys(inner, 0, d.entries);
                },
                _ => {
                    assert(false);
                },
            }
        },
        _ => {
            assert(false);
        },
    }
}

/// Does this raw row map each key at most once?
pub open spec fn row_keys_unique(row: Seq<(Seq<char>, ReportValue)>) -> bool {
    forall|p: int, q: int|
        0 <= p < q < row.len() ==> (#[trigger] row[p]).0 != (#[trigger] row[q]).0
}

/// Does this occupancy list map each identifier at most once?
pub open spec fn occ_keys_unique(vals: Seq<(Seq<char>, u8)>) -> bool {
    forall|p: int, q: int|
        0 <= p < q < vals.len() ==> (#[trigger] vals[p]).0 != (#[trigger] vals[q]).0
}

/// The members a row decode keeps have keys drawn from the members at `i`
/// on, and no key twice.
proof fn lemma_row_keys(ms: Seq<(Seq<char>, JVal)>, i: int, row: Seq<(Seq<char>, ReportValue)>)
    requires
        spec_row(ms, i) == Some(row),
    ensures
        forall|p: int|
            0 <= p < row.len() ==> exists|m: int|
                i <= m < ms.len() && (#[trigger] ms[m]).0 == (#[trigger] row[p]).0,
        row_keys_unique(row),
    decreases ms.len() - i,
{
    if i >= ms.len() || i < 0 {
    } else {
        let rest = spec_row(ms, i + 1)->Some_0;
        lemma_row_keys(ms, i + 1, rest);
        if has_key_from(ms, i + 1, ms[i].0) {
            assert(row == rest);
            assert forall|p: int|
                0 <= p < row.len() implies exists|m: int|
                    i <= m < ms.len() && (#[trigger] ms[m]).0 == (#[trigger] row[p]).0 by {
                let m0 = choose|m: int| i + 1 <= m < ms.len() && (#[trigger] ms[m]).0 == row[p].0;
                assert(i <= m0 < ms.len() && ms[m0].0 == row[p].0);
            }
        } else {
            assert(row == seq![(ms[i].0, spec_report_value(ms[i].1)->Some_0)] + rest);
            assert forall|p: int|
                0 <= p < row.len() implies exists|m: int|
                    i <= m < ms.len() && (#[trigger] ms[m]).0 == (#[trigger] row[p]).0 by {
                if p == 0 {
                    assert(ms[i].0 == row[0].0);
                } else {
                    assert(row[p] == rest[p - 1]);
                    let m0 = choose|m: int|
                        i + 1 <= m < ms.len() && (#[trigger] ms[m]).0 == rest[p - 1].0;
                    assert(i <= m0 < ms.len() && ms[m0].0 == row[p].0);
                }
            }
            assert forall|p: int, q: int|
                0 <= p < q < row.len() implies (#[trigger] row[p]).0 != (#[trigger] row[q]).0 by {
                if p == 0 {
                    assert(row[q] == rest[q - 1]);
                    let m0 = choose|m: int|
                        i + 1 <= m < ms.len() && (#[trigger] ms[m]).0 == rest[q - 1].0;
                    assert(!(i + 1 <= m0 < ms.len() && ms[m0].0 == ms[i].0));
                } else {
                    assert(row[p] == rest[p - 1]);
                    assert(row[q] == rest[q - 1]);
                }
            }
        }
    }
}

/// The row invariant: a decoded raw report row maps each identifier at
/// most once.
pub proof fn lemma_row_ids_unique(
    ms: Seq<(Seq<char>, JVal)>,
    i: int,
    row: Seq<(Seq<char>, ReportValue)>,
)
    requires
        spec_row(ms, i) == Some(row),
    ensures
        row_keys_unique(row),
{
    lemma_row_keys(ms, i, row);
}

/// The occupancy entries keep keys drawn from the row at `i` on, and with
/// unique row keys no key twice.
proof fn lemma_occupancies_keys(row: Seq<(Seq<char>, ReportValue)>, i: int)
    requires
        row_keys_unique(row),
    ensures
        forall|p: int|
            0 <= p < spec_occupancies(row, i).len() ==> exists|m: int|
                i <= m < row.len() && (#[trigger] row[m]).0 == (#[trigger] spec_occupancies(
                    row,
                    i,
                )[p]).0,
        occ_keys_unique(spec_occupancies(row, i)),
    decreases row.len() - i,
{
    if i >= row.len() || i < 0 {
    } else {
        lemma_occupancies_keys(row, i + 1);
        let rest = spec_occupancies(row, i + 1);
        let out = spec_occupancies(row, i);
        let kept = row[i].0 != "date"@ && row[i].1 is Int;
        if kept {
            assert(out == seq![(row[i].0, row[i].1->Int_0)] + rest);
            assert forall|p: int|
                0 <= p < out.len() implies exists|m: int|
                    i <= m < row.len() && (#[trigger] row[m]).0 == (#[trigger] out[p]).0 by {
                if p == 0 {
                    assert(row[i].0 == out[0].0);
                } else {
                    assert(out[p] == rest[p - 1]);
                    let m0 = choose|m: int|
                        i + 1 <= m < row.len() && (#[trigger] row[m]).0 == rest[p - 1].0;
                    assert(i <= m0 < row.len() && row[m0].0 == out[p].0);
                }
            }
            assert forall|p: int, q: int|
                0 <= p < q < out.len() implies (#[trigger] out[p]).0 != (#[trigger] out[q]).0 by {
                if p == 0 {
                    assert(out[q] == rest[q - 1]);
                    let m0 = choose|m: int|
                        i + 1 <= m < row.len() && (#[trigger] row[m]).0 == rest[q - 1].0;
                    assert(row[i].0 != row[m0].0);
                } else {
                    assert(out[p] == rest[p - 1]);
                    assert(out[q] == rest[q - 1]);
                }
            }
        } else {
            assert(out == rest);
            assert forall|p: int|
                0 <= p < out.len() implies exists|m: int|
                    i <= m < row.len() && (#[trigger] row[m]).0 == (#[trigger] out[p]).0 by {
                let m0 = choose|m: int|
                    i + 1 <= m < row.len() && (#[trigger] row[m]).0 == rest[p].0;
                assert(i <= m0 < row.len() && row[m0].0 == out[p].0);
            }
        }
    }
}

/// Every raw row a report decode yields maps each key at most once.
proof fn lemma_rows_all_unique(
    vs: Seq<JVal>,
    i: int,
    rows: Seq<Seq<(Seq<char>, ReportValue)>>,
)
    requires
        spec_rows(vs, i) == Some(rows),
    ensures
        forall|j: int| 0 <= j < rows.len() ==> row_keys_unique(#[trigger] rows[j]),
    decreases vs.len() - i,
{
    if i >= vs.len() || i < 0 {
    } else {
        match vs[i] {
            JVal::Obj(ms) => {
                let row = spec_row(ms, 0)->Some_0;
                let rest = spec_rows(vs, i + 1)->Some_0;
                lemma_row_keys(ms, 0, row);
                lemma_rows_all_unique(vs, i + 1, rest);
                assert(rows == seq![row] + rest);
                assert forall|j: int|
                    0 <= j < rows.len() implies row_keys_unique(#[trigger] rows[j]) by {
                    if j == 0 {
                        assert(rows[0] == row);
                    } else {
                        assert(rows[j] == rest[j - 1]);
                    }
                }
            },
            _ => {
                assert(false);
            },
        }
    }
}

/// Every normalized row keeps the uniqueness of its raw row's keys.
proof fn lemma_normalized_unique(
    rows: Seq<Seq<(Seq<char>, ReportValue)>>,
    i: int,
    out: Seq<ReportDateV>,
)
    requires
        spec_normalized(rows, i) == Ok::<Seq<ReportDateV>, DecodeErrorV>(out),
        forall|j: int| 0 <= j < rows.len() ==> row_keys_unique(#[trigger] rows[j]),
    ensures
        forall|k: int| 0 <= k < out.len() ==> occ_keys_unique((#[trigger] out[k]).values),
    decreases rows.len() - i,
{
    if i >= rows.len() || i < 0 {
    } else {
        match spec_normalize(rows[i]) {
            Err(_) => {
                assert(false);
            },
            Ok(None) => {
                lemma_normalized_unique(rows, i + 1, out);
            },
            Ok(Some(rd)) => {
                let rest = spec_normalized(rows, i + 1)->Ok_0;
                lemma_normalized_unique(rows, i + 1, rest);
                lemma_occupancies_keys(rows[i], 0);
                assert(rd.values == spec_occupancies(rows[i], 0));
                assert(out == seq![rd] + rest);
                assert forall|k: int|
                    0 <= k < out.len() implies occ_keys_unique((#[trigger] out[k]).values) by {
                    if k == 0 {
                        assert(out[0] == rd);
                    } else {
                        assert(out[k] == rest[k - 1]);
                    }
                }
            },
        }
    }
}

/// The report-row invariant: every normalized row of a decoded report
/// maps each trailhead identifier at most once.
pub proof fn lemma_report_ids_unique(s: Seq<char>, rds: Seq<ReportDateV>)
    requires
        spec_decode_report(s) == Ok::<Seq<ReportDateV>, DecodeErrorV>(rds),
    ensures
        forall|r: int| 0 <= r < rds.len() ==> occ_keys_unique((#[trigger] rds[r]).values),
{
    let v = crate::json::spec_parse_json(s)->Some_0;
    let resp = spec_envelope(v)->Some_0.1;
    match resp {
        JVal::Obj(ms) => {
            let vs = obj_lookup(ms, "values"@)->Some_0;
            match vs {
                JVal::Arr(arr) => {
                    let rows = spec_rows(arr, 0)->Some_0;
                    lemma_rows_all_unique(arr, 0, rows);
                    lemma_normalized_unique(rows, 0, rds);
                },
                _ => {
                    assert(false);
                },
            }
        },
        _ => {
            assert(false);
        },
    }
}

} // verus!
