//! A JSON model and parser.
//!
//! The upstream service speaks JSON, and the payload grammar is part of this
//! library's own logic, so the text is parsed here, against a mathematical
//! parser written as spec functions over character sequences. Numbers with a
//! fraction or exponent, and integers outside the `i64` range, are carried as
//! an opaque `NumOther` node: the payloads decoded downstream never hold one,
//! but a document containing one can still be decoded around it.
use vstd::prelude::*;

use crate::date::{digit, digit_exec, digit_value, is_digit};

verus! {

/// Mathematical model of a JSON document: numbers are unbounded integers,
/// strings are character sequences, objects are member lists in source order.
#[verifier::ext_equal]
pub enum JVal {
    Null,
    Bool(bool),
    Num(int),
    NumOther,
    Str(Seq<char>),
    Arr(Seq<JVal>),
    Obj(Seq<(Seq<char>, JVal)>),
}

/// A parsed JSON value. Integer numbers that fit in `i64` are kept exactly;
/// any other syntactically valid number is carried as `NumOther`.
pub enum JsonValue {
    Null,
    Bool(bool),
    Num(i64),
    NumOther,
    Str(String),
    Arr(Vec<JsonValue>),
    Obj(Vec<(String, JsonValue)>),
}

/// The models of a sequence of nodes.
pub open spec fn seq_jv(q: Seq<JsonValue>) -> Seq<JVal>
    decreases q,
{
    Seq::new(
        q.len(),
        |i: int|
            if 0 <= i < q.len() {
                q[i].jv()
            } else {
                JVal::Null
            },
    )
}

/// The models of a sequence of object members.
pub open spec fn members_jv(q: Seq<(String, JsonValue)>) -> Seq<(Seq<char>, JVal)>
    decreases q,
{
    Seq::new(
        q.len(),
        |i: int|
            if 0 <= i < q.len() {
                (q[i].0@, q[i].1.jv())
            } else {
                (Seq::<char>::empty(), JVal::Null)
            },
    )
}

impl JsonValue {
    /// The mathematical value this node denotes.
    pub open spec fn jv(self) -> JVal
        decreases self,
    {
        match self {
            JsonValue::Null => JVal::Null,
            JsonValue::Bool(b) => JVal::Bool(b),
            JsonValue::Num(n) => JVal::Num(n as int),
            JsonValue::NumOther => JVal::NumOther,
            JsonValue::Str(s) => JVal::Str(s@),
            JsonValue::Arr(items) => JVal::Arr(seq_jv(items@)),
            JsonValue::Obj(members) => JVal::Obj(members_jv(members@)),
        }
    }
}

impl View for JsonValue {
    type V = JVal;

    open spec fn view(&self) -> JVal {
        self.jv()
    }
}

// ------------------------------------------------------------------
// The grammar, as a deterministic mathematical parser. Each function
// takes the position of the first character of its production and
// returns the denoted value with the position just past it.
// ------------------------------------------------------------------
pub open spec fn is_ws(c: char) -> bool {
    c == ' ' || c == '\n' || c == '\r' || c == '\t'
}

/// The first position at or after `i` holding no whitespace.
pub open spec fn spec_skip_ws(s: Seq<char>, i: int) -> int
    decreases s.len() - i,
{
    if 0 <= i && i < s.len() && is_ws(s[i]) {
        spec_skip_ws(s, i + 1)
    } else {
        i
    }
}

/// The first position at or after `i` holding no decimal digit.
pub open spec fn spec_digits_end(s: Seq<char>, i: int) -> int
    decreases s.len() - i,
{
    if 0 <= i && i < s.len() && is_digit(s[i]) {
        spec_digits_end(s, i + 1)
    } else {
        i
    }
}

/// The number denoted by the digits at positions `i` up to `j`.
pub open spec fn spec_digits_val(s: Seq<char>, i: int, j: int) -> int
    decreases j - i,
{
    if i < j {
        spec_digits_val(s, i, j - 1) * 10 + digit(s[j - 1])
    } else {
        0
    }
}

pub open spec fn spec_escape(e: char) -> Option<char> {
    if e == '"' {
        Some('"')
    } else if e == '\\' {
        Some('\\')
    } else if e == '/' {
        Some('/')
    } else if e == 'b' {
        Some('\u{0008}')
    } else if e == 'f' {
        Some('\u{000C}')
    } else if e == 'n' {
        Some('\n')
    } else if e == 'r' {
        Some('\r')
    } else if e == 't' {
        Some('\t')
    } else {
        None
    }
}

pub open spec fn is_hex(c: char) -> bool {
    is_digit(c) || 97 <= c as int <= 102 || 65 <= c as int <= 70
}

pub open spec fn hex_val(c: char) -> int {
    if is_digit(c) {
        digit(c)
    } else if 97 <= c as int {
        c as int - 87
    } else {
        c as int - 55
    }
}

pub open spec fn hex4_ok(s: Seq<char>, i: int) -> bool {
    &&& i + 4 <= s.len()
    &&& is_hex(s[i])
    &&& is_hex(s[i + 1])
    &&& is_hex(s[i + 2])
    &&& is_hex(s[i + 3])
}

pub open spec fn hex4(s: Seq<char>, i: int) -> int {
    4096 * hex_val(s[i]) + 256 * hex_val(s[i + 1]) + 16 * hex_val(s[i + 2]) + hex_val(s[i + 3])
}

/// String contents from just after the opening quote to just past the
/// closing quote: JSON escapes, surrogate pairs combined, unescaped
/// control characters refused.
pub open spec fn spec_string_rest(s: Seq<char>, i: int) -> Option<(Seq<char>, int)>
    decreases s.len() - i,
{
    if !(0 <= i && i < s.len()) {
        None
    } else {
        let c = s[i];
        if c == '"' {
            Some((Seq::empty(), i + 1))
        } else if c == '\\' {
            if i + 2 <= s.len() {
                let e = s[i + 1];
                if e == 'u' {
                    if hex4_ok(s, i + 2) {
                        let cp = hex4(s, i + 2);
                        if 0xD800 <= cp < 0xDC00 {
                            if i + 12 <= s.len() && s[i + 6] == '\\' && s[i + 7] == 'u' && hex4_ok(
                                s,
                                i + 8,
                            ) {
                                let lo = hex4(s, i + 8);
                                if 0xDC00 <= lo < 0xE000 {
                                    let u = 0x10000 + (cp - 0xD800) * 0x400 + (lo - 0xDC00);
                                    match spec_string_rest(s, i + 12) {
                                        Some((t, j)) => Some((seq![(u as u32) as char] + t, j)),
                                        None => None,
                                    }
                                } else {
                                    None
                                }
                            } else {
                                None
                            }
                        } else if 0xDC00 <= cp < 0xE000 {
                            None
                        } else {
                            match spec_string_rest(s, i + 6) {
                                Some((t, j)) => Some((seq![(cp as u32) as char] + t, j)),
                                None => None,
                            }
                        }
                    } else {
                        None
                    }
                } else {
                    match spec_escape(e) {
                        Some(c2) => match spec_string_rest(s, i + 2) {
                            Some((t, j)) => Some((seq![c2] + t, j)),
                            None => None,
                        },
                        None => None,
                    }
                }
            } else {
                None
            }
        } else if (c as int) < 32 {
            None
        } else {
            match spec_string_rest(s, i + 1) {
                Some((t, j)) => Some((seq![c] + t, j)),
                None => None,
            }
        }
    }
}

/// One or more digits starting at `i`, then an optional fraction and
/// exponent; `None` when the syntax is broken, otherwise the end position
/// and whether a fraction or exponent was present.
pub open spec fn spec_number_tail(s: Seq<char>, i: int) -> Option<(bool, int)> {
    if 0 <= i && i < s.len() && is_digit(s[i]) {
        let j = spec_digits_end(s, i);
        if s[i] == '0' && j != i + 1 {
            None
        } else {
            let frac_end = if j < s.len() && s[j] == '.' {
                let j2 = spec_digits_end(s, j + 1);
                if j + 1 < s.len() && is_digit(s[j + 1]) {
                    Some(j2)
                } else {
                    None
                }
            } else {
                Some(j)
            };
            match frac_end {
                None => None,
                Some(k) => {
                    if k < s.len() && (s[k] == 'e' || s[k] == 'E') {
                        let k1 = if k + 1 < s.len() && (s[k + 1] == '+' || s[k + 1] == '-') {
                            k + 2
                        } else {
                            k + 1
                        };
                        if k1 < s.len() && is_digit(s[k1]) {
                            Some((true, spec_digits_end(s, k1)))
                        } else {
                            None
                        }
                    } else {
                        Some((k != j, k))
                    }
                },
            }
        }
    } else {
        None
    }
}

/// A JSON number starting at `i` (a digit or a leading minus).
pub open spec fn spec_number(s: Seq<char>, i: int) -> Option<(JVal, int)> {
    let start = if 0 <= i && i < s.len() && s[i] == '-' {
        i + 1
    } else {
        i
    };
    match spec_number_tail(s, start) {
        None => None,
        Some((other, end)) => {
            if other {
                Some((JVal::NumOther, end))
            } else {
                let mag = spec_digits_val(s, start, spec_digits_end(s, start));
                let v = if start == i {
                    mag
                } else {
                    -mag
                };
                if -0x8000_0000_0000_0000 <= v <= 0x7FFF_FFFF_FFFF_FFFF {
                    Some((JVal::Num(v), end))
                } else {
                    Some((JVal::NumOther, end))
                }
            }
        },
    }
}

/// A JSON value whose first character stands at `i`.
pub open spec fn spec_value(s: Seq<char>, i: int) -> Option<(JVal, int)>
    decreases s.len() - i, 0int,
{
    if !(0 <= i && i < s.len()) {
        None
    } else {
        let c = s[i];
        if c == 'n' {
            if i + 4 <= s.len() && s[i + 1] == 'u' && s[i + 2] == 'l' && s[i + 3] == 'l' {
                Some((JVal::Null, i + 4))
            } else {
                None
            }
        } else if c == 't' {
            if i + 4 <= s.len() && s[i + 1] == 'r' && s[i + 2] == 'u' && s[i + 3] == 'e' {
                Some((JVal::Bool(true), i + 4))
            } else {
                None
            }
        } else if c == 'f' {
            if i + 5 <= s.len() && s[i + 1] == 'a' && s[i + 2] == 'l' && s[i + 3] == 's' && s[i + 4]
                == 'e' {
                Some((JVal::Bool(false), i + 5))
            } else {
                None
            }
        } else if c == '"' {
            match spec_string_rest(s, i + 1) {
                Some((t, j)) => Some((JVal::Str(t), j)),
                None => None,
            }
        } else if c == '-' || is_digit(c) {
            spec_number(s, i)
        } else if c == '[' {
            let k = spec_skip_ws(s, i + 1);
            if k < s.len() && s[k] == ']' {
                Some((JVal::Arr(Seq::empty()), k + 1))
            } else if i < k && k <= s.len() {
                match spec_elements(s, k) {
                    Some((vs, j)) => Some((JVal::Arr(vs), j)),
                    None => None,
                }
            } else {
                None
            }
        } else if c == '{' {
            let k = spec_skip_ws(s, i + 1);
            if k < s.len() && s[k] == '}' {
                Some((JVal::Obj(Seq::empty()), k + 1))
            } else if i < k && k <= s.len() {
                match spec_members(s, k) {
                    Some((ms, j)) => Some((JVal::Obj(ms), j)),
                    None => None,
                }
            } else {
                None
            }
        } else {
            None
        }
    }
}

/// One or more comma-separated array elements starting at `i`, up to and
/// including the closing bracket.
pub open spec fn spec_elements(s: Seq<char>, i: int) -> Option<(Seq<JVal>, int)>
    decreases s.len() - i, 1int,
{
    if !(0 <= i && i <= s.len()) {
        None
    } else {
        match spec_value(s, i) {
        None => None,
        Some((v, j)) => {
            let k = spec_skip_ws(s, j);
            if k < s.len() && s[k] == ']' {
                Some((seq![v], k + 1))
            } else if k < s.len() && s[k] == ',' {
                let k2 = spec_skip_ws(s, k + 1);
                if i < k2 && k2 <= s.len() {
                    match spec_elements(s, k2) {
                        Some((vs, j2)) => Some((seq![v] + vs, j2)),
                        None => None,
                    }
                } else {
                    None
                }
            } else {
                None
            }
        },
        }
    }
}

/// One or more `"key": value` members starting at `i`, up to and including
/// the closing brace.
pub open spec fn spec_members(s: Seq<char>, i: int) -> Option<(Seq<(Seq<char>, JVal)>, int)>
    decreases s.len() - i, 1int,
{
    if !(0 <= i && i < s.len() && s[i] == '"') {
        None
    } else {
        match spec_string_rest(s, i + 1) {
            None => None,
            Some((key, j)) => {
                let k = spec_skip_ws(s, j);
                if k < s.len() && s[k] == ':' {
                    let k2 = spec_skip_ws(s, k + 1);
                    if i <= k2 && k2 <= s.len() {
                        match spec_value(s, k2) {
                            None => None,
                            Some((v, j2)) => {
                                let k3 = spec_skip_ws(s, j2);
                                if k3 < s.len() && s[k3] == '}' {
                                    Some((seq![(key, v)], k3 + 1))
                                } else if k3 < s.len() && s[k3] == ',' {
                                    let k4 = spec_skip_ws(s, k3 + 1);
                                    if i < k4 && k4 <= s.len() {
                                        match spec_members(s, k4) {
                                            Some((ms, j3)) => Some((seq![(key, v)] + ms, j3)),
                                            None => None,
                                        }
                                    } else {
                                        None
                                    }
                                } else {
                                    None
                                }
                            },
                        }
                    } else {
                        None
                    }
                } else {
                    None
                }
            },
        }
    }
}

/// A whole document: one value with nothing but whitespace around it.
pub open spec fn spec_parse_json(s: Seq<char>) -> Option<JVal> {
    match spec_value(s, spec_skip_ws(s, 0)) {
        None => None,
        Some((v, j)) => {
            if spec_skip_ws(s, j) == s.len() {
                Some(v)
            } else {
                None
            }
        },
    }
}

// ------------------------------------------------------------------
// The executable parser, proved equal to the mathematical one.
// ------------------------------------------------------------------
/// Relies on `char::from_u32`: `Some` exactly for Unicode scalar values,
/// returning the character with that value.
pub assume_specification[ char::from_u32 ](i: u32) -> (r: Option<char>)
    ensures
        r matches Some(c) ==> c as u32 == i,
        (r is Some) <==> (i < 0xD800 || (0xDFFF < i && i <= 0x10FFFF)),
;

/// Relies on `String::push`: appends one character.
#[verifier::external_body]
fn push_char(s: &mut String, c: char)
    ensures
        final(s)@ == old(s)@.push(c),
{
    s.push(c);
}

fn string_of_chars(v: &Vec<char>) -> (r: String)
    ensures
        r@ == v@,
{
    let mut out = String::new();
    let mut k: usize = 0;
    while k < v.len()
        invariant
            k <= v@.len(),
            out@ == v@.subrange(0, k as int),
        decreases v@.len() - k,
    {
        push_char(&mut out, v[k]);
        k = k + 1;
        proof {
            assert(out@ =~= v@.subrange(0, k as int));
        }
    }
    proof {
        assert(out@ =~= v@);
    }
    out
}

fn chars_of(s: &str) -> (r: Vec<char>)
    ensures
        r@ == s@,
{
    let n = s.unicode_len();
    let mut out: Vec<char> = Vec::new();
    let mut k: usize = 0;
    while k < n
        invariant
            n == s@.len(),
            k <= n,
            out@ == s@.subrange(0, k as int),
        decreases n - k,
    {
        let c = s.get_char(k);
        out.push(c);
        k = k + 1;
        proof {
            assert(out@ =~= s@.subrange(0, k as int));
        }
    }
    proof {
        assert(out@ =~= s@);
    }
    out
}

fn ws_exec(c: char) -> (r: bool)
    ensures
        r == is_ws(c),
{
    c == ' ' || c == '\n' || c == '\r' || c == '\t'
}

fn skip_ws(s: &Vec<char>, i: usize) -> (r: usize)
    requires
        i <= s@.len(),
    ensures
        r == spec_skip_ws(s@, i as int),
        i <= r <= s@.len(),
        r < s@.len() ==> !is_ws(s@[r as int]),
    decreases s@.len() - i,
{
    let mut cur = i;
    while cur < s.len() && ws_exec(s[cur])
        invariant
            i <= cur <= s@.len(),
            spec_skip_ws(s@, i as int) == spec_skip_ws(s@, cur as int),
        decreases s@.len() - cur,
    {
        cur = cur + 1;
    }
    cur
}

fn digits_end(s: &Vec<char>, i: usize) -> (r: usize)
    requires
        i <= s@.len(),
    ensures
        r == spec_digits_end(s@, i as int),
        i <= r <= s@.len(),
        forall|m: int| i <= m < r ==> is_digit(s@[m]),
        r < s@.len() ==> !is_digit(s@[r as int]),
    decreases s@.len() - i,
{
    let mut cur = i;
    while cur < s.len() && digit_exec(s[cur])
        invariant
            i <= cur <= s@.len(),
            spec_digits_end(s@, i as int) == spec_digits_end(s@, cur as int),
            forall|m: int| i <= m < cur ==> is_digit(s@[m]),
        decreases s@.len() - cur,
    {
        cur = cur + 1;
    }
    cur
}

fn hex_exec(c: char) -> (r: bool)
    ensures
        r == is_hex(c),
{
    let u = c as u32;
    (48 <= u && u <= 57) || (97 <= u && u <= 102) || (65 <= u && u <= 70)
}

fn hex_val_exec(c: char) -> (r: u32)
    requires
        is_hex(c),
    ensures
        r == hex_val(c),
        r <= 15,
{
    let u = c as u32;
    if u <= 57 {
        u - 48
    } else if u >= 97 {
        u - 87
    } else {
        u - 55
    }
}

/// Reads the four hex digits at `i`.
fn hex4_exec(s: &Vec<char>, i: usize) -> (r: Option<u32>)
    requires
        i <= s@.len(),
    ensures
        match r {
            Some(u) => hex4_ok(s@, i as int) && u == hex4(s@, i as int) && u <= 0xFFFF,
            None => !hex4_ok(s@, i as int),
        },
{
    if s.len() - i >= 4 && hex_exec(s[i]) && hex_exec(s[i + 1]) && hex_exec(s[i + 2]) && hex_exec(
        s[i + 3],
    ) {
        Some(
            4096 * hex_val_exec(s[i]) + 256 * hex_val_exec(s[i + 1]) + 16 * hex_val_exec(s[i + 2])
                + hex_val_exec(s[i + 3]),
        )
    } else {
        None
    }
}

fn escape_exec(e: char) -> (r: Option<char>)
    ensures
        r == spec_escape(e),
{
    if e == '"' {
        Some('"')
    } else if e == '\\' {
        Some('\\')
    } else if e == '/' {
        Some('/')
    } else if e == 'b' {
        Some('\u{0008}')
    } else if e == 'f' {
        Some('\u{000C}')
    } else if e == 'n' {
        Some('\n')
    } else if e == 'r' {
        Some('\r')
    } else if e == 't' {
        Some('\t')
    } else {
        None
    }
}

/// String contents from just after the opening quote.
fn parse_string_chars(s: &Vec<char>, i: usize) -> (r: Option<(Vec<char>, usize)>)
    requires
        i <= s@.len(),
    ensures
        match r {
            Some(p) => {
                &&& spec_string_rest(s@, i as int) == Some((p.0@, p.1 as int))
                &&& i < p.1 <= s@.len()
            },
            None => spec_string_rest(s@, i as int) is None,
        },
    decreases s@.len() - i,
{
    if i >= s.len() {
        return None;
    }
    let c = s[i];
    if c == '"' {
        return Some((Vec::new(), i + 1));
    }
    if c == '\\' {
        if s.len() - i < 2 {
            return None;
        }
        let e = s[i + 1];
        if e == 'u' {
            let cp = match hex4_exec(s, i + 2) {
                Some(u) => u,
                None => {
                    return None;
                },
            };
            if 0xD800 <= cp && cp < 0xDC00 {
                if !(s.len() - i >= 12 && s[i + 6] == '\\' && s[i + 7] == 'u') {
                    return None;
                }
                let lo = match hex4_exec(s, i + 8) {
                    Some(u) => u,
                    None => {
                        return None;
                    },
                };
                if !(0xDC00 <= lo && lo < 0xE000) {
                    return None;
                }
                let u: u32 = 0x10000 + (cp - 0xD800) * 0x400 + (lo - 0xDC00);
                let c2 = match char::from_u32(u) {
                    Some(c2) => c2,
                    None => {
                        proof {
                            assert(false);
                        }
                        ' '
                    },
                };
                proof {
                    vstd::utf8::char_u32_cast(c2, u);
                    assert(u as int == 0x10000 + (hex4(s@, i as int + 2) - 0xD800) * 0x400 + (
                    hex4(s@, i as int + 8) - 0xDC00));
                    assert(((0x10000 + (hex4(s@, i as int + 2) - 0xD800) * 0x400 + (hex4(
                        s@,
                        i as int + 8,
                    ) - 0xDC00)) as u32) as char == c2);
                }
                match parse_string_chars(s, i + 12) {
                    Some((mut t, j)) => {
                        let ghost t0 = t@;
                        t.insert(0, c2);
                        proof {
                            assert(t@ =~= seq![c2] + t0);
                        }
                        Some((t, j))
                    },
                    None => None,
                }
            } else if 0xDC00 <= cp && cp < 0xE000 {
                None
            } else {
                let c2 = match char::from_u32(cp) {
                    Some(c2) => c2,
                    None => {
                        proof {
                            assert(false);
                        }
                        ' '
                    },
                };
                proof {
                    vstd::utf8::char_u32_cast(c2, cp);
                    assert(((hex4(s@, i as int + 2) as u32) as char) == c2);
                }
                match parse_string_chars(s, i + 6) {
                    Some((mut t, j)) => {
                        let ghost t0 = t@;
                        t.insert(0, c2);
                        proof {
                            assert(t@ =~= seq![c2] + t0);
                        }
                        Some((t, j))
                    },
                    None => None,
                }
            }
        } else {
            let c2 = match escape_exec(e) {
                Some(c2) => c2,
                None => {
                    return None;
                },
            };
            match parse_string_chars(s, i + 2) {
                Some((mut t, j)) => {
                    let ghost t0 = t@;
                    t.insert(0, c2);
                    proof {
                        assert(t@ =~= seq![c2] + t0);
                    }
                    Some((t, j))
                },
                None => None,
            }
        }
    } else if ' ' > c {
        // unescaped control characters are refused
        None
    } else {
        match parse_string_chars(s, i + 1) {
            Some((mut t, j)) => {
                let ghost t0 = t@;
                t.insert(0, c);
                proof {
                    assert(t@ =~= seq![c] + t0);
                }
                Some((t, j))
            },
            None => None,
        }
    }
}

/// A JSON number starting at `i`.
fn parse_number(s: &Vec<char>, i: usize) -> (r: Option<(JsonValue, usize)>)
    requires
        i < s@.len(),
    ensures
        match r {
            Some(p) => {
                &&& spec_number(s@, i as int) == Some((p.0@, p.1 as int))
                &&& i < p.1 <= s@.len()
            },
            None => spec_number(s@, i as int) is None,
        },
{
    let n = s.len();
    let neg = s[i] == '-';
    let start = if neg {
        i + 1
    } else {
        i
    };
    if !(start < s.len() && digit_exec(s[start])) {
        return None;
    }
    let j = digits_end(s, start);
    proof {
        assert(j > start);
    }
    if s[start] == '0' && j != start + 1 {
        return None;
    }
    let mut other = false;
    let mut end = j;
    if j < s.len() && s[j] == '.' {
        if j + 1 < s.len() && digit_exec(s[j + 1]) {
            end = digits_end(s, j + 1);
            other = true;
        } else {
            return None;
        }
    }
    if end < s.len() && (s[end] == 'e' || s[end] == 'E') {
        let k1 = if end + 1 < s.len() && (s[end + 1] == '+' || s[end + 1] == '-') {
            end + 2
        } else {
            end + 1
        };
        if k1 < s.len() && digit_exec(s[k1]) {
            end = digits_end(s, k1);
            other = true;
        } else {
            return None;
        }
    }
    if other {
        return Some((JsonValue::NumOther, end));
    }
    let mut acc: u64 = 0;
    let mut big = false;
    let mut k = start;
    while k < j
        invariant
            start <= k <= j,
            j == spec_digits_end(s@, start as int),
            j <= s@.len(),
            forall|m: int| start <= m < j ==> is_digit(s@[m]),
            !big ==> acc == spec_digits_val(s@, start as int, k as int),
            big ==> spec_digits_val(s@, start as int, k as int) > 0x8000_0000_0000_0000,
        decreases j - k,
    {
        let d = digit_value(s[k]);
        proof {
            assert(spec_digits_val(s@, start as int, k + 1) == spec_digits_val(
                s@,
                start as int,
                k as int,
            ) * 10 + digit(s@[k as int]));
        }
        if big || acc > (0xFFFF_FFFF_FFFF_FFFF - 9) / 10 {
            big = true;
        } else {
            acc = acc * 10 + d;
        }
        k = k + 1;
    }
    let ghost mag = spec_digits_val(s@, start as int, spec_digits_end(s@, start as int));
    if big {
        Some((JsonValue::NumOther, j))
    } else if !neg {
        if acc <= 0x7FFF_FFFF_FFFF_FFFF {
            Some((JsonValue::Num(acc as i64), j))
        } else {
            Some((JsonValue::NumOther, j))
        }
    } else {
        if acc < 0x8000_0000_0000_0000 {
            Some((JsonValue::Num(-(acc as i64)), j))
        } else if acc == 0x8000_0000_0000_0000 {
            Some((JsonValue::Num(i64::MIN), j))
        } else {
            Some((JsonValue::NumOther, j))
        }
    }
}

proof fn lemma_seq_jv_cons(v: JsonValue, q: Seq<JsonValue>)
    ensures
        seq_jv(q.insert(0, v)) == seq![v.jv()] + seq_jv(q),
{
    let a = seq_jv(q.insert(0, v));
    let b = seq![v.jv()] + seq_jv(q);
    assert forall|m: int| 0 <= m < a.len() implies a[m] == b[m] by {
        if m == 0 {
        } else {
            assert(q.insert(0, v)[m] == q[m - 1]);
        }
    }
    assert(a =~= b);
}

proof fn lemma_members_jv_cons(p: (String, JsonValue), q: Seq<(String, JsonValue)>)
    ensures
        members_jv(q.insert(0, p)) == seq![(p.0@, p.1.jv())] + members_jv(q),
{
    let a = members_jv(q.insert(0, p));
    let b = seq![(p.0@, p.1.jv())] + members_jv(q);
    assert forall|m: int| 0 <= m < a.len() implies a[m] == b[m] by {
        if m == 0 {
        } else {
            assert(q.insert(0, p)[m] == q[m - 1]);
        }
    }
    assert(a =~= b);
}

/// A JSON value whose first character stands at `i`.
fn parse_value(s: &Vec<char>, i: usize) -> (r: Option<(JsonValue, usize)>)
    requires
        i <= s@.len(),
    ensures
        match r {
            Some(p) => {
                &&& spec_value(s@, i as int) == Some((p.0@, p.1 as int))
                &&& i < p.1 <= s@.len()
            },
            None => spec_value(s@, i as int) is None,
        },
    decreases s@.len() - i, 0int,
{
    if i >= s.len() {
        return None;
    }
    let c = s[i];
    if c == 'n' {
        if s.len() - i >= 4 && s[i + 1] == 'u' && s[i + 2] == 'l' && s[i + 3] == 'l' {
            Some((JsonValue::Null, i + 4))
        } else {
            None
        }
    } else if c == 't' {
        if s.len() - i >= 4 && s[i + 1] == 'r' && s[i + 2] == 'u' && s[i + 3] == 'e' {
            Some((JsonValue::Bool(true), i + 4))
        } else {
            None
        }
    } else if c == 'f' {
        if s.len() - i >= 5 && s[i + 1] == 'a' && s[i + 2] == 'l' && s[i + 3] == 's' && s[i + 4]
            == 'e' {
            Some((JsonValue::Bool(false), i + 5))
        } else {
            None
        }
    } else if c == '"' {
        match parse_string_chars(s, i + 1) {
            Some((t, j)) => Some((JsonValue::Str(string_of_chars(&t)), j)),
            None => None,
        }
    } else if c == '-' || digit_exec(c) {
        parse_number(s, i)
    } else if c == '[' {
        let k = skip_ws(s, i + 1);
        if k < s.len() && s[k] == ']' {
            let out: Vec<JsonValue> = Vec::new();
            proof {
                assert(seq_jv(out@) =~= Seq::<JVal>::empty());
            }
            Some((JsonValue::Arr(out), k + 1))
        } else {
            match parse_elements(s, k) {
                Some((vs, j)) => Some((JsonValue::Arr(vs), j)),
                None => None,
            }
        }
    } else if c == '{' {
        let k = skip_ws(s, i + 1);
        if k < s.len() && s[k] == '}' {
            let out: Vec<(String, JsonValue)> = Vec::new();
            proof {
                assert(members_jv(out@) =~= Seq::<(Seq<char>, JVal)>::empty());
            }
            Some((JsonValue::Obj(out), k + 1))
        } else {
            match parse_members(s, k) {
                Some((ms, j)) => Some((JsonValue::Obj(ms), j)),
                None => None,
            }
        }
    } else {
        None
    }
}

/// One or more comma-separated array elements, through the closing bracket.
fn parse_elements(s: &Vec<char>, i: usize) -> (r: Option<(Vec<JsonValue>, usize)>)
    requires
        i <= s@.len(),
    ensures
        match r {
            Some(p) => {
                &&& spec_elements(s@, i as int) == Some((seq_jv(p.0@), p.1 as int))
                &&& i < p.1 <= s@.len()
            },
            None => spec_elements(s@, i as int) is None,
        },
    decreases s@.len() - i, 1int,
{
    match parse_value(s, i) {
        None => None,
        Some((v, j)) => {
            let k = skip_ws(s, j);
            if k < s.len() && s[k] == ']' {
                let mut out: Vec<JsonValue> = Vec::new();
                out.push(v);
                proof {
                    assert(seq_jv(out@) =~= seq![v.jv()]);
                }
                Some((out, k + 1))
            } else if k < s.len() && s[k] == ',' {
                let k2 = skip_ws(s, k + 1);
                match parse_elements(s, k2) {
                    Some((mut vs, j2)) => {
                        let ghost vs0 = vs@;
                        let ghost vjv = v.jv();
                        vs.insert(0, v);
                        proof {
                            lemma_seq_jv_cons(v, vs0);
                            assert(seq_jv(vs@) =~= seq![vjv] + seq_jv(vs0));
                        }
                        Some((vs, j2))
                    },
                    None => None,
                }
            } else {
                None
            }
        },
    }
}

/// One or more `"key": value` members, through the closing brace.
fn parse_members(s: &Vec<char>, i: usize) -> (r: Option<(Vec<(String, JsonValue)>, usize)>)
    requires
        i <= s@.len(),
    ensures
        match r {
            Some(p) => {
                &&& spec_members(s@, i as int) == Some((members_jv(p.0@), p.1 as int))
                &&& i < p.1 <= s@.len()
            },
            None => spec_members(s@, i as int) is None,
        },
    decreases s@.len() - i, 1int,
{
    if !(i < s.len() && s[i] == '"') {
        return None;
    }
    match parse_string_chars(s, i + 1) {
        None => None,
        Some((keychars, j)) => {
            let key = string_of_chars(&keychars);
            let k = skip_ws(s, j);
            if k < s.len() && s[k] == ':' {
                let k2 = skip_ws(s, k + 1);
                match parse_value(s, k2) {
                    None => None,
                    Some((v, j2)) => {
                        let k3 = skip_ws(s, j2);
                        if k3 < s.len() && s[k3] == '}' {
                            let mut out: Vec<(String, JsonValue)> = Vec::new();
                            let ghost kv = (key@, v.jv());
                            out.push((key, v));
                            proof {
                                assert(members_jv(out@) =~= seq![kv]);
                            }
                            Some((out, k3 + 1))
                        } else if k3 < s.len() && s[k3] == ',' {
                            let k4 = skip_ws(s, k3 + 1);
                            match parse_members(s, k4) {
                                Some((mut ms, j3)) => {
                                    let ghost ms0 = ms@;
                                    let ghost kv = (key@, v.jv());
                                    let m0 = (key, v);
                                    ms.insert(0, m0);
                                    proof {
                                        lemma_members_jv_cons(m0, ms0);
                                        assert(members_jv(ms@) =~= seq![kv] + members_jv(ms0));
                                    }
                                    Some((ms, j3))
                                },
                                None => None,
                            }
                        } else {
                            None
                        }
                    },
                }
            } else {
                None
            }
        },
    }
}

/// Parses a whole JSON document; `Some` exactly when the text is one valid
/// JSON value surrounded by nothing but whitespace.
pub fn parse_json(text: &str) -> (r: Option<JsonValue>)
    ensures
        match r {
            Some(v) => spec_parse_json(text@) == Some(v@),
            None => spec_parse_json(text@) is None,
        },
{
    let s = chars_of(text);
    let i = skip_ws(&s, 0);
    match parse_value(&s, i) {
        None => None,
        Some((v, j)) => {
            let k = skip_ws(&s, j);
            if k == s.len() {
                Some(v)
            } else {
                None
            }
        },
    }
}

} // verus!
