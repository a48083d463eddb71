use vstd::prelude::*;
use vstd::string::*;

use crate::config::{digits_value, is_digit, Config, FieldConfig, TableConfig};
use crate::keyed_map::RecordMap;
use crate::patch::{Patch, Payload, PatchDelta, SparseUpdate};
use crate::row::{rv, RowV};
use crate::state::TableMap;
use crate::text::{lowercase_of, push_char, push_quoted, push_str, quoted_with, text_eq, to_lower, to_upper, uppercase_of};
use crate::truncate::is_hex;

verus! {

/// The SQL type of a column, which decides how its values are written.
#[derive(Debug, Clone, PartialEq)]
pub enum SqlType {
    Text,
    Integer,
    Float,
    Boolean,
    Binary,
    /// With its date format.
    Date(String),
    /// With its time format.
    Time(String),
    /// With its date-and-time format.
    DateTime(String),
}

/// The model of a SQL type: which kind, and its format (empty when none).
pub open spec fn type_model(t: SqlType) -> (int, Seq<char>) {
    match t {
        SqlType::Text => (0, Seq::empty()),
        SqlType::Integer => (1, Seq::empty()),
        SqlType::Float => (2, Seq::empty()),
        SqlType::Boolean => (3, Seq::empty()),
        SqlType::Binary => (4, Seq::empty()),
        SqlType::Date(f) => (5, f@),
        SqlType::Time(f) => (6, f@),
        SqlType::DateTime(f) => (7, f@),
    }
}

/// The type that an upper-case type name stands for, with `format` (or the
/// kind's default format) for the date and time kinds.
pub open spec fn type_of_name(upper: Seq<char>, format: Option<Seq<char>>) -> Option<(int, Seq<char>)> {
    if upper == "TEXT"@ {
        Some((0, Seq::empty()))
    } else if upper == "INTEGER"@ {
        Some((1, Seq::empty()))
    } else if upper == "FLOAT"@ {
        Some((2, Seq::empty()))
    } else if upper == "BOOLEAN"@ {
        Some((3, Seq::empty()))
    } else if upper == "BINARY"@ {
        Some((4, Seq::empty()))
    } else if upper == "DATE"@ {
        Some((5, format.unwrap_or("%Y-%m-%d"@)))
    } else if upper == "TIME"@ {
        Some((6, format.unwrap_or("%H:%M:%S"@)))
    } else if upper == "DATETIME"@ {
        Some((7, format.unwrap_or("%Y-%m-%d %H:%M:%S"@)))
    } else {
        None
    }
}

/// The text of an optional format.
pub open spec fn opt_view(format: Option<&str>) -> Option<Seq<char>> {
    match format {
        Some(f) => Some(f@),
        None => None,
    }
}

fn format_or(format: Option<&str>, default: &str) -> (r: String)
    ensures
        r@ == match format {
            Some(f) => f@,
            None => default@,
        },
{
    match format {
        Some(f) => f.to_string(),
        None => default.to_string(),
    }
}

impl SqlType {
    /// The type named by `upper`, an upper-case type name.
    pub fn from_type_name(upper: &str, format: Option<&str>) -> (r: Result<SqlType, String>)
        ensures
            match r {
                Ok(t) => type_of_name(upper@, opt_view(format)) == Some(type_model(t)),
                Err(_) => type_of_name(upper@, opt_view(format)) is None,
            },
    {
        proof {
            reveal_strlit("TEXT");
            reveal_strlit("INTEGER");
            reveal_strlit("FLOAT");
            reveal_strlit("BOOLEAN");
            reveal_strlit("BINARY");
            reveal_strlit("DATE");
            reveal_strlit("TIME");
            reveal_strlit("DATETIME");
        }
        if text_eq(upper, "TEXT") {
            Ok(SqlType::Text)
        } else if text_eq(upper, "INTEGER") {
            Ok(SqlType::Integer)
        } else if text_eq(upper, "FLOAT") {
            Ok(SqlType::Float)
        } else if text_eq(upper, "BOOLEAN") {
            Ok(SqlType::Boolean)
        } else if text_eq(upper, "BINARY") {
            Ok(SqlType::Binary)
        } else if text_eq(upper, "DATE") {
            Ok(SqlType::Date(format_or(format, "%Y-%m-%d")))
        } else if text_eq(upper, "TIME") {
            Ok(SqlType::Time(format_or(format, "%H:%M:%S")))
        } else if text_eq(upper, "DATETIME") {
            Ok(SqlType::DateTime(format_or(format, "%Y-%m-%d %H:%M:%S")))
        } else {
            let mut msg = "unknown field type '".to_string();
            push_str(&mut msg, upper);
            push_str(
                &mut msg,
                "'; valid types are: TEXT, INTEGER, FLOAT, BOOLEAN, BINARY, DATE, TIME, DATETIME",
            );
            Err(msg)
        }
    }

    /// The type named by `type_str`, in any letter case.
    pub fn from_config(type_str: &str, format: Option<&str>) -> (r: Result<SqlType, String>)
        ensures
            match r {
                Ok(t) => type_of_name(uppercase_of(type_str@), opt_view(format)) == Some(type_model(t)),
                Err(_) => type_of_name(uppercase_of(type_str@), opt_view(format)) is None,
            },
    {
        let upper = to_upper(type_str);
        SqlType::from_type_name(upper.as_str(), format)
    }
}

/// `name` as a quoted SQL identifier.
pub open spec fn quoted_ident(name: Seq<char>) -> Seq<char> {
    quoted_with(name, '"')
}

/// Double-quotes a SQL identifier, doubling the double quotes inside.
pub fn quote_ident(name: &str) -> (r: String)
    ensures
        r@ == quoted_ident(name@),
{
    let mut r = String::new();
    push_quoted(&mut r, name, '"');
    r
}


/// What `chrono::NaiveDate::parse_from_str(s, fmt)` accepts.
pub uninterp spec fn date_parses(s: Seq<char>, fmt: Seq<char>) -> bool;

/// What `chrono::NaiveTime::parse_from_str(s, fmt)` accepts.
pub uninterp spec fn time_parses(s: Seq<char>, fmt: Seq<char>) -> bool;

/// What `chrono::NaiveDateTime::parse_from_str(s, fmt)` accepts.
pub uninterp spec fn datetime_parses(s: Seq<char>, fmt: Seq<char>) -> bool;

/// Whether `chrono::DateTime::from_timestamp(secs, 0)` gives a date.
pub uninterp spec fn epoch_in_range(secs: i64) -> bool;

/// Relies on `chrono::NaiveDate::parse_from_str`.
#[verifier::external_body]
fn parses_as_date(s: &str, fmt: &str) -> (r: bool)
    ensures
        r == date_parses(s@, fmt@),
{
    chrono::NaiveDate::parse_from_str(s, fmt).is_ok()
}

/// Relies on `chrono::NaiveTime::parse_from_str`.
#[verifier::external_body]
fn parses_as_time(s: &str, fmt: &str) -> (r: bool)
    ensures
        r == time_parses(s@, fmt@),
{
    chrono::NaiveTime::parse_from_str(s, fmt).is_ok()
}

/// Relies on `chrono::NaiveDateTime::parse_from_str`.
#[verifier::external_body]
fn parses_as_datetime(s: &str, fmt: &str) -> (r: bool)
    ensures
        r == datetime_parses(s@, fmt@),
{
    chrono::NaiveDateTime::parse_from_str(s, fmt).is_ok()
}

/// Relies on `chrono::DateTime::from_timestamp`.
#[verifier::external_body]
fn epoch_is_date(secs: i64) -> (r: bool)
    ensures
        r == epoch_in_range(secs),
{
    chrono::DateTime::from_timestamp(secs, 0).is_some()
}

/// `s` without a leading sign.
pub open spec fn strip_sign(s: Seq<char>) -> Seq<char> {
    if s.len() > 0 && (s[0] == '-' || s[0] == '+') {
        s.drop_first()
    } else {
        s
    }
}

/// The value of a decimal integer with an optional sign.
pub open spec fn signed_value(s: Seq<char>) -> Option<int> {
    let negative = s.len() > 0 && s[0] == '-';
    let d = strip_sign(s);
    if d.len() > 0 && (forall|i: int| 0 <= i < d.len() ==> is_digit(#[trigger] d[i])) {
        Some(
            if negative {
                -(digits_value(d) as int)
            } else {
                digits_value(d) as int
            },
        )
    } else {
        None
    }
}

/// Whether `s` is the text of a 64-bit signed integer.
pub open spec fn is_i64_text(s: Seq<char>) -> bool {
    signed_value(s) matches Some(v) && i64::MIN <= v <= i64::MAX
}

/// Parses a 64-bit signed integer.
pub fn parse_i64(s: &str) -> (r: Option<i64>)
    ensures
        r is Some <==> is_i64_text(s@),
        r matches Some(v) ==> signed_value(s@) == Some(v as int),
{
    let n = s.unicode_len();
    let mut start: usize = 0;
    let mut negative = false;
    if n > 0 {
        let c = s.get_char(0);
        if c == '-' {
            negative = true;
            start = 1;
        } else if c == '+' {
            start = 1;
        }
    }
    let ghost d = s@.subrange(start as int, n as int);
    proof {
        if n > 0 && (s@[0] == '-' || s@[0] == '+') {
            assert(d =~= s@.drop_first());
        } else {
            assert(d =~= s@);
        }
    }
    if start >= n {
        return None;
    }
    let mut value: u64 = 0;
    let mut i: usize = start;
    while i < n
        invariant
            n == s@.len(),
            start <= i <= n,
            start <= 1,
            d == s@.subrange(start as int, n as int),
            d == strip_sign(s@),
            negative == (s@.len() > 0 && s@[0] == '-'),
            value as nat == digits_value(d.subrange(0, i - start)),
            value <= 0x8000_0000_0000_0000u64,
            forall|j: int| start <= j < i ==> is_digit(#[trigger] s@[j]),
        decreases n - i,
    {
        let c = s.get_char(i);
        if !('0' <= c && c <= '9') {
            proof {
                assert(d[i - start] == c);
                assert(!(forall|j: int| 0 <= j < d.len() ==> is_digit(#[trigger] d[j])));
            }
            return None;
        }
        let digit = (c as u32 - '0' as u32) as u64;
        proof {
            assert(d.subrange(0, i - start + 1).drop_last() =~= d.subrange(0, i - start));
            assert(d.subrange(0, i - start + 1).last() == c);
        }
        if value > 922_337_203_685_477_580u64 || (value == 922_337_203_685_477_580u64 && digit > 8) {
            proof {
                assert(digits_value(d.subrange(0, i - start + 1)) > 0x8000_0000_0000_0000) by (nonlinear_arith)
                    requires
                        digits_value(d.subrange(0, i - start + 1)) == value as nat * 10 + digit as nat,
                        value > 922_337_203_685_477_580u64 || (value == 922_337_203_685_477_580u64 && digit > 8),
                ;
                if forall|j: int| 0 <= j < d.len() ==> is_digit(#[trigger] d[j]) {
                    lemma_digits_grow(d, i - start + 1);
                }
            }
            return None;
        }
        value = value * 10 + digit;
        i += 1;
    }
    proof {
        assert(d.subrange(0, d.len() as int) =~= d);
        assert forall|j: int| 0 <= j < d.len() implies is_digit(#[trigger] d[j]) by {
            assert(d[j] == s@[start + j]);
        }
    }
    if negative {
        if value == 0x8000_0000_0000_0000u64 {
            Some(i64::MIN)
        } else {
            Some(-(value as i64))
        }
    } else {
        if value > 0x7fff_ffff_ffff_ffffu64 {
            None
        } else {
            Some(value as i64)
        }
    }
}

/// A longer string of digits is worth at least as much as its prefix.
proof fn lemma_digits_grow(d: Seq<char>, k: int)
    requires
        0 <= k <= d.len(),
        forall|j: int| 0 <= j < d.len() ==> is_digit(#[trigger] d[j]),
    ensures
        digits_value(d) >= digits_value(d.subrange(0, k)),
    decreases d.len() - k,
{
    if k < d.len() {
        lemma_digits_grow(d, k + 1);
        assert(d.subrange(0, k + 1).drop_last() =~= d.subrange(0, k));
        assert(is_digit(d[k]));
    } else {
        assert(d.subrange(0, k) =~= d);
    }
}

/// One step of the automaton that reads a decimal number with an optional
/// fraction and exponent: `None` rejects. The states are: 0 start, 1 integer
/// digits, 2 a point with no digit yet, 3 fraction, 4 after the exponent
/// mark, 5 after the exponent's sign, 6 exponent digits.
pub open spec fn number_step(state: u8, c: char) -> Option<u8> {
    let digit = is_digit(c);
    let exp = c == 'e' || c == 'E';
    let sign = c == '+' || c == '-';
    if state == 0 {
        if digit { Some(1) } else if c == '.' { Some(2) } else { None }
    } else if state == 1 {
        if digit { Some(1) } else if c == '.' { Some(3) } else if exp { Some(4) } else { None }
    } else if state == 2 {
        if digit { Some(3) } else { None }
    } else if state == 3 {
        if digit { Some(3) } else if exp { Some(4) } else { None }
    } else if state == 4 {
        if sign { Some(5) } else if digit { Some(6) } else { None }
    } else if state == 5 || state == 6 {
        if digit { Some(6) } else { None }
    } else {
        None
    }
}

/// The state after reading `s` from `state`.
pub open spec fn number_run(state: u8, s: Seq<char>) -> Option<u8>
    decreases s.len(),
{
    if s.len() == 0 {
        Some(state)
    } else {
        match number_step(state, s[0]) {
            Some(t) => number_run(t, s.drop_first()),
            None => None,
        }
    }
}

/// `s` with ASCII capitals made small.
pub open spec fn ascii_lower(s: Seq<char>) -> Seq<char> {
    s.map_values(|c: char| if 'A' <= c && c <= 'Z' { (((c as u8) + 32) as u8) as char } else { c })
}

/// Whether `s` is the text of a floating-point number as Rust reads one: an
/// optional sign, then `inf`, `infinity` or `nan` in any case, or digits with
/// an optional point and an optional exponent.
pub open spec fn is_float_text(s: Seq<char>) -> bool {
    let b = strip_sign(s);
    ||| ascii_lower(b) == "inf"@
    ||| ascii_lower(b) == "infinity"@
    ||| ascii_lower(b) == "nan"@
    ||| (number_run(0, b) matches Some(t) && (t == 1 || t == 3 || t == 6))
}

proof fn lemma_number_run_split(state: u8, s: Seq<char>, i: int)
    requires
        0 <= i < s.len(),
        number_run(state, s.subrange(0, i)) is Some,
    ensures
        number_run(state, s.subrange(0, i + 1)) == match number_step(number_run(state, s.subrange(0, i))->Some_0, s[i]) {
            Some(t) => Some(t),
            None => None::<u8>,
        },
    decreases i,
{
    let p = s.subrange(0, i);
    let q = s.subrange(0, i + 1);
    assert(q[0] == s[0]);
    if i > 0 {
        assert(p[0] == s[0]);
        assert(number_step(state, s[0]) is Some);
        let t = number_step(state, s[0])->Some_0;
        assert(p.drop_first() =~= s.drop_first().subrange(0, i - 1));
        assert(q.drop_first() =~= s.drop_first().subrange(0, i));
        assert(number_run(state, p) == number_run(t, p.drop_first()));
        assert(number_run(state, q) == number_run(t, q.drop_first()));
        lemma_number_run_split(t, s.drop_first(), i - 1);
        assert(s.drop_first()[i - 1] == s[i]);
    } else {
        assert(p =~= Seq::<char>::empty());
        assert(q.drop_first() =~= Seq::<char>::empty());
        match number_step(state, s[0]) {
            Some(t) => {
                assert(number_run(t, q.drop_first()) == Some(t));
            },
            None => {},
        }
    }
}

proof fn lemma_number_run_dead(state: u8, s: Seq<char>, i: int)
    requires
        0 <= i <= s.len(),
        number_run(state, s.subrange(0, i)) is None,
    ensures
        number_run(state, s) is None,
    decreases i,
{
    if i > 0 && s.len() > 0 {
        match number_step(state, s[0]) {
            Some(t) => {
                assert(s.subrange(0, i).drop_first() =~= s.drop_first().subrange(0, i - 1));
                lemma_number_run_dead(t, s.drop_first(), i - 1);
            },
            None => {},
        }
    }
}

fn lower_ascii_text(s: &str) -> (r: String)
    ensures
        r@ == ascii_lower(s@),
{
    let mut r = String::new();
    let n = s.unicode_len();
    let mut i: usize = 0;
    while i < n
        invariant
            n == s@.len(),
            i <= n,
            r@ == ascii_lower(s@.subrange(0, i as int)),
        decreases n - i,
    {
        let c = s.get_char(i);
        let l = if 'A' <= c && c <= 'Z' {
            ((c as u8) + 32) as char
        } else {
            c
        };
        push_char(&mut r, l);
        proof {
            assert(ascii_lower(s@.subrange(0, i + 1)) =~= ascii_lower(s@.subrange(0, i as int)).push(l));
        }
        i += 1;
    }
    proof {
        assert(s@.subrange(0, n as int) =~= s@);
    }
    r
}

/// Whether `s` reads as a floating-point number.
pub fn float_text_ok(s: &str) -> (r: bool)
    ensures
        r == is_float_text(s@),
{
    let n = s.unicode_len();
    let start: usize = if n > 0 && (s.get_char(0) == '-' || s.get_char(0) == '+') {
        1
    } else {
        0
    };
    let ghost b = strip_sign(s@);
    proof {
        if start == 1 {
            assert(b =~= s@.subrange(1, n as int));
        } else {
            assert(b =~= s@.subrange(0, n as int));
        }
    }
    let body = s.substring_char(start, n);
    let lower = lower_ascii_text(body);
    proof {
        reveal_strlit("inf");
        reveal_strlit("infinity");
        reveal_strlit("nan");
    }
    if text_eq(lower.as_str(), "inf") || text_eq(lower.as_str(), "infinity") || text_eq(lower.as_str(), "nan") {
        return true;
    }
    let m = body.unicode_len();
    let mut state: u8 = 0;
    let mut i: usize = 0;
    while i < m
        invariant
            m == body@.len(),
            body@ == b,
            b == strip_sign(s@),
            ascii_lower(b) != "inf"@,
            ascii_lower(b) != "infinity"@,
            ascii_lower(b) != "nan"@,
            i <= m,
            number_run(0, b.subrange(0, i as int)) == Some(state),
        decreases m - i,
    {
        let c = body.get_char(i);
        let digit = '0' <= c && c <= '9';
        let exp = c == 'e' || c == 'E';
        let sign = c == '+' || c == '-';
        let next: Option<u8> = if state == 0 {
            if digit { Some(1) } else if c == '.' { Some(2) } else { None }
        } else if state == 1 {
            if digit { Some(1) } else if c == '.' { Some(3) } else if exp { Some(4) } else { None }
        } else if state == 2 {
            if digit { Some(3) } else { None }
        } else if state == 3 {
            if digit { Some(3) } else if exp { Some(4) } else { None }
        } else if state == 4 {
            if sign { Some(5) } else if digit { Some(6) } else { None }
        } else if state == 5 || state == 6 {
            if digit { Some(6) } else { None }
        } else {
            None
        };
        proof {
            lemma_number_run_split(0, b, i as int);
            assert(next == number_step(state, c));
        }
        match next {
            Some(t) => {
                state = t;
            },
            None => {
                proof {
                    lemma_number_run_dead(0, b, i + 1);
                }
                return false;
            },
        }
        i += 1;
    }
    proof {
        assert(b.subrange(0, m as int) =~= b);
    }
    state == 1 || state == 3 || state == 6
}

/// The literal a boolean text stands for, given its lower-case form.
pub open spec fn bool_literal(l: Seq<char>) -> Option<Seq<char>> {
    if l == "true"@ || l == "1"@ || l == "t"@ || l == "yes"@ {
        Some("TRUE"@)
    } else if l == "false"@ || l == "0"@ || l == "f"@ || l == "no"@ {
        Some("FALSE"@)
    } else {
        None
    }
}

/// Whether `s` is an even number of hex digits.
pub open spec fn is_hex_text(s: Seq<char>) -> bool {
    s.len() % 2 == 0 && forall|i: int| 0 <= i < s.len() ==> is_hex(#[trigger] s[i])
}

/// The SQL literal that writes `s` as a value of type `t`, or `None` when
/// `s` is not a valid value of that type.
pub open spec fn literal(s: Seq<char>, t: (int, Seq<char>)) -> Option<Seq<char>> {
    let (kind, f) = t;
    if kind == 0 {
        Some(quoted_with(s, '\''))
    } else if kind == 1 {
        if is_i64_text(s) {
            Some(s)
        } else {
            None
        }
    } else if kind == 2 {
        if is_float_text(s) {
            Some(s)
        } else {
            None
        }
    } else if kind == 3 {
        bool_literal(lowercase_of(s))
    } else if kind == 4 {
        if is_hex_text(s) {
            Some("'\\x"@ + s + "'"@)
        } else {
            None
        }
    } else if kind == 5 {
        if date_parses(s, f) {
            Some(quoted_with(s, '\''))
        } else {
            None
        }
    } else if kind == 6 {
        if time_parses(s, f) {
            Some(quoted_with(s, '\''))
        } else {
            None
        }
    } else if datetime_parses(s, f) || (is_i64_text(s) && epoch_in_range(signed_value(s)->Some_0 as i64)) {
        Some(quoted_with(s, '\''))
    } else {
        None
    }
}

fn hex_text_ok(s: &str) -> (r: bool)
    ensures
        r == is_hex_text(s@),
{
    let n = s.unicode_len();
    if n % 2 != 0 {
        return false;
    }
    let mut i: usize = 0;
    while i < n
        invariant
            n == s@.len(),
            i <= n,
            forall|j: int| 0 <= j < i ==> is_hex(#[trigger] s@[j]),
        decreases n - i,
    {
        let c = s.get_char(i);
        if !(('0' <= c && c <= '9') || ('a' <= c && c <= 'f') || ('A' <= c && c <= 'F')) {
            return false;
        }
        i += 1;
    }
    true
}

fn quoted_text(s: &str) -> (r: String)
    ensures
        r@ == quoted_with(s@, '\''),
{
    let mut r = String::new();
    push_quoted(&mut r, s, '\'');
    r
}

/// Writes `s` as a SQL literal of type `sql_type`, checking that it is a
/// valid value of that type.
pub fn quote_literal(s: &str, sql_type: &SqlType) -> (r: Result<String, String>)
    ensures
        r is Ok <==> literal(s@, type_model(*sql_type)) is Some,
        r matches Ok(v) ==> v@ == literal(s@, type_model(*sql_type))->Some_0,
{
    proof {
        reveal_strlit("true");
        reveal_strlit("1");
        reveal_strlit("t");
        reveal_strlit("yes");
        reveal_strlit("false");
        reveal_strlit("0");
        reveal_strlit("f");
        reveal_strlit("no");
        reveal_strlit("TRUE");
        reveal_strlit("FALSE");
        reveal_strlit("'\\x");
        reveal_strlit("'");
    }
    match sql_type {
        SqlType::Text => Ok(quoted_text(s)),
        SqlType::Integer => match parse_i64(s) {
            Some(_) => Ok(s.to_string()),
            None => Err("invalid integer".to_string()),
        },
        SqlType::Float => if float_text_ok(s) {
            Ok(s.to_string())
        } else {
            Err("invalid float".to_string())
        },
        SqlType::Boolean => {
            let l = to_lower(s);
            let ls = l.as_str();
            if text_eq(ls, "true") || text_eq(ls, "1") || text_eq(ls, "t") || text_eq(ls, "yes") {
                Ok("TRUE".to_string())
            } else if text_eq(ls, "false") || text_eq(ls, "0") || text_eq(ls, "f") || text_eq(ls, "no") {
                Ok("FALSE".to_string())
            } else {
                Err("invalid boolean value".to_string())
            }
        },
        SqlType::Binary => if hex_text_ok(s) {
            let mut r = "'\\x".to_string();
            push_str(&mut r, s);
            push_str(&mut r, "'");
            Ok(r)
        } else {
            Err("invalid hex".to_string())
        },
        SqlType::Date(fmt) => if parses_as_date(s, fmt.as_str()) {
            Ok(quoted_text(s))
        } else {
            Err("invalid date".to_string())
        },
        SqlType::Time(fmt) => if parses_as_time(s, fmt.as_str()) {
            Ok(quoted_text(s))
        } else {
            Err("invalid time".to_string())
        },
        SqlType::DateTime(fmt) => {
            if parses_as_datetime(s, fmt.as_str()) {
                return Ok(quoted_text(s));
            }
            match parse_i64(s) {
                Some(epoch) => if epoch_is_date(epoch) {
                    Ok(quoted_text(s))
                } else {
                    Err("invalid datetime".to_string())
                },
                None => Err("invalid datetime".to_string()),
            }
        },
    }
}

/// The columns of a table, each with its SQL type.
pub type Columns = Seq<(String, SqlType)>;

/// `name = literal` for the first `k` pairs of columns and values, joined by
/// `sep`; `None` when a value is not valid for its column.
pub open spec fn assignments(cols: Columns, vals: RowV, k: int, sep: Seq<char>) -> Option<Seq<char>>
    decreases k,
{
    if k <= 0 {
        Some(Seq::empty())
    } else {
        match (assignments(cols, vals, k - 1, sep), literal(vals[k - 1], type_model(cols[k - 1].1))) {
            (Some(a), Some(l)) => Some(
                a + (if k > 1 {
                    sep
                } else {
                    Seq::empty()
                }) + quoted_ident(cols[k - 1].0@) + " = "@ + l,
            ),
            _ => None,
        }
    }
}

/// The literals of the first `k` pairs of columns and values, joined by `, `.
pub open spec fn literal_list(cols: Columns, vals: RowV, k: int) -> Option<Seq<char>>
    decreases k,
{
    if k <= 0 {
        Some(Seq::empty())
    } else {
        match (literal_list(cols, vals, k - 1), literal(vals[k - 1], type_model(cols[k - 1].1))) {
            (Some(a), Some(l)) => Some(
                a + (if k > 1 {
                    ", "@
                } else {
                    Seq::empty()
                }) + l,
            ),
            _ => None,
        }
    }
}

/// The quoted names of the first `k` columns, joined by `, `.
pub open spec fn column_list(cols: Columns, k: int) -> Seq<char>
    decreases k,
{
    if k <= 0 {
        Seq::empty()
    } else {
        column_list(cols, k - 1) + (if k > 1 {
            ", "@
        } else {
            Seq::empty()
        }) + quoted_ident(cols[k - 1].0@)
    }
}

pub open spec fn min(a: int, b: int) -> int {
    if a < b {
        a
    } else {
        b
    }
}

/// Appends `name = literal` for each pair of `cols` and `vals` (as far as
/// both go), joined by `sep`.
fn push_assignments(out: &mut String, cols: &Vec<(String, SqlType)>, vals: &Vec<String>, sep: &str) -> (r:
    Result<(), String>)
    ensures
        r is Ok <==> assignments(cols@, rv(vals), min(cols@.len() as int, vals@.len() as int), sep@) is Some,
        r is Ok ==> final(out)@ == old(out)@ + assignments(
            cols@,
            rv(vals),
            min(cols@.len() as int, vals@.len() as int),
            sep@,
        )->Some_0,
{
    let n = if cols.len() < vals.len() {
        cols.len()
    } else {
        vals.len()
    };
    let ghost start = out@;
    let mut i: usize = 0;
    proof {
        reveal_strlit(" = ");
    }
    while i < n
        invariant
            n == min(cols@.len() as int, vals@.len() as int),
            n <= cols@.len(),
            n <= vals@.len(),
            i <= n,
            assignments(cols@, rv(vals), i as int, sep@) is Some,
            out@ == start + assignments(cols@, rv(vals), i as int, sep@)->Some_0,
        decreases n - i,
    {
        let (name, ty) = (&cols[i].0, &cols[i].1);
        let lit = match quote_literal(vals[i].as_str(), ty) {
            Ok(l) => l,
            Err(e) => {
                proof {
                    lemma_assignments_none(cols@, rv(vals), i as int + 1, n as int, sep@);
                }
                let mut msg = "field '".to_string();
                push_str(&mut msg, name.as_str());
                push_str(&mut msg, "': ");
                push_str(&mut msg, e.as_str());
                return Err(msg);
            },
        };
        if i > 0 {
            push_str(out, sep);
        }
        push_quoted(out, name.as_str(), '"');
        push_str(out, " = ");
        push_str(out, lit.as_str());
        proof {
            assert(rv(vals)[i as int] == vals@[i as int]@);
            assert(out@ =~= start + assignments(cols@, rv(vals), i + 1, sep@)->Some_0);
        }
        i += 1;
    }
    Ok(())
}

proof fn lemma_assignments_none(cols: Columns, vals: RowV, k: int, n: int, sep: Seq<char>)
    requires
        1 <= k <= n,
        assignments(cols, vals, k, sep) is None,
    ensures
        assignments(cols, vals, n, sep) is None,
    decreases n - k,
{
    if k < n {
        lemma_assignments_none(cols, vals, k + 1, n, sep);
    }
}

/// Appends the literals of `cols` and `vals`, pair by pair, joined by `, `.
fn push_literals(out: &mut String, cols: &Vec<(String, SqlType)>, vals: &Vec<String>) -> (r: Result<
    (),
    String,
>)
    requires
        cols@.len() == vals@.len(),
    ensures
        r is Ok <==> literal_list(cols@, rv(vals), cols@.len() as int) is Some,
        r is Ok ==> final(out)@ == old(out)@ + literal_list(cols@, rv(vals), cols@.len() as int)->Some_0,
{
    let n = cols.len();
    let ghost start = out@;
    let mut i: usize = 0;
    proof {
        reveal_strlit(", ");
    }
    while i < n
        invariant
            n == cols@.len(),
            n == vals@.len(),
            i <= n,
            literal_list(cols@, rv(vals), i as int) is Some,
            out@ == start + literal_list(cols@, rv(vals), i as int)->Some_0,
        decreases n - i,
    {
        let lit = match quote_literal(vals[i].as_str(), &cols[i].1) {
            Ok(l) => l,
            Err(e) => {
                proof {
                    lemma_literal_list_none(cols@, rv(vals), i as int + 1, n as int);
                }
                let mut msg = "field '".to_string();
                push_str(&mut msg, cols[i].0.as_str());
                push_str(&mut msg, "': ");
                push_str(&mut msg, e.as_str());
                return Err(msg);
            },
        };
        if i > 0 {
            push_str(out, ", ");
        }
        push_str(out, lit.as_str());
        proof {
            assert(rv(vals)[i as int] == vals@[i as int]@);
            assert(out@ =~= start + literal_list(cols@, rv(vals), i + 1)->Some_0);
        }
        i += 1;
    }
    Ok(())
}

proof fn lemma_literal_list_none(cols: Columns, vals: RowV, k: int, n: int)
    requires
        1 <= k <= n,
        literal_list(cols, vals, k) is None,
    ensures
        literal_list(cols, vals, n) is None,
    decreases n - k,
{
    if k < n {
        lemma_literal_list_none(cols, vals, k + 1, n);
    }
}

/// Appends the quoted names of `cols`, joined by `, `.
fn push_column_list(out: &mut String, cols: &Vec<(String, SqlType)>)
    ensures
        final(out)@ == old(out)@ + column_list(cols@, cols@.len() as int),
{
    let ghost start = out@;
    let mut i: usize = 0;
    proof {
        reveal_strlit(", ");
    }
    while i < cols.len()
        invariant
            i <= cols@.len(),
            out@ == start + column_list(cols@, i as int),
        decreases cols@.len() - i,
    {
        if i > 0 {
            push_str(out, ", ");
        }
        push_quoted(out, cols[i].0.as_str(), '"');
        proof {
            assert(out@ =~= start + column_list(cols@, i + 1));
        }
        i += 1;
    }
}

/// The columns of one configured table, primary-key columns first, each with
/// its SQL type.
pub struct TableSchema {
    pub table_name: String,
    pub pk: Vec<(String, SqlType)>,
    pub sub: Vec<(String, SqlType)>,
}

impl TableSchema {
    /// All columns, primary-key columns first.
    pub open spec fn columns(&self) -> Columns {
        self.pk@ + self.sub@
    }

    pub fn all_columns(&self) -> (r: Vec<(String, SqlType)>)
        ensures
            r@.len() == self.columns().len(),
            forall|i: int|
                0 <= i < r@.len() ==> (#[trigger] r@[i]).0@ == self.columns()[i].0@ && type_model(r@[i].1)
                    == type_model(self.columns()[i].1),
    {
        let mut r: Vec<(String, SqlType)> = Vec::new();
        let mut i: usize = 0;
        while i < self.pk.len()
            invariant
                i <= self.pk@.len(),
                r@.len() == i,
                forall|j: int|
                    0 <= j < i ==> (#[trigger] r@[j]).0@ == self.columns()[j].0@ && type_model(r@[j].1)
                        == type_model(self.columns()[j].1),
            decreases self.pk@.len() - i,
        {
            r.push((self.pk[i].0.clone(), copy_type(&self.pk[i].1)));
            i += 1;
        }
        let mut i: usize = 0;
        while i < self.sub.len()
            invariant
                i <= self.sub@.len(),
                r@.len() == self.pk@.len() + i,
                forall|j: int|
                    0 <= j < self.pk@.len() + i ==> (#[trigger] r@[j]).0@ == self.columns()[j].0@ && type_model(
                        r@[j].1,
                    ) == type_model(self.columns()[j].1),
            decreases self.sub@.len() - i,
        {
            r.push((self.sub[i].0.clone(), copy_type(&self.sub[i].1)));
            i += 1;
        }
        r
    }
}

/// A copy of a SQL type.
pub fn copy_type(t: &SqlType) -> (r: SqlType)
    ensures
        type_model(r) == type_model(*t),
{
    match t {
        SqlType::Text => SqlType::Text,
        SqlType::Integer => SqlType::Integer,
        SqlType::Float => SqlType::Float,
        SqlType::Boolean => SqlType::Boolean,
        SqlType::Binary => SqlType::Binary,
        SqlType::Date(f) => SqlType::Date(f.clone()),
        SqlType::Time(f) => SqlType::Time(f.clone()),
        SqlType::DateTime(f) => SqlType::DateTime(f.clone()),
    }
}

/// `DELETE FROM table WHERE cond;`
pub open spec fn delete_stmt(table: Seq<char>, cond: Seq<char>) -> Seq<char> {
    "DELETE FROM "@ + quoted_ident(table) + " WHERE "@ + cond + ";\n"@
}

/// `INSERT INTO table (columns) VALUES (literals);`
pub open spec fn insert_stmt(table: Seq<char>, columns: Seq<char>, literals: Seq<char>) -> Seq<char> {
    "INSERT INTO "@ + quoted_ident(table) + " ("@ + columns + ") VALUES ("@ + literals + ");\n"@
}

/// The DELETE statements of the first `k` keys.
pub open spec fn deletes_sql(table: Seq<char>, pk: Columns, keys: Seq<Vec<String>>, k: int) -> Option<Seq<char>>
    decreases k,
{
    if k <= 0 {
        Some(Seq::empty())
    } else {
        let key = rv(&keys[k - 1]);
        match (
            deletes_sql(table, pk, keys, k - 1),
            assignments(pk, key, min(pk.len() as int, key.len() as int), " AND "@),
        ) {
            (Some(a), Some(c)) => Some(a + delete_stmt(table, c)),
            _ => None,
        }
    }
}

/// The INSERT statements of the first `k` rows.
pub open spec fn inserts_sql(
    table: Seq<char>,
    pk_len: int,
    cols: Columns,
    rows: Seq<(Vec<String>, Vec<String>)>,
    k: int,
) -> Option<Seq<char>>
    decreases k,
{
    if k <= 0 {
        Some(Seq::empty())
    } else {
        let key = rv(&rows[k - 1].0);
        let value = rv(&rows[k - 1].1);
        match inserts_sql(table, pk_len, cols, rows, k - 1) {
            Some(a) => if key.len() != pk_len || key.len() + value.len() != cols.len() {
                None
            } else {
                match literal_list(cols, key + value, cols.len() as int) {
                    Some(l) => Some(a + insert_stmt(table, column_list(cols, cols.len() as int), l)),
                    None => None,
                }
            },
            None => None,
        }
    }
}

/// The columns that an update's changed positions name, or `None` when a
/// position is past the subsidiary columns.
pub open spec fn changed_columns(sub: Columns, indices: Seq<u32>) -> Option<Columns> {
    if forall|t: int| 0 <= t < indices.len() ==> (#[trigger] indices[t]) < sub.len() {
        Some(indices.map_values(|i: u32| sub[i as int]))
    } else {
        None
    }
}

/// The UPDATE statement of one sparse update.
pub open spec fn update_sql(table: Seq<char>, pk: Columns, sub: Columns, u: SparseUpdate) -> Option<Seq<char>> {
    let key = rv(&u.key);
    let vals = rv(&u.new_value);
    match changed_columns(sub, u.changed_indices@) {
        Some(cc) => match (
            assignments(cc, vals, min(cc.len() as int, vals.len() as int), ", "@),
            assignments(pk, key, min(pk.len() as int, key.len() as int), " AND "@),
        ) {
            (Some(set), Some(cond)) => Some(
                "UPDATE "@ + quoted_ident(table) + " SET "@ + set + " WHERE "@ + cond + ";\n"@,
            ),
            _ => None,
        },
        None => None,
    }
}

/// The UPDATE statements of the first `k` updates.
pub open spec fn updates_sql(table: Seq<char>, pk: Columns, sub: Columns, ups: Seq<SparseUpdate>, k: int) -> Option<
    Seq<char>,
>
    decreases k,
{
    if k <= 0 {
        Some(Seq::empty())
    } else {
        match (updates_sql(table, pk, sub, ups, k - 1), update_sql(table, pk, sub, ups[k - 1])) {
            (Some(a), Some(b)) => Some(a + b),
            _ => None,
        }
    }
}

/// The statements of one delta: its deletes, its inserts, its updates.
pub open spec fn delta_sql(d: PatchDelta, schema: TableSchema) -> Option<Seq<char>> {
    let t = schema.table_name@;
    match (
        deletes_sql(t, schema.pk@, d.deletes@, d.deletes@.len() as int),
        inserts_sql(t, schema.pk@.len() as int, schema.columns(), d.inserts@, d.inserts@.len() as int),
        updates_sql(t, schema.pk@, schema.sub@, d.updates@, d.updates@.len() as int),
    ) {
        (Some(a), Some(b), Some(c)) => Some(a + b + c),
        _ => None,
    }
}

fn push_update(out: &mut String, table: &String, schema: &TableSchema, u: &SparseUpdate) -> (r: Result<(), String>)
    ensures
        r is Ok <==> update_sql(table@, schema.pk@, schema.sub@, *u) is Some,
        r is Ok ==> final(out)@ == old(out)@ + update_sql(table@, schema.pk@, schema.sub@, *u)->Some_0,
{
    let mut cols: Vec<(String, SqlType)> = Vec::new();
    let mut t: usize = 0;
    while t < u.changed_indices.len()
        invariant
            t <= u.changed_indices@.len(),
            cols@.len() == t,
            forall|j: int| 0 <= j < t ==> (#[trigger] u.changed_indices@[j]) < schema.sub@.len(),
            forall|j: int|
                0 <= j < t ==> (#[trigger] cols@[j]).0@ == schema.sub@[u.changed_indices@[j] as int].0@
                    && type_model(cols@[j].1) == type_model(schema.sub@[u.changed_indices@[j] as int].1),
        decreases u.changed_indices@.len() - t,
    {
        let idx = u.changed_indices[t] as usize;
        if idx >= schema.sub.len() {
            return Err("changed column index out of range".to_string());
        }
        cols.push((schema.sub[idx].0.clone(), copy_type(&schema.sub[idx].1)));
        t += 1;
    }
    let ghost cc = u.changed_indices@.map_values(|i: u32| schema.sub@[i as int]);
    proof {
        lemma_assignments_same(cols@, cc, rv(&u.new_value), min(cols@.len() as int, u.new_value@.len() as int), ", "@);
    }
    let mut set = String::new();
    if let Err(e) = push_assignments(&mut set, &cols, &u.new_value, ", ") {
        return Err(e);
    }
    let mut cond = String::new();
    if let Err(e) = push_assignments(&mut cond, &schema.pk, &u.key, " AND ") {
        return Err(e);
    }
    proof {
        reveal_strlit("UPDATE ");
        reveal_strlit(" SET ");
        reveal_strlit(" WHERE ");
        reveal_strlit(";\n");
    }
    push_str(out, "UPDATE ");
    push_quoted(out, table.as_str(), '"');
    push_str(out, " SET ");
    push_str(out, set.as_str());
    push_str(out, " WHERE ");
    push_str(out, cond.as_str());
    push_str(out, ";\n");
    proof {
        assert(out@ =~= old(out)@ + update_sql(table@, schema.pk@, schema.sub@, *u)->Some_0);
    }
    Ok(())
}

/// Columns with the same names and type models give the same assignments.
proof fn lemma_assignments_same(a: Columns, b: Columns, vals: RowV, k: int, sep: Seq<char>)
    requires
        a.len() == b.len(),
        k <= a.len(),
        forall|j: int| 0 <= j < a.len() ==> (#[trigger] a[j]).0@ == b[j].0@ && type_model(a[j].1) == type_model(b[j].1),
    ensures
        assignments(a, vals, k, sep) == assignments(b, vals, k, sep),
    decreases k,
{
    if k > 0 {
        lemma_assignments_same(a, b, vals, k - 1, sep);
        assert(a[k - 1].0@ == b[k - 1].0@);
    }
}

/// Appends the statements of one delta, in the order deletes, inserts,
/// updates.
pub fn delta_to_sql(delta: &PatchDelta, schema: &TableSchema, out: &mut String) -> (r: Result<(), String>)
    ensures
        r is Ok <==> delta_sql(*delta, *schema) is Some,
        r is Ok ==> final(out)@ == old(out)@ + delta_sql(*delta, *schema)->Some_0,
{
    let ghost start = out@;
    let table = &schema.table_name;
    let ghost t = table@;
    proof {
        reveal_strlit("DELETE FROM ");
        reveal_strlit(" WHERE ");
        reveal_strlit(";\n");
        reveal_strlit("INSERT INTO ");
        reveal_strlit(" (");
        reveal_strlit(") VALUES (");
        reveal_strlit(");\n");
    }
    let mut i: usize = 0;
    while i < delta.deletes.len()
        invariant
            i <= delta.deletes@.len(),
            deletes_sql(t, schema.pk@, delta.deletes@, i as int) is Some,
            out@ == start + deletes_sql(t, schema.pk@, delta.deletes@, i as int)->Some_0,
            t == schema.table_name@,
            table@ == t,
        decreases delta.deletes@.len() - i,
    {
        let mut cond = String::new();
        proof {
            assert(rv(&delta.deletes@[i as int]).len() == delta.deletes@[i as int]@.len());
        }
        match push_assignments(&mut cond, &schema.pk, &delta.deletes[i], " AND ") {
            Ok(()) => {},
            Err(e) => {
                proof {
                    lemma_deletes_none(t, schema.pk@, delta.deletes@, i as int + 1, delta.deletes@.len() as int);
                }
                return Err(e);
            },
        }
        let mut stmt = String::from_str("DELETE FROM ");
        push_quoted(&mut stmt, table.as_str(), '"');
        push_str(&mut stmt, " WHERE ");
        push_str(&mut stmt, cond.as_str());
        push_str(&mut stmt, ";\n");
        proof {
            assert(stmt@ =~= delete_stmt(t, cond@));
        }
        let ghost before = out@;
        push_str(out, stmt.as_str());
        proof {
            vstd::seq_lib::lemma_concat_associative(
                start,
                deletes_sql(t, schema.pk@, delta.deletes@, i as int)->Some_0,
                stmt@,
            );
        }
        i += 1;
    }
    let ghost after_deletes = out@;
    let cols = schema.all_columns();
    proof {
        lemma_columns_same(cols@, schema.columns());
    }
    let mut column_names = String::new();
    push_column_list(&mut column_names, &cols);
    proof {
        lemma_column_list_same(cols@, schema.columns(), cols@.len() as int);
        assert(column_names@ =~= column_list(schema.columns(), schema.columns().len() as int));
    }
    let mut i: usize = 0;
    while i < delta.inserts.len()
        invariant
            i <= delta.inserts@.len(),
            cols@.len() == schema.columns().len(),
            column_names@ == column_list(schema.columns(), schema.columns().len() as int),
            forall|vals: RowV| #[trigger] literal_list(cols@, vals, cols@.len() as int) == literal_list(
                schema.columns(),
                vals,
                cols@.len() as int,
            ),
            inserts_sql(t, schema.pk@.len() as int, schema.columns(), delta.inserts@, i as int) is Some,
            out@ == after_deletes + inserts_sql(t, schema.pk@.len() as int, schema.columns(), delta.inserts@, i as int)->Some_0,
            t == schema.table_name@,
            table@ == t,
        decreases delta.inserts@.len() - i,
    {
        let (key, value) = (&delta.inserts[i].0, &delta.inserts[i].1);
        proof {
            assert(rv(key).len() == key@.len());
            assert(rv(value).len() == value@.len());
        }
        if key.len() != schema.pk.len() || value.len() != schema.sub.len() {
            proof {
                lemma_inserts_none(t, schema.pk@.len() as int, schema.columns(), delta.inserts@, i as int + 1, delta.inserts@.len() as int);
            }
            return Err("field count mismatch".to_string());
        }
        let row = row_concat(key, value);
        proof {
            assert(rv(&row).len() == row@.len());
        }
        let mut lits = String::new();
        match push_literals(&mut lits, &cols, &row) {
            Ok(()) => {},
            Err(e) => {
                proof {
                    lemma_inserts_none(t, schema.pk@.len() as int, schema.columns(), delta.inserts@, i as int + 1, delta.inserts@.len() as int);
                }
                return Err(e);
            },
        }
        let mut stmt = String::from_str("INSERT INTO ");
        push_quoted(&mut stmt, table.as_str(), '"');
        push_str(&mut stmt, " (");
        push_str(&mut stmt, column_names.as_str());
        push_str(&mut stmt, ") VALUES (");
        push_str(&mut stmt, lits.as_str());
        push_str(&mut stmt, ");\n");
        proof {
            assert(stmt@ =~= insert_stmt(t, column_names@, lits@));
            assert(lits@ =~= literal_list(schema.columns(), rv(key) + rv(value), schema.columns().len() as int)->Some_0);
        }
        push_str(out, stmt.as_str());
        proof {
            vstd::seq_lib::lemma_concat_associative(
                after_deletes,
                inserts_sql(t, schema.pk@.len() as int, schema.columns(), delta.inserts@, i as int)->Some_0,
                stmt@,
            );
        }
        i += 1;
    }
    let ghost after_inserts = out@;
    let mut i: usize = 0;
    while i < delta.updates.len()
        invariant
            i <= delta.updates@.len(),
            updates_sql(t, schema.pk@, schema.sub@, delta.updates@, i as int) is Some,
            out@ == after_inserts + updates_sql(t, schema.pk@, schema.sub@, delta.updates@, i as int)->Some_0,
            t == schema.table_name@,
            table@ == t,
        decreases delta.updates@.len() - i,
    {
        let ghost before = out@;
        match push_update(out, table, schema, &delta.updates[i]) {
            Ok(()) => {},
            Err(e) => {
                proof {
                    lemma_updates_none(t, schema.pk@, schema.sub@, delta.updates@, i as int + 1, delta.updates@.len() as int);
                }
                return Err(e);
            },
        }
        proof {
            assert(updates_sql(t, schema.pk@, schema.sub@, delta.updates@, i + 1) == Some(
                updates_sql(t, schema.pk@, schema.sub@, delta.updates@, i as int)->Some_0 + update_sql(
                    t,
                    schema.pk@,
                    schema.sub@,
                    delta.updates@[i as int],
                )->Some_0,
            ));
            assert(out@ == before + update_sql(t, schema.pk@, schema.sub@, delta.updates@[i as int])->Some_0);
            vstd::seq_lib::lemma_concat_associative(
                after_inserts,
                updates_sql(t, schema.pk@, schema.sub@, delta.updates@, i as int)->Some_0,
                update_sql(t, schema.pk@, schema.sub@, delta.updates@[i as int])->Some_0,
            );
        }
        i += 1;
    }
    proof {
        let a = deletes_sql(t, schema.pk@, delta.deletes@, delta.deletes@.len() as int)->Some_0;
        let b = inserts_sql(t, schema.pk@.len() as int, schema.columns(), delta.inserts@, delta.inserts@.len() as int)->Some_0;
        let c = updates_sql(t, schema.pk@, schema.sub@, delta.updates@, delta.updates@.len() as int)->Some_0;
        vstd::seq_lib::lemma_concat_associative(start, a, b);
        vstd::seq_lib::lemma_concat_associative(start, a + b, c);
    }
    Ok(())
}

fn row_concat(a: &Vec<String>, b: &Vec<String>) -> (r: Vec<String>)
    ensures
        rv(&r) == rv(a) + rv(b),
{
    let mut r = row_clone_local(a);
    let mut i: usize = 0;
    let ghost n = a@.len();
    while i < b.len()
        invariant
            i <= b@.len(),
            r@.len() == n + i,
            n == a@.len(),
            forall|j: int| 0 <= j < n ==> (#[trigger] r@[j])@ == a@[j]@,
            forall|j: int| n <= j < n + i ==> (#[trigger] r@[j])@ == b@[j - n]@,
        decreases b@.len() - i,
    {
        r.push(b[i].clone());
        i += 1;
    }
    assert(rv(&r) =~= rv(a) + rv(b));
    r
}

fn row_clone_local(a: &Vec<String>) -> (r: Vec<String>)
    ensures
        r@.len() == a@.len(),
        forall|j: int| 0 <= j < a@.len() ==> (#[trigger] r@[j])@ == a@[j]@,
{
    let mut r: Vec<String> = Vec::new();
    let mut i: usize = 0;
    while i < a.len()
        invariant
            i <= a@.len(),
            r@.len() == i,
            forall|j: int| 0 <= j < i ==> (#[trigger] r@[j])@ == a@[j]@,
        decreases a@.len() - i,
    {
        r.push(a[i].clone());
        i += 1;
    }
    r
}

proof fn lemma_columns_same(a: Columns, b: Columns)
    requires
        a.len() == b.len(),
        forall|j: int| 0 <= j < a.len() ==> (#[trigger] a[j]).0@ == b[j].0@ && type_model(a[j].1) == type_model(b[j].1),
    ensures
        forall|vals: RowV| #[trigger] literal_list(a, vals, a.len() as int) == literal_list(b, vals, a.len() as int),
{
    assert forall|vals: RowV| #[trigger] literal_list(a, vals, a.len() as int) == literal_list(b, vals, a.len() as int) by {
        lemma_literal_list_same(a, b, vals, a.len() as int);
    }
}

proof fn lemma_literal_list_same(a: Columns, b: Columns, vals: RowV, k: int)
    requires
        a.len() == b.len(),
        k <= a.len(),
        forall|j: int| 0 <= j < a.len() ==> (#[trigger] a[j]).0@ == b[j].0@ && type_model(a[j].1) == type_model(b[j].1),
    ensures
        literal_list(a, vals, k) == literal_list(b, vals, k),
    decreases k,
{
    if k > 0 {
        lemma_literal_list_same(a, b, vals, k - 1);
        assert(type_model(a[k - 1].1) == type_model(b[k - 1].1));
    }
}

proof fn lemma_column_list_same(a: Columns, b: Columns, k: int)
    requires
        a.len() == b.len(),
        k <= a.len(),
        forall|j: int| 0 <= j < a.len() ==> (#[trigger] a[j]).0@ == b[j].0@ && type_model(a[j].1) == type_model(b[j].1),
    ensures
        column_list(a, k) == column_list(b, k),
    decreases k,
{
    if k > 0 {
        lemma_column_list_same(a, b, k - 1);
        assert(a[k - 1].0@ == b[k - 1].0@);
    }
}

proof fn lemma_deletes_none(t: Seq<char>, pk: Columns, keys: Seq<Vec<String>>, k: int, n: int)
    requires
        1 <= k <= n,
        deletes_sql(t, pk, keys, k) is None,
    ensures
        deletes_sql(t, pk, keys, n) is None,
    decreases n - k,
{
    if k < n {
        lemma_deletes_none(t, pk, keys, k + 1, n);
    }
}

proof fn lemma_inserts_none(t: Seq<char>, pk_len: int, cols: Columns, rows: Seq<(Vec<String>, Vec<String>)>, k: int, n: int)
    requires
        1 <= k <= n,
        inserts_sql(t, pk_len, cols, rows, k) is None,
    ensures
        inserts_sql(t, pk_len, cols, rows, n) is None,
    decreases n - k,
{
    if k < n {
        lemma_inserts_none(t, pk_len, cols, rows, k + 1, n);
    }
}

proof fn lemma_updates_none(t: Seq<char>, pk: Columns, sub: Columns, ups: Seq<SparseUpdate>, k: int, n: int)
    requires
        1 <= k <= n,
        updates_sql(t, pk, sub, ups, k) is None,
    ensures
        updates_sql(t, pk, sub, ups, n) is None,
    decreases n - k,
{
    if k < n {
        lemma_updates_none(t, pk, sub, ups, k + 1, n);
    }
}

/// The INSERT statement of one record, or `None` when the record does not
/// fit the columns or a value is not valid.
pub open spec fn record_insert(table: Seq<char>, pk_len: int, cols: Columns, key: RowV, value: RowV) -> Option<Seq<char>> {
    if key.len() != pk_len || key.len() + value.len() != cols.len() {
        None
    } else {
        match literal_list(cols, key + value, cols.len() as int) {
            Some(l) => Some(insert_stmt(table, column_list(cols, cols.len() as int), l)),
            None => None,
        }
    }
}

/// The INSERT statements of the first `k` stored records of `m`.
pub open spec fn records_sql(table: Seq<char>, pk_len: int, cols: Columns, m: RecordMap, k: int) -> Option<Seq<char>>
    decreases k,
{
    if k <= 0 {
        Some(Seq::empty())
    } else {
        match (records_sql(table, pk_len, cols, m, k - 1), record_insert(table, pk_len, cols, m.entry(k - 1).0, m.entry(k - 1).1)) {
            (Some(a), Some(b)) => Some(a + b),
            _ => None,
        }
    }
}

proof fn lemma_records_none(t: Seq<char>, pk_len: int, cols: Columns, m: RecordMap, k: int, n: int)
    requires
        1 <= k <= n,
        records_sql(t, pk_len, cols, m, k) is None,
    ensures
        records_sql(t, pk_len, cols, m, n) is None,
    decreases n - k,
{
    if k < n {
        lemma_records_none(t, pk_len, cols, m, k + 1, n);
    }
}

/// `TRUNCATE` then the INSERT statements of every record of one table.
pub open spec fn table_sql(table: Seq<char>, schema: TableSchema, records: RecordMap) -> Option<Seq<char>> {
    match records_sql(table, schema.pk@.len() as int, schema.columns(), records, records.size() as int) {
        Some(b) => Some("TRUNCATE "@ + quoted_ident(table) + ";\n"@ + b),
        None => None,
    }
}

/// Appends the statements that replace the contents of one table.
pub fn table_to_sql(name: &String, records: &RecordMap, schema: &TableSchema, out: &mut String) -> (r: Result<(), String>)
    requires
        records.wf(),
    ensures
        r is Ok <==> table_sql(name@, *schema, *records) is Some,
        r is Ok ==> final(out)@ == old(out)@ + table_sql(name@, *schema, *records)->Some_0,
{
    let ghost t = name@;
    let cols = schema.all_columns();
    proof {
        lemma_columns_same(cols@, schema.columns());
        reveal_strlit("TRUNCATE ");
        reveal_strlit(";\n");
    }
    let mut column_names = String::new();
    push_column_list(&mut column_names, &cols);
    proof {
        lemma_column_list_same(cols@, schema.columns(), cols@.len() as int);
        assert(column_names@ =~= column_list(schema.columns(), schema.columns().len() as int));
    }
    let mut body = String::new();
    let n = records.len();
    proof {
        records.lemma_entries();
    }
    let mut i: usize = 0;
    while i < n
        invariant
            records.wf(),
            n == records.size(),
            i <= n,
            t == name@,
            cols@.len() == schema.columns().len(),
            column_names@ == column_list(schema.columns(), schema.columns().len() as int),
            forall|vals: RowV| #[trigger] literal_list(cols@, vals, cols@.len() as int) == literal_list(
                schema.columns(),
                vals,
                cols@.len() as int,
            ),
            records_sql(t, schema.pk@.len() as int, schema.columns(), *records, i as int) is Some,
            body@ == records_sql(t, schema.pk@.len() as int, schema.columns(), *records, i as int)->Some_0,
        decreases n - i,
    {
        let (key, value) = records.entry_at(i);
        proof {
            assert(rv(key).len() == key@.len());
            assert(rv(value).len() == value@.len());
        }
        if key.len() != schema.pk.len() || value.len() != schema.sub.len() {
            proof {
                lemma_records_none(t, schema.pk@.len() as int, schema.columns(), *records, i as int + 1, n as int);
            }
            return Err("field count mismatch".to_string());
        }
        let row = row_concat(key, value);
        proof {
            assert(rv(&row).len() == row@.len());
        }
        let mut lits = String::new();
        match push_literals(&mut lits, &cols, &row) {
            Ok(()) => {},
            Err(e) => {
                proof {
                    lemma_records_none(t, schema.pk@.len() as int, schema.columns(), *records, i as int + 1, n as int);
                }
                return Err(e);
            },
        }
        let mut stmt = String::from_str("INSERT INTO ");
        push_quoted(&mut stmt, name.as_str(), '"');
        push_str(&mut stmt, " (");
        push_str(&mut stmt, column_names.as_str());
        push_str(&mut stmt, ") VALUES (");
        push_str(&mut stmt, lits.as_str());
        push_str(&mut stmt, ");\n");
        proof {
            reveal_strlit(" (");
            reveal_strlit(") VALUES (");
            reveal_strlit(");\n");
            assert(stmt@ =~= insert_stmt(t, column_names@, lits@));
            assert(lits@ =~= literal_list(schema.columns(), rv(key) + rv(value), schema.columns().len() as int)->Some_0);
        }
        push_str(&mut body, stmt.as_str());
        i += 1;
    }
    let mut head = String::from_str("TRUNCATE ");
    push_quoted(&mut head, name.as_str(), '"');
    push_str(&mut head, ";\n");
    push_str(&mut head, body.as_str());
    proof {
        assert(head@ =~= table_sql(name@, *schema, *records)->Some_0);
    }
    push_str(out, head.as_str());
    Ok(())
}

/// The position of the first table of `tables` named `name` among the first
/// `k`.
pub open spec fn first_named(tables: Seq<(String, TableConfig)>, name: Seq<char>, k: int) -> Option<int>
    decreases k,
{
    if k <= 0 {
        None
    } else {
        match first_named(tables, name, k - 1) {
            Some(i) => Some(i),
            None => if tables[k - 1].0@ == name {
                Some(k - 1)
            } else {
                None
            },
        }
    }
}

/// The column a configured field becomes: its name and its type.
pub open spec fn field_column(f: FieldConfig) -> (Seq<char>, Option<(int, Seq<char>)>) {
    (f.name@, type_of_name(uppercase_of(f.field_type@), match f.format {
        Some(x) => Some(x@),
        None => None,
    }))
}

/// The model of a resolved column.
pub open spec fn column_model(c: (String, SqlType)) -> (Seq<char>, Option<(int, Seq<char>)>) {
    (c.0@, Some(type_model(c.1)))
}

/// `schema` holds the columns of table `name` as `config` describes them:
/// the primary-key fields first, then the others, each in configured order.
pub open spec fn resolved_from(schema: TableSchema, config: Config) -> bool {
    let name = schema.table_name@;
    match first_named(config.tables@, name, config.tables@.len() as int) {
        Some(i) => {
            let fields = config.tables@[i].1.fields@;
            &&& schema.pk@.map_values(|c: (String, SqlType)| column_model(c)) == fields.filter(
                |f: FieldConfig| f.primary_key,
            ).map_values(|f: FieldConfig| field_column(f))
            &&& schema.sub@.map_values(|c: (String, SqlType)| column_model(c)) == fields.filter(
                |f: FieldConfig| !f.primary_key,
            ).map_values(|f: FieldConfig| field_column(f))
        },
        None => false,
    }
}

/// `config` lacks table `name`, or gives one of its fields an unknown type.
pub open spec fn unresolvable(config: Config, name: Seq<char>) -> bool {
    match first_named(config.tables@, name, config.tables@.len() as int) {
        Some(i) => exists|j: int|
            0 <= j < config.tables@[i].1.fields@.len() && (#[trigger] field_column(config.tables@[i].1.fields@[j])).1 is None,
        None => true,
    }
}

impl TableSchema {
    /// The columns of table `table_name` from `config`.
    pub fn resolve(table_name: &String, config: &Config) -> (r: Result<TableSchema, String>)
        ensures
            r matches Ok(s) ==> s.table_name@ == table_name@ && resolved_from(s, *config),
            r is Err ==> unresolvable(*config, table_name@),
    {
        let mut found: Option<usize> = None;
        let mut i: usize = 0;
        while i < config.tables.len()
            invariant
                i <= config.tables@.len(),
                found matches Some(x) ==> first_named(config.tables@, table_name@, i as int) == Some(x as int)
                    && x < i,
                found is None ==> first_named(config.tables@, table_name@, i as int) is None,
            decreases config.tables@.len() - i,
        {
            if found.is_none() && config.tables[i].0 == *table_name {
                found = Some(i);
            }
            i += 1;
        }
        let ti = match found {
            Some(x) => x,
            None => {
                let mut msg = "table '".to_string();
                push_str(&mut msg, table_name.as_str());
                push_str(&mut msg, "' not found in config");
                return Err(msg);
            },
        };
        let fields = &config.tables[ti].1.fields;
        let mut pk: Vec<(String, SqlType)> = Vec::new();
        let mut sub: Vec<(String, SqlType)> = Vec::new();
        let mut j: usize = 0;
        while j < fields.len()
            invariant
                j <= fields@.len(),
                ti < config.tables@.len(),
                *fields == config.tables@[ti as int].1.fields,
                first_named(config.tables@, table_name@, config.tables@.len() as int) == Some(ti as int),
                pk@.map_values(|c: (String, SqlType)| column_model(c)) == fields@.subrange(0, j as int).filter(
                    |f: FieldConfig| f.primary_key,
                ).map_values(|f: FieldConfig| field_column(f)),
                sub@.map_values(|c: (String, SqlType)| column_model(c)) == fields@.subrange(0, j as int).filter(
                    |f: FieldConfig| !f.primary_key,
                ).map_values(|f: FieldConfig| field_column(f)),
            decreases fields@.len() - j,
        {
            let f = &fields[j];
            let fmt: Option<&str> = match &f.format {
                Some(x) => Some(x.as_str()),
                None => None,
            };
            let t = match SqlType::from_config(f.field_type.as_str(), fmt) {
                Ok(t) => t,
                Err(e) => {
                    proof {
                        assert(field_column(fields@[j as int]).1 is None);
                        assert(field_column(config.tables@[ti as int].1.fields@[j as int]).1 is None);
                        assert(first_named(config.tables@, table_name@, config.tables@.len() as int) == Some(ti as int));
                        assert(unresolvable(*config, table_name@));
                    }
                    let mut msg = "field '".to_string();
                    push_str(&mut msg, f.name.as_str());
                    push_str(&mut msg, "': ");
                    push_str(&mut msg, e.as_str());
                    return Err(msg);
                },
            };
            let ghost sub_j = fields@.subrange(0, j + 1);
            let ghost before_pk = pk@;
            let ghost before_sub = sub@;
            proof {
                reveal(Seq::filter);
                assert(sub_j.drop_last() =~= fields@.subrange(0, j as int));
                assert(sub_j.last() == fields@[j as int]);
                assert(column_model((f.name, t)) == field_column(fields@[j as int]));
            }
            if f.primary_key {
                pk.push((f.name.clone(), t));
                proof {
                    assert(pk@.map_values(|c: (String, SqlType)| column_model(c)) =~= before_pk.map_values(
                        |c: (String, SqlType)| column_model(c),
                    ).push(field_column(fields@[j as int])));
                    assert(sub_j.filter(|f: FieldConfig| !f.primary_key) == fields@.subrange(0, j as int).filter(
                        |f: FieldConfig| !f.primary_key,
                    ));
                }
            } else {
                sub.push((f.name.clone(), t));
                proof {
                    assert(sub@.map_values(|c: (String, SqlType)| column_model(c)) =~= before_sub.map_values(
                        |c: (String, SqlType)| column_model(c),
                    ).push(field_column(fields@[j as int])));
                    assert(sub_j.filter(|f: FieldConfig| f.primary_key) == fields@.subrange(0, j as int).filter(
                        |f: FieldConfig| f.primary_key,
                    ));
                }
            }
            proof {
                assert(pk@.map_values(|c: (String, SqlType)| column_model(c)) =~= sub_j.filter(
                    |f: FieldConfig| f.primary_key,
                ).map_values(|f: FieldConfig| field_column(f)));
                assert(sub@.map_values(|c: (String, SqlType)| column_model(c)) =~= sub_j.filter(
                    |f: FieldConfig| !f.primary_key,
                ).map_values(|f: FieldConfig| field_column(f)));
            }
            j += 1;
        }
        proof {
            assert(fields@.subrange(0, fields@.len() as int) =~= fields@);
        }
        Ok(TableSchema { table_name: table_name.clone(), pk, sub })
    }
}

/// The position of the first schema of table `name` among the first `k`.
pub open spec fn schema_index(schemas: Seq<TableSchema>, name: Seq<char>, k: int) -> Option<int>
    decreases k,
{
    if k <= 0 {
        None
    } else {
        match schema_index(schemas, name, k - 1) {
            Some(i) => Some(i),
            None => if schemas[k - 1].table_name@ == name {
                Some(k - 1)
            } else {
                None
            },
        }
    }
}

/// The statements of the first `k` deltas, each under its table's schema.
pub open spec fn deltas_sql(ds: Seq<PatchDelta>, schemas: Seq<TableSchema>, k: int) -> Option<Seq<char>>
    decreases k,
{
    if k <= 0 {
        Some(Seq::empty())
    } else {
        let d = ds[k - 1];
        match (deltas_sql(ds, schemas, k - 1), schema_index(schemas, d.table_name@, schemas.len() as int)) {
            (Some(a), Some(i)) => match delta_sql(d, schemas[i]) {
                Some(b) => Some(a + b),
                None => None,
            },
            _ => None,
        }
    }
}

/// The statements that replace the first `k` stored tables of `tables`.
pub open spec fn tables_sql(tables: TableMap, schemas: Seq<TableSchema>, k: int) -> Option<Seq<char>>
    decreases k,
{
    if k <= 0 {
        Some(Seq::empty())
    } else {
        let name = tables.entry(k - 1).0;
        match (tables_sql(tables, schemas, k - 1), schema_index(schemas, name, schemas.len() as int)) {
            (Some(a), Some(i)) => match table_sql(name, schemas[i], tables.value_at(k - 1).records) {
                Some(b) => Some(a + b),
                None => None,
            },
            _ => None,
        }
    }
}

/// The SQL of a patch: `None` inside when there is nothing to apply, else
/// its statements between `BEGIN;` and `COMMIT;`.
pub open spec fn patch_sql(p: Patch, schemas: Seq<TableSchema>) -> Option<Option<Seq<char>>> {
    match p.payload {
        None => Some(None),
        Some(Payload::Deltas(ds)) => match deltas_sql(ds@, schemas, ds@.len() as int) {
            Some(b) => Some(Some("BEGIN;\n"@ + b + "COMMIT;\n"@)),
            None => None,
        },
        Some(Payload::State(st)) => match tables_sql(st.tables, schemas, st.tables.size() as int) {
            Some(b) => Some(Some("BEGIN;\n"@ + b + "COMMIT;\n"@)),
            None => None,
        },
    }
}

pub open spec fn opt_string_view(r: Option<String>) -> Option<Seq<char>> {
    match r {
        Some(s) => Some(s@),
        None => None,
    }
}

fn find_schema(schemas: &Vec<TableSchema>, name: &String) -> (r: Option<usize>)
    ensures
        match r {
            Some(i) => schema_index(schemas@, name@, schemas@.len() as int) == Some(i as int) && i < schemas@.len(),
            None => schema_index(schemas@, name@, schemas@.len() as int) is None,
        },
{
    let mut found: Option<usize> = None;
    let mut i: usize = 0;
    while i < schemas.len()
        invariant
            i <= schemas@.len(),
            found matches Some(x) ==> schema_index(schemas@, name@, i as int) == Some(x as int) && x < i,
            found is None ==> schema_index(schemas@, name@, i as int) is None,
        decreases schemas@.len() - i,
    {
        if found.is_none() && schemas[i].table_name == *name {
            found = Some(i);
        }
        i += 1;
    }
    found
}

proof fn lemma_deltas_none(ds: Seq<PatchDelta>, schemas: Seq<TableSchema>, k: int, n: int)
    requires
        1 <= k <= n,
        deltas_sql(ds, schemas, k) is None,
    ensures
        deltas_sql(ds, schemas, n) is None,
    decreases n - k,
{
    if k < n {
        lemma_deltas_none(ds, schemas, k + 1, n);
    }
}

proof fn lemma_tables_none(tables: TableMap, schemas: Seq<TableSchema>, k: int, n: int)
    requires
        1 <= k <= n,
        tables_sql(tables, schemas, k) is None,
    ensures
        tables_sql(tables, schemas, n) is None,
    decreases n - k,
{
    if k < n {
        lemma_tables_none(tables, schemas, k + 1, n);
    }
}

/// Renders a patch as SQL under the given table schemas.
pub fn render_patch(patch: &Patch, schemas: &Vec<TableSchema>) -> (r: Result<Option<String>, String>)
    requires
        patch.payload matches Some(Payload::State(st)) ==> st.wf(),
    ensures
        r is Ok <==> patch_sql(*patch, schemas@) is Some,
        r matches Ok(v) ==> patch_sql(*patch, schemas@) == Some(opt_string_view(v)),
{
    proof {
        reveal_strlit("BEGIN;\n");
        reveal_strlit("COMMIT;\n");
    }
    match &patch.payload {
        None => Ok(None),
        Some(Payload::Deltas(ds)) => {
            let mut body = String::new();
            let mut i: usize = 0;
            while i < ds.len()
                invariant
                    i <= ds@.len(),
                    patch.payload == Some(Payload::Deltas(*ds)),
                    deltas_sql(ds@, schemas@, i as int) is Some,
                    body@ == deltas_sql(ds@, schemas@, i as int)->Some_0,
                decreases ds@.len() - i,
            {
                let si = match find_schema(schemas, &ds[i].table_name) {
                    Some(si) => si,
                    None => {
                        proof {
                            lemma_deltas_none(ds@, schemas@, i as int + 1, ds@.len() as int);
                        }
                        let mut msg = "table '".to_string();
                        push_str(&mut msg, ds[i].table_name.as_str());
                        push_str(&mut msg, "' not found in config");
                        return Err(msg);
                    },
                };
                let ghost before = body@;
                if let Err(e) = delta_to_sql(&ds[i], &schemas[si], &mut body) {
                    proof {
                        lemma_deltas_none(ds@, schemas@, i as int + 1, ds@.len() as int);
                    }
                    return Err(e);
                }
                proof {
                    assert(body@ == deltas_sql(ds@, schemas@, i + 1)->Some_0);
                }
                i += 1;
            }
            let mut sql = String::from_str("BEGIN;\n");
            push_str(&mut sql, body.as_str());
            push_str(&mut sql, "COMMIT;\n");
            Ok(Some(sql))
        },
        Some(Payload::State(st)) => {
            let mut body = String::new();
            let n = st.tables.len();
            proof {
                st.tables.lemma_entries();
            }
            let mut i: usize = 0;
            while i < n
                invariant
                    st.wf(),
                    patch.payload == Some(Payload::State(*st)),
                    n == st.tables.size(),
                    i <= n,
                    tables_sql(st.tables, schemas@, i as int) is Some,
                    body@ == tables_sql(st.tables, schemas@, i as int)->Some_0,
                decreases n - i,
            {
                let (name, table) = st.tables.entry_at(i);
                let si = match find_schema(schemas, name) {
                    Some(si) => si,
                    None => {
                        proof {
                            lemma_tables_none(st.tables, schemas@, i as int + 1, n as int);
                        }
                        let mut msg = "table '".to_string();
                        push_str(&mut msg, name.as_str());
                        push_str(&mut msg, "' not found in config");
                        return Err(msg);
                    },
                };
                if let Err(e) = table_to_sql(name, &table.records, &schemas[si], &mut body) {
                    proof {
                        lemma_tables_none(st.tables, schemas@, i as int + 1, n as int);
                    }
                    return Err(e);
                }
                i += 1;
            }
            let mut sql = String::from_str("BEGIN;\n");
            push_str(&mut sql, body.as_str());
            push_str(&mut sql, "COMMIT;\n");
            Ok(Some(sql))
        },
    }
}

/// The names of the tables that a patch's payload speaks of, in order.
pub open spec fn payload_names(p: Patch) -> Seq<Seq<char>> {
    match p.payload {
        None => Seq::empty(),
        Some(Payload::Deltas(ds)) => ds@.map_values(|d: PatchDelta| d.table_name@),
        Some(Payload::State(st)) => Seq::new(st.tables.size(), |i: int| st.tables.entry(i).0),
    }
}

/// `schemas` holds, in order, the schema that `config` gives each of `names`.
pub open spec fn schemas_for(schemas: Seq<TableSchema>, names: Seq<Seq<char>>, config: Config) -> bool {
    &&& schemas.len() == names.len()
    &&& forall|i: int|
        0 <= i < schemas.len() ==> (#[trigger] schemas[i]).table_name@ == names[i] && resolved_from(
            schemas[i],
            config,
        )
}

/// Converts a patch to SQL, with each table's columns taken from `config`:
/// `None` when the patch carries nothing to apply, else one transaction. It
/// fails exactly when `config` cannot resolve a table of the payload, or a
/// value cannot be written under its column's type.
pub fn patch_to_sql(patch: &Patch, config: &Config) -> (r: Result<Option<String>, String>)
    requires
        patch.payload matches Some(Payload::State(st)) ==> st.wf(),
    ensures
        patch.payload is None ==> r matches Ok(None),
        r matches Ok(v) ==> exists|schemas: Seq<TableSchema>|
            schemas_for(schemas, payload_names(*patch), *config) && patch_sql(*patch, schemas) == Some(
                opt_string_view(v),
            ),
        r is Err ==> (exists|i: int|
            0 <= i < payload_names(*patch).len() && unresolvable(*config, #[trigger] payload_names(*patch)[i]))
            || (exists|schemas: Seq<TableSchema>|
            schemas_for(schemas, payload_names(*patch), *config) && patch_sql(*patch, schemas) is None),
{
    let ghost names = payload_names(*patch);
    let mut schemas: Vec<TableSchema> = Vec::new();
    match &patch.payload {
        None => {},
        Some(Payload::Deltas(ds)) => {
            let mut i: usize = 0;
            while i < ds.len()
                invariant
                    i <= ds@.len(),
                    patch.payload == Some(Payload::Deltas(*ds)),
                    names == payload_names(*patch),
                    names.len() == ds@.len(),
                    schemas@.len() == i,
                    forall|j: int|
                        0 <= j < i ==> (#[trigger] schemas@[j]).table_name@ == names[j] && resolved_from(
                            schemas@[j],
                            *config,
                        ),
                decreases ds@.len() - i,
            {
                assert(names[i as int] == ds@[i as int].table_name@);
                match TableSchema::resolve(&ds[i].table_name, config) {
                    Ok(sc) => schemas.push(sc),
                    Err(e) => {
                        return Err(e);
                    },
                }
                i += 1;
            }
        },
        Some(Payload::State(st)) => {
            let n = st.tables.len();
            let mut i: usize = 0;
            proof {
                st.tables.lemma_entries();
            }
            while i < n
                invariant
                    st.wf(),
                    patch.payload == Some(Payload::State(*st)),
                    names == payload_names(*patch),
                    n == st.tables.size(),
                    names.len() == n,
                    i <= n,
                    schemas@.len() == i,
                    forall|j: int|
                        0 <= j < i ==> (#[trigger] schemas@[j]).table_name@ == names[j] && resolved_from(
                            schemas@[j],
                            *config,
                        ),
                decreases n - i,
            {
                let (name, _table) = st.tables.entry_at(i);
                assert(names[i as int] == name@);
                match TableSchema::resolve(name, config) {
                    Ok(sc) => schemas.push(sc),
                    Err(e) => {
                        return Err(e);
                    },
                }
                i += 1;
            }
        },
    }
    proof {
        assert(schemas_for(schemas@, names, *config));
    }
    render_patch(patch, &schemas)
}
} // verus!
