use vstd::prelude::*;
use vstd::string::*;

use crate::text::push_str;

verus! {

/// Truncation limits of the block chain.
pub struct TruncateConfig {
    /// Keep at most this many blocks (at least 1).
    pub max_blocks: Option<u32>,
    /// Remove blocks older than this duration (value and unit suffix).
    pub max_age: Option<String>,
}

/// One column of a configured table.
pub struct FieldConfig {
    pub name: String,
    /// The column's SQL type name.
    pub field_type: String,
    /// Whether the column belongs to the primary key.
    pub primary_key: bool,
    /// Date or time format of the column, if any.
    pub format: Option<String>,
}

/// A configured table: its source file and its columns.
pub struct TableConfig {
    pub source: String,
    /// Whether the source's first line is a header to skip.
    pub header: bool,
    pub fields: Vec<FieldConfig>,
}

/// The validated configuration that every operation consults.
pub struct Config {
    pub work_dir: String,
    pub compression: bool,
    pub compression_level: i32,
    /// Table name and configuration, one entry per table.
    pub tables: Vec<(String, TableConfig)>,
    pub truncate: Option<TruncateConfig>,
}

impl TableConfig {
    /// The names of all fields, in configured order.
    pub fn field_names(&self) -> (r: Vec<String>)
        ensures
            r@.len() == self.fields@.len(),
            forall|i: int| 0 <= i < r@.len() ==> (#[trigger] r@[i])@ == self.fields@[i].name@,
    {
        let mut r: Vec<String> = Vec::new();
        let mut i: usize = 0;
        while i < self.fields.len()
            invariant
                i <= self.fields@.len(),
                r@.len() == i,
                forall|j: int| 0 <= j < i ==> (#[trigger] r@[j])@ == self.fields@[j].name@,
            decreases self.fields@.len() - i,
        {
            r.push(self.fields[i].name.clone());
            i += 1;
        }
        r
    }

    /// The names of the primary-key fields, in configured order.
    pub fn primary_key(&self) -> (r: Vec<String>)
        ensures
            r@.map_values(|s: String| s@) == self.fields@.filter(|f: FieldConfig| f.primary_key).map_values(
                |f: FieldConfig| f.name@,
            ),
    {
        let mut r: Vec<String> = Vec::new();
        let mut i: usize = 0;
        while i < self.fields.len()
            invariant
                i <= self.fields@.len(),
                r@.map_values(|s: String| s@) == self.fields@.subrange(0, i as int).filter(
                    |f: FieldConfig| f.primary_key,
                ).map_values(|f: FieldConfig| f.name@),
            decreases self.fields@.len() - i,
        {
            let ghost before = r@;
            proof {
                reveal(Seq::filter);
                assert(self.fields@.subrange(0, i + 1).drop_last() =~= self.fields@.subrange(0, i as int));
            }
            let ghost sub = self.fields@.subrange(0, i + 1);
            proof {
                assert(sub.last() == self.fields@[i as int]);
                assert(sub.drop_last() =~= self.fields@.subrange(0, i as int));
            }
            if self.fields[i].primary_key {
                r.push(self.fields[i].name.clone());
                proof {
                    assert(sub.filter(|f: FieldConfig| f.primary_key) == self.fields@.subrange(0, i as int).filter(
                        |f: FieldConfig| f.primary_key,
                    ).push(self.fields@[i as int]));
                    assert(r@.map_values(|s: String| s@) =~= before.map_values(|s: String| s@).push(
                        self.fields@[i as int].name@,
                    ));
                    assert(self.fields@.subrange(0, i as int).filter(|f: FieldConfig| f.primary_key).push(
                        self.fields@[i as int],
                    ).map_values(|f: FieldConfig| f.name@) =~= self.fields@.subrange(0, i as int).filter(
                        |f: FieldConfig| f.primary_key,
                    ).map_values(|f: FieldConfig| f.name@).push(self.fields@[i as int].name@));
                }
            } else {
                proof {
                    assert(sub.filter(|f: FieldConfig| f.primary_key) == self.fields@.subrange(0, i as int).filter(
                        |f: FieldConfig| f.primary_key,
                    ));
                }
            }
            proof {
                assert(r@.map_values(|s: String| s@) =~= self.fields@.subrange(0, i + 1).filter(
                    |f: FieldConfig| f.primary_key,
                ).map_values(|f: FieldConfig| f.name@));
            }
            i += 1;
        }
        proof {
            assert(self.fields@.subrange(0, self.fields@.len() as int) =~= self.fields@);
        }
        r
    }

    /// The type names of all fields, in configured order.
    pub fn field_types(&self) -> (r: Vec<String>)
        ensures
            r@.len() == self.fields@.len(),
            forall|i: int| 0 <= i < r@.len() ==> (#[trigger] r@[i])@ == self.fields@[i].field_type@,
    {
        let mut r: Vec<String> = Vec::new();
        let mut i: usize = 0;
        while i < self.fields.len()
            invariant
                i <= self.fields@.len(),
                r@.len() == i,
                forall|j: int| 0 <= j < i ==> (#[trigger] r@[j])@ == self.fields@[j].field_type@,
            decreases self.fields@.len() - i,
        {
            r.push(self.fields[i].field_type.clone());
            i += 1;
        }
        r
    }

    /// The formats of all fields, in configured order.
    pub fn field_formats(&self) -> (r: Vec<Option<String>>)
        ensures
            r@.len() == self.fields@.len(),
            forall|i: int|
                0 <= i < r@.len() ==> match (#[trigger] r@[i], self.fields@[i].format) {
                    (Some(a), Some(b)) => a@ == b@,
                    (None, None) => true,
                    _ => false,
                },
    {
        let mut r: Vec<Option<String>> = Vec::new();
        let mut i: usize = 0;
        while i < self.fields.len()
            invariant
                i <= self.fields@.len(),
                r@.len() == i,
                forall|j: int|
                    0 <= j < i ==> match (#[trigger] r@[j], self.fields@[j].format) {
                        (Some(a), Some(b)) => a@ == b@,
                        (None, None) => true,
                        _ => false,
                    },
            decreases self.fields@.len() - i,
        {
            let f = match &self.fields[i].format {
                Some(s) => Some(s.clone()),
                None => None,
            };
            r.push(f);
            i += 1;
        }
        r
    }
}

pub open spec fn is_digit(c: char) -> bool {
    '0' <= c && c <= '9'
}

/// The value of a string of decimal digits.
pub open spec fn digits_value(s: Seq<char>) -> nat
    decreases s.len(),
{
    if s.len() == 0 {
        0
    } else {
        digits_value(s.drop_last()) * 10 + (s.last() as nat - '0' as nat) as nat
    }
}

/// `s` without a leading `+`.
pub open spec fn strip_plus(s: Seq<char>) -> Seq<char> {
    if s.len() > 0 && s[0] == '+' {
        s.drop_first()
    } else {
        s
    }
}

/// The value of an unsigned decimal number: an optional `+` and at least one
/// digit.
pub open spec fn unsigned_text(s: Seq<char>) -> Option<nat> {
    let d = strip_plus(s);
    if d.len() > 0 && (forall|i: int| 0 <= i < d.len() ==> is_digit(#[trigger] d[i])) {
        Some(digits_value(d))
    } else {
        None
    }
}

/// Seconds in one unit of the duration suffix `c`.
pub open spec fn unit_seconds(c: char) -> Option<nat> {
    if c == 's' {
        Some(1)
    } else if c == 'm' {
        Some(60)
    } else if c == 'h' {
        Some(3600)
    } else if c == 'd' {
        Some(86400)
    } else if c == 'w' {
        Some(604800)
    } else {
        None
    }
}

/// The number of seconds that a duration text such as `12h` stands for.
pub open spec fn duration_seconds(s: Seq<char>) -> Option<nat> {
    if s.len() == 0 {
        None
    } else {
        match (unsigned_text(s.drop_last()), unit_seconds(s.last())) {
            (Some(v), Some(u)) => if v * u <= u64::MAX {
                Some(v * u)
            } else {
                None
            },
            _ => None,
        }
    }
}

fn unit_of(c: char) -> (r: Option<u64>)
    ensures
        r matches Some(u) ==> unit_seconds(c) == Some(u as nat),
        r is None ==> unit_seconds(c) is None,
{
    if c == 's' {
        Some(1)
    } else if c == 'm' {
        Some(60)
    } else if c == 'h' {
        Some(3600)
    } else if c == 'd' {
        Some(86400)
    } else if c == 'w' {
        Some(604800)
    } else {
        None
    }
}

proof fn lemma_digits_step(s: Seq<char>, i: int)
    requires
        0 <= i < s.len(),
    ensures
        digits_value(s.subrange(0, i + 1)) == digits_value(s.subrange(0, i)) * 10 + (s[i] as nat
            - '0' as nat) as nat,
{
    assert(s.subrange(0, i + 1).drop_last() =~= s.subrange(0, i));
}

/// Parses a duration such as `30s`, `5m`, `12h`, `7d` or `2w` into seconds.
pub fn parse_duration(s: &str) -> (r: Result<u64, String>)
    ensures
        r is Ok <==> duration_seconds(s@) is Some,
        r matches Ok(v) ==> v as nat == duration_seconds(s@)->Some_0,
{
    let n = s.unicode_len();
    if n == 0 {
        return Err("empty duration string".to_string());
    }
    let unit = match unit_of(s.get_char(n - 1)) {
        Some(u) => u,
        None => {
            return Err("invalid duration suffix".to_string());
        },
    };
    let ghost num = s@.drop_last();
    let mut start: usize = 0;
    if n > 1 && s.get_char(0) == '+' {
        start = 1;
    }
    let ghost d = strip_plus(num);
    assert(d =~= s@.subrange(start as int, n - 1));
    if start >= n - 1 {
        proof {
            assert(d.len() == 0);
            assert(unsigned_text(num) is None);
            assert(num == s@.drop_last());
        }
        return Err("invalid duration".to_string());
    }
    let mut value: u64 = 0;
    let mut overflow = false;
    let mut i: usize = start;
    while i < n - 1
        invariant
            n == s@.len(),
            start <= i <= n - 1,
            d == s@.subrange(start as int, n - 1),
            num == s@.drop_last(),
            d == strip_plus(num),
            !overflow ==> value as nat == digits_value(d.subrange(0, i - start)),
            overflow ==> digits_value(d.subrange(0, i - start)) > u64::MAX,
            forall|j: int| start <= j < i ==> is_digit(#[trigger] s@[j]),
        decreases n - 1 - i,
    {
        let c = s.get_char(i);
        if !('0' <= c && c <= '9') {
            proof {
                assert(0 <= i - start < d.len());
                assert(d[i - start] == c);
                assert(!is_digit(d[i - start]));
                assert(!(forall|j: int| 0 <= j < d.len() ==> is_digit(#[trigger] d[j])));
                assert(unsigned_text(num) is None);
            }
            return Err("invalid duration".to_string());
        }
        let digit = (c as u32 - '0' as u32) as u64;
        proof {
            lemma_digits_step(d, i - start);
            assert(d.subrange(0, i - start + 1)[i - start] == c);
        }
        if !overflow {
            match value.checked_mul(10) {
                Some(t) => match t.checked_add(digit) {
                    Some(v) => {
                        value = v;
                    },
                    None => {
                        overflow = true;
                    },
                },
                None => {
                    overflow = true;
                    proof {
                        assert(digits_value(d.subrange(0, i - start)) * 10 > u64::MAX);
                    }
                },
            }
        } else {
            proof {
                assert(digits_value(d.subrange(0, i - start)) * 10 >= digits_value(d.subrange(0, i - start)))
                    by (nonlinear_arith);
            }
        }
        i += 1;
    }
    proof {
        assert(d.subrange(0, d.len() as int) =~= d);
        assert forall|j: int| 0 <= j < d.len() implies is_digit(#[trigger] d[j]) by {
            assert(d[j] == s@[start + j]);
        }
    }
    if overflow {
        proof {
            assert(unit_seconds(s@.last()) is Some);
            assert(digits_value(d) * (unit as nat) >= digits_value(d)) by (nonlinear_arith)
                requires unit >= 1;
        }
        return Err("duration too large".to_string());
    }
    match value.checked_mul(unit) {
        Some(v) => Ok(v),
        None => Err("duration too large".to_string()),
    }
}


/// A table has a primary key and no two fields of one name.
pub open spec fn table_valid(t: TableConfig) -> bool {
    &&& exists|i: int| 0 <= i < t.fields@.len() && (#[trigger] t.fields@[i]).primary_key
    &&& forall|i: int, j: int|
        0 <= i < j < t.fields@.len() ==> (#[trigger] t.fields@[i]).name@ != (#[trigger] t.fields@[j]).name@
}

/// What the configuration must satisfy before any operation consults it.
pub open spec fn config_valid(c: Config) -> bool {
    &&& forall|i: int| 0 <= i < c.tables@.len() ==> table_valid(#[trigger] c.tables@[i].1)
    &&& match c.truncate {
        Some(t) => t.max_blocks != Some(0u32) && match t.max_age {
            Some(a) => duration_seconds(a@) is Some,
            None => true,
        },
        None => true,
    }
}

fn check_table(name: &String, t: &TableConfig) -> (r: Result<(), String>)
    ensures
        r is Ok <==> table_valid(*t),
{
    let mut has_pk = false;
    let mut i: usize = 0;
    while i < t.fields.len()
        invariant
            i <= t.fields@.len(),
            has_pk == exists|j: int| 0 <= j < i && (#[trigger] t.fields@[j]).primary_key,
        decreases t.fields@.len() - i,
    {
        if t.fields[i].primary_key {
            has_pk = true;
        }
        i += 1;
    }
    if !has_pk {
        let mut msg = "table '".to_string();
        push_str(&mut msg, name.as_str());
        push_str(&mut msg, "': at least one field must be marked as primary-key");
        return Err(msg);
    }
    let mut i: usize = 0;
    while i < t.fields.len()
        invariant
            i <= t.fields@.len(),
            forall|a: int, b: int|
                0 <= a < b < t.fields@.len() && a < i ==> (#[trigger] t.fields@[a]).name@ != (#[trigger] t.fields@[b]).name@,
        decreases t.fields@.len() - i,
    {
        let mut j: usize = i + 1;
        while j < t.fields.len()
            invariant
                i < t.fields@.len(),
                i + 1 <= j <= t.fields@.len(),
                forall|a: int, b: int|
                    0 <= a < b < t.fields@.len() && a < i ==> (#[trigger] t.fields@[a]).name@ != (#[trigger] t.fields@[b]).name@,
                forall|b: int| i < b < j ==> t.fields@[i as int].name@ != (#[trigger] t.fields@[b]).name@,
            decreases t.fields@.len() - j,
        {
            if t.fields[i].name == t.fields[j].name {
                let mut msg = "table '".to_string();
                push_str(&mut msg, name.as_str());
                push_str(&mut msg, "': duplicate field name '");
                push_str(&mut msg, t.fields[j].name.as_str());
                push_str(&mut msg, "'");
                return Err(msg);
            }
            j += 1;
        }
        i += 1;
    }
    Ok(())
}

impl Config {
    /// Checks the rules every configuration must meet: each table has a
    /// primary key and unique field names, the block cap is at least 1, and
    /// the maximum age is a valid duration.
    pub fn validate(&self) -> (r: Result<(), String>)
        ensures
            r is Ok <==> config_valid(*self),
    {
        let mut i: usize = 0;
        while i < self.tables.len()
            invariant
                i <= self.tables@.len(),
                forall|j: int| 0 <= j < i ==> table_valid(#[trigger] self.tables@[j].1),
            decreases self.tables@.len() - i,
        {
            if let Err(e) = check_table(&self.tables[i].0, &self.tables[i].1) {
                return Err(e);
            }
            i += 1;
        }
        if let Some(t) = &self.truncate {
            if let Some(m) = t.max_blocks {
                if m < 1 {
                    return Err("truncate.max-blocks must be >= 1".to_string());
                }
            }
            if let Some(age) = &t.max_age {
                if let Err(e) = parse_duration(age.as_str()) {
                    let mut msg = "truncate.max-age: ".to_string();
                    push_str(&mut msg, e.as_str());
                    return Err(msg);
                }
            }
        }
        Ok(())
    }
}
} // verus!
