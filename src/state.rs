use vstd::prelude::*;

use crate::keyed_map::{KeyedMap, Modeled, RecordMap};
use crate::row::{row_clone, rv, RowV};
use crate::config::{FieldConfig, TableConfig};
use crate::error::Error;

verus! {

/// A snapshot of one table.
pub struct Table {
    /// All column names, primary-key columns first.
    pub fields: Vec<String>,
    /// Primary-key tuple to subsidiary tuple.
    pub records: RecordMap,
}

/// The model of a table: its columns and its records.
pub type TableV = (RowV, Map<RowV, RowV>);

impl Modeled for Table {
    type Model = TableV;

    open spec fn model(&self) -> TableV {
        (rv(&self.fields), self.records@)
    }

    open spec fn valid(&self) -> bool {
        self.records.wf()
    }

    fn duplicate(&self) -> (r: Self) {
        Table { fields: row_clone(&self.fields), records: self.records.duplicate() }
    }
}

impl Table {
    /// A table with the given columns and no record.
    pub fn new(fields: Vec<String>) -> (r: Table)
        ensures
            r.valid(),
            r.model() == (rv(&fields), Map::<RowV, RowV>::empty()),
    {
        Table { fields, records: KeyedMap::new() }
    }
}

/// Table name to table snapshot.
pub type TableMap = KeyedMap<String, Table>;

/// A snapshot of every configured table.
pub struct State {
    pub tables: TableMap,
}

impl State {
    pub open spec fn wf(&self) -> bool {
        self.tables.wf()
    }

    /// A state with no table.
    pub fn new() -> (r: State)
        ensures
            r.wf(),
            r.tables@ == Map::<Seq<char>, TableV>::empty(),
    {
        State { tables: KeyedMap::new() }
    }
}

/// The records of table `name` in `s`, or none when `s` lacks the table.
pub open spec fn records_in(s: Option<State>, name: Seq<char>) -> Map<RowV, RowV> {
    match s {
        Some(st) => if st.tables@.contains_key(name) {
            st.tables@[name].1
        } else {
            Map::empty()
        },
        None => Map::empty(),
    }
}

/// Whether `s` holds table `name`.
pub open spec fn has_table(s: Option<State>, name: Seq<char>) -> bool {
    match s {
        Some(st) => st.tables@.contains_key(name),
        None => false,
    }
}


/// The positions among the first `k` fields whose primary-key flag is `pk`.
pub open spec fn positions(fields: Seq<FieldConfig>, pk: bool, k: int) -> Seq<int>
    decreases k,
{
    if k <= 0 {
        Seq::empty()
    } else if fields[k - 1].primary_key == pk {
        positions(fields, pk, k - 1).push(k - 1)
    } else {
        positions(fields, pk, k - 1)
    }
}

/// The values of `row` at positions `idx`.
pub open spec fn pick(row: RowV, idx: Seq<int>) -> RowV {
    Seq::new(idx.len(), |t: int| row[idx[t]])
}

/// The records that the first `k` rows give: primary-key values to the other
/// values, a later row replacing an earlier one with the same key.
pub open spec fn rows_map(rows: Seq<Vec<String>>, pk: Seq<int>, sub: Seq<int>, k: int) -> Map<RowV, RowV>
    decreases k,
{
    if k <= 0 {
        Map::empty()
    } else {
        rows_map(rows, pk, sub, k - 1).insert(pick(rv(&rows[k - 1]), pk), pick(rv(&rows[k - 1]), sub))
    }
}

fn field_positions(fields: &Vec<FieldConfig>, pk: bool) -> (r: Vec<usize>)
    ensures
        r@.map_values(|i: usize| i as int) == positions(fields@, pk, fields@.len() as int),
        forall|t: int| 0 <= t < r@.len() ==> (#[trigger] r@[t]) < fields@.len(),
{
    let mut r: Vec<usize> = Vec::new();
    let mut i: usize = 0;
    while i < fields.len()
        invariant
            i <= fields@.len(),
            r@.map_values(|x: usize| x as int) == positions(fields@, pk, i as int),
            forall|t: int| 0 <= t < r@.len() ==> (#[trigger] r@[t]) < i,
        decreases fields@.len() - i,
    {
        let ghost before = r@;
        if fields[i].primary_key == pk {
            r.push(i);
            proof {
                assert(r@.map_values(|x: usize| x as int) =~= before.map_values(|x: usize| x as int).push(i as int));
            }
        }
        i += 1;
    }
    r
}

fn pick_values(row: &Vec<String>, idx: &Vec<usize>) -> (r: Vec<String>)
    requires
        forall|t: int| 0 <= t < idx@.len() ==> (#[trigger] idx@[t]) < row@.len(),
    ensures
        rv(&r) == pick(rv(row), idx@.map_values(|i: usize| i as int)),
{
    let mut r: Vec<String> = Vec::new();
    let mut t: usize = 0;
    while t < idx.len()
        invariant
            t <= idx@.len(),
            forall|u: int| 0 <= u < idx@.len() ==> (#[trigger] idx@[u]) < row@.len(),
            r@.len() == t,
            forall|u: int| 0 <= u < t ==> (#[trigger] r@[u])@ == row@[idx@[u] as int]@,
        decreases idx@.len() - t,
    {
        r.push(row[idx[t]].clone());
        t += 1;
    }
    assert(rv(&r) =~= pick(rv(row), idx@.map_values(|i: usize| i as int)));
    r
}

impl Table {
    /// The table that the data rows of source `table_name` give under
    /// `config`: primary-key columns first, then the others, each in
    /// configured order. A row with another number of values than there are
    /// fields is refused; a later row replaces an earlier one with the same
    /// key.
    pub fn from_rows(table_name: &String, config: &TableConfig, rows: Vec<Vec<String>>) -> (r: Result<Table, Error>)
        ensures
            r is Ok <==> forall|j: int| 0 <= j < rows@.len() ==> (#[trigger] rows@[j])@.len() == config.fields@.len(),
            r matches Ok(t) ==> {
                let pk = positions(config.fields@, true, config.fields@.len() as int);
                let sub = positions(config.fields@, false, config.fields@.len() as int);
                &&& t.valid()
                &&& t.records@ == rows_map(rows@, pk, sub, rows@.len() as int)
                &&& rv(&t.fields) == pick(config.fields@.map_values(|f: FieldConfig| f.name@), pk) + pick(
                    config.fields@.map_values(|f: FieldConfig| f.name@),
                    sub,
                )
            },
            r matches Err(e) ==> (e matches Error::RowArityMismatch { table, row, got, expected } && table@
                == table_name@ && 1 <= row <= rows@.len() && got == rows@[row - 1]@.len() && expected
                == config.fields@.len() && got != expected),
    {
        let n = config.fields.len();
        let pk_idx = field_positions(&config.fields, true);
        let sub_idx = field_positions(&config.fields, false);
        let ghost pk = positions(config.fields@, true, n as int);
        let ghost sub = positions(config.fields@, false, n as int);
        let names = config.field_names();
        proof {
            assert(rv(&names) =~= config.fields@.map_values(|f: FieldConfig| f.name@));
        }
        let mut fields = pick_values(&names, &pk_idx);
        let sub_names = pick_values(&names, &sub_idx);
        let ghost f1 = rv(&fields);
        let mut t: usize = 0;
        while t < sub_names.len()
            invariant
                t <= sub_names@.len(),
                fields@.len() == f1.len() + t,
                forall|u: int| 0 <= u < f1.len() ==> (#[trigger] fields@[u])@ == f1[u],
                forall|u: int| f1.len() <= u < f1.len() + t ==> (#[trigger] fields@[u])@ == sub_names@[u - f1.len()]@,
            decreases sub_names@.len() - t,
        {
            fields.push(sub_names[t].clone());
            t += 1;
        }
        proof {
            assert(rv(&fields) =~= f1 + rv(&sub_names));
        }
        let mut records: RecordMap = KeyedMap::new();
        let mut j: usize = 0;
        while j < rows.len()
            invariant
                j <= rows@.len(),
                n == config.fields@.len(),
                pk == pk_idx@.map_values(|i: usize| i as int),
                sub == sub_idx@.map_values(|i: usize| i as int),
                forall|u: int| 0 <= u < pk_idx@.len() ==> (#[trigger] pk_idx@[u]) < n,
                forall|u: int| 0 <= u < sub_idx@.len() ==> (#[trigger] sub_idx@[u]) < n,
                records.wf(),
                records@ == rows_map(rows@, pk, sub, j as int),
                forall|u: int| 0 <= u < j ==> (#[trigger] rows@[u])@.len() == n,
            decreases rows@.len() - j,
        {
            let row = &rows[j];
            if row.len() != n {
                return Err(Error::RowArityMismatch {
                    table: table_name.clone(),
                    row: j + 1,
                    got: row.len(),
                    expected: n,
                });
            }
            let key = pick_values(row, &pk_idx);
            let value = pick_values(row, &sub_idx);
            records.insert(key, value);
            j += 1;
        }
        Ok(Table { fields, records })
    }
}
} // verus!
