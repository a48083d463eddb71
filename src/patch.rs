use vstd::prelude::*;

use crate::block::{Block, Timestamp};
use crate::delta::Delta;
use crate::error::Error;
use crate::keyed_map::{KeyedMap, Modeled, RecordMap, UpdateMap};
use crate::row::{row_clone, rv, RowV};
use crate::state::State;
use crate::truncate::{block_name, is_block_name};

verus! {

/// An update on the wire: only the columns that changed, by position.
pub struct SparseUpdate {
    pub key: Vec<String>,
    /// Positions of the changed subsidiary columns, ascending.
    pub changed_indices: Vec<u32>,
    /// The new values at those positions.
    pub new_value: Vec<String>,
}

/// A merged delta as a patch carries it: deletes without their old values,
/// updates in sparse form.
pub struct PatchDelta {
    pub table_name: String,
    pub column_names: Vec<String>,
    pub inserts: Vec<(Vec<String>, Vec<String>)>,
    pub deletes: Vec<Vec<String>>,
    pub updates: Vec<SparseUpdate>,
}

/// What a patch carries.
pub enum Payload {
    /// The merged deltas, at most one per table.
    Deltas(Vec<PatchDelta>),
    /// A full snapshot of every table.
    State(State),
}

/// The difference between a block the receiver knows and the current head.
pub struct Patch {
    pub head_hash: String,
    pub head_created: Option<Timestamp>,
    /// How many blocks were consolidated.
    pub num_blocks: u32,
    /// `None` when there is nothing to apply.
    pub payload: Option<Payload>,
}

/// The positions below `k` at which `o` and `n` differ, ascending.
pub open spec fn changed_upto(o: RowV, n: RowV, k: int) -> Seq<int>
    decreases k,
{
    if k <= 0 {
        Seq::empty()
    } else if o[k - 1] != n[k - 1] {
        changed_upto(o, n, k - 1).push(k - 1)
    } else {
        changed_upto(o, n, k - 1)
    }
}

/// The sparse form of the update `(old, new)`: the positions at which they
/// differ, and the new values there.
pub fn sparse_update(old: &Vec<String>, new: &Vec<String>) -> (r: (Vec<u32>, Vec<String>))
    requires
        old@.len() == new@.len(),
        old@.len() <= u32::MAX,
    ensures
        r.0@.len() == r.1@.len(),
        r.0@.map_values(|i: u32| i as int) == changed_upto(rv(old), rv(new), old@.len() as int),
        forall|t: int| 0 <= t < r.1@.len() ==> (#[trigger] r.1@[t])@ == new@[r.0@[t] as int]@,
        forall|t: int| 0 <= t < r.0@.len() ==> (#[trigger] r.0@[t]) < old@.len(),
{
    let mut indices: Vec<u32> = Vec::new();
    let mut values: Vec<String> = Vec::new();
    let mut i: usize = 0;
    while i < old.len()
        invariant
            old@.len() == new@.len(),
            old@.len() <= u32::MAX,
            i <= old@.len(),
            indices@.len() == values@.len(),
            indices@.map_values(|x: u32| x as int) == changed_upto(rv(old), rv(new), i as int),
            forall|t: int| 0 <= t < values@.len() ==> (#[trigger] values@[t])@ == new@[indices@[t] as int]@,
            forall|t: int| 0 <= t < indices@.len() ==> (#[trigger] indices@[t]) < i,
        decreases old@.len() - i,
    {
        let ghost before = indices@;
        if old[i] != new[i] {
            indices.push(i as u32);
            values.push(new[i].clone());
            proof {
                assert(rv(old)[i as int] != rv(new)[i as int]);
                assert(indices@.map_values(|x: u32| x as int) =~= before.map_values(|x: u32| x as int).push(
                    i as int,
                ));
            }
        } else {
            proof {
                assert(rv(old)[i as int] == rv(new)[i as int]);
            }
        }
        i += 1;
    }
    (indices, values)
}

/// The full row that a sparse update stands for: without positions, the
/// values as they are; else `num_values` empty strings, with the values put
/// at their positions one pair after the other.
pub open spec fn expanded(indices: Seq<u32>, values: RowV, num_values: nat) -> RowV {
    if indices.len() == 0 {
        values
    } else {
        filled(indices, values, num_values, if indices.len() < values.len() {
            indices.len() as int
        } else {
            values.len() as int
        })
    }
}

/// `num_values` empty strings with the first `k` pairs put in place.
pub open spec fn filled(indices: Seq<u32>, values: RowV, num_values: nat, k: int) -> RowV
    decreases k,
{
    if k <= 0 {
        Seq::new(num_values, |i: int| Seq::<char>::empty())
    } else {
        filled(indices, values, num_values, k - 1).update(indices[k - 1] as int, values[k - 1])
    }
}

proof fn lemma_filled_len(indices: Seq<u32>, values: RowV, num_values: nat, k: int)
    requires
        k <= indices.len(),
        forall|u: int| 0 <= u < k ==> (#[trigger] indices[u]) < num_values,
    ensures
        filled(indices, values, num_values, k).len() == num_values,
    decreases k,
{
    if k > 0 {
        lemma_filled_len(indices, values, num_values, k - 1);
    }
}

/// Position by position, what the first `k` pairs put in place.
proof fn lemma_filled_at(indices: Seq<u32>, values: RowV, num_values: nat, k: int)
    requires
        0 <= k <= indices.len(),
        k <= values.len(),
        forall|t: int| 0 <= t < indices.len() ==> (#[trigger] indices[t]) < num_values,
        forall|t: int, u: int| 0 <= t < u < indices.len() ==> (#[trigger] indices[t]) < (#[trigger] indices[u]),
    ensures
        filled(indices, values, num_values, k).len() == num_values,
        forall|j: int| 0 <= j < k ==> filled(indices, values, num_values, k)[#[trigger] indices[j] as int] == values[j],
        forall|i: int|
            0 <= i < num_values && (forall|j: int| 0 <= j < k ==> #[trigger] indices[j] != i) ==> filled(
                indices,
                values,
                num_values,
                k,
            )[i] == Seq::<char>::empty(),
    decreases k,
{
    lemma_filled_len(indices, values, num_values, k);
    if k > 0 {
        lemma_filled_at(indices, values, num_values, k - 1);
        assert forall|j: int| 0 <= j < k implies filled(indices, values, num_values, k)[#[trigger] indices[j] as int]
            == values[j] by {
            if j < k - 1 {
                assert(indices[j] < indices[k - 1]);
            }
        }
    }
}

/// Expands sparse values back to a full row; positions that no pair names
/// hold empty strings.
pub fn expand_sparse(changed_indices: &Vec<u32>, sparse_values: &Vec<String>, num_values: usize) -> (r:
    Vec<String>)
    requires
        forall|t: int|
            0 <= t < changed_indices@.len() && t < sparse_values@.len() ==> (#[trigger] changed_indices@[t])
                < num_values,
    ensures
        rv(&r) == expanded(changed_indices@, rv(sparse_values), num_values as nat),
        changed_indices@.len() > 0 && changed_indices@.len() == sparse_values@.len() && (forall|t: int, u: int|
            0 <= t < u < changed_indices@.len() ==> (#[trigger] changed_indices@[t]) < (#[trigger] changed_indices@[u]))
            ==> {
            &&& r@.len() == num_values
            &&& forall|j: int|
                0 <= j < changed_indices@.len() ==> r@[#[trigger] changed_indices@[j] as int]@ == sparse_values@[j]@
            &&& forall|i: int|
                0 <= i < num_values && (forall|j: int| 0 <= j < changed_indices@.len() ==> #[trigger] changed_indices@[j] != i)
                    ==> r@[i]@ == Seq::<char>::empty()
        },
{
    if changed_indices.len() == 0 {
        return row_clone(sparse_values);
    }
    let mut full: Vec<String> = Vec::new();
    let mut i: usize = 0;
    while i < num_values
        invariant
            i <= num_values,
            full@.len() == i,
            forall|j: int| 0 <= j < i ==> (#[trigger] full@[j])@ == Seq::<char>::empty(),
        decreases num_values - i,
    {
        full.push(String::new());
        i += 1;
    }
    let m = if changed_indices.len() < sparse_values.len() {
        changed_indices.len()
    } else {
        sparse_values.len()
    };
    proof {
        assert(rv(&full) =~= filled(changed_indices@, rv(sparse_values), num_values as nat, 0));
    }
    let mut t: usize = 0;
    while t < m
        invariant
            t <= m,
            m <= changed_indices@.len(),
            m <= sparse_values@.len(),
            forall|u: int|
                0 <= u < changed_indices@.len() && u < sparse_values@.len() ==> (#[trigger] changed_indices@[u])
                    < num_values,
            rv(&full) == filled(changed_indices@, rv(sparse_values), num_values as nat, t as int),
            full@.len() == num_values,
        decreases m - t,
    {
        let idx = changed_indices[t] as usize;
        full.set(idx, sparse_values[t].clone());
        proof {
            lemma_filled_len(changed_indices@, rv(sparse_values), num_values as nat, t as int);
            assert(rv(&full) =~= filled(changed_indices@, rv(sparse_values), num_values as nat, t + 1));
        }
        t += 1;
    }
    proof {
        if changed_indices@.len() > 0 && changed_indices@.len() == sparse_values@.len() && (forall|t: int, u: int|
            0 <= t < u < changed_indices@.len() ==> (#[trigger] changed_indices@[t]) < (#[trigger] changed_indices@[u])) {
            lemma_filled_at(changed_indices@, rv(sparse_values), num_values as nat, m as int);
            assert forall|j: int| 0 <= j < changed_indices@.len() implies full@[#[trigger] changed_indices@[j] as int]@
                == sparse_values@[j]@ by {
                assert(rv(&full)[changed_indices@[j] as int] == full@[changed_indices@[j] as int]@);
            }
            assert forall|i: int|
                0 <= i < num_values && (forall|j: int| 0 <= j < changed_indices@.len() ==> #[trigger] changed_indices@[j] != i)
                implies full@[i]@ == Seq::<char>::empty() by {
                assert(rv(&full)[i] == full@[i]@);
            }
        }
    }
    full
}


/// The all-zero hash that stands for "before any block".
pub open spec fn genesis() -> Seq<char> {
    Seq::new(40, |i: int| '0')
}

/// The genesis hash.
pub fn genesis_hash() -> (r: String)
    ensures
        r@ == genesis(),
{
    let r = "0000000000000000000000000000000000000000".to_string();
    proof {
        reveal_strlit("0000000000000000000000000000000000000000");
        assert(r@ =~= genesis());
    }
    r
}

/// Whether `s` begins with `prefix`.
pub open spec fn has_prefix(s: Seq<char>, prefix: Seq<char>) -> bool {
    prefix.len() <= s.len() && s.subrange(0, prefix.len() as int) == prefix
}

/// Whether `s` begins with `prefix`.
pub fn starts_with(s: &String, prefix: &String) -> (r: bool)
    ensures
        r == has_prefix(s@, prefix@),
{
    let a = s.as_str();
    let b = prefix.as_str();
    let n = b.unicode_len();
    if n > a.unicode_len() {
        return false;
    }
    let mut i: usize = 0;
    while i < n
        invariant
            n == prefix@.len(),
            n <= s@.len(),
            a@ == s@,
            b@ == prefix@,
            i <= n,
            forall|j: int| 0 <= j < i ==> s@[j] == prefix@[j],
        decreases n - i,
    {
        if a.get_char(i) != b.get_char(i) {
            proof {
                assert(s@.subrange(0, n as int)[i as int] == s@[i as int]);
            }
            return false;
        }
        i += 1;
    }
    proof {
        assert(s@.subrange(0, n as int) =~= prefix@);
    }
    true
}

/// What the walk from the head toward the receiver's block does next.
pub enum WalkStep {
    /// Load the block with this hash and merge it in.
    Load(String),
    /// The receiver's block is reached.
    Done,
    /// The walk reached genesis without meeting the receiver's block.
    NotInChain,
}

/// The next step of the walk, standing at `current_hash`.
pub fn walk_step(current_hash: &String, last_known: &String) -> (r: WalkStep)
    ensures
        r is Done <==> has_prefix(current_hash@, last_known@),
        r is NotInChain <==> !has_prefix(current_hash@, last_known@) && current_hash@ == genesis(),
        r matches WalkStep::Load(h) ==> h@ == current_hash@,
{
    if starts_with(current_hash, last_known) {
        WalkStep::Done
    } else if *current_hash == genesis_hash() {
        WalkStep::NotInChain
    } else {
        WalkStep::Load(current_hash.clone())
    }
}

/// Folds the next older block into the blocks merged so far: the older block
/// is the parent of `merged`, which comes after it. Returns the merged block
/// and the hash to visit next.
pub fn absorb(older: Block, merged: Block) -> (r: Result<(Block, String), Error>)
    requires
        older.wf(),
        merged.wf(),
        Block::widths_agree(older.payload@, merged.payload@),
    ensures
        r is Ok <==> Block::mergeable(older.payload@, merged.payload@),
        r matches Ok((b, next)) ==> next@ == older.parent@ && b.wf() && b.parent == older.parent
            && b.created == older.created && Block::payload_merge(b.payload@, older.payload@, merged.payload@),
{
    let next = older.parent.clone();
    match older.merge(merged) {
        Ok(b) => Ok((b, next)),
        Err(e) => Err(e),
    }
}

/// A merged delta in the form a patch carries it.
pub fn to_patch_delta(d: Delta) -> (r: PatchDelta)
    requires
        d.wf(),
        forall|k: RowV| #[trigger] d.updates@.contains_key(k) ==> d.updates@[k].0.len() == d.updates@[k].1.len()
            && d.updates@[k].0.len() <= u32::MAX,
    ensures
        r.table_name@ == d.table_name@,
        rv(&r.column_names) == rv(&d.column_names),
        r.inserts@.len() == d.inserts@.dom().len(),
        forall|t: int|
            0 <= t < r.inserts@.len() ==> d.inserts@.contains_key(rv(&(#[trigger] r.inserts@[t]).0))
                && d.inserts@[rv(&r.inserts@[t].0)] == rv(&r.inserts@[t].1),
        r.deletes@.len() == d.deletes@.dom().len(),
        forall|t: int| 0 <= t < r.deletes@.len() ==> d.deletes@.contains_key(rv(&#[trigger] r.deletes@[t])),
        r.updates@.len() == d.updates@.dom().len(),
        forall|t: int|
            0 <= t < r.updates@.len() ==> {
                let u = #[trigger] r.updates@[t];
                let k = rv(&u.key);
                &&& d.updates@.contains_key(k)
                &&& u.changed_indices@.map_values(|x: u32| x as int) == changed_upto(
                    d.updates@[k].0,
                    d.updates@[k].1,
                    d.updates@[k].0.len() as int,
                )
                &&& u.new_value@.len() == u.changed_indices@.len()
                &&& forall|v: int|
                    0 <= v < u.new_value@.len() ==> (#[trigger] u.new_value@[v])@ == d.updates@[k].1[u.changed_indices@[v] as int]
            },
        forall|k: RowV| #[trigger] d.inserts@.contains_key(k) ==> exists|t: int|
            0 <= t < r.inserts@.len() && rv(&r.inserts@[t].0) == k,
        forall|k: RowV| #[trigger] d.deletes@.contains_key(k) ==> exists|t: int|
            0 <= t < r.deletes@.len() && rv(&r.deletes@[t]) == k,
        forall|k: RowV| #[trigger] d.updates@.contains_key(k) ==> exists|t: int|
            0 <= t < r.updates@.len() && rv(&r.updates@[t].key) == k,
{
    proof {
        d.inserts.lemma_entries();
        d.deletes.lemma_entries();
        d.updates.lemma_entries();
    }
    let mut inserts: Vec<(Vec<String>, Vec<String>)> = Vec::new();
    let mut i: usize = 0;
    while i < d.inserts.len()
        invariant
            d.wf(),
            i <= d.inserts@.dom().len(),
            d.inserts.size() == d.inserts@.dom().len(),
            inserts@.len() == i,
            forall|t: int| 0 <= t < i ==> rv(&(#[trigger] inserts@[t]).0) == d.inserts.entry(t).0,
            forall|t: int|
                0 <= t < inserts@.len() ==> d.inserts@.contains_key(rv(&(#[trigger] inserts@[t]).0))
                    && d.inserts@[rv(&inserts@[t].0)] == rv(&inserts@[t].1),
        decreases d.inserts@.dom().len() - i,
    {
        proof {
            d.inserts.lemma_entries();
        }
        let (k, v) = d.inserts.entry_at(i);
        inserts.push((row_clone(k), row_clone(v)));
        i += 1;
    }
    let mut deletes: Vec<Vec<String>> = Vec::new();
    let mut i: usize = 0;
    while i < d.deletes.len()
        invariant
            d.wf(),
            i <= d.deletes@.dom().len(),
            d.deletes.size() == d.deletes@.dom().len(),
            deletes@.len() == i,
            forall|t: int| 0 <= t < i ==> rv(&#[trigger] deletes@[t]) == d.deletes.entry(t).0,
            forall|t: int| 0 <= t < deletes@.len() ==> d.deletes@.contains_key(rv(&#[trigger] deletes@[t])),
        decreases d.deletes@.dom().len() - i,
    {
        proof {
            d.deletes.lemma_entries();
        }
        let (k, _v) = d.deletes.entry_at(i);
        deletes.push(row_clone(k));
        i += 1;
    }
    let mut updates: Vec<SparseUpdate> = Vec::new();
    let mut i: usize = 0;
    while i < d.updates.len()
        invariant
            d.wf(),
            forall|k: RowV| #[trigger] d.updates@.contains_key(k) ==> d.updates@[k].0.len() == d.updates@[k].1.len()
                && d.updates@[k].0.len() <= u32::MAX,
            i <= d.updates@.dom().len(),
            d.updates.size() == d.updates@.dom().len(),
            updates@.len() == i,
            forall|t: int| 0 <= t < i ==> rv(&(#[trigger] updates@[t]).key) == d.updates.entry(t).0,
            forall|t: int|
                0 <= t < updates@.len() ==> {
                    let u = #[trigger] updates@[t];
                    let k = rv(&u.key);
                    &&& d.updates@.contains_key(k)
                    &&& u.changed_indices@.map_values(|x: u32| x as int) == changed_upto(
                        d.updates@[k].0,
                        d.updates@[k].1,
                        d.updates@[k].0.len() as int,
                    )
                    &&& u.new_value@.len() == u.changed_indices@.len()
                    &&& forall|v: int|
                        0 <= v < u.new_value@.len() ==> (#[trigger] u.new_value@[v])@ == d.updates@[k].1[u.changed_indices@[v] as int]
                },
        decreases d.updates@.dom().len() - i,
    {
        proof {
            d.updates.lemma_entries();
        }
        let (k, ov) = d.updates.entry_at(i);
        let (changed_indices, new_value) = sparse_update(&ov.0, &ov.1);
        let ghost kk = rv(k);
        proof {
            assert(d.updates@.contains_key(kk));
            assert(d.updates@[kk] == (rv(&ov.0), rv(&ov.1)));
            assert forall|v: int| 0 <= v < new_value@.len() implies (#[trigger] new_value@[v])@
                == d.updates@[kk].1[changed_indices@[v] as int] by {
                assert(changed_indices@.map_values(|x: u32| x as int)[v] == changed_indices@[v] as int);
                assert(changed_indices@[v] < ov.0@.len());
                assert(rv(&ov.1)[changed_indices@[v] as int] == ov.1@[changed_indices@[v] as int]@);
            }
        }
        let ghost before = updates@;
        updates.push(SparseUpdate { key: row_clone(k), changed_indices, new_value });
        proof {
            assert forall|t: int| 0 <= t < updates@.len() implies {
                let u = #[trigger] updates@[t];
                let k = rv(&u.key);
                &&& d.updates@.contains_key(k)
                &&& u.changed_indices@.map_values(|x: u32| x as int) == changed_upto(
                    d.updates@[k].0,
                    d.updates@[k].1,
                    d.updates@[k].0.len() as int,
                )
                &&& u.new_value@.len() == u.changed_indices@.len()
                &&& forall|v: int|
                    0 <= v < u.new_value@.len() ==> (#[trigger] u.new_value@[v])@ == d.updates@[k].1[u.changed_indices@[v] as int]
            } by {
                if t < before.len() {
                    assert(updates@[t] == before[t]);
                }
            }
        }
        i += 1;
    }
    proof {
        d.inserts.lemma_entries();
        d.deletes.lemma_entries();
        d.updates.lemma_entries();
        assert forall|k: RowV| #[trigger] d.inserts@.contains_key(k) implies exists|t: int|
            0 <= t < inserts@.len() && rv(&inserts@[t].0) == k by {
            let j = choose|j: int| 0 <= j < d.inserts.size() && d.inserts.entry(j).0 == k;
            assert(rv(&inserts@[j].0) == k);
        }
        assert forall|k: RowV| #[trigger] d.deletes@.contains_key(k) implies exists|t: int|
            0 <= t < deletes@.len() && rv(&deletes@[t]) == k by {
            let j = choose|j: int| 0 <= j < d.deletes.size() && d.deletes.entry(j).0 == k;
            assert(rv(&deletes@[j]) == k);
        }
        assert forall|k: RowV| #[trigger] d.updates@.contains_key(k) implies exists|t: int|
            0 <= t < updates@.len() && rv(&updates@[t].key) == k by {
            let j = choose|j: int| 0 <= j < d.updates.size() && d.updates.entry(j).0 == k;
            assert(rv(&updates@[j].key) == k);
        }
    }
    PatchDelta {
        table_name: d.table_name,
        column_names: d.column_names,
        inserts,
        deletes,
        updates,
    }
}

/// The payload of a patch: the full state when one is at hand and its
/// encoding is shorter than that of the merged deltas, else the deltas.
pub fn choose_payload(deltas: Vec<PatchDelta>, deltas_len: usize, state: Option<State>, state_len: usize) -> (r:
    Payload)
    ensures
        (state is Some && state_len < deltas_len) ==> r is State,
        !(state is Some && state_len < deltas_len) ==> r is Deltas,
        r matches Payload::State(s) ==> state == Some(s),
        r matches Payload::Deltas(ds) ==> ds == deltas,
{
    match state {
        Some(s) => if state_len < deltas_len {
            Payload::State(s)
        } else {
            Payload::Deltas(deltas)
        },
        None => Payload::Deltas(deltas),
    }
}

/// The names that the reference `prefix` may stand for: genesis when it
/// begins with `prefix`, then each name of `names` in order that has the
/// shape of a block hash and begins with `prefix`.
pub open spec fn prefix_candidates(prefix: Seq<char>, names: Seq<Seq<char>>) -> Seq<Seq<char>> {
    let on_disk = names.filter(|n: Seq<char>| is_block_name(n) && has_prefix(n, prefix));
    if has_prefix(genesis(), prefix) {
        seq![genesis()] + on_disk
    } else {
        on_disk
    }
}

/// Resolves a reference given as a hash prefix against the names found in
/// the work directory.
pub fn resolve_hash_prefix(prefix: &String, names: &Vec<String>) -> (r: Result<String, Error>)
    ensures
        ({
            let c = prefix_candidates(prefix@, names@.map_values(|s: String| s@));
            &&& c.len() == 1 <==> r is Ok
            &&& r matches Ok(h) ==> h@ == c[0]
            &&& c.len() == 0 <==> (r matches Err(Error::UnknownRef(p)) && p@ == prefix@)
            &&& c.len() >= 2 <==> (r matches Err(Error::AmbiguousRef { prefix: p, candidates }) && p@ == prefix@
                && candidates@.map_values(|s: String| s@) == c)
        }),
{
    let ghost views = names@.map_values(|s: String| s@);
    let mut found: Vec<String> = Vec::new();
    let g = genesis_hash();
    let genesis_matches = starts_with(&g, prefix);
    if genesis_matches {
        found.push(g);
    }
    let ghost head = if genesis_matches {
        seq![genesis()]
    } else {
        Seq::<Seq<char>>::empty()
    };
    proof {
        assert(found@.map_values(|s: String| s@) =~= head + views.subrange(0, 0).filter(
            |n: Seq<char>| is_block_name(n) && has_prefix(n, prefix@),
        ));
    }
    let mut i: usize = 0;
    while i < names.len()
        invariant
            i <= names@.len(),
            views == names@.map_values(|s: String| s@),
            found@.map_values(|s: String| s@) == head + views.subrange(0, i as int).filter(
                |n: Seq<char>| is_block_name(n) && has_prefix(n, prefix@),
            ),
        decreases names@.len() - i,
    {
        let ghost before = found@;
        let ghost sub = views.subrange(0, i + 1);
        proof {
            reveal(Seq::filter);
            assert(sub.drop_last() =~= views.subrange(0, i as int));
            assert(sub.last() == names@[i as int]@);
        }
        let name = &names[i];
        if block_name(name) && starts_with(name, prefix) {
            found.push(name.clone());
            proof {
                assert(found@.map_values(|s: String| s@) =~= before.map_values(|s: String| s@).push(name@));
            }
        }
        proof {
            assert(found@.map_values(|s: String| s@) =~= head + sub.filter(
                |n: Seq<char>| is_block_name(n) && has_prefix(n, prefix@),
            ));
        }
        i += 1;
    }
    proof {
        assert(views.subrange(0, names@.len() as int) =~= views);
        assert(found@.map_values(|s: String| s@) == prefix_candidates(prefix@, views));
    }
    if found.len() == 0 {
        Err(Error::UnknownRef(prefix.clone()))
    } else if found.len() == 1 {
        proof {
            assert(found@.map_values(|s: String| s@)[0] == found@[0]@);
        }
        Ok(found.remove(0))
    } else {
        Err(Error::AmbiguousRef { prefix: prefix.clone(), candidates: found })
    }
}

/// An update as stored: dense (no positions, whole rows) in blocks, sparse
/// (positions and the values there) in patches.
pub struct WireUpdate {
    pub key: Vec<String>,
    pub changed_indices: Vec<u32>,
    pub old_value: Vec<String>,
    pub new_value: Vec<String>,
}

/// The number of key columns a stored delta shows: the key length of its
/// first insert, else of its first delete, else of its first update, else 0.
pub open spec fn key_width(
    inserts: Seq<(Vec<String>, Vec<String>)>,
    deletes: Seq<(Vec<String>, Vec<String>)>,
    updates: Seq<WireUpdate>,
) -> nat {
    if inserts.len() > 0 {
        inserts[0].0@.len()
    } else if deletes.len() > 0 {
        deletes[0].0@.len()
    } else if updates.len() > 0 {
        updates[0].key@.len()
    } else {
        0
    }
}

/// The rows of the first `k` pairs, keyed by their first part; `None` when a
/// key repeats.
pub open spec fn pairs_map(pairs: Seq<(Vec<String>, Vec<String>)>, k: int) -> Option<Map<RowV, RowV>>
    decreases k,
{
    if k <= 0 {
        Some(Map::empty())
    } else {
        match pairs_map(pairs, k - 1) {
            Some(m) => if m.contains_key(rv(&pairs[k - 1].0)) {
                None
            } else {
                Some(m.insert(rv(&pairs[k - 1].0), rv(&pairs[k - 1].1)))
            },
            None => None,
        }
    }
}

/// The rows of `pairs` keyed by their first part, or `None` when a key
/// repeats.
pub fn collect_pairs(pairs: Vec<(Vec<String>, Vec<String>)>) -> (r: Option<RecordMap>)
    ensures
        match r {
            Some(m) => m.wf() && pairs_map(pairs@, pairs@.len() as int) == Some(m@),
            None => pairs_map(pairs@, pairs@.len() as int) is None,
        },
{
    let mut m: RecordMap = KeyedMap::new();
    let mut i: usize = 0;
    while i < pairs.len()
        invariant
            i <= pairs@.len(),
            m.wf(),
            pairs_map(pairs@, i as int) == Some(m@),
        decreases pairs@.len() - i,
    {
        if m.contains_key(&pairs[i].0) {
            proof {
                lemma_pairs_none(pairs@, i as int + 1, pairs@.len() as int);
            }
            return None;
        }
        m.insert(row_clone(&pairs[i].0), row_clone(&pairs[i].1));
        i += 1;
    }
    Some(m)
}

proof fn lemma_pairs_none(pairs: Seq<(Vec<String>, Vec<String>)>, k: int, n: int)
    requires
        1 <= k <= n,
        pairs_map(pairs, k) is None,
    ensures
        pairs_map(pairs, n) is None,
    decreases n - k,
{
    if k < n {
        lemma_pairs_none(pairs, k + 1, n);
    }
}

/// No key occurs in two of the three parts of a delta.
pub open spec fn parts_disjoint(i: Map<RowV, RowV>, d: Map<RowV, RowV>, u: Map<RowV, (RowV, RowV)>) -> bool {
    &&& forall|k: RowV| !(#[trigger] i.contains_key(k) && d.contains_key(k))
    &&& forall|k: RowV| !(#[trigger] i.contains_key(k) && u.contains_key(k))
    &&& forall|k: RowV| !(#[trigger] d.contains_key(k) && u.contains_key(k))
}

/// The stored parts of a delta read back without fault.
pub open spec fn wire_ok(
    columns: nat,
    inserts: Seq<(Vec<String>, Vec<String>)>,
    deletes: Seq<(Vec<String>, Vec<String>)>,
    updates: Seq<WireUpdate>,
) -> bool {
    let w = key_width(inserts, deletes, updates);
    &&& w <= columns
    &&& pairs_map(inserts, inserts.len() as int) is Some
    &&& pairs_map(deletes, deletes.len() as int) is Some
    &&& updates_map(updates, (columns - w) as nat, updates.len() as int) is Some
    &&& parts_disjoint(
        pairs_map(inserts, inserts.len() as int)->Some_0,
        pairs_map(deletes, deletes.len() as int)->Some_0,
        updates_map(updates, (columns - w) as nat, updates.len() as int)->Some_0,
    )
}

/// What a stored update stands for in a table with `num_sub` non-key
/// columns: `None` when a position is out of range.
pub open spec fn wire_update(u: WireUpdate, num_sub: nat) -> Option<(RowV, RowV)> {
    if forall|t: int| 0 <= t < u.changed_indices@.len() ==> (#[trigger] u.changed_indices@[t]) < num_sub {
        Some((expanded(u.changed_indices@, rv(&u.old_value), num_sub), expanded(u.changed_indices@, rv(&u.new_value), num_sub)))
    } else {
        None
    }
}

/// The full updates of the first `k` stored updates, keyed by key; `None`
/// when a key repeats or a position is out of range.
pub open spec fn updates_map(ups: Seq<WireUpdate>, num_sub: nat, k: int) -> Option<Map<RowV, (RowV, RowV)>>
    decreases k,
{
    if k <= 0 {
        Some(Map::empty())
    } else {
        match (updates_map(ups, num_sub, k - 1), wire_update(ups[k - 1], num_sub)) {
            (Some(m), Some(u)) => if m.contains_key(rv(&ups[k - 1].key)) {
                None
            } else {
                Some(m.insert(rv(&ups[k - 1].key), u))
            },
            _ => None,
        }
    }
}

proof fn lemma_updates_map_none(ups: Seq<WireUpdate>, num_sub: nat, k: int, n: int)
    requires
        1 <= k <= n,
        updates_map(ups, num_sub, k) is None,
    ensures
        updates_map(ups, num_sub, n) is None,
    decreases n - k,
{
    if k < n {
        lemma_updates_map_none(ups, num_sub, k + 1, n);
    }
}

impl Delta {
    /// Reads a delta back from its stored parts, expanding sparse updates to
    /// full rows. Fails when the columns are fewer than the key columns, a
    /// key repeats within a part or occurs in two parts, or a position is out
    /// of range.
    pub fn from_wire(
        table_name: String,
        column_names: Vec<String>,
        inserts: Vec<(Vec<String>, Vec<String>)>,
        deletes: Vec<(Vec<String>, Vec<String>)>,
        updates: Vec<WireUpdate>,
    ) -> (r: Result<Delta, Error>)
        ensures
            r matches Ok(d) ==> {
                let num_sub = (column_names@.len() - key_width(inserts@, deletes@, updates@)) as nat;
                &&& key_width(inserts@, deletes@, updates@) <= column_names@.len()
                &&& d.wf()
                &&& d.table_name@ == table_name@
                &&& rv(&d.column_names) == rv(&column_names)
                &&& pairs_map(inserts@, inserts@.len() as int) == Some(d.inserts@)
                &&& pairs_map(deletes@, deletes@.len() as int) == Some(d.deletes@)
                &&& updates_map(updates@, num_sub, updates@.len() as int) == Some(d.updates@)
            },
            r is Ok <==> wire_ok(column_names@.len(), inserts@, deletes@, updates@),
    {
        let num_pk = if inserts.len() > 0 {
            inserts[0].0.len()
        } else if deletes.len() > 0 {
            deletes[0].0.len()
        } else if updates.len() > 0 {
            updates[0].key.len()
        } else {
            0
        };
        if column_names.len() < num_pk {
            return Err(Error::Corrupt { name: table_name, cause: "more key columns than columns".to_string() });
        }
        let num_sub = column_names.len() - num_pk;
        let ghost ws = num_sub as nat;
        assert(num_pk as nat == key_width(inserts@, deletes@, updates@));
        let ghost cols = column_names@.len();
        let ins = match collect_pairs(inserts) {
            Some(m) => m,
            None => {
                return Err(Error::Corrupt { name: table_name, cause: "repeated key".to_string() });
            },
        };
        let dels = match collect_pairs(deletes) {
            Some(m) => m,
            None => {
                return Err(Error::Corrupt { name: table_name, cause: "repeated key".to_string() });
            },
        };
        let mut ups: UpdateMap = KeyedMap::new();
        let mut i: usize = 0;
        while i < updates.len()
            invariant
                i <= updates@.len(),
                ups.wf(),
                ws == num_sub,
                ws == (cols - key_width(inserts@, deletes@, updates@)) as nat,
                cols == column_names@.len(),
                updates_map(updates@, ws, i as int) == Some(ups@),
            decreases updates@.len() - i,
        {
            let u = &updates[i];
            let mut ok = true;
            let mut t: usize = 0;
            while t < u.changed_indices.len()
                invariant
                    t <= u.changed_indices@.len(),
                    ok == forall|q: int| 0 <= q < t ==> (#[trigger] u.changed_indices@[q]) < num_sub,
                decreases u.changed_indices@.len() - t,
            {
                if u.changed_indices[t] as usize >= num_sub {
                    ok = false;
                }
                t += 1;
            }
            if !ok || ups.contains_key(&u.key) {
                proof {
                    assert(updates_map(updates@, ws, i + 1) is None);
                    lemma_updates_map_none(updates@, ws, i as int + 1, updates@.len() as int);
                }
                return Err(Error::Corrupt { name: table_name, cause: "bad update".to_string() });
            }
            let old = expand_sparse(&u.changed_indices, &u.old_value, num_sub);
            let new = expand_sparse(&u.changed_indices, &u.new_value, num_sub);
            ups.insert(row_clone(&u.key), (old, new));
            i += 1;
        }
        let d = Delta { table_name, column_names, inserts: ins, deletes: dels, updates: ups };
        if !d.keys_disjoint() {
            return Err(Error::Corrupt { name: d.table_name, cause: "key changed twice".to_string() });
        }
        Ok(d)
    }

    /// Whether no key occurs in two of the three parts.
    fn keys_disjoint(&self) -> (r: bool)
        requires
            self.inserts.wf(),
            self.deletes.wf(),
            self.updates.wf(),
        ensures
            r == parts_disjoint(self.inserts@, self.deletes@, self.updates@),
    {
        proof {
            self.inserts.lemma_entries();
            self.deletes.lemma_entries();
        }
        let mut i: usize = 0;
        while i < self.inserts.len()
            invariant
                self.inserts.wf(),
                self.deletes.wf(),
                self.updates.wf(),
                self.inserts.size() == self.inserts@.dom().len(),
                i <= self.inserts@.dom().len(),
                forall|j: int|
                    0 <= j < i ==> !self.deletes@.contains_key(#[trigger] self.inserts.entry(j).0)
                        && !self.updates@.contains_key(self.inserts.entry(j).0),
            decreases self.inserts@.dom().len() - i,
        {
            let (k, _) = self.inserts.entry_at(i);
            if self.deletes.contains_key(k) || self.updates.contains_key(k) {
                proof {
                    self.inserts.lemma_entries();
                }
                return false;
            }
            i += 1;
        }
        let mut i: usize = 0;
        while i < self.deletes.len()
            invariant
                self.inserts.wf(),
                self.deletes.wf(),
                self.updates.wf(),
                self.deletes.size() == self.deletes@.dom().len(),
                i <= self.deletes@.dom().len(),
                forall|j: int| 0 <= j < i ==> !self.updates@.contains_key(#[trigger] self.deletes.entry(j).0),
            decreases self.deletes@.dom().len() - i,
        {
            let (k, _) = self.deletes.entry_at(i);
            if self.updates.contains_key(k) {
                proof {
                    self.deletes.lemma_entries();
                }
                return false;
            }
            i += 1;
        }
        proof {
            self.inserts.lemma_entries();
            self.deletes.lemma_entries();
            assert forall|k: RowV| !(#[trigger] self.inserts@.contains_key(k) && self.deletes@.contains_key(k)) by {
                if self.inserts@.contains_key(k) {
                    let j = choose|j: int| 0 <= j < self.inserts.size() && self.inserts.entry(j).0 == k;
                }
            }
            assert forall|k: RowV| !(#[trigger] self.inserts@.contains_key(k) && self.updates@.contains_key(k)) by {
                if self.inserts@.contains_key(k) {
                    let j = choose|j: int| 0 <= j < self.inserts.size() && self.inserts.entry(j).0 == k;
                }
            }
            assert forall|k: RowV| !(#[trigger] self.deletes@.contains_key(k) && self.updates@.contains_key(k)) by {
                if self.deletes@.contains_key(k) {
                    let j = choose|j: int| 0 <= j < self.deletes.size() && self.deletes.entry(j).0 == k;
                }
            }
        }
        true
    }
}

/// What a patch carries when the walk toward the receiver's block failed
/// with `e`: a missing or unreadable block falls back to the full snapshot
/// `state`, when there is one; any other failure, or no snapshot, is
/// reported as it came.
pub fn fallback(e: Error, state: Option<State>) -> (r: Result<Payload, Error>)
    ensures
        (e is NotFound || e is Corrupt) && state is Some ==> (r matches Ok(Payload::State(s)) && state == Some(s)),
        !((e is NotFound || e is Corrupt) && state is Some) ==> r == Err::<Payload, Error>(e),
{
    let recoverable = match &e {
        Error::NotFound(_) => true,
        Error::Corrupt { .. } => true,
        _ => false,
    };
    match state {
        Some(s) => if recoverable {
            Ok(Payload::State(s))
        } else {
            Err(e)
        },
        None => Err(e),
    }
}

impl Delta {
    /// Whether every update has old and new rows of one width that fits a
    /// position index.
    pub fn updates_even(&self) -> (r: bool)
        requires
            self.wf(),
        ensures
            r == forall|k: RowV| #[trigger] self.updates@.contains_key(k) ==> self.updates@[k].0.len()
                == self.updates@[k].1.len() && self.updates@[k].0.len() <= u32::MAX,
    {
        proof {
            self.updates.lemma_entries();
        }
        let mut i: usize = 0;
        while i < self.updates.len()
            invariant
                self.wf(),
                self.updates.size() == self.updates@.dom().len(),
                i <= self.updates@.dom().len(),
                forall|t: int|
                    0 <= t < i ==> (#[trigger] self.updates.entry(t)).1.0.len() == self.updates.entry(t).1.1.len()
                        && self.updates.entry(t).1.0.len() <= u32::MAX,
            decreases self.updates@.dom().len() - i,
        {
            proof {
                self.updates.lemma_entries();
            }
            let (_k, (o, n)) = self.updates.entry_at(i);
            proof {
                assert(rv(o).len() == o@.len() && rv(n).len() == n@.len());
            }
            if o.len() != n.len() || o.len() > 0xffff_ffffusize {
                return false;
            }
            i += 1;
        }
        proof {
            self.updates.lemma_entries();
            assert forall|k: RowV| #[trigger] self.updates@.contains_key(k) implies self.updates@[k].0.len()
                == self.updates@[k].1.len() && self.updates@[k].0.len() <= u32::MAX by {
                let t = choose|t: int| 0 <= t < self.updates.size() && self.updates.entry(t).0 == k;
                assert(self.updates.entry(t).1 == self.updates@[k]);
            }
        }
        true
    }
}

/// `pairs` lists the entries of `m` in stored order.
pub open spec fn pairs_of(m: RecordMap, pairs: Seq<(Vec<String>, Vec<String>)>) -> bool {
    &&& pairs.len() == m.size()
    &&& forall|t: int|
        0 <= t < pairs.len() ==> rv(&(#[trigger] pairs[t]).0) == m.entry(t).0 && rv(&pairs[t].1) == m.entry(t).1
}

/// `ups` lists the updates of `m` in stored order, dense.
pub open spec fn updates_of(m: UpdateMap, ups: Seq<WireUpdate>) -> bool {
    &&& ups.len() == m.size()
    &&& forall|t: int|
        0 <= t < ups.len() ==> rv(&(#[trigger] ups[t]).key) == m.entry(t).0 && ups[t].changed_indices@.len() == 0
            && (rv(&ups[t].old_value), rv(&ups[t].new_value)) == m.entry(t).1
}

fn rows_of(m: &RecordMap) -> (r: Vec<(Vec<String>, Vec<String>)>)
    requires
        m.wf(),
    ensures
        pairs_of(*m, r@),
{
    proof {
        m.lemma_entries();
    }
    let mut r: Vec<(Vec<String>, Vec<String>)> = Vec::new();
    let mut i: usize = 0;
    while i < m.len()
        invariant
            m.wf(),
            m.size() == m@.dom().len(),
            i <= m.size(),
            r@.len() == i,
            forall|t: int| 0 <= t < i ==> rv(&(#[trigger] r@[t]).0) == m.entry(t).0 && rv(&r@[t].1) == m.entry(t).1,
        decreases m.size() - i,
    {
        let (k, v) = m.entry_at(i);
        r.push((row_clone(k), row_clone(v)));
        i += 1;
    }
    r
}

impl Delta {
    /// The stored parts of a delta: its rows as pairs, in stored order, and
    /// its updates in dense form.
    pub fn to_wire(&self) -> (r: (Vec<(Vec<String>, Vec<String>)>, Vec<(Vec<String>, Vec<String>)>, Vec<WireUpdate>))
        requires
            self.wf(),
        ensures
            pairs_of(self.inserts, r.0@),
            pairs_of(self.deletes, r.1@),
            updates_of(self.updates, r.2@),
    {
        let ins = rows_of(&self.inserts);
        let dels = rows_of(&self.deletes);
        proof {
            self.updates.lemma_entries();
        }
        let mut ups: Vec<WireUpdate> = Vec::new();
        let mut i: usize = 0;
        while i < self.updates.len()
            invariant
                self.wf(),
                self.updates.size() == self.updates@.dom().len(),
                i <= self.updates.size(),
                ups@.len() == i,
                forall|t: int|
                    0 <= t < i ==> rv(&(#[trigger] ups@[t]).key) == self.updates.entry(t).0
                        && ups@[t].changed_indices@.len() == 0 && (rv(&ups@[t].old_value), rv(&ups@[t].new_value))
                        == self.updates.entry(t).1,
            decreases self.updates.size() - i,
        {
            let (k, (o, n)) = self.updates.entry_at(i);
            ups.push(WireUpdate { key: row_clone(k), changed_indices: Vec::new(), old_value: row_clone(o), new_value: row_clone(n) });
            i += 1;
        }
        (ins, dels, ups)
    }
}

proof fn lemma_pairs_prefix(m: RecordMap, pairs: Seq<(Vec<String>, Vec<String>)>, k: int)
    requires
        m.wf(),
        pairs_of(m, pairs),
        0 <= k <= pairs.len(),
    ensures
        pairs_map(pairs, k) == Some(m@.restrict(Set::new(|q: RowV| exists|t: int| 0 <= t < k && m.entry(t).0 == q))),
    decreases k,
{
    m.lemma_entries();
    let keys = Set::new(|q: RowV| exists|t: int| 0 <= t < k && m.entry(t).0 == q);
    if k == 0 {
        assert(m@.restrict(keys) =~= Map::empty());
    } else {
        lemma_pairs_prefix(m, pairs, k - 1);
        let before = Set::new(|q: RowV| exists|t: int| 0 <= t < k - 1 && m.entry(t).0 == q);
        let q0 = m.entry(k - 1).0;
        assert(rv(&pairs[k - 1].0) == q0);
        assert(!before.contains(q0)) by {
            if before.contains(q0) {
                let t = choose|t: int| 0 <= t < k - 1 && m.entry(t).0 == q0;
                assert(m.entry(t).0 != m.entry(k - 1).0);
            }
        }
        assert(m@.restrict(keys) =~= m@.restrict(before).insert(q0, m.entry(k - 1).1)) by {
            assert forall|q: RowV| keys.contains(q) <==> (before.contains(q) || q == q0) by {
                if keys.contains(q) {
                    let t = choose|t: int| 0 <= t < k && m.entry(t).0 == q;
                    if t < k - 1 {
                        assert(before.contains(q));
                    }
                }
                if before.contains(q) {
                    let t = choose|t: int| 0 <= t < k - 1 && m.entry(t).0 == q;
                    assert(keys.contains(q));
                }
                if q == q0 {
                    assert(keys.contains(q));
                }
            }
        }
    }
}

proof fn lemma_updates_prefix(m: UpdateMap, ups: Seq<WireUpdate>, ns: nat, k: int)
    requires
        m.wf(),
        updates_of(m, ups),
        0 <= k <= ups.len(),
    ensures
        updates_map(ups, ns, k) == Some(m@.restrict(Set::new(|q: RowV| exists|t: int| 0 <= t < k && m.entry(t).0 == q))),
    decreases k,
{
    m.lemma_entries();
    let keys = Set::new(|q: RowV| exists|t: int| 0 <= t < k && m.entry(t).0 == q);
    if k == 0 {
        assert(m@.restrict(keys) =~= Map::empty());
    } else {
        lemma_updates_prefix(m, ups, ns, k - 1);
        let before = Set::new(|q: RowV| exists|t: int| 0 <= t < k - 1 && m.entry(t).0 == q);
        let q0 = m.entry(k - 1).0;
        assert(rv(&ups[k - 1].key) == q0);
        assert(wire_update(ups[k - 1], ns) == Some(m.entry(k - 1).1));
        assert(!before.contains(q0)) by {
            if before.contains(q0) {
                let t = choose|t: int| 0 <= t < k - 1 && m.entry(t).0 == q0;
                assert(m.entry(t).0 != m.entry(k - 1).0);
            }
        }
        assert(m@.restrict(keys) =~= m@.restrict(before).insert(q0, m.entry(k - 1).1)) by {
            assert forall|q: RowV| keys.contains(q) <==> (before.contains(q) || q == q0) by {
                if keys.contains(q) {
                    let t = choose|t: int| 0 <= t < k && m.entry(t).0 == q;
                    if t < k - 1 {
                        assert(before.contains(q));
                    }
                }
                if before.contains(q) {
                    let t = choose|t: int| 0 <= t < k - 1 && m.entry(t).0 == q;
                    assert(keys.contains(q));
                }
                if q == q0 {
                    assert(keys.contains(q));
                }
            }
        }
    }
}

/// Reading back the stored parts of a delta gives the delta again: the
/// parts read without fault, and their rows and updates are the delta's.
pub proof fn lemma_wire_round_trip(
    d: Delta,
    inserts: Seq<(Vec<String>, Vec<String>)>,
    deletes: Seq<(Vec<String>, Vec<String>)>,
    updates: Seq<WireUpdate>,
)
    requires
        d.wf(),
        pairs_of(d.inserts, inserts),
        pairs_of(d.deletes, deletes),
        updates_of(d.updates, updates),
        key_width(inserts, deletes, updates) <= d.column_names@.len(),
    ensures
        wire_ok(d.column_names@.len(), inserts, deletes, updates),
        pairs_map(inserts, inserts.len() as int) == Some(d.inserts@),
        pairs_map(deletes, deletes.len() as int) == Some(d.deletes@),
        updates_map(
            updates,
            (d.column_names@.len() - key_width(inserts, deletes, updates)) as nat,
            updates.len() as int,
        ) == Some(d.updates@),
{
    let ns = (d.column_names@.len() - key_width(inserts, deletes, updates)) as nat;
    lemma_pairs_prefix(d.inserts, inserts, inserts.len() as int);
    lemma_pairs_prefix(d.deletes, deletes, deletes.len() as int);
    lemma_updates_prefix(d.updates, updates, ns, updates.len() as int);
    d.inserts.lemma_entries();
    d.deletes.lemma_entries();
    d.updates.lemma_entries();
    assert(d.inserts@.restrict(Set::new(|q: RowV| exists|t: int| 0 <= t < inserts.len() && d.inserts.entry(t).0 == q))
        =~= d.inserts@);
    assert(d.deletes@.restrict(Set::new(|q: RowV| exists|t: int| 0 <= t < deletes.len() && d.deletes.entry(t).0 == q))
        =~= d.deletes@);
    assert(d.updates@.restrict(Set::new(|q: RowV| exists|t: int| 0 <= t < updates.len() && d.updates.entry(t).0 == q))
        =~= d.updates@);
}
} // verus!
