use vstd::prelude::*;

use crate::error::{Error, MergeRule};
use crate::keyed_map::{KeyedMap, Modeled, RecordMap, UpdateMap};
use crate::row::{row_clone, row_eq, rv, RowV};
use crate::state::{has_table, records_in, State, Table};

verus! {

/// What a delta does to one key.
pub enum Op {
    Insert(RowV),
    Delete(RowV),
    Update(RowV, RowV),
}

/// The changes to one table between two snapshots.
pub struct Delta {
    /// The table the delta applies to.
    pub table_name: String,
    /// All column names, primary-key columns first.
    pub column_names: Vec<String>,
    /// Rows that were added (key to value).
    pub inserts: RecordMap,
    /// Rows that were removed (key to the old value).
    pub deletes: RecordMap,
    /// Rows that were modified (key to old and new value).
    pub updates: UpdateMap,
}

/// The rule-by-rule result of an update followed by an update: where the
/// child changed a column, its new value wins; where the parent had left that
/// column alone, the child's old value becomes the old value.
pub open spec fn compose_old(o1: RowV, n1: RowV, o2: RowV, n2: RowV) -> RowV {
    Seq::new(o1.len(), |i: int| if o2[i] != n2[i] && o1[i] == n1[i] { o2[i] } else { o1[i] })
}

pub open spec fn compose_new(o1: RowV, n1: RowV, o2: RowV, n2: RowV) -> RowV {
    Seq::new(o1.len(), |i: int| if o2[i] != n2[i] { n2[i] } else { n1[i] })
}

/// How the operation of a parent delta and that of its child on one key
/// combine: the operation of the merged delta, or the conflict.
pub open spec fn merge_key(p: Option<Op>, c: Option<Op>) -> Result<Option<Op>, MergeRule> {
    match (p, c) {
        (_, None) => Ok(p),
        (None, Some(c)) => Ok(Some(c)),
        (Some(Op::Insert(_)), Some(Op::Insert(_))) => Err(MergeRule::DoubleInsert),
        (Some(Op::Insert(_)), Some(Op::Delete(_))) => Ok(None),
        (Some(Op::Insert(_)), Some(Op::Update(_, n))) => Ok(Some(Op::Insert(n))),
        (Some(Op::Delete(v1)), Some(Op::Insert(v2))) => if v1 == v2 {
            Ok(None)
        } else {
            Ok(Some(Op::Update(v1, v2)))
        },
        (Some(Op::Delete(_)), Some(Op::Delete(_))) => Err(MergeRule::DoubleDelete),
        (Some(Op::Delete(_)), Some(Op::Update(_, _))) => Err(MergeRule::UpdateAfterDelete),
        (Some(Op::Update(_, _)), Some(Op::Insert(_))) => Err(MergeRule::InsertAfterUpdate),
        (Some(Op::Update(o, n1)), Some(Op::Delete(v))) => if n1 == v {
            Ok(Some(Op::Delete(o)))
        } else {
            Err(MergeRule::DeleteMismatch)
        },
        (Some(Op::Update(o1, n1)), Some(Op::Update(o2, n2))) => if compose_old(o1, n1, o2, n2)
            == compose_new(o1, n1, o2, n2) {
            Ok(None)
        } else {
            Ok(Some(Op::Update(compose_old(o1, n1, o2, n2), compose_new(o1, n1, o2, n2))))
        },
    }
}

impl Delta {
    /// The operation the delta records for `k`.
    pub open spec fn op(&self, k: RowV) -> Option<Op> {
        if self.inserts@.contains_key(k) {
            Some(Op::Insert(self.inserts@[k]))
        } else if self.deletes@.contains_key(k) {
            Some(Op::Delete(self.deletes@[k]))
        } else if self.updates@.contains_key(k) {
            Some(Op::Update(self.updates@[k].0, self.updates@[k].1))
        } else {
            None
        }
    }

    /// Well-formed: the three key sets are pairwise disjoint.
    pub open spec fn wf(&self) -> bool {
        &&& self.inserts.wf()
        &&& self.deletes.wf()
        &&& self.updates.wf()
        &&& forall|k: RowV|
            !(#[trigger] self.inserts@.contains_key(k) && self.deletes@.contains_key(k))
        &&& forall|k: RowV|
            !(#[trigger] self.inserts@.contains_key(k) && self.updates@.contains_key(k))
        &&& forall|k: RowV|
            !(#[trigger] self.deletes@.contains_key(k) && self.updates@.contains_key(k))
    }

    /// Every update changes its row.
    pub open spec fn updates_change(&self) -> bool {
        forall|k: RowV| #[trigger]
            self.updates@.contains_key(k) ==> self.updates@[k].0 != self.updates@[k].1
    }

    /// A delta with no change.
    pub fn empty(table_name: String, column_names: Vec<String>) -> (r: Delta)
        ensures
            r.wf(),
            r.table_name@ == table_name@,
            rv(&r.column_names) == rv(&column_names),
            r.inserts@ == Map::<RowV, RowV>::empty(),
            r.deletes@ == Map::<RowV, RowV>::empty(),
            r.updates@ == Map::<RowV, (RowV, RowV)>::empty(),
            forall|k: RowV| r.op(k) is None,
    {
        Delta {
            table_name,
            column_names,
            inserts: KeyedMap::new(),
            deletes: KeyedMap::new(),
            updates: KeyedMap::new(),
        }
    }

    /// Whether the delta records no change.
    pub fn is_empty(&self) -> (r: bool)
        requires
            self.wf(),
        ensures
            r == (forall|k: RowV| self.op(k) is None),
    {
        let a = self.inserts.is_empty();
        let b = self.deletes.is_empty();
        let c = self.updates.is_empty();
        let r = a && b && c;
        proof {
            if !r {
                if !a {
                    self.inserts.lemma_entries();
                    assert(self.op(self.inserts.entry(0).0) is Some);
                } else if !b {
                    self.deletes.lemma_entries();
                    assert(self.op(self.deletes.entry(0).0) is Some);
                } else {
                    self.updates.lemma_entries();
                    assert(self.op(self.updates.entry(0).0) is Some);
                }
            }
        }
        r
    }
}


/// The rule-by-rule composition of an update `(o1, n1)` followed by an update
/// `(o2, n2)` of the same row.
fn compose_update(o1: &Vec<String>, n1: &Vec<String>, o2: &Vec<String>, n2: &Vec<String>) -> (r: (
    Vec<String>,
    Vec<String>,
))
    requires
        n1.len() == o1.len(),
        o2.len() == o1.len(),
        n2.len() == o1.len(),
    ensures
        rv(&r.0) == compose_old(rv(o1), rv(n1), rv(o2), rv(n2)),
        rv(&r.1) == compose_new(rv(o1), rv(n1), rv(o2), rv(n2)),
{
    let mut old_out: Vec<String> = Vec::new();
    let mut new_out: Vec<String> = Vec::new();
    let mut i: usize = 0;
    while i < o1.len()
        invariant
            n1.len() == o1.len(),
            o2.len() == o1.len(),
            n2.len() == o1.len(),
            i <= o1.len(),
            old_out@.len() == i,
            new_out@.len() == i,
            forall|j: int|
                0 <= j < i ==> (#[trigger] old_out@[j])@ == compose_old(rv(o1), rv(n1), rv(o2), rv(n2))[j],
            forall|j: int|
                0 <= j < i ==> (#[trigger] new_out@[j])@ == compose_new(rv(o1), rv(n1), rv(o2), rv(n2))[j],
        decreases o1.len() - i,
    {
        let parent_changed = o1[i] != n1[i];
        let child_changed = o2[i] != n2[i];
        if child_changed {
            new_out.push(n2[i].clone());
            if !parent_changed {
                old_out.push(o2[i].clone());
            } else {
                old_out.push(o1[i].clone());
            }
        } else {
            new_out.push(n1[i].clone());
            old_out.push(o1[i].clone());
        }
        i += 1;
    }
    assert(rv(&old_out) =~= compose_old(rv(o1), rv(n1), rv(o2), rv(n2)));
    assert(rv(&new_out) =~= compose_new(rv(o1), rv(n1), rv(o2), rv(n2)));
    (old_out, new_out)
}

impl Delta {
    /// Merges one child operation on `k` into the delta: on success, the
    /// operation on `k` becomes the merged one and other keys are left alone.
    pub open spec fn merged_one(old: Delta, new: Delta, k: RowV, c: Op) -> bool {
        &&& new.wf()
        &&& new.table_name@ == old.table_name@
        &&& rv(&new.column_names) == rv(&old.column_names)
        &&& new.op(k) == merge_key(old.op(k), Some(c))->Ok_0
        &&& forall|q: RowV| q != k ==> #[trigger] new.op(q) == old.op(q)
    }

    fn merge_insert(parent: &mut Delta, key: Vec<String>, insert_value: Vec<String>) -> (r: Result<
        (),
        MergeRule,
    >)
        requires
            old(parent).wf(),
        ensures
            r is Ok <==> merge_key(old(parent).op(rv(&key)), Some(Op::Insert(rv(&insert_value)))) is Ok,
            r is Ok ==> Delta::merged_one(*old(parent), *final(parent), rv(&key), Op::Insert(rv(&insert_value))),
            r is Err ==> Err::<Option<Op>, MergeRule>(r->Err_0) == merge_key(
                old(parent).op(rv(&key)),
                Some(Op::Insert(rv(&insert_value))),
            ),
            final(parent).wf(),
    {
        let ghost k = rv(&key);
        let ghost v = rv(&insert_value);
        if parent.inserts.contains_key(&key) {
            return Err(MergeRule::DoubleInsert);
        }
        match parent.deletes.remove(&key) {
            Some(delete_value) => {
                if row_eq(&delete_value, &insert_value) {
                    // Deleted, then inserted again as it was: no change.
                } else {
                    parent.updates.insert(key, (delete_value, insert_value));
                }
                Ok(())
            },
            None => {
                if parent.updates.contains_key(&key) {
                    return Err(MergeRule::InsertAfterUpdate);
                }
                parent.inserts.insert(key, insert_value);
                Ok(())
            },
        }
    }

    fn merge_delete(parent: &mut Delta, key: Vec<String>, delete_value: Vec<String>) -> (r: Result<
        (),
        MergeRule,
    >)
        requires
            old(parent).wf(),
        ensures
            r is Ok <==> merge_key(old(parent).op(rv(&key)), Some(Op::Delete(rv(&delete_value)))) is Ok,
            r is Ok ==> Delta::merged_one(*old(parent), *final(parent), rv(&key), Op::Delete(rv(&delete_value))),
            r is Err ==> Err::<Option<Op>, MergeRule>(r->Err_0) == merge_key(
                old(parent).op(rv(&key)),
                Some(Op::Delete(rv(&delete_value))),
            ),
            final(parent).wf(),
    {
        match parent.inserts.remove(&key) {
            Some(_) => {
                // Inserted, then deleted: the row never reaches the receiver.
                return Ok(());
            },
            None => {},
        }
        if parent.deletes.contains_key(&key) {
            return Err(MergeRule::DoubleDelete);
        }
        match parent.updates.remove(&key) {
            Some((old_value, new_value)) => {
                if row_eq(&delete_value, &new_value) {
                    parent.deletes.insert(key, old_value);
                    Ok(())
                } else {
                    parent.updates.insert(key, (old_value, new_value));
                    Err(MergeRule::DeleteMismatch)
                }
            },
            None => {
                parent.deletes.insert(key, delete_value);
                Ok(())
            },
        }
    }

    fn merge_update(
        parent: &mut Delta,
        key: Vec<String>,
        old_value: Vec<String>,
        new_value: Vec<String>,
    ) -> (r: Result<(), MergeRule>)
        requires
            old(parent).wf(),
            old(parent).updates@.contains_key(rv(&key)) ==> Delta::same_width(
                old(parent).updates@[rv(&key)],
                (rv(&old_value), rv(&new_value)),
            ),
        ensures
            r is Ok <==> merge_key(
                old(parent).op(rv(&key)),
                Some(Op::Update(rv(&old_value), rv(&new_value))),
            ) is Ok,
            r is Ok ==> Delta::merged_one(
                *old(parent),
                *final(parent),
                rv(&key),
                Op::Update(rv(&old_value), rv(&new_value)),
            ),
            r is Err ==> Err::<Option<Op>, MergeRule>(r->Err_0) == merge_key(
                old(parent).op(rv(&key)),
                Some(Op::Update(rv(&old_value), rv(&new_value))),
            ),
            final(parent).wf(),
    {
        match parent.inserts.remove(&key) {
            Some(_) => {
                // Inserted, then updated: insert the updated row.
                parent.inserts.insert(key, new_value);
                return Ok(());
            },
            None => {},
        }
        if parent.deletes.contains_key(&key) {
            return Err(MergeRule::UpdateAfterDelete);
        }
        match parent.updates.remove(&key) {
            Some((o1, n1)) => {
                let merged = compose_update(&o1, &n1, &old_value, &new_value);
                if !row_eq(&merged.0, &merged.1) {
                    parent.updates.insert(key, merged);
                }
                // An update that the child undoes leaves no change.
                Ok(())
            },
            None => {
                parent.updates.insert(key, (old_value, new_value));
                Ok(())
            },
        }
    }
}

impl Delta {
    /// `p` is `p_init` with the operations of `c_init` merged in for every key that
    /// `c`, what is left of `c_init`, no longer holds.
    pub open spec fn merged_so_far(p_init: Delta, c_init: Delta, c: Delta, p: Delta) -> bool {
        &&& p.wf()
        &&& c.wf()
        &&& p.table_name@ == p_init.table_name@
        &&& rv(&p.column_names) == rv(&p_init.column_names)
        &&& rv(&c.column_names) == rv(&c_init.column_names)
        &&& forall|k: RowV| #[trigger] c.op(k) is Some ==> c.op(k) == c_init.op(k)
        &&& forall|k: RowV|
            #![trigger p.op(k)]
            #![trigger c_init.op(k)]
            if c.op(k) is Some || c_init.op(k) is None {
                p.op(k) == p_init.op(k)
            } else {
                merge_key(p_init.op(k), c_init.op(k)) is Ok && p.op(k) == merge_key(p_init.op(k), c_init.op(k))->Ok_0
            }
    }

    /// Two updates of one row agree on the row's width.
    pub open spec fn same_width(a: (RowV, RowV), b: (RowV, RowV)) -> bool {
        &&& a.1.len() == a.0.len()
        &&& b.0.len() == a.0.len()
        &&& b.1.len() == a.0.len()
    }

    /// Where both deltas update a row, the updates agree on its width.
    pub open spec fn widths_agree(parent: Delta, child: Delta) -> bool {
        forall|k: RowV|
            parent.updates@.contains_key(k) && child.updates@.contains_key(k) ==> Delta::same_width(
                #[trigger] parent.updates@[k],
                child.updates@[k],
            )
    }

    /// Whether every key of `child` merges into `parent` without conflict.
    pub open spec fn mergeable(parent: Delta, child: Delta) -> bool {
        forall|k: RowV| #[trigger] merge_key(parent.op(k), child.op(k)) is Ok
    }

    /// `merged` is the merge of `child` into `parent`.
    pub open spec fn is_merge_of(merged: Delta, parent: Delta, child: Delta) -> bool {
        &&& merged.wf()
        &&& merged.table_name@ == parent.table_name@
        &&& rv(&merged.column_names) == rv(&parent.column_names)
        &&& forall|k: RowV| #[trigger] merged.op(k) == merge_key(parent.op(k), child.op(k))->Ok_0
    }

    /// The operation on a key that merging gives changes its row when both
    /// merged operations do.
    pub proof fn lemma_merge_key_changes(p: Option<Op>, c: Option<Op>)
        requires
            p matches Some(Op::Update(o, n)) ==> o != n,
            c matches Some(Op::Update(o, n)) ==> o != n,
            merge_key(p, c) is Ok,
        ensures
            merge_key(p, c)->Ok_0 matches Some(Op::Update(o, n)) ==> o != n,
    {
    }

    /// Both deltas belong to one table with one column list.
    pub open spec fn same_schema(parent: Delta, child: Delta) -> bool {
        parent.table_name@ == child.table_name@ && rv(&parent.column_names) == rv(&child.column_names)
    }

    /// `e` is a failure that merging `child` into `parent` may report.
    pub open spec fn merge_failure(e: Error, parent: Delta, child: Delta) -> bool {
        match e {
            Error::SchemaMismatch(t) => t@ == parent.table_name@ && !Delta::same_schema(parent, child),
            Error::MergeConflict { table, key, rule } => table@ == parent.table_name@ && merge_key(
                parent.op(rv(&key)),
                child.op(rv(&key)),
            ) == Err::<Option<Op>, MergeRule>(rule),
            _ => false,
        }
    }

    /// Merges `child`, the later delta of the same table, into `parent`, so
    /// that `parent` then stands for both in sequence.
    pub fn merge(parent: &mut Delta, child: Delta) -> (r: Result<(), Error>)
        requires
            old(parent).wf(),
            child.wf(),
            Delta::widths_agree(*old(parent), child),
        ensures
            r is Ok <==> Delta::same_schema(*old(parent), child) && Delta::mergeable(*old(parent), child),
            r is Ok ==> Delta::is_merge_of(*final(parent), *old(parent), child),
            r is Err ==> Delta::merge_failure(r->Err_0, *old(parent), child),
            !Delta::same_schema(*old(parent), child) ==> (r matches Err(Error::SchemaMismatch(t))
                && t@ == old(parent).table_name@ && *final(parent) == *old(parent)),
            old(parent).updates_change() && child.updates_change() && r is Ok ==> final(parent).updates_change(),
            final(parent).wf(),
    {
        if parent.table_name != child.table_name || !row_eq(&parent.column_names, &child.column_names) {
            return Err(Error::SchemaMismatch(parent.table_name.clone()));
        }
        let ghost p_init = *parent;
        let ghost c_init = child;
        assert(p_init == *old(parent));
        let mut rest = child;
        let table = parent.table_name.clone();
        while !rest.inserts.is_empty()
            invariant
                Delta::merged_so_far(p_init, c_init, rest, *parent),
                rv(&parent.column_names) == rv(&rest.column_names),
                table@ == p_init.table_name@,
                c_init == child,
                p_init == *old(parent),
                Delta::widths_agree(p_init, c_init),
                Delta::same_schema(p_init, c_init),
            decreases rest.inserts@.dom().len(),
        {
            let ghost cb = rest;
            if let Some((key, value)) = rest.inserts.pop() {
                let ghost k = rv(&key);
                assert(cb.op(k) == Some(Op::Insert(rv(&value))));
                proof {
                    cb.inserts.lemma_entries();
                }
                let key_copy = row_clone(&key);
                let ghost before = *parent;
                if let Err(rule) = Delta::merge_insert(parent, key, value) {
                    proof {
                        assert(cb.op(k) == c_init.op(k));
                        assert(before.op(k) == p_init.op(k));
                        assert(!(merge_key(p_init.op(k), c_init.op(k)) is Ok));
                        assert(c_init == child);
                        assert(!Delta::mergeable(*old(parent), child));
                        assert(merge_key(old(parent).op(k), child.op(k)) == Err::<Option<Op>, MergeRule>(
                            rule,
                        ));
                    }
                    return Err(Error::MergeConflict { table, key: key_copy, rule });
                }
                proof {
                    assert forall|q: RowV| #[trigger] rest.op(q) is Some implies rest.op(q) == c_init.op(q) by {
                        assert(cb.op(q) is Some);
                    }
                }
            }
        }
        while !rest.deletes.is_empty()
            invariant
                Delta::merged_so_far(p_init, c_init, rest, *parent),
                rv(&parent.column_names) == rv(&rest.column_names),
                rest.inserts@.dom().len() == 0,
                table@ == p_init.table_name@,
                c_init == child,
                p_init == *old(parent),
                Delta::widths_agree(p_init, c_init),
                Delta::same_schema(p_init, c_init),
            decreases rest.deletes@.dom().len(),
        {
            let ghost cb = rest;
            if let Some((key, value)) = rest.deletes.pop() {
                let ghost k = rv(&key);
                assert(cb.op(k) == Some(Op::Delete(rv(&value))));
                proof {
                    cb.deletes.lemma_entries();
                }
                let key_copy = row_clone(&key);
                let ghost before = *parent;
                if let Err(rule) = Delta::merge_delete(parent, key, value) {
                    proof {
                        assert(cb.op(k) == c_init.op(k));
                        assert(before.op(k) == p_init.op(k));
                        assert(!(merge_key(p_init.op(k), c_init.op(k)) is Ok));
                        assert(c_init == child);
                        assert(!Delta::mergeable(*old(parent), child));
                        assert(merge_key(old(parent).op(k), child.op(k)) == Err::<Option<Op>, MergeRule>(
                            rule,
                        ));
                    }
                    return Err(Error::MergeConflict { table, key: key_copy, rule });
                }
                proof {
                    assert forall|q: RowV| #[trigger] rest.op(q) is Some implies rest.op(q) == c_init.op(q) by {
                        assert(cb.op(q) is Some);
                    }
                }
            }
        }
        while !rest.updates.is_empty()
            invariant
                Delta::merged_so_far(p_init, c_init, rest, *parent),
                rv(&parent.column_names) == rv(&rest.column_names),
                rest.inserts@.dom().len() == 0,
                rest.deletes@.dom().len() == 0,
                table@ == p_init.table_name@,
                c_init == child,
                p_init == *old(parent),
                Delta::widths_agree(p_init, c_init),
                Delta::same_schema(p_init, c_init),
            decreases rest.updates@.dom().len(),
        {
            let ghost cb = rest;
            if let Some((key, (old_value, new_value))) = rest.updates.pop() {
                let ghost k = rv(&key);
                assert(cb.op(k) == Some(Op::Update(rv(&old_value), rv(&new_value))));
                proof {
                    cb.updates.lemma_entries();
                }
                let key_copy = row_clone(&key);
                let ghost before = *parent;
                proof {
                    if parent.updates@.contains_key(k) {
                        assert(parent.op(k) == p_init.op(k));
                        assert(p_init.updates@.contains_key(k));
                        assert(c_init.updates@.contains_key(k));
                    }
                }
                if let Err(rule) = Delta::merge_update(parent, key, old_value, new_value) {
                    proof {
                        assert(cb.op(k) == c_init.op(k));
                        assert(before.op(k) == p_init.op(k));
                        assert(!(merge_key(p_init.op(k), c_init.op(k)) is Ok));
                        assert(c_init == child);
                        assert(!Delta::mergeable(*old(parent), child));
                        assert(merge_key(old(parent).op(k), child.op(k)) == Err::<Option<Op>, MergeRule>(
                            rule,
                        ));
                    }
                    return Err(Error::MergeConflict { table, key: key_copy, rule });
                }
                proof {
                    assert forall|q: RowV| #[trigger] rest.op(q) is Some implies rest.op(q) == c_init.op(q) by {
                        assert(cb.op(q) is Some);
                    }
                }
            }
        }
        proof {
            if p_init.updates_change() && c_init.updates_change() {
                assert forall|k: RowV| #[trigger] parent.updates@.contains_key(k) implies parent.updates@[k].0
                    != parent.updates@[k].1 by {
                    assert(parent.op(k) == Some(Op::Update(parent.updates@[k].0, parent.updates@[k].1)));
                    if p_init.updates@.contains_key(k) {
                        assert(p_init.updates@[k].0 != p_init.updates@[k].1);
                    }
                    if c_init.updates@.contains_key(k) {
                        assert(c_init.updates@[k].0 != c_init.updates@[k].1);
                    }
                    Delta::lemma_merge_key_changes(p_init.op(k), c_init.op(k));
                }
            }
            assert forall|k: RowV| rest.op(k) is None by {
                if rest.inserts@.contains_key(k) {
                    rest.inserts.lemma_entries();
                }
                if rest.deletes@.contains_key(k) {
                    rest.deletes.lemma_entries();
                }
                if rest.updates@.contains_key(k) {
                    rest.updates.lemma_entries();
                }
            }
        }
        Ok(())
    }
}

/// What a key's change is between the records `p` of the earlier snapshot
/// and the records `c` of the later one.
pub open spec fn diff_op(p: Map<RowV, RowV>, c: Map<RowV, RowV>, k: RowV) -> Option<Op> {
    if p.contains_key(k) && !c.contains_key(k) {
        Some(Op::Delete(p[k]))
    } else if !p.contains_key(k) && c.contains_key(k) {
        Some(Op::Insert(c[k]))
    } else if p.contains_key(k) && c.contains_key(k) && p[k] != c[k] {
        Some(Op::Update(p[k], c[k]))
    } else {
        None
    }
}

impl Delta {
    /// `d` records exactly the changes from records `p` to records `c`.
    pub open spec fn records_diff(d: Delta, p: Map<RowV, RowV>, c: Map<RowV, RowV>) -> bool {
        &&& d.wf()
        &&& d.updates_change()
        &&& forall|k: RowV| #[trigger] d.op(k) == diff_op(p, c, k)
    }

    /// `d` is the delta that `compute` emits for its table.
    pub open spec fn computed_for(d: Delta, previous: Option<State>, current: State) -> bool {
        let name = d.table_name@;
        &&& has_table(Some(current), name) || has_table(previous, name)
        &&& Delta::records_diff(d, records_in(previous, name), records_in(Some(current), name))
        &&& rv(&d.column_names) == if has_table(Some(current), name) {
            current.tables@[name].0
        } else {
            previous->Some_0.tables@[name].0
        }
        &&& has_table(Some(current), name) ==> exists|k: RowV| #[trigger] d.op(k) is Some
    }

    /// The changes from `previous_table` (none when absent) to
    /// `current_table`, as a delta of table `table_name`.
    fn compute_table(table_name: &String, previous_table: Option<&Table>, current_table: &Table) -> (r:
        Delta)
        requires
            current_table.records.wf(),
            previous_table matches Some(t) ==> t.records.wf(),
        ensures
            Delta::records_diff(
                r,
                match previous_table {
                    Some(t) => t.records@,
                    None => Map::empty(),
                },
                current_table.records@,
            ),
            r.table_name@ == table_name@,
            rv(&r.column_names) == rv(&current_table.fields),
    {
        let ghost c = current_table.records@;
        let mut delta = Delta::empty(table_name.clone(), row_clone(&current_table.fields));
        let previous_table = match previous_table {
            Some(t) => t,
            None => {
                delta.inserts = current_table.records.duplicate();
                proof {
                    assert forall|k: RowV| #[trigger]
                        delta.op(k) == diff_op(Map::empty(), c, k) by {}
                }
                return delta;
            },
        };
        let ghost p = previous_table.records@;
        proof {
            previous_table.records.lemma_entries();
            current_table.records.lemma_entries();
        }
        let n = previous_table.records.len();
        let mut i: usize = 0;
        while i < n
            invariant
                n == previous_table.records.size(),
                previous_table.records.wf(),
                current_table.records.wf(),
                p == previous_table.records@,
                c == current_table.records@,
                i <= n,
                delta.wf(),
                delta.inserts@ == Map::<RowV, RowV>::empty(),
                delta.updates@ == Map::<RowV, (RowV, RowV)>::empty(),
                delta.table_name@ == table_name@,
                rv(&delta.column_names) == rv(&current_table.fields),
                forall|k: RowV| #[trigger]
                    delta.deletes@.contains_key(k) ==> p.contains_key(k) && !c.contains_key(k)
                        && delta.deletes@[k] == p[k],
                forall|j: int|
                    0 <= j < i && !c.contains_key(#[trigger] previous_table.records.entry(j).0)
                        ==> delta.deletes@.contains_key(previous_table.records.entry(j).0),
            decreases n - i,
        {
            let (key, value) = previous_table.records.entry_at(i);
            proof {
                previous_table.records.lemma_entries();
                current_table.records.lemma_entries();
            }
            if !current_table.records.contains_key(key) {
                delta.deletes.insert(row_clone(key), row_clone(value));
            }
            i += 1;
        }
        let m = current_table.records.len();
        let mut i: usize = 0;
        while i < m
            invariant
                m == current_table.records.size(),
                n == previous_table.records.size(),
                previous_table.records.wf(),
                current_table.records.wf(),
                p == previous_table.records@,
                c == current_table.records@,
                i <= m,
                delta.wf(),
                delta.table_name@ == table_name@,
                rv(&delta.column_names) == rv(&current_table.fields),
                forall|k: RowV| #[trigger]
                    delta.deletes@.contains_key(k) ==> p.contains_key(k) && !c.contains_key(k)
                        && delta.deletes@[k] == p[k],
                forall|j: int|
                    0 <= j < n && !c.contains_key(#[trigger] previous_table.records.entry(j).0)
                        ==> delta.deletes@.contains_key(previous_table.records.entry(j).0),
                forall|k: RowV| #[trigger]
                    delta.inserts@.contains_key(k) ==> !p.contains_key(k) && c.contains_key(k)
                        && delta.inserts@[k] == c[k],
                forall|k: RowV| #[trigger]
                    delta.updates@.contains_key(k) ==> p.contains_key(k) && c.contains_key(k)
                        && p[k] != c[k] && delta.updates@[k] == (p[k], c[k]),
                forall|j: int|
                    0 <= j < i ==> {
                        let k = #[trigger] current_table.records.entry(j).0;
                        (!p.contains_key(k) ==> delta.inserts@.contains_key(k)) && (p.contains_key(k)
                            && p[k] != c[k] ==> delta.updates@.contains_key(k))
                    },
            decreases m - i,
        {
            let (key, current_value) = current_table.records.entry_at(i);
            proof {
                previous_table.records.lemma_entries();
                current_table.records.lemma_entries();
            }
            match previous_table.records.get(key) {
                None => {
                    delta.inserts.insert(row_clone(key), row_clone(current_value));
                },
                Some(previous_value) => {
                    if !row_eq(previous_value, current_value) {
                        delta.updates.insert(
                            row_clone(key),
                            (row_clone(previous_value), row_clone(current_value)),
                        );
                    }
                },
            }
            i += 1;
        }
        proof {
            previous_table.records.lemma_entries();
            current_table.records.lemma_entries();
            assert forall|k: RowV| #[trigger] delta.op(k) == diff_op(p, c, k) by {
                if p.contains_key(k) && !c.contains_key(k) {
                    let j = choose|j: int| 0 <= j < n && previous_table.records.entry(j).0 == k;
                    assert(delta.deletes@.contains_key(previous_table.records.entry(j).0));
                } else if c.contains_key(k) {
                    let j = choose|j: int| 0 <= j < m && current_table.records.entry(j).0 == k;
                    assert(current_table.records.entry(j).0 == k);
                }
            }
        }
        delta
    }
}

impl Delta {
    /// The changes from `previous_state` (none before the first block) to
    /// `current_state`: one delta for each table that changed, with no two
    /// deltas for the same table. A table that only the previous state holds
    /// comes out with all its rows deleted, one that only the current state
    /// holds with all its rows inserted; a table with no change is left out.
    pub fn compute(previous_state: Option<State>, current_state: &State) -> (r: Vec<Delta>)
        requires
            current_state.wf(),
            previous_state matches Some(s) ==> s.wf(),
        ensures
            forall|i: int| 0 <= i < r@.len() ==> Delta::computed_for(#[trigger] r@[i], previous_state, *current_state),
            forall|i: int, j: int|
                0 <= i < j < r@.len() ==> (#[trigger] r@[i]).table_name@ != (#[trigger] r@[j]).table_name@,
            forall|name: Seq<char>, k: RowV|
                (has_table(Some(*current_state), name) || has_table(previous_state, name))
                    && #[trigger] diff_op(records_in(previous_state, name), records_in(Some(*current_state), name), k) is Some
                    ==> exists|i: int| 0 <= i < r@.len() && (#[trigger] r@[i]).table_name@ == name,
            forall|name: Seq<char>|
                #[trigger] has_table(previous_state, name) && !has_table(Some(*current_state), name) ==> exists|i: int|
                    0 <= i < r@.len() && (#[trigger] r@[i]).table_name@ == name,
            previous_state matches Some(s) && s.tables@ == current_state.tables@ ==> r@.len() == 0,
    {
        let ghost cur = *current_state;
        let mut deltas: Vec<Delta> = Vec::new();
        let n = current_state.tables.len();
        let mut i: usize = 0;
        proof {
            current_state.tables.lemma_entries();
        }
        while i < n
            invariant
                n == current_state.tables.size(),
                current_state.wf(),
                cur == *current_state,
                previous_state matches Some(s) ==> s.wf(),
                i <= n,
                forall|a: int| 0 <= a < deltas@.len() ==> Delta::computed_for(#[trigger] deltas@[a], previous_state, cur),
                forall|a: int|
                    0 <= a < deltas@.len() ==> exists|j: int|
                        0 <= j < i && (#[trigger] deltas@[a]).table_name@ == current_state.tables.entry(j).0,
                forall|a: int, b: int|
                    0 <= a < b < deltas@.len() ==> (#[trigger] deltas@[a]).table_name@ != (#[trigger] deltas@[b]).table_name@,
                forall|j: int, k: RowV|
                    0 <= j < i && #[trigger] diff_op(
                        records_in(previous_state, current_state.tables.entry(j).0),
                        records_in(Some(cur), current_state.tables.entry(j).0),
                        k,
                    ) is Some ==> exists|a: int|
                        0 <= a < deltas@.len() && (#[trigger] deltas@[a]).table_name@ == current_state.tables.entry(j).0,
            decreases n - i,
        {
            proof {
                current_state.tables.lemma_entries();
            }
            let (table_name, current_table) = current_state.tables.entry_at(i);
            let previous_table = match &previous_state {
                Some(ps) => ps.tables.get(table_name),
                None => None,
            };
            let delta = Delta::compute_table(table_name, previous_table, current_table);
            let ghost name = table_name@;
            proof {
                assert(records_in(Some(cur), name) == current_table.records@);
                assert(records_in(previous_state, name) == match previous_table {
                    Some(t) => t.records@,
                    None => Map::<RowV, RowV>::empty(),
                });
            }
            if !delta.is_empty() {
                proof {
                    assert forall|a: int| 0 <= a < deltas@.len() implies (#[trigger] deltas@[a]).table_name@ != name by {
                        let j = choose|j: int|
                            0 <= j < i && deltas@[a].table_name@ == current_state.tables.entry(j).0;
                    }
                }
                let ghost before = deltas@;
                deltas.push(delta);
                proof {
                    let last = before.len() as int;
                    assert(deltas@[last].table_name@ == name);
                    assert forall|j: int, k: RowV|
                        0 <= j < i + 1 && #[trigger] diff_op(
                            records_in(previous_state, current_state.tables.entry(j).0),
                            records_in(Some(cur), current_state.tables.entry(j).0),
                            k,
                        ) is Some implies exists|a: int|
                            0 <= a < deltas@.len() && (#[trigger] deltas@[a]).table_name@
                                == current_state.tables.entry(j).0 by {
                        if j < i {
                            let a = choose|a: int|
                                0 <= a < before.len() && (#[trigger] before[a]).table_name@
                                    == current_state.tables.entry(j).0;
                            assert(deltas@[a] == before[a]);
                        } else {
                            assert(deltas@[last].table_name@ == current_state.tables.entry(j).0);
                        }
                    }
                    assert forall|a: int|
                        0 <= a < deltas@.len() implies exists|j: int|
                            0 <= j < i + 1 && (#[trigger] deltas@[a]).table_name@ == current_state.tables.entry(j).0 by {
                        if a < last {
                            assert(deltas@[a] == before[a]);
                            let j = choose|j: int| 0 <= j < i && before[a].table_name@ == current_state.tables.entry(j).0;
                        } else {
                            assert(deltas@[a].table_name@ == current_state.tables.entry(i as int).0);
                        }
                    }
                }
            } else {
                proof {
                    assert forall|k: RowV| !(diff_op(records_in(previous_state, name), records_in(Some(cur), name), k) is Some) by {
                        assert(delta.op(k) is None);
                    }
                }
            }
            i += 1;
        }
        proof {
            current_state.tables.lemma_entries();
            assert forall|name: Seq<char>, k: RowV|
                has_table(Some(cur), name) && #[trigger] diff_op(records_in(previous_state, name), records_in(Some(cur), name), k) is Some
                implies exists|a: int| 0 <= a < deltas@.len() && (#[trigger] deltas@[a]).table_name@ == name by {
                let j = choose|j: int| 0 <= j < n && current_state.tables.entry(j).0 == name;
                assert(diff_op(
                    records_in(previous_state, current_state.tables.entry(j).0),
                    records_in(Some(cur), current_state.tables.entry(j).0),
                    k,
                ) is Some);
            }
            assert forall|a: int| 0 <= a < deltas@.len() implies has_table(Some(cur), (#[trigger] deltas@[a]).table_name@) by {
                let j = choose|j: int| 0 <= j < i && deltas@[a].table_name@ == current_state.tables.entry(j).0;
            }
        }
        if let Some(ps) = &previous_state {
            let ghost prev = *ps;
            proof {
                ps.tables.lemma_entries();
            }
            let pn = ps.tables.len();
            let mut i: usize = 0;
            while i < pn
                invariant
                    pn == ps.tables.size(),
                    ps.wf(),
                    current_state.wf(),
                    previous_state == Some(prev),
                    prev == *ps,
                    cur == *current_state,
                    i <= pn,
                    forall|a: int| 0 <= a < deltas@.len() ==> Delta::computed_for(#[trigger] deltas@[a], previous_state, cur),
                    forall|a: int|
                        0 <= a < deltas@.len() ==> has_table(Some(cur), (#[trigger] deltas@[a]).table_name@)
                            || exists|j: int| 0 <= j < i && deltas@[a].table_name@ == ps.tables.entry(j).0,
                    forall|a: int, b: int|
                        0 <= a < b < deltas@.len() ==> (#[trigger] deltas@[a]).table_name@ != (#[trigger] deltas@[b]).table_name@,
                    forall|name: Seq<char>, k: RowV|
                        has_table(Some(cur), name) && #[trigger] diff_op(records_in(previous_state, name), records_in(Some(cur), name), k) is Some
                        ==> exists|a: int| 0 <= a < deltas@.len() && (#[trigger] deltas@[a]).table_name@ == name,
                    forall|j: int, k: RowV|
                        0 <= j < i && #[trigger] diff_op(
                            records_in(previous_state, ps.tables.entry(j).0),
                            records_in(Some(cur), ps.tables.entry(j).0),
                            k,
                        ) is Some ==> exists|a: int|
                            0 <= a < deltas@.len() && (#[trigger] deltas@[a]).table_name@ == ps.tables.entry(j).0,
                    forall|j: int|
                        0 <= j < i && !has_table(Some(cur), #[trigger] ps.tables.entry(j).0) ==> exists|a: int|
                            0 <= a < deltas@.len() && (#[trigger] deltas@[a]).table_name@ == ps.tables.entry(j).0,
                decreases pn - i,
            {
                proof {
                    ps.tables.lemma_entries();
                }
                let (table_name, table) = ps.tables.entry_at(i);
                let ghost name = table_name@;
                let in_current = current_state.tables.contains_key(table_name);
                if !in_current {
                    let delta = Delta {
                        table_name: table_name.clone(),
                        column_names: row_clone(&table.fields),
                        inserts: KeyedMap::new(),
                        deletes: table.records.duplicate(),
                        updates: KeyedMap::new(),
                    };
                    proof {
                        table.records.lemma_entries();
                        assert(records_in(previous_state, name) == table.records@);
                        assert(records_in(Some(cur), name) == Map::<RowV, RowV>::empty());
                        assert forall|k: RowV| #[trigger] delta.op(k) == diff_op(
                            records_in(previous_state, name),
                            records_in(Some(cur), name),
                            k,
                        ) by {}
                        assert forall|a: int| 0 <= a < deltas@.len() implies (#[trigger] deltas@[a]).table_name@ != name by {
                            if !has_table(Some(cur), deltas@[a].table_name@) {
                                let j = choose|j: int| 0 <= j < i && deltas@[a].table_name@ == ps.tables.entry(j).0;
                                assert(ps.tables.entry(j).0 != ps.tables.entry(i as int).0);
                            }
                        }
                    }
                    let ghost before = deltas@;
                    deltas.push(delta);
                    proof {
                        let last = before.len() as int;
                        assert(deltas@[last].table_name@ == name);
                        assert forall|nm: Seq<char>, k: RowV|
                            has_table(Some(cur), nm) && #[trigger] diff_op(records_in(previous_state, nm), records_in(Some(cur), nm), k) is Some
                            implies exists|a: int| 0 <= a < deltas@.len() && (#[trigger] deltas@[a]).table_name@ == nm by {
                            let a = choose|a: int| 0 <= a < before.len() && (#[trigger] before[a]).table_name@ == nm;
                            assert(deltas@[a] == before[a]);
                        }
                        assert forall|j: int, k: RowV|
                            0 <= j < i + 1 && #[trigger] diff_op(
                                records_in(previous_state, ps.tables.entry(j).0),
                                records_in(Some(cur), ps.tables.entry(j).0),
                                k,
                            ) is Some implies exists|a: int|
                                0 <= a < deltas@.len() && (#[trigger] deltas@[a]).table_name@ == ps.tables.entry(j).0 by {
                            if j < i {
                                let a = choose|a: int|
                                    0 <= a < before.len() && (#[trigger] before[a]).table_name@ == ps.tables.entry(j).0;
                                assert(deltas@[a] == before[a]);
                            } else {
                                assert(deltas@[last].table_name@ == ps.tables.entry(j).0);
                            }
                        }
                        assert forall|j: int|
                            0 <= j < i + 1 && !has_table(Some(cur), #[trigger] ps.tables.entry(j).0) implies exists|a: int|
                                0 <= a < deltas@.len() && (#[trigger] deltas@[a]).table_name@ == ps.tables.entry(j).0 by {
                            if j < i {
                                let a = choose|a: int|
                                    0 <= a < before.len() && (#[trigger] before[a]).table_name@ == ps.tables.entry(j).0;
                                assert(deltas@[a] == before[a]);
                            } else {
                                assert(deltas@[last].table_name@ == ps.tables.entry(j).0);
                            }
                        }
                        assert forall|a: int|
                            0 <= a < deltas@.len() implies has_table(Some(cur), (#[trigger] deltas@[a]).table_name@)
                                || exists|j: int| 0 <= j < i + 1 && deltas@[a].table_name@ == ps.tables.entry(j).0 by {
                            if a < last {
                                assert(deltas@[a] == before[a]);
                                if !has_table(Some(cur), before[a].table_name@) {
                                    let j = choose|j: int| 0 <= j < i && before[a].table_name@ == ps.tables.entry(j).0;
                                    assert(deltas@[a].table_name@ == ps.tables.entry(j).0);
                                }
                            } else {
                                assert(deltas@[a].table_name@ == ps.tables.entry(i as int).0);
                            }
                        }
                    }
                } else {
                    proof {
                        assert forall|a: int|
                            0 <= a < deltas@.len() implies has_table(Some(cur), (#[trigger] deltas@[a]).table_name@)
                                || exists|j: int| 0 <= j < i + 1 && deltas@[a].table_name@ == ps.tables.entry(j).0 by {
                            if !has_table(Some(cur), deltas@[a].table_name@) {
                                let j = choose|j: int| 0 <= j < i && deltas@[a].table_name@ == ps.tables.entry(j).0;
                            }
                        }
                        if in_current {
                            assert forall|k: RowV| #[trigger] diff_op(records_in(previous_state, name), records_in(Some(cur), name), k) is Some
                                implies exists|a: int| 0 <= a < deltas@.len() && (#[trigger] deltas@[a]).table_name@ == name by {
                                assert(has_table(Some(cur), name));
                            }
                        }
                    }
                }
                i += 1;
            }
            proof {
                ps.tables.lemma_entries();
                assert forall|name: Seq<char>, k: RowV|
                    has_table(previous_state, name) && #[trigger] diff_op(records_in(previous_state, name), records_in(Some(cur), name), k) is Some
                    implies exists|a: int| 0 <= a < deltas@.len() && (#[trigger] deltas@[a]).table_name@ == name by {
                    let j = choose|j: int| 0 <= j < pn && ps.tables.entry(j).0 == name;
                    assert(diff_op(
                        records_in(previous_state, ps.tables.entry(j).0),
                        records_in(Some(cur), ps.tables.entry(j).0),
                        k,
                    ) is Some);
                }
                assert forall|name: Seq<char>|
                    #[trigger] has_table(previous_state, name) && !has_table(Some(cur), name) implies exists|a: int|
                    0 <= a < deltas@.len() && (#[trigger] deltas@[a]).table_name@ == name by {
                    let j = choose|j: int| 0 <= j < pn && ps.tables.entry(j).0 == name;
                    assert(!has_table(Some(cur), ps.tables.entry(j).0));
                }
            }
        }
        proof {
            if previous_state matches Some(s) && s.tables@ == current_state.tables@ {
                if deltas@.len() > 0 {
                    let d = deltas@[0];
                    assert(Delta::computed_for(d, previous_state, cur));
                    assert(has_table(Some(cur), d.table_name@));
                    let k = choose|k: RowV| #[trigger] d.op(k) is Some;
                    assert(records_in(previous_state, d.table_name@) == records_in(Some(cur), d.table_name@));
                    assert(d.op(k) == diff_op(records_in(previous_state, d.table_name@), records_in(Some(cur), d.table_name@), k));
                }
            }
        }
        deltas
    }
}

/// Merging with a delta that changes nothing leaves a delta as it is, on
/// either side.
pub proof fn lemma_merge_identity(d: Delta, empty: Delta)
    requires
        forall|k: RowV| #[trigger] empty.op(k) is None,
    ensures
        Delta::mergeable(d, empty),
        Delta::mergeable(empty, d),
        forall|k: RowV| #[trigger] merge_key(d.op(k), empty.op(k)) == Ok::<Option<Op>, MergeRule>(d.op(k)),
        forall|k: RowV| #[trigger] merge_key(empty.op(k), d.op(k)) == Ok::<Option<Op>, MergeRule>(d.op(k)),
{
    assert forall|k: RowV| #[trigger] merge_key(d.op(k), empty.op(k)) == Ok::<Option<Op>, MergeRule>(d.op(k)) by {
        assert(empty.op(k) is None);
    }
    assert forall|k: RowV| #[trigger] merge_key(empty.op(k), d.op(k)) == Ok::<Option<Op>, MergeRule>(d.op(k)) by {
        assert(empty.op(k) is None);
    }
}

/// The row that key `k` holds after applying operation `op` to the row `row`
/// it held before (`None`: no row).
pub open spec fn apply_op(row: Option<RowV>, op: Option<Op>) -> Option<RowV> {
    match op {
        None => row,
        Some(Op::Insert(v)) => Some(v),
        Some(Op::Delete(_)) => None,
        Some(Op::Update(_, n)) => Some(n),
    }
}

/// Operation `op` fits the row `row` it is applied to: an insert finds no
/// row, a delete or an update finds the row it names.
pub open spec fn op_fits(row: Option<RowV>, op: Option<Op>) -> bool {
    match op {
        None => true,
        Some(Op::Insert(_)) => row is None,
        Some(Op::Delete(v)) => row == Some(v),
        Some(Op::Update(o, n)) => row == Some(o) && n.len() == o.len(),
    }
}

/// The row of `k` in `rows`.
pub open spec fn row_of(rows: Map<RowV, RowV>, k: RowV) -> Option<RowV> {
    if rows.contains_key(k) {
        Some(rows[k])
    } else {
        None
    }
}

/// The rows of a table after applying delta `d`.
pub open spec fn apply_delta(d: Delta, rows: Map<RowV, RowV>) -> Map<RowV, RowV> {
    Map::new(
        |k: RowV| apply_op(row_of(rows, k), d.op(k)) is Some,
        |k: RowV| apply_op(row_of(rows, k), d.op(k))->Some_0,
    )
}

/// Every operation of `d` fits the rows it is applied to.
pub open spec fn fits(d: Delta, rows: Map<RowV, RowV>) -> bool {
    forall|k: RowV| #[trigger] op_fits(row_of(rows, k), d.op(k))
}

proof fn lemma_key_compose(row: Option<RowV>, a: Option<Op>, b: Option<Op>)
    requires
        op_fits(row, a),
        op_fits(apply_op(row, a), b),
    ensures
        merge_key(a, b) is Ok,
        apply_op(row, merge_key(a, b)->Ok_0) == apply_op(apply_op(row, a), b),
{
    match (a, b) {
        (Some(Op::Update(o1, n1)), Some(Op::Update(o2, n2))) => {
            assert(compose_new(o1, n1, o2, n2) =~= n2);
        },
        _ => {},
    }
}

/// Applying the merge of two successive deltas of a table gives the rows that
/// applying one after the other gives, when each fits the rows it meets.
pub proof fn lemma_apply_compose(d1: Delta, d2: Delta, rows: Map<RowV, RowV>, merged: Delta)
    requires
        fits(d1, rows),
        fits(d2, apply_delta(d1, rows)),
        Delta::is_merge_of(merged, d1, d2),
    ensures
        Delta::mergeable(d1, d2),
        apply_delta(merged, rows) == apply_delta(d2, apply_delta(d1, rows)),
{
    let s1 = apply_delta(d1, rows);
    assert forall|k: RowV| #[trigger] merge_key(d1.op(k), d2.op(k)) is Ok by {
        assert(row_of(s1, k) == apply_op(row_of(rows, k), d1.op(k)));
        assert(op_fits(row_of(rows, k), d1.op(k)));
        assert(op_fits(row_of(s1, k), d2.op(k)));
        lemma_key_compose(row_of(rows, k), d1.op(k), d2.op(k));
    }
    assert forall|k: RowV|
        #![trigger apply_delta(merged, rows).contains_key(k)]
        #![trigger apply_delta(d2, s1).contains_key(k)]
        row_of(apply_delta(merged, rows), k) == row_of(apply_delta(d2, s1), k) by {
        assert(row_of(s1, k) == apply_op(row_of(rows, k), d1.op(k)));
        assert(op_fits(row_of(rows, k), d1.op(k)));
        assert(op_fits(row_of(s1, k), d2.op(k)));
        lemma_key_compose(row_of(rows, k), d1.op(k), d2.op(k));
        assert(merged.op(k) == merge_key(d1.op(k), d2.op(k))->Ok_0);
    }
    assert forall|k: RowV| apply_delta(merged, rows).contains_key(k) == apply_delta(d2, s1).contains_key(k) by {
        assert(row_of(apply_delta(merged, rows), k) == row_of(apply_delta(d2, s1), k));
    }
    assert(apply_delta(merged, rows) =~= apply_delta(d2, s1)) by {
        assert forall|k: RowV| apply_delta(merged, rows).contains_key(k) implies apply_delta(merged, rows)[k]
            == apply_delta(d2, s1)[k] by {
            assert(row_of(apply_delta(merged, rows), k) == row_of(apply_delta(d2, s1), k));
        }
    }
}


/// Every row that `op` names has `w` values.
pub open spec fn op_width(op: Option<Op>, w: nat) -> bool {
    match op {
        None => true,
        Some(Op::Insert(v)) => v.len() == w,
        Some(Op::Delete(v)) => v.len() == w,
        Some(Op::Update(o, n)) => o.len() == w && n.len() == w,
    }
}

/// Every row of `rows` and every row that `d` names has `w` values.
pub open spec fn uniform(d: Delta, rows: Map<RowV, RowV>, w: nat) -> bool {
    &&& forall|k: RowV| #[trigger] rows.contains_key(k) ==> rows[k].len() == w
    &&& forall|k: RowV| #[trigger] op_width(d.op(k), w)
}

proof fn lemma_fits_merged(row: Option<RowV>, a: Option<Op>, b: Option<Op>, w: nat)
    requires
        op_fits(row, a),
        op_fits(apply_op(row, a), b),
        row matches Some(r) ==> r.len() == w,
        op_width(a, w),
        op_width(b, w),
    ensures
        merge_key(a, b) is Ok,
        op_fits(row, merge_key(a, b)->Ok_0),
        op_width(merge_key(a, b)->Ok_0, w),
{
    lemma_key_compose(row, a, b);
    match (a, b) {
        (Some(Op::Update(o1, n1)), Some(Op::Update(o2, n2))) => {
            assert(compose_old(o1, n1, o2, n2) =~= o1);
        },
        _ => {},
    }
}

proof fn lemma_key_assoc(row: Option<RowV>, a: Option<Op>, b: Option<Op>, c: Option<Op>, w: nat)
    requires
        op_fits(row, a),
        op_fits(apply_op(row, a), b),
        op_fits(apply_op(apply_op(row, a), b), c),
        row matches Some(r) ==> r.len() == w,
        op_width(a, w),
        op_width(b, w),
        op_width(c, w),
    ensures
        merge_key(a, b) is Ok,
        merge_key(b, c) is Ok,
        merge_key(merge_key(a, b)->Ok_0, c) is Ok,
        merge_key(a, merge_key(b, c)->Ok_0) is Ok,
        apply_op(row, merge_key(merge_key(a, b)->Ok_0, c)->Ok_0) == apply_op(
            row,
            merge_key(a, merge_key(b, c)->Ok_0)->Ok_0,
        ),
{
    let r1 = apply_op(row, a);
    lemma_fits_merged(row, a, b, w);
    lemma_key_compose(row, a, b);
    let ab = merge_key(a, b)->Ok_0;
    lemma_key_compose(row, ab, c);
    assert(r1 matches Some(r) ==> r.len() == w);
    lemma_fits_merged(r1, b, c, w);
    lemma_key_compose(r1, b, c);
    let bc = merge_key(b, c)->Ok_0;
    lemma_key_compose(row, a, bc);
}

/// Merging is associative as far as a receiver can tell: for three
/// successive deltas of a table, each fitting the rows it meets, both ways of
/// grouping the merges succeed and apply to the same rows.
pub proof fn lemma_merge_assoc(
    a: Delta,
    b: Delta,
    c: Delta,
    rows: Map<RowV, RowV>,
    w: nat,
    ab: Delta,
    ab_c: Delta,
    bc: Delta,
    a_bc: Delta,
)
    requires
        fits(a, rows),
        fits(b, apply_delta(a, rows)),
        fits(c, apply_delta(b, apply_delta(a, rows))),
        uniform(a, rows, w),
        forall|k: RowV| #[trigger] op_width(b.op(k), w),
        forall|k: RowV| #[trigger] op_width(c.op(k), w),
        Delta::is_merge_of(ab, a, b),
        Delta::is_merge_of(bc, b, c),
        Delta::is_merge_of(ab_c, ab, c),
        Delta::is_merge_of(a_bc, a, bc),
    ensures
        Delta::mergeable(a, b),
        Delta::mergeable(b, c),
        Delta::mergeable(ab, c),
        Delta::mergeable(a, bc),
        apply_delta(ab_c, rows) == apply_delta(a_bc, rows),
{
    let s1 = apply_delta(a, rows);
    let s2 = apply_delta(b, s1);
    assert forall|k: RowV|
        #![trigger a.op(k)]
        {
            &&& merge_key(a.op(k), b.op(k)) is Ok
            &&& merge_key(b.op(k), c.op(k)) is Ok
            &&& merge_key(ab.op(k), c.op(k)) is Ok
            &&& merge_key(a.op(k), bc.op(k)) is Ok
            &&& apply_op(row_of(rows, k), merge_key(ab.op(k), c.op(k))->Ok_0) == apply_op(
                row_of(rows, k),
                merge_key(a.op(k), bc.op(k))->Ok_0,
            )
        } by {
        assert(op_fits(row_of(rows, k), a.op(k)));
        assert(row_of(s1, k) == apply_op(row_of(rows, k), a.op(k)));
        assert(op_fits(row_of(s1, k), b.op(k)));
        assert(row_of(s2, k) == apply_op(row_of(s1, k), b.op(k)));
        assert(op_fits(row_of(s2, k), c.op(k)));
        assert(op_width(a.op(k), w));
        assert(op_width(b.op(k), w));
        assert(op_width(c.op(k), w));
        lemma_key_assoc(row_of(rows, k), a.op(k), b.op(k), c.op(k), w);
        assert(ab.op(k) == merge_key(a.op(k), b.op(k))->Ok_0);
        assert(bc.op(k) == merge_key(b.op(k), c.op(k))->Ok_0);
    }
    assert(Delta::mergeable(a, b)) by {
        assert forall|k: RowV| #[trigger] merge_key(a.op(k), b.op(k)) is Ok by {
            assert(a.op(k) == a.op(k));
        }
    }
    assert(Delta::mergeable(b, c)) by {
        assert forall|k: RowV| #[trigger] merge_key(b.op(k), c.op(k)) is Ok by {
            assert(a.op(k) == a.op(k));
        }
    }
    assert(Delta::mergeable(ab, c)) by {
        assert forall|k: RowV| #[trigger] merge_key(ab.op(k), c.op(k)) is Ok by {
            assert(a.op(k) == a.op(k));
        }
    }
    assert(Delta::mergeable(a, bc)) by {
        assert forall|k: RowV| #[trigger] merge_key(a.op(k), bc.op(k)) is Ok by {
            assert(a.op(k) == a.op(k));
        }
    }
    assert forall|k: RowV|
        #![trigger apply_delta(ab_c, rows).contains_key(k)]
        #![trigger apply_delta(a_bc, rows).contains_key(k)]
        row_of(apply_delta(ab_c, rows), k) == row_of(apply_delta(a_bc, rows), k) by {
        assert(a.op(k) == a.op(k));
        assert(ab_c.op(k) == merge_key(ab.op(k), c.op(k))->Ok_0);
        assert(a_bc.op(k) == merge_key(a.op(k), bc.op(k))->Ok_0);
    }
    assert(apply_delta(ab_c, rows) =~= apply_delta(a_bc, rows)) by {
        assert forall|k: RowV| apply_delta(ab_c, rows).contains_key(k) == apply_delta(a_bc, rows).contains_key(k) by {
            assert(row_of(apply_delta(ab_c, rows), k) == row_of(apply_delta(a_bc, rows), k));
        }
        assert forall|k: RowV| apply_delta(ab_c, rows).contains_key(k) implies apply_delta(ab_c, rows)[k]
            == apply_delta(a_bc, rows)[k] by {
            assert(row_of(apply_delta(ab_c, rows), k) == row_of(apply_delta(a_bc, rows), k));
        }
    }
}

/// Every row of `rows` has `w` values.
pub open spec fn rows_width(rows: Map<RowV, RowV>, w: nat) -> bool {
    forall|k: RowV| #[trigger] rows.contains_key(k) ==> rows[k].len() == w
}

/// The delta computed between two snapshots whose rows have one width fits
/// the earlier rows, and applying it gives the later ones.
pub proof fn lemma_computed_applies(d: Delta, p: Map<RowV, RowV>, c: Map<RowV, RowV>, w: nat)
    requires
        Delta::records_diff(d, p, c),
        rows_width(p, w),
        rows_width(c, w),
    ensures
        fits(d, p),
        apply_delta(d, p) == c,
{
    assert forall|k: RowV| #[trigger] op_fits(row_of(p, k), d.op(k)) by {
        assert(d.op(k) == diff_op(p, c, k));
        if p.contains_key(k) && c.contains_key(k) {
            assert(p[k].len() == w && c[k].len() == w);
        }
    }
    assert forall|k: RowV|
        #![trigger apply_delta(d, p).contains_key(k)]
        #![trigger c.contains_key(k)]
        row_of(apply_delta(d, p), k) == row_of(c, k) by {
        assert(d.op(k) == diff_op(p, c, k));
    }
    assert(apply_delta(d, p) =~= c) by {
        assert forall|k: RowV| apply_delta(d, p).contains_key(k) == c.contains_key(k) by {
            assert(row_of(apply_delta(d, p), k) == row_of(c, k));
        }
        assert forall|k: RowV| apply_delta(d, p).contains_key(k) implies apply_delta(d, p)[k] == c[k] by {
            assert(row_of(apply_delta(d, p), k) == row_of(c, k));
        }
    }
}

/// For a chain of three snapshots of a table whose rows have one width, the
/// deltas computed between them merge, and the merge applied to the first
/// snapshot gives the last.
pub proof fn lemma_chain_merge_applies(
    d1: Delta,
    d2: Delta,
    merged: Delta,
    s0: Map<RowV, RowV>,
    s1: Map<RowV, RowV>,
    s2: Map<RowV, RowV>,
    w: nat,
)
    requires
        Delta::records_diff(d1, s0, s1),
        Delta::records_diff(d2, s1, s2),
        rows_width(s0, w),
        rows_width(s1, w),
        rows_width(s2, w),
        Delta::is_merge_of(merged, d1, d2),
    ensures
        Delta::mergeable(d1, d2),
        apply_delta(merged, s0) == s2,
{
    lemma_computed_applies(d1, s0, s1, w);
    lemma_computed_applies(d2, s1, s2, w);
    lemma_apply_compose(d1, d2, s0, merged);
}

/// Composing an update with one that starts where it ended keeps the first
/// old row and the last new row.
proof fn lemma_compose_consistent(o1: RowV, n1: RowV, o2: RowV, n2: RowV)
    requires
        n1 == o2,
        n1.len() == o1.len(),
        n2.len() == o1.len(),
    ensures
        compose_old(o1, n1, o2, n2) == o1,
        compose_new(o1, n1, o2, n2) == n2,
{
    assert(compose_old(o1, n1, o2, n2) =~= o1);
    assert(compose_new(o1, n1, o2, n2) =~= n2);
}

/// Every update that `op` holds changes its row.
pub open spec fn op_changes(op: Option<Op>) -> bool {
    op matches Some(Op::Update(o, n)) ==> o != n
}

proof fn lemma_key_assoc_exact(row: Option<RowV>, a: Option<Op>, b: Option<Op>, c: Option<Op>, w: nat)
    requires
        op_fits(row, a),
        op_fits(apply_op(row, a), b),
        op_fits(apply_op(apply_op(row, a), b), c),
        row matches Some(r) ==> r.len() == w,
        op_width(a, w),
        op_width(b, w),
        op_width(c, w),
        op_changes(a),
        op_changes(b),
        op_changes(c),
    ensures
        merge_key(merge_key(a, b)->Ok_0, c) == merge_key(a, merge_key(b, c)->Ok_0),
{
    lemma_key_assoc(row, a, b, c, w);
    match (a, b, c) {
        (Some(Op::Delete(v1)), Some(Op::Insert(v2)), Some(Op::Update(o3, n3))) => {
            if v1 != v2 {
                lemma_compose_consistent(v1, v2, o3, n3);
            }
        },
        (Some(Op::Update(o1, n1)), Some(Op::Delete(v)), Some(Op::Insert(v3))) => {
            if v != v3 {
                lemma_compose_consistent(o1, n1, v, v3);
            }
        },
        (Some(Op::Update(o1, n1)), Some(Op::Update(o2, n2)), Some(Op::Delete(_))) => {
            lemma_compose_consistent(o1, n1, o2, n2);
        },
        (Some(Op::Update(o1, n1)), Some(Op::Update(o2, n2)), Some(Op::Update(o3, n3))) => {
            lemma_compose_consistent(o1, n1, o2, n2);
            lemma_compose_consistent(o2, n2, o3, n3);
            if o1 != n2 {
                lemma_compose_consistent(o1, n2, o3, n3);
            }
            if o2 != n3 {
                lemma_compose_consistent(o1, n1, o2, n3);
            }
        },
        _ => {},
    }
}

/// Two well-formed deltas with the same operation on every key hold the same
/// inserts, deletes and updates.
pub proof fn lemma_same_ops(x: Delta, y: Delta)
    requires
        x.wf(),
        y.wf(),
        forall|k: RowV| #[trigger] x.op(k) == y.op(k),
    ensures
        x.inserts@ == y.inserts@,
        x.deletes@ == y.deletes@,
        x.updates@ == y.updates@,
{
    assert(x.inserts@ =~= y.inserts@) by {
        assert forall|k: RowV| x.inserts@.contains_key(k) == y.inserts@.contains_key(k) by {
            assert(x.op(k) == y.op(k));
        }
        assert forall|k: RowV| x.inserts@.contains_key(k) implies x.inserts@[k] == y.inserts@[k] by {
            assert(x.op(k) == y.op(k));
        }
    }
    assert(x.deletes@ =~= y.deletes@) by {
        assert forall|k: RowV| x.deletes@.contains_key(k) == y.deletes@.contains_key(k) by {
            assert(x.op(k) == y.op(k));
        }
        assert forall|k: RowV| x.deletes@.contains_key(k) implies x.deletes@[k] == y.deletes@[k] by {
            assert(x.op(k) == y.op(k));
        }
    }
    assert(x.updates@ =~= y.updates@) by {
        assert forall|k: RowV| x.updates@.contains_key(k) == y.updates@.contains_key(k) by {
            assert(x.op(k) == y.op(k));
        }
        assert forall|k: RowV| x.updates@.contains_key(k) implies x.updates@[k] == y.updates@[k] by {
            assert(x.op(k) == y.op(k));
        }
    }
}

/// Merging is associative for three successive deltas of a table that each
/// fit the rows they meet, whose updates each change their row, and whose
/// rows have one width: both groupings give the same delta.
pub proof fn lemma_merge_assoc_exact(
    a: Delta,
    b: Delta,
    c: Delta,
    rows: Map<RowV, RowV>,
    w: nat,
    ab: Delta,
    ab_c: Delta,
    bc: Delta,
    a_bc: Delta,
)
    requires
        fits(a, rows),
        fits(b, apply_delta(a, rows)),
        fits(c, apply_delta(b, apply_delta(a, rows))),
        uniform(a, rows, w),
        forall|k: RowV| #[trigger] op_width(b.op(k), w),
        forall|k: RowV| #[trigger] op_width(c.op(k), w),
        a.updates_change(),
        b.updates_change(),
        c.updates_change(),
        Delta::is_merge_of(ab, a, b),
        Delta::is_merge_of(bc, b, c),
        Delta::is_merge_of(ab_c, ab, c),
        Delta::is_merge_of(a_bc, a, bc),
    ensures
        ab_c.inserts@ == a_bc.inserts@,
        ab_c.deletes@ == a_bc.deletes@,
        ab_c.updates@ == a_bc.updates@,
{
    let s1 = apply_delta(a, rows);
    let s2 = apply_delta(b, s1);
    assert forall|k: RowV| #[trigger] ab_c.op(k) == a_bc.op(k) by {
        assert(op_fits(row_of(rows, k), a.op(k)));
        assert(row_of(s1, k) == apply_op(row_of(rows, k), a.op(k)));
        assert(op_fits(row_of(s1, k), b.op(k)));
        assert(row_of(s2, k) == apply_op(row_of(s1, k), b.op(k)));
        assert(op_fits(row_of(s2, k), c.op(k)));
        assert(op_width(a.op(k), w));
        assert(op_width(b.op(k), w));
        assert(op_width(c.op(k), w));
        if a.updates@.contains_key(k) {
            assert(a.updates@[k].0 != a.updates@[k].1);
        }
        if b.updates@.contains_key(k) {
            assert(b.updates@[k].0 != b.updates@[k].1);
        }
        if c.updates@.contains_key(k) {
            assert(c.updates@[k].0 != c.updates@[k].1);
        }
        lemma_key_assoc_exact(row_of(rows, k), a.op(k), b.op(k), c.op(k), w);
        assert(ab.op(k) == merge_key(a.op(k), b.op(k))->Ok_0);
        assert(bc.op(k) == merge_key(b.op(k), c.op(k))->Ok_0);
    }
    lemma_same_ops(ab_c, a_bc);
}
} // verus!
