use vstd::prelude::*;

use crate::delta::{diff_op, Delta};
use crate::error::Error;
use crate::row::{rv, RowV};
use crate::state::{has_table, records_in, State};

verus! {

/// A point in time: seconds since the Unix epoch and nanoseconds.
#[derive(Debug, Clone, Copy, PartialEq, Eq, Structural)]
pub struct Timestamp {
    pub seconds: i64,
    pub nanos: i32,
}

/// A record of the deltas between two successive snapshots, linked to the
/// block before it by that block's hash.
pub struct Block {
    /// Hash of the parent block, or the genesis hash for the first block.
    pub parent: String,
    /// When the block was created.
    pub created: Option<Timestamp>,
    /// At most one delta per table.
    pub payload: Vec<Delta>,
}

/// No two deltas of `p` belong to the same table.
pub open spec fn names_unique(p: Seq<Delta>) -> bool {
    forall|i: int, j: int| 0 <= i < j < p.len() ==> (#[trigger] p[i]).table_name@ != (#[trigger] p[j]).table_name@
}

/// Some delta of `p` belongs to table `name`.
pub open spec fn has_delta(p: Seq<Delta>, name: Seq<char>) -> bool {
    exists|i: int| 0 <= i < p.len() && (#[trigger] p[i]).table_name@ == name
}

impl Block {
    pub open spec fn wf(&self) -> bool {
        &&& names_unique(self.payload@)
        &&& forall|i: int| 0 <= i < self.payload@.len() ==> (#[trigger] self.payload@[i]).wf()
    }

    /// Where `parent` and `child` both hold a delta of one table, those
    /// deltas agree on the widths of the rows they both update.
    pub open spec fn widths_agree(parent: Seq<Delta>, child: Seq<Delta>) -> bool {
        forall|i: int, j: int|
            0 <= i < parent.len() && 0 <= j < child.len() && (#[trigger] parent[i]).table_name@ == (#[trigger] child[j]).table_name@
                ==> Delta::widths_agree(parent[i], child[j])
    }

    /// Every pair of deltas of one table merges.
    pub open spec fn mergeable(parent: Seq<Delta>, child: Seq<Delta>) -> bool {
        forall|i: int, j: int|
            0 <= i < parent.len() && 0 <= j < child.len() && (#[trigger] parent[i]).table_name@ == (#[trigger] child[j]).table_name@
                ==> rv(&parent[i].column_names) == rv(&child[j].column_names) && Delta::mergeable(parent[i], child[j])
    }

    /// `d` is one of the first `j` deltas of `child`, of a table that `parent`
    /// lacks.
    pub open spec fn from_child(d: Delta, parent: Seq<Delta>, child: Seq<Delta>, j: int) -> bool {
        exists|b: int| 0 <= b < j && d == #[trigger] child[b] && !has_delta(parent, child[b].table_name@)
    }

    /// `d` stands in `acc` past the first `start` deltas.
    pub open spec fn kept_after(d: Delta, acc: Seq<Delta>, start: int) -> bool {
        exists|i: int| start <= i < acc.len() && #[trigger] acc[i] == d
    }

    /// Each delta of `acc` past the parent's comes from one of the first `j`
    /// deltas of `child`, of a table that `parent` lacks.
    pub open spec fn tail_from_child(acc: Seq<Delta>, parent: Seq<Delta>, child: Seq<Delta>, j: int) -> bool {
        forall|i: int|
            parent.len() <= i < acc.len() ==> Block::from_child(#[trigger] acc[i], parent, child, j)
    }

    /// Each of the first `j` deltas of `child` of a table that `parent` lacks
    /// stands in `acc` past the parent's deltas.
    pub open spec fn child_kept(acc: Seq<Delta>, parent: Seq<Delta>, child: Seq<Delta>, j: int) -> bool {
        forall|b: int|
            0 <= b < j && !has_delta(parent, (#[trigger] child[b]).table_name@) ==> Block::kept_after(
                child[b],
                acc,
                parent.len() as int,
            )
    }

    /// `r` is the payload of `parent` followed by that of `child`: deltas of a
    /// table that both hold are merged in the parent's place, and the child's
    /// other deltas come after the parent's.
    pub open spec fn payload_merge(r: Seq<Delta>, parent: Seq<Delta>, child: Seq<Delta>) -> bool {
        &&& r.len() >= parent.len()
        &&& names_unique(r)
        &&& forall|i: int| 0 <= i < r.len() ==> (#[trigger] r[i]).wf()
        &&& forall|i: int|
            0 <= i < parent.len() ==> if has_delta(child, parent[i].table_name@) {
                exists|j: int|
                    0 <= j < child.len() && child[j].table_name@ == parent[i].table_name@
                        && Delta::is_merge_of(#[trigger] r[i], parent[i], child[j])
            } else {
                r[i] == parent[i]
            }
        &&& Block::tail_from_child(r, parent, child, child.len() as int)
        &&& Block::child_kept(r, parent, child, child.len() as int)
    }

    /// `acc` is the payload of `parent` with the first `j` deltas of `child`
    /// merged in.
    pub open spec fn merged_prefix(acc: Seq<Delta>, parent: Seq<Delta>, child: Seq<Delta>, j: int) -> bool {
        &&& acc.len() >= parent.len()
        &&& names_unique(acc)
        &&& forall|i: int| 0 <= i < acc.len() ==> (#[trigger] acc[i]).wf()
        &&& forall|i: int|
            0 <= i < parent.len() ==> (#[trigger] acc[i]).table_name@ == parent[i].table_name@ && if has_delta(
                child.subrange(0, j),
                parent[i].table_name@,
            ) {
                exists|b: int|
                    0 <= b < j && child[b].table_name@ == parent[i].table_name@ && Delta::is_merge_of(
                        acc[i],
                        parent[i],
                        child[b],
                    )
            } else {
                acc[i] == parent[i]
            }
        &&& Block::tail_from_child(acc, parent, child, j)
        &&& Block::child_kept(acc, parent, child, j)
    }

    proof fn lemma_prefix_start(parent: Seq<Delta>, child: Seq<Delta>)
        requires
            names_unique(parent),
            forall|i: int| 0 <= i < parent.len() ==> (#[trigger] parent[i]).wf(),
        ensures
            Block::merged_prefix(parent, parent, child, 0),
    {
        assert forall|i: int| 0 <= i < parent.len() implies !has_delta(
            child.subrange(0, 0),
            (#[trigger] parent[i]).table_name@,
        ) by {}
    }

    proof fn lemma_prefix_end(acc: Seq<Delta>, parent: Seq<Delta>, child: Seq<Delta>)
        requires
            Block::merged_prefix(acc, parent, child, child.len() as int),
        ensures
            Block::payload_merge(acc, parent, child),
    {
        assert(child.subrange(0, child.len() as int) =~= child);
        assert(acc.len() >= parent.len());
        assert(names_unique(acc));
        assert(forall|i: int| 0 <= i < acc.len() ==> (#[trigger] acc[i]).wf());
        assert forall|i: int| 0 <= i < parent.len() implies if has_delta(child, parent[i].table_name@) {
            exists|j: int|
                0 <= j < child.len() && child[j].table_name@ == parent[i].table_name@
                    && Delta::is_merge_of(#[trigger] acc[i], parent[i], child[j])
        } else {
            acc[i] == parent[i]
        } by {
            assert(acc[i].table_name@ == parent[i].table_name@);
        }
    }

    #[verifier::rlimit(100)]
    proof fn lemma_prefix_merged(
        acc: Seq<Delta>,
        parent: Seq<Delta>,
        child: Seq<Delta>,
        j: int,
        x: int,
        merged: Delta,
    )
        requires
            Block::merged_prefix(acc, parent, child, j),
            names_unique(child),
            0 <= j < child.len(),
            0 <= x < parent.len(),
            parent[x].table_name@ == child[j].table_name@,
            Delta::is_merge_of(merged, parent[x], child[j]),
            merged.table_name@ == parent[x].table_name@,
        ensures
            Block::merged_prefix(acc.update(x, merged), parent, child, j + 1),
    {
        let after = acc.update(x, merged);
        let name = child[j].table_name@;
        assert(has_delta(child.subrange(0, j + 1), name)) by {
            assert(child.subrange(0, j + 1)[j] == child[j]);
        }
        assert forall|i: int| 0 <= i < parent.len() implies (#[trigger] after[i]).table_name@
            == parent[i].table_name@ && if has_delta(child.subrange(0, j + 1), parent[i].table_name@) {
            exists|b: int|
                0 <= b < j + 1 && child[b].table_name@ == parent[i].table_name@ && Delta::is_merge_of(
                    after[i],
                    parent[i],
                    child[b],
                )
        } else {
            after[i] == parent[i]
        } by {
            if i != x {
                assert(parent[i].table_name@ != name) by {
                    assert(acc[x].table_name@ == parent[x].table_name@);
                    assert(acc[i].table_name@ != acc[x].table_name@);
                }
                if has_delta(child.subrange(0, j + 1), parent[i].table_name@) {
                    let u = choose|u: int|
                        0 <= u < j + 1 && (#[trigger] child.subrange(0, j + 1)[u]).table_name@
                            == parent[i].table_name@;
                    assert(child.subrange(0, j + 1)[u] == child[u]);
                    assert(u < j);
                    assert(child.subrange(0, j)[u] == child[u]);
                    assert(has_delta(child.subrange(0, j), parent[i].table_name@));
                } else {
                    if has_delta(child.subrange(0, j), parent[i].table_name@) {
                        let u = choose|u: int|
                            0 <= u < j && (#[trigger] child.subrange(0, j)[u]).table_name@
                                == parent[i].table_name@;
                        assert(child.subrange(0, j + 1)[u] == child.subrange(0, j)[u]);
                    }
                }
            } else {
                if has_delta(child.subrange(0, j), name) {
                    let u = choose|u: int|
                        0 <= u < j && (#[trigger] child.subrange(0, j)[u]).table_name@ == name;
                    assert(child.subrange(0, j)[u] == child[u]);
                    assert(child[u].table_name@ != child[j].table_name@);
                }
            }
        }
        assert forall|i: int| parent.len() <= i < after.len() implies Block::from_child(
            #[trigger] after[i],
            parent,
            child,
            j + 1,
        ) by {
            assert(after[i] == acc[i]);
            assert(Block::from_child(acc[i], parent, child, j));
            let b = choose|b: int|
                0 <= b < j && acc[i] == #[trigger] child[b] && !has_delta(parent, child[b].table_name@);
        }
        assert forall|b: int|
            0 <= b < j + 1 && !has_delta(parent, (#[trigger] child[b]).table_name@) implies Block::kept_after(
            child[b],
            after,
            parent.len() as int,
        ) by {
            if b == j {
                assert(parent[x].table_name@ == child[b].table_name@);
            } else {
                assert(Block::kept_after(child[b], acc, parent.len() as int));
                let i = choose|i: int| parent.len() <= i < acc.len() && #[trigger] acc[i] == child[b];
                assert(after[i] == child[b]);
            }
        }
        assert forall|a: int, b: int| 0 <= a < b < after.len() implies (#[trigger] after[a]).table_name@
            != (#[trigger] after[b]).table_name@ by {
            assert(acc[a].table_name@ != acc[b].table_name@);
            assert(acc[x].table_name@ == parent[x].table_name@);
        }
        assert forall|i: int| 0 <= i < after.len() implies (#[trigger] after[i]).wf() by {
            if i != x {
                assert(after[i] == acc[i]);
            }
        }
        assert(Block::tail_from_child(after, parent, child, j + 1));
        assert(Block::child_kept(after, parent, child, j + 1));
        assert(names_unique(after));
        assert(after.len() >= parent.len());
    }

    proof fn lemma_prefix_new(acc: Seq<Delta>, parent: Seq<Delta>, child: Seq<Delta>, j: int)
        requires
            Block::merged_prefix(acc, parent, child, j),
            names_unique(child),
            forall|i: int| 0 <= i < child.len() ==> (#[trigger] child[i]).wf(),
            0 <= j < child.len(),
            forall|u: int| 0 <= u < acc.len() ==> (#[trigger] acc[u]).table_name@ != child[j].table_name@,
        ensures
            Block::merged_prefix(acc.push(child[j]), parent, child, j + 1),
    {
        let after = acc.push(child[j]);
        let name = child[j].table_name@;
        assert(!has_delta(parent, name)) by {
            if has_delta(parent, name) {
                let i = choose|i: int| 0 <= i < parent.len() && (#[trigger] parent[i]).table_name@ == name;
                assert(acc[i].table_name@ == parent[i].table_name@);
            }
        }
        assert forall|i: int| 0 <= i < parent.len() implies (#[trigger] after[i]).table_name@
            == parent[i].table_name@ && if has_delta(child.subrange(0, j + 1), parent[i].table_name@) {
            exists|b: int|
                0 <= b < j + 1 && child[b].table_name@ == parent[i].table_name@ && Delta::is_merge_of(
                    after[i],
                    parent[i],
                    child[b],
                )
        } else {
            after[i] == parent[i]
        } by {
            assert(after[i] == acc[i]);
            assert(parent[i].table_name@ != name);
            if has_delta(child.subrange(0, j + 1), parent[i].table_name@) {
                let u = choose|u: int|
                    0 <= u < j + 1 && (#[trigger] child.subrange(0, j + 1)[u]).table_name@
                        == parent[i].table_name@;
                assert(child.subrange(0, j + 1)[u] == child[u]);
                assert(child.subrange(0, j)[u] == child[u]);
                assert(has_delta(child.subrange(0, j), parent[i].table_name@));
            } else if has_delta(child.subrange(0, j), parent[i].table_name@) {
                let u = choose|u: int|
                    0 <= u < j && (#[trigger] child.subrange(0, j)[u]).table_name@ == parent[i].table_name@;
                assert(child.subrange(0, j + 1)[u] == child.subrange(0, j)[u]);
            }
        }
        assert forall|i: int| parent.len() <= i < after.len() implies Block::from_child(
            #[trigger] after[i],
            parent,
            child,
            j + 1,
        ) by {
            if i < acc.len() {
                assert(after[i] == acc[i]);
                assert(Block::from_child(acc[i], parent, child, j));
                let b = choose|b: int|
                    0 <= b < j && acc[i] == #[trigger] child[b] && !has_delta(parent, child[b].table_name@);
            } else {
                assert(after[i] == child[j]);
            }
        }
        assert forall|b: int|
            0 <= b < j + 1 && !has_delta(parent, (#[trigger] child[b]).table_name@) implies Block::kept_after(
            child[b],
            after,
            parent.len() as int,
        ) by {
            if b == j {
                assert(after[acc.len() as int] == child[b]);
            } else {
                assert(Block::kept_after(child[b], acc, parent.len() as int));
                let i = choose|i: int| parent.len() <= i < acc.len() && #[trigger] acc[i] == child[b];
                assert(after[i] == child[b]);
            }
        }
        assert forall|a: int, b: int| 0 <= a < b < after.len() implies (#[trigger] after[a]).table_name@
            != (#[trigger] after[b]).table_name@ by {
            if b < acc.len() {
                assert(acc[a].table_name@ != acc[b].table_name@);
            }
        }
        assert forall|i: int| 0 <= i < after.len() implies (#[trigger] after[i]).wf() by {
            if i < acc.len() {
                assert(after[i] == acc[i]);
            }
        }
    }

    /// Merges `child`, the block after `self`, into `self`: the result keeps
    /// the parent hash and timestamp of `self` and stands for both payloads in
    /// sequence.
    pub fn merge(self, child: Block) -> (r: Result<Block, Error>)
        requires
            self.wf(),
            child.wf(),
            Block::widths_agree(self.payload@, child.payload@),
        ensures
            r is Ok <==> Block::mergeable(self.payload@, child.payload@),
            r matches Ok(b) ==> b.wf() && b.parent == self.parent && b.created == self.created
                && Block::payload_merge(b.payload@, self.payload@, child.payload@),
            r matches Err(e) ==> exists|i: int, j: int|
                0 <= i < self.payload@.len() && 0 <= j < child.payload@.len()
                    && (#[trigger] self.payload@[i]).table_name@ == (#[trigger] child.payload@[j]).table_name@
                    && Delta::merge_failure(e, self.payload@[i], child.payload@[j]),
    {
        let ghost p = self.payload@;
        let ghost c = child.payload@;
        let m = self.payload.len();
        let mut acc = self.payload;
        let mut rest = child.payload;
        let q = rest.len();
        let mut j: usize = 0;
        proof {
            Block::lemma_prefix_start(p, c);
        }
        while j < q
            invariant
                p == self.payload@,
                c == child.payload@,
                self.wf(),
                child.wf(),
                Block::widths_agree(p, c),
                m == p.len(),
                q == c.len(),
                j <= q,
                rest@ == c.subrange(j as int, q as int),
                Block::merged_prefix(acc@, p, c, j as int),
                forall|i: int, b: int|
                    0 <= i < m && 0 <= b < j && (#[trigger] p[i]).table_name@ == (#[trigger] c[b]).table_name@
                        ==> rv(&p[i].column_names) == rv(&c[b].column_names) && Delta::mergeable(p[i], c[b]),
            decreases q - j,
        {
            let child_delta = rest.remove(0);
            assert(child_delta == c[j as int]);
            let mut found: Option<usize> = None;
            let mut t: usize = 0;
            while t < acc.len()
                invariant
                    t <= acc@.len(),
                    found matches Some(x) ==> x < acc@.len() && acc@[x as int].table_name@
                        == child_delta.table_name@,
                    found is None ==> forall|u: int|
                        0 <= u < t ==> (#[trigger] acc@[u]).table_name@ != child_delta.table_name@,
                decreases acc@.len() - t,
            {
                if found.is_none() && acc[t].table_name == child_delta.table_name {
                    found = Some(t);
                }
                t += 1;
            }
            let ghost before = acc@;
            match found {
                Some(x) => {
                    proof {
                        if x >= m {
                            assert(Block::from_child(acc@[x as int], p, c, j as int));
                            let b = choose|b: int|
                                0 <= b < j && acc@[x as int] == #[trigger] c[b] && !has_delta(p, c[b].table_name@);
                            assert(c[b].table_name@ != c[j as int].table_name@);
                        }
                        assert(p[x as int].table_name@ == c[j as int].table_name@);
                        if has_delta(c.subrange(0, j as int), p[x as int].table_name@) {
                            let u = choose|u: int|
                                0 <= u < j && (#[trigger] c.subrange(0, j as int)[u]).table_name@
                                    == p[x as int].table_name@;
                            assert(c.subrange(0, j as int)[u] == c[u]);
                            assert(c[u].table_name@ != c[j as int].table_name@);
                        }
                        assert(acc@[x as int] == p[x as int]);
                    }
                    let mut parent_delta = acc.remove(x);
                    match Delta::merge(&mut parent_delta, child_delta) {
                        Ok(()) => {},
                        Err(e) => {
                            return Err(e);
                        },
                    }
                    acc.insert(x, parent_delta);
                    proof {
                        assert(acc@ =~= before.update(x as int, parent_delta));
                        Block::lemma_prefix_merged(before, p, c, j as int, x as int, parent_delta);
                        assert forall|i: int, b: int|
                            0 <= i < m && 0 <= b < j + 1 && (#[trigger] p[i]).table_name@ == (#[trigger] c[b]).table_name@
                                implies rv(&p[i].column_names) == rv(&c[b].column_names) && Delta::mergeable(p[i], c[b]) by {
                            if b == j {
                                if i != x {
                                    assert(before[i].table_name@ != before[x as int].table_name@);
                                }
                            }
                        }
                    }
                },
                None => {
                    acc.push(child_delta);
                    proof {
                        Block::lemma_prefix_new(before, p, c, j as int);
                        assert forall|i: int, b: int|
                            0 <= i < m && 0 <= b < j + 1 && (#[trigger] p[i]).table_name@ == (#[trigger] c[b]).table_name@
                                implies rv(&p[i].column_names) == rv(&c[b].column_names) && Delta::mergeable(p[i], c[b]) by {
                            if b == j {
                                assert(before[i].table_name@ == p[i].table_name@);
                            }
                        }
                    }
                },
            }
            j += 1;
        }
        proof {
            Block::lemma_prefix_end(acc@, p, c);
        }
        Ok(Block { parent: self.parent, created: self.created, payload: acc })
    }
}


impl Block {
    /// The block that records the changes from `previous_state` (none before
    /// the first block) to `current_state`, on top of the block `parent`.
    pub fn create(previous_state: Option<State>, current_state: &State, parent: String, created: Timestamp) -> (r:
        Block)
        requires
            current_state.wf(),
            previous_state matches Some(s) ==> s.wf(),
        ensures
            r.wf(),
            r.parent@ == parent@,
            r.created == Some(created),
            forall|i: int| 0 <= i < r.payload@.len() ==> Delta::computed_for(#[trigger] r.payload@[i], previous_state, *current_state),
            forall|name: Seq<char>, k: RowV|
                (has_table(Some(*current_state), name) || has_table(previous_state, name))
                    && #[trigger] diff_op(records_in(previous_state, name), records_in(Some(*current_state), name), k) is Some
                    ==> has_delta(r.payload@, name),
    {
        let payload = Delta::compute(previous_state, current_state);
        let r = Block { parent, created: Some(created), payload };
        proof {
            assert forall|name: Seq<char>, k: RowV|
                (has_table(Some(*current_state), name) || has_table(previous_state, name))
                    && #[trigger] diff_op(records_in(previous_state, name), records_in(Some(*current_state), name), k) is Some
                    implies has_delta(r.payload@, name) by {
                let i = choose|i: int| 0 <= i < r.payload@.len() && (#[trigger] r.payload@[i]).table_name@ == name;
            }
        }
        r
    }
}

/// Whether no two deltas of `payload` belong to the same table.
pub fn tables_distinct(payload: &Vec<Delta>) -> (r: bool)
    ensures
        r == names_unique(payload@),
{
    let mut i: usize = 0;
    while i < payload.len()
        invariant
            i <= payload@.len(),
            forall|a: int, b: int|
                0 <= a < b < payload@.len() && a < i ==> (#[trigger] payload@[a]).table_name@ != (#[trigger] payload@[b]).table_name@,
        decreases payload@.len() - i,
    {
        let mut j: usize = i + 1;
        while j < payload.len()
            invariant
                i < payload@.len(),
                i + 1 <= j <= payload@.len(),
                forall|a: int, b: int|
                    0 <= a < b < payload@.len() && a < i ==> (#[trigger] payload@[a]).table_name@ != (#[trigger] payload@[b]).table_name@,
                forall|b: int| i < b < j ==> payload@[i as int].table_name@ != (#[trigger] payload@[b]).table_name@,
            decreases payload@.len() - j,
        {
            if payload[i].table_name == payload[j].table_name {
                return false;
            }
            j += 1;
        }
        i += 1;
    }
    true
}

/// Whether the updates of `parent` and `child` agree on the width of every
/// row that both update.
pub fn delta_widths_agree(parent: &Delta, child: &Delta) -> (r: bool)
    requires
        parent.wf(),
        child.wf(),
    ensures
        r == Delta::widths_agree(*parent, *child),
{
    proof {
        child.updates.lemma_entries();
    }
    let mut i: usize = 0;
    while i < child.updates.len()
        invariant
            parent.wf(),
            child.wf(),
            child.updates.size() == child.updates@.dom().len(),
            i <= child.updates@.dom().len(),
            forall|t: int|
                0 <= t < i && #[trigger] parent.updates@.contains_key(child.updates.entry(t).0) ==> Delta::same_width(
                    parent.updates@[child.updates.entry(t).0],
                    child.updates@[child.updates.entry(t).0],
                ),
        decreases child.updates@.dom().len() - i,
    {
        proof {
            child.updates.lemma_entries();
        }
        let (k, (o2, n2)) = child.updates.entry_at(i);
        match parent.updates.get(k) {
            Some((o1, n1)) => {
                if !(n1.len() == o1.len() && o2.len() == o1.len() && n2.len() == o1.len()) {
                    proof {
                        assert(rv(o1).len() == o1@.len() && rv(n1).len() == n1@.len());
                        assert(rv(o2).len() == o2@.len() && rv(n2).len() == n2@.len());
                    }
                    return false;
                }
                proof {
                    assert(rv(o1).len() == o1@.len() && rv(n1).len() == n1@.len());
                    assert(rv(o2).len() == o2@.len() && rv(n2).len() == n2@.len());
                }
            },
            None => {},
        }
        i += 1;
    }
    proof {
        child.updates.lemma_entries();
        assert forall|k: RowV|
            parent.updates@.contains_key(k) && child.updates@.contains_key(k) implies Delta::same_width(
            #[trigger] parent.updates@[k],
            child.updates@[k],
        ) by {
            let t = choose|t: int| 0 <= t < child.updates.size() && child.updates.entry(t).0 == k;
            assert(parent.updates@.contains_key(child.updates.entry(t).0));
        }
    }
    true
}

impl Block {
    /// Whether the deltas of `older` and `newer` of one table agree on the
    /// widths of the rows they both update.
    pub fn check_widths(older: &Block, newer: &Block) -> (r: bool)
        requires
            older.wf(),
            newer.wf(),
        ensures
            r == Block::widths_agree(older.payload@, newer.payload@),
    {
        let mut i: usize = 0;
        while i < older.payload.len()
            invariant
                older.wf(),
                newer.wf(),
                i <= older.payload@.len(),
                forall|a: int, b: int|
                    0 <= a < i && 0 <= b < newer.payload@.len() && (#[trigger] older.payload@[a]).table_name@
                        == (#[trigger] newer.payload@[b]).table_name@ ==> Delta::widths_agree(
                        older.payload@[a],
                        newer.payload@[b],
                    ),
            decreases older.payload@.len() - i,
        {
            let mut j: usize = 0;
            while j < newer.payload.len()
                invariant
                    older.wf(),
                    newer.wf(),
                    i < older.payload@.len(),
                    j <= newer.payload@.len(),
                    forall|a: int, b: int|
                        0 <= a < i && 0 <= b < newer.payload@.len() && (#[trigger] older.payload@[a]).table_name@
                            == (#[trigger] newer.payload@[b]).table_name@ ==> Delta::widths_agree(
                            older.payload@[a],
                            newer.payload@[b],
                        ),
                    forall|b: int|
                        0 <= b < j && older.payload@[i as int].table_name@ == (#[trigger] newer.payload@[b]).table_name@
                            ==> Delta::widths_agree(older.payload@[i as int], newer.payload@[b]),
                decreases newer.payload@.len() - j,
            {
                if older.payload[i].table_name == newer.payload[j].table_name {
                    if !delta_widths_agree(&older.payload[i], &newer.payload[j]) {
                        return false;
                    }
                }
                j += 1;
            }
            i += 1;
        }
        true
    }
}
} // verus!
