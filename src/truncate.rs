use vstd::prelude::*;
use vstd::string::*;

verus! {

/// A hexadecimal digit, in either case.
pub open spec fn is_hex(c: char) -> bool {
    ('0' <= c && c <= '9') || ('a' <= c && c <= 'f') || ('A' <= c && c <= 'F')
}

/// Whether a file name has the shape of a block hash: 40 hex digits.
pub open spec fn is_block_name(s: Seq<char>) -> bool {
    s.len() == 40 && forall|i: int| 0 <= i < 40 ==> is_hex(#[trigger] s[i])
}

/// Whether `name` has the shape of a block hash.
pub fn block_name(name: &String) -> (r: bool)
    ensures
        r == is_block_name(name@),
{
    let s = name.as_str();
    if s.unicode_len() != 40 {
        return false;
    }
    let mut i: usize = 0;
    while i < 40
        invariant
            s@ == name@,
            s@.len() == 40,
            i <= 40,
            forall|j: int| 0 <= j < i ==> is_hex(#[trigger] name@[j]),
        decreases 40 - i,
    {
        let c = s.get_char(i);
        if !(('0' <= c && c <= '9') || ('a' <= c && c <= 'f') || ('A' <= c && c <= 'F')) {
            return false;
        }
        i += 1;
    }
    true
}

/// A block of the chain walked from the head: its hash and, when known, its
/// creation time in seconds since the epoch.
pub struct ChainEntry {
    pub hash: String,
    pub created: Option<i64>,
}

/// Whether the block at `position` (0 is the head) goes, given the position
/// of the acknowledged block, the block cap and the age cutoff.
pub open spec fn removable(
    position: int,
    created: Option<i64>,
    reported_position: Option<int>,
    max_blocks: Option<u32>,
    cutoff: Option<i64>,
) -> bool {
    &&& position >= 1
    &&& {
        ||| (reported_position matches Some(p) && position > p)
        ||| (max_blocks matches Some(m) && position >= m)
        ||| (cutoff matches Some(c) && created matches Some(t) && t < c)
    }
}

/// The first position in `chain` of the block `hash`.
pub open spec fn first_position(chain: Seq<ChainEntry>, hash: Seq<char>) -> Option<int> {
    if exists|i: int| 0 <= i < chain.len() && (#[trigger] chain[i]).hash@ == hash {
        Some(
            choose|i: int|
                0 <= i < chain.len() && (#[trigger] chain[i]).hash@ == hash && forall|j: int|
                    0 <= j < i ==> (#[trigger] chain[j]).hash@ != hash,
        )
    } else {
        None
    }
}

/// The positions of the chain, head first, whose blocks the truncation
/// removes: never the head; every block past the acknowledged one, at or past
/// the cap, or created before the cutoff.
pub fn removal_plan(chain: &Vec<ChainEntry>, reported: Option<&String>, max_blocks: Option<u32>, cutoff: Option<
    i64,
>) -> (r: Vec<usize>)
    ensures
        forall|t: int| 0 <= t < r@.len() ==> (#[trigger] r@[t]) < chain@.len(),
        forall|t: int, u: int| 0 <= t < u < r@.len() ==> (#[trigger] r@[t]) < (#[trigger] r@[u]),
        forall|i: int|
            0 <= i < chain@.len() ==> (removable(
                i,
                chain@[i].created,
                match reported {
                    Some(h) => first_position(chain@, h@),
                    None => None,
                },
                max_blocks,
                cutoff,
            ) <==> exists|t: int| 0 <= t < r@.len() && r@[t] == i),
{
    if chain.len() == 0 {
        return Vec::new();
    }
    let ghost rp = match reported {
        Some(h) => first_position(chain@, h@),
        None => None,
    };
    let mut reported_position: Option<usize> = None;
    if let Some(h) = reported {
        let mut i: usize = 0;
        while i < chain.len()
            invariant
                i <= chain@.len(),
                reported_position is None ==> forall|j: int| 0 <= j < i ==> (#[trigger] chain@[j]).hash@ != h@,
                reported_position matches Some(p) ==> p < chain@.len() && chain@[p as int].hash@ == h@
                    && forall|j: int| 0 <= j < p ==> (#[trigger] chain@[j]).hash@ != h@,
            decreases chain@.len() - i,
        {
            if reported_position.is_none() && chain[i].hash == *h {
                reported_position = Some(i);
            }
            i += 1;
        }
        proof {
            match reported_position {
                Some(p) => {
                    let q = first_position(chain@, h@)->Some_0;
                    assert(exists|i: int| 0 <= i < chain@.len() && (#[trigger] chain@[i]).hash@ == h@) by {
                        assert(chain@[p as int].hash@ == h@);
                    }
                    assert(exists|i: int|
                        0 <= i < chain@.len() && (#[trigger] chain@[i]).hash@ == h@ && forall|j: int|
                            0 <= j < i ==> (#[trigger] chain@[j]).hash@ != h@) by {
                        assert(chain@[p as int].hash@ == h@);
                    }
                    if q < p {
                        assert(chain@[q].hash@ != h@);
                    } else if q > p {
                        assert(chain@[p as int].hash@ != h@);
                    }
                },
                None => {},
            }
        }
    }
    assert(match reported_position {
        Some(p) => rp == Some(p as int),
        None => rp is None,
    });
    let mut r: Vec<usize> = Vec::new();
    let mut i: usize = 1;
    proof {
        assert(!removable(0, chain@[0].created, rp, max_blocks, cutoff));
    }
    while i < chain.len()
        invariant
            1 <= i,
            i <= chain@.len(),
            match reported_position {
                Some(p) => rp == Some(p as int),
                None => rp is None,
            },
            forall|t: int| 0 <= t < r@.len() ==> 1 <= (#[trigger] r@[t]) < i,
            forall|t: int, u: int| 0 <= t < u < r@.len() ==> (#[trigger] r@[t]) < (#[trigger] r@[u]),
            forall|j: int|
                0 <= j < i && j < chain@.len() ==> (removable(j, chain@[j].created, rp, max_blocks, cutoff)
                    <==> exists|t: int| 0 <= t < r@.len() && r@[t] == j),
        decreases chain@.len() - i,
    {
        let past_reported = match reported_position {
            Some(p) => i > p,
            None => false,
        };
        let past_cap = match max_blocks {
            Some(m) => i >= m as usize,
            None => false,
        };
        let too_old = match (cutoff, chain[i].created) {
            (Some(c), Some(t)) => t < c,
            _ => false,
        };
        let ghost before = r@;
        if past_reported || past_cap || too_old {
            r.push(i);
            proof {
                assert(r@[before.len() as int] == i);
                assert forall|j: int|
                    0 <= j < i + 1 && j < chain@.len() implies (removable(j, chain@[j].created, rp, max_blocks, cutoff)
                    <==> exists|t: int| 0 <= t < r@.len() && r@[t] == j) by {
                    if j < i {
                        if exists|t: int| 0 <= t < before.len() && before[t] == j {
                            let t = choose|t: int| 0 <= t < before.len() && before[t] == j;
                            assert(r@[t] == j);
                        }
                        if exists|t: int| 0 <= t < r@.len() && r@[t] == j {
                            let t = choose|t: int| 0 <= t < r@.len() && r@[t] == j;
                            assert(t < before.len());
                            assert(before[t] == j);
                        }
                    }
                }
            }
        } else {
            proof {
                assert(!(exists|t: int| 0 <= t < r@.len() && r@[t] == i));
            }
        }
        i += 1;
    }
    r
}


/// Whether `name` is in `names`.
pub open spec fn listed(names: Seq<String>, name: Seq<char>) -> bool {
    exists|i: int| 0 <= i < names.len() && (#[trigger] names[i])@ == name
}

fn contains_name(names: &Vec<String>, name: &String) -> (r: bool)
    ensures
        r == listed(names@, name@),
{
    let mut i: usize = 0;
    while i < names.len()
        invariant
            i <= names@.len(),
            forall|j: int| 0 <= j < i ==> (#[trigger] names@[j])@ != name@,
        decreases names@.len() - i,
    {
        if names[i] == *name {
            return true;
        }
        i += 1;
    }
    false
}

/// The entries of the work directory that have the shape of a block hash
/// but are not among the blocks reachable from the head.
pub fn orphans(names: &Vec<String>, reachable: &Vec<String>) -> (r: Vec<String>)
    ensures
        r@.map_values(|s: String| s@) == names@.map_values(|s: String| s@).filter(
            |n: Seq<char>| is_block_name(n) && !listed(reachable@, n),
        ),
{
    let mut r: Vec<String> = Vec::new();
    let ghost views = names@.map_values(|s: String| s@);
    let mut i: usize = 0;
    while i < names.len()
        invariant
            i <= names@.len(),
            views == names@.map_values(|s: String| s@),
            r@.map_values(|s: String| s@) == views.subrange(0, i as int).filter(
                |n: Seq<char>| is_block_name(n) && !listed(reachable@, n),
            ),
        decreases names@.len() - i,
    {
        let ghost before = r@;
        let ghost sub = views.subrange(0, i + 1);
        proof {
            reveal(Seq::filter);
            assert(sub.drop_last() =~= views.subrange(0, i as int));
            assert(sub.last() == names@[i as int]@);
        }
        if block_name(&names[i]) && !contains_name(reachable, &names[i]) {
            r.push(names[i].clone());
            proof {
                assert(r@.map_values(|s: String| s@) =~= before.map_values(|s: String| s@).push(names@[i as int]@));
            }
        }
        proof {
            assert(r@.map_values(|s: String| s@) =~= sub.filter(
                |n: Seq<char>| is_block_name(n) && !listed(reachable@, n),
            ));
        }
        i += 1;
    }
    proof {
        assert(views.subrange(0, names@.len() as int) =~= views);
    }
    r
}

/// The block hash that a lock file `.<hash>.lock` guards.
pub open spec fn lock_base(name: Seq<char>) -> Option<Seq<char>> {
    if name.len() == 46 && name[0] == '.' && name.subrange(41, 46) == ".lock"@ && is_block_name(name.subrange(1, 41)) {
        Some(name.subrange(1, 41))
    } else {
        None
    }
}

/// The lock files among `names` whose block is not among `names`.
pub fn stale_locks(names: &Vec<String>) -> (r: Vec<String>)
    ensures
        r@.map_values(|s: String| s@) == names@.map_values(|s: String| s@).filter(
            |n: Seq<char>| lock_base(n) matches Some(b) && !listed(names@, b),
        ),
{
    let mut r: Vec<String> = Vec::new();
    let ghost views = names@.map_values(|s: String| s@);
    proof {
        reveal_strlit(".lock");
    }
    let mut i: usize = 0;
    while i < names.len()
        invariant
            i <= names@.len(),
            views == names@.map_values(|s: String| s@),
            r@.map_values(|s: String| s@) == views.subrange(0, i as int).filter(
                |n: Seq<char>| lock_base(n) matches Some(b) && !listed(names@, b),
            ),
        decreases names@.len() - i,
    {
        let ghost before = r@;
        let ghost sub = views.subrange(0, i + 1);
        proof {
            reveal(Seq::filter);
            assert(sub.drop_last() =~= views.subrange(0, i as int));
            assert(sub.last() == names@[i as int]@);
        }
        let name = names[i].as_str();
        let stale = if name.unicode_len() == 46 && name.get_char(0) == '.' {
            let tail = name.substring_char(41, 46);
            let base = name.substring_char(1, 41).to_string();
            if crate::text::text_eq(tail, ".lock") && block_name(&base) {
                !contains_name(names, &base)
            } else {
                false
            }
        } else {
            false
        };
        if stale {
            r.push(names[i].clone());
            proof {
                assert(r@.map_values(|s: String| s@) =~= before.map_values(|s: String| s@).push(names@[i as int]@));
            }
        }
        proof {
            assert(r@.map_values(|s: String| s@) =~= sub.filter(
                |n: Seq<char>| lock_base(n) matches Some(b) && !listed(names@, b),
            ));
        }
        i += 1;
    }
    proof {
        assert(views.subrange(0, names@.len() as int) =~= views);
    }
    r
}
} // verus!
