use vstd::prelude::*;

verus! {

/// A row of values (a primary-key tuple or a subsidiary tuple), seen as
/// the sequence of the texts it holds.
pub type RowV = Seq<Seq<char>>;

/// The mathematical value of a row.
pub open spec fn rv(r: &Vec<String>) -> RowV {
    Seq::new(r@.len(), |i: int| r@[i]@)
}

/// Compares two rows value by value.
pub fn row_eq(a: &Vec<String>, b: &Vec<String>) -> (r: bool)
    ensures
        r == (rv(a) == rv(b)),
{
    if a.len() != b.len() {
        assert(rv(a).len() != rv(b).len());
        return false;
    }
    let mut i: usize = 0;
    while i < a.len()
        invariant
            a.len() == b.len(),
            i <= a.len(),
            forall|j: int| 0 <= j < i ==> a[j]@ == b[j]@,
        decreases a.len() - i,
    {
        if a[i] != b[i] {
            assert(rv(a)[i as int] != rv(b)[i as int]);
            return false;
        }
        i += 1;
    }
    assert(rv(a) =~= rv(b));
    true
}

/// Copies a row.
pub fn row_clone(a: &Vec<String>) -> (r: Vec<String>)
    ensures
        rv(&r) == rv(a),
{
    let mut out: Vec<String> = Vec::new();
    let mut i: usize = 0;
    while i < a.len()
        invariant
            i <= a.len(),
            out@.len() == i,
            forall|j: int| 0 <= j < i ==> out[j]@ == a[j]@,
        decreases a.len() - i,
    {
        out.push(a[i].clone());
        i += 1;
    }
    assert(rv(&out) =~= rv(a));
    out
}

} // verus!
