//! Small functions on borrowed vectors.
use vstd::prelude::*;
use crate::number_or_nothing::{min_spec, seq_min};

verus! {

/// The smallest element of `v`, or `None` when `v` is empty.
pub fn vec_min(v: &Vec<i32>) -> (r: Option<i32>)
    ensures
        v@.len() == 0 ==> r is None,
        v@.len() > 0 ==> r == Some(seq_min(v@)),
{
    let mut min: Option<i32> = None;
    let mut i: usize = 0;
    while i < v.len()
        invariant
            i <= v@.len(),
            i == 0 ==> min is None,
            i > 0 ==> min == Some(seq_min(v@.take(i as int))),
        decreases v@.len() - i,
    {
        let e = v[i];
        proof {
            assert(v@.take(i as int + 1).drop_last() =~= v@.take(i as int));
        }
        min = Some(
            match min {
                None => e,
                Some(n) => if n < e {
                    n
                } else {
                    e
                },
            },
        );
        proof {
            assert(i > 0 ==> min == Some(min_spec(seq_min(v@.take(i as int)), e)));
        }
        i += 1;
    }
    proof {
        assert(v@.take(v@.len() as int) =~= v@);
    }
    min
}

/// Adds one to every element of `v`; none is `i32::MAX`.
pub fn vec_inc(v: &mut Vec<i32>)
    requires
        forall|k: int| 0 <= k < old(v)@.len() ==> #[trigger] old(v)@[k] < i32::MAX,
    ensures
        final(v)@.len() == old(v)@.len(),
        forall|k: int| 0 <= k < old(v)@.len() ==> #[trigger] final(v)@[k] == old(v)@[k] + 1,
{
    let mut i: usize = 0;
    while i < v.len()
        invariant
            i <= v@.len() == old(v)@.len(),
            forall|k: int| 0 <= k < i ==> #[trigger] v@[k] == old(v)@[k] + 1,
            forall|k: int| i <= k < v@.len() ==> #[trigger] v@[k] == old(v)@[k],
            forall|k: int| 0 <= k < old(v)@.len() ==> #[trigger] old(v)@[k] < i32::MAX,
        decreases v@.len() - i,
    {
        let e = v[i];
        v.set(i, e + 1);
        i += 1;
    }
}

/// The first element of `v`, or `None` when `v` is empty.
pub fn head<T>(v: &Vec<T>) -> (r: Option<&T>)
    ensures
        v@.len() == 0 ==> r is None,
        v@.len() > 0 ==> r is Some && *r->Some_0 == v@[0],
{
    if v.len() > 0 {
        Some(&v[0])
    } else {
        None
    }
}

/// The first element of the non-empty `v`.
pub fn rust_foo(v: Vec<i32>) -> (r: i32)
    requires
        v@.len() > 0,
    ensures
        r == v@[0],
{
    let first: Option<&i32> = head(&v);
    *first.unwrap()
}

} // verus!
