//! The smaller of two values, and the smallest value of a vector.
use vstd::prelude::*;

verus! {

/// Values of which the smaller of two can be picked.
pub trait Minimum: Sized {
    /// The value that `min` picks.
    spec fn min_spec(&self, other: &Self) -> Self;

    /// The smaller of `self` and `other`.
    fn min<'a>(&'a self, other: &'a Self) -> (r: &'a Self)
        ensures
            *r == self.min_spec(other),
    ;
}

/// What `vec_min` picks from the non-empty `s`: each element in turn is
/// compared with the smallest one so far.
pub open spec fn min_of<T: Minimum>(s: Seq<T>) -> T
    recommends
        s.len() > 0,
    decreases s.len(),
{
    if s.len() <= 1 {
        s[0]
    } else {
        min_of(s.drop_last()).min_spec(&s.last())
    }
}

/// The smallest element of `v`, or `None` when `v` is empty.
pub fn vec_min<T: Minimum>(v: &Vec<T>) -> (r: Option<&T>)
    ensures
        v@.len() == 0 ==> r is None,
        v@.len() > 0 ==> r is Some && *r->Some_0 == min_of(v@),
{
    let mut min: Option<&T> = None;
    let mut i: usize = 0;
    while i < v.len()
        invariant
            i <= v@.len(),
            i == 0 ==> min is None,
            i > 0 ==> min is Some && *min->Some_0 == min_of(v@.take(i as int)),
        decreases v@.len() - i,
    {
        let e = &v[i];
        proof {
            let t = v@.take(i as int + 1);
            assert(t.drop_last() =~= v@.take(i as int));
        }
        min = Some(
            match min {
                None => e,
                Some(n) => n.min(e),
            },
        );
        i += 1;
    }
    proof {
        assert(v@.take(v@.len() as int) =~= v@);
    }
    min
}

} // verus!
