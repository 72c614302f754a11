//! A generic "some value, or no value", and the minimum of a vector of
//! values that can be compared by value.
use vstd::prelude::*;

verus! {

/// Some value, or no value.
#[derive(PartialEq, Eq, Structural, Clone, Copy, Debug)]
pub enum SomethingOrNothing<T> {
    Something(T),
    Nothing,
}

impl<T> SomethingOrNothing<T> {
    /// The same choice, as an `Option`.
    pub open spec fn spec_to_option(self) -> Option<T> {
        match self {
            SomethingOrNothing::Nothing => None,
            SomethingOrNothing::Something(t) => Some(t),
        }
    }

    /// `Something` for `Some`, `Nothing` for `None`.
    pub fn new(o: Option<T>) -> (r: Self)
        ensures
            r.spec_to_option() == o,
    {
        match o {
            None => SomethingOrNothing::Nothing,
            Some(t) => SomethingOrNothing::Something(t),
        }
    }

    /// `Some` for `Something`, `None` for `Nothing`.
    pub fn to_option(self) -> (r: Option<T>)
        ensures
            r == self.spec_to_option(),
    {
        match self {
            SomethingOrNothing::Nothing => None,
            SomethingOrNothing::Something(t) => Some(t),
        }
    }
}

/// `Something(x)`, made through `new`.
pub fn call_constructor(x: i32) -> (r: SomethingOrNothing<i32>)
    ensures
        r == SomethingOrNothing::Something(x),
{
    SomethingOrNothing::new(Some(x))
}

/// Values, passed by copy, of which the smaller of two can be picked.
pub trait Minimum: Copy + Sized {
    /// The value that `min` picks.
    spec fn min_spec(self, b: Self) -> Self;

    /// The smaller of `self` and `b`.
    fn min(self, b: Self) -> (r: Self)
        ensures
            r == self.min_spec(b),
    ;
}

/// What `vec_min` picks from the non-empty `s`: each element in turn picks
/// between itself and the smallest one so far.
pub open spec fn min_of<T: Minimum>(s: Seq<T>) -> T
    recommends
        s.len() > 0,
    decreases s.len(),
{
    if s.len() <= 1 {
        s[0]
    } else {
        s.last().min_spec(min_of(s.drop_last()))
    }
}

/// The smallest element of `v`, or `Nothing` when `v` is empty.
pub fn vec_min<T: Minimum>(v: Vec<T>) -> (r: SomethingOrNothing<T>)
    ensures
        v@.len() == 0 ==> r == SomethingOrNothing::<T>::Nothing,
        v@.len() > 0 ==> r == SomethingOrNothing::Something(min_of(v@)),
{
    let mut min = SomethingOrNothing::Nothing;
    let mut i: usize = 0;
    while i < v.len()
        invariant
            i <= v@.len(),
            i == 0 ==> min == SomethingOrNothing::<T>::Nothing,
            i > 0 ==> min == SomethingOrNothing::Something(min_of(v@.take(i as int))),
        decreases v@.len() - i,
    {
        let e = v[i];
        proof {
            assert(v@.take(i as int + 1).drop_last() =~= v@.take(i as int));
        }
        min = SomethingOrNothing::Something(
            match min {
                SomethingOrNothing::Nothing => e,
                SomethingOrNothing::Something(n) => e.min(n),
            },
        );
        i += 1;
    }
    proof {
        assert(v@.take(v@.len() as int) =~= v@);
    }
    min
}

impl Minimum for i32 {
    open spec fn min_spec(self, b: Self) -> Self {
        if self < b {
            self
        } else {
            b
        }
    }

    fn min(self, b: Self) -> (r: Self) {
        if self < b {
            self
        } else {
            b
        }
    }
}

/// A fixed sample of numbers.
pub fn read_vec() -> (r: Vec<i32>)
    ensures
        r@ == seq![18i32, 5, 7, 3, 9, 27],
{
    let v: Vec<i32> = vec![18, 5, 7, 3, 9, 27];
    proof {
        assert(v@ =~= seq![18i32, 5, 7, 3, 9, 27]);
    }
    v
}

/// The minimum of the sample numbers.
pub fn main_i32() -> (r: SomethingOrNothing<i32>)
    ensures
        r == SomethingOrNothing::Something(3i32),
{
    let vec = read_vec();
    proof {
        let s = seq![18i32, 5, 7, 3, 9, 27];
        assert(s.drop_last() =~= seq![18i32, 5, 7, 3, 9]);
        assert(s.drop_last().drop_last() =~= seq![18i32, 5, 7, 3]);
        assert(s.drop_last().drop_last().drop_last() =~= seq![18i32, 5, 7]);
        assert(s.drop_last().drop_last().drop_last().drop_last() =~= seq![18i32, 5]);
        assert(s.drop_last().drop_last().drop_last().drop_last().drop_last() =~= seq![18i32]);
        reveal_with_fuel(min_of, 6);
    }
    vec_min(vec)
}

} // verus!
