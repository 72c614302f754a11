//! The minimum and the sum of a vector of `i32`, and a few small integer
//! helpers.
use vstd::prelude::*;

verus! {

/// A number, or nothing.
#[derive(PartialEq, Eq, Structural, Clone, Copy, Debug)]
pub enum NumberOrNothing {
    Number(i32),
    Nothing,
}

/// The smaller of `a` and `b`.
pub open spec fn min_spec(a: i32, b: i32) -> i32 {
    if a < b {
        a
    } else {
        b
    }
}

/// The smallest element of the non-empty `s`.
pub open spec fn seq_min(s: Seq<i32>) -> i32
    recommends
        s.len() > 0,
    decreases s.len(),
{
    if s.len() <= 1 {
        s[0]
    } else {
        min_spec(seq_min(s.drop_last()), s.last())
    }
}

/// The sum of the elements of `s`.
pub open spec fn seq_sum(s: Seq<i32>) -> int
    decreases s.len(),
{
    if s.len() == 0 {
        0
    } else {
        seq_sum(s.drop_last()) + s.last()
    }
}

/// The smallest element is one of the elements, and no element is smaller.
pub proof fn lemma_seq_min(s: Seq<i32>)
    requires
        s.len() > 0,
    ensures
        s.contains(seq_min(s)),
        forall|k: int| 0 <= k < s.len() ==> seq_min(s) <= #[trigger] s[k],
    decreases s.len(),
{
    if s.len() > 1 {
        let t = s.drop_last();
        lemma_seq_min(t);
        assert forall|k: int| 0 <= k < s.len() implies seq_min(s) <= #[trigger] s[k] by {
            if k < t.len() {
                assert(t[k] == s[k]);
            }
        }
        let j = choose|j: int| 0 <= j < t.len() && t[j] == seq_min(t);
        if seq_min(s) == seq_min(t) {
            assert(s[j] == seq_min(s));
        } else {
            assert(s[s.len() - 1] == seq_min(s));
        }
    } else {
        assert(s[0] == seq_min(s));
    }
}

/// The smaller of `a` and `b`.
pub fn min_i32(a: i32, b: i32) -> (r: i32)
    ensures
        r == min_spec(a, b),
{
    if a < b {
        a
    } else {
        b
    }
}

/// The smallest element of `v`, or `Nothing` when `v` is empty.
pub fn vec_min(v: Vec<i32>) -> (r: NumberOrNothing)
    ensures
        v@.len() == 0 ==> r == NumberOrNothing::Nothing,
        v@.len() > 0 ==> r == NumberOrNothing::Number(seq_min(v@)),
{
    let mut min = NumberOrNothing::Nothing;
    let mut i: usize = 0;
    while i < v.len()
        invariant
            i <= v@.len(),
            i == 0 ==> min == NumberOrNothing::Nothing,
            i > 0 ==> min == NumberOrNothing::Number(seq_min(v@.take(i as int))),
        decreases v@.len() - i,
    {
        let el = v[i];
        proof {
            assert(v@.take(i as int + 1).drop_last() =~= v@.take(i as int));
        }
        match min {
            NumberOrNothing::Nothing => {
                min = NumberOrNothing::Number(el);
            },
            NumberOrNothing::Number(n) => {
                let new_min = min_i32(n, el);
                min = NumberOrNothing::Number(new_min);
            },
        }
        i += 1;
    }
    proof {
        assert(v@.take(v@.len() as int) =~= v@);
    }
    min
}

/// The sum of the elements of `v`; every partial sum fits in an `i32`.
pub fn vec_sum(v: Vec<i32>) -> (r: i32)
    requires
        forall|k: int| 0 <= k <= v@.len() ==> i32::MIN <= #[trigger] seq_sum(v@.take(k)) <= i32::MAX,
    ensures
        r == seq_sum(v@),
{
    let mut sum: i32 = 0;
    let mut i: usize = 0;
    proof {
        assert(v@.take(0) =~= Seq::<i32>::empty());
    }
    while i < v.len()
        invariant
            i <= v@.len(),
            sum == seq_sum(v@.take(i as int)),
            forall|k: int| 0 <= k <= v@.len() ==> i32::MIN <= #[trigger] seq_sum(v@.take(k)) <= i32::MAX,
        decreases v@.len() - i,
    {
        proof {
            assert(v@.take(i as int + 1).drop_last() =~= v@.take(i as int));
            assert(i32::MIN <= seq_sum(v@.take(i as int + 1)) <= i32::MAX);
        }
        sum += v[i];
        i += 1;
    }
    proof {
        assert(v@.take(v@.len() as int) =~= v@);
    }
    sum
}

/// The number held, or `default` for nothing.
pub fn number_or_default(n: NumberOrNothing, default: i32) -> (r: i32)
    ensures
        r == (match n {
            NumberOrNothing::Nothing => default,
            NumberOrNothing::Number(x) => x,
        }),
{
    match n {
        NumberOrNothing::Nothing => default,
        NumberOrNothing::Number(n) => n,
    }
}

/// The square of `i`, which fits in an `i32`.
pub fn sqr(i: i32) -> (r: i32)
    requires
        i32::MIN <= i * i <= i32::MAX,
    ensures
        r == i * i,
{
    i * i
}

/// The absolute value of `i`, which is not `i32::MIN`.
pub fn abs(i: i32) -> (r: i32)
    requires
        i != i32::MIN,
    ensures
        r == (if i >= 0 { i as int } else { -i }),
{
    if i >= 0 {
        i
    } else {
        -i
    }
}

/// (x² + 14)², which fits in an `i32`.
pub fn compute_stuff(x: i32) -> (r: i32)
    requires
        (x * x + 14) * (x * x + 14) <= i32::MAX,
    ensures
        r == (x * x + 14) * (x * x + 14),
{
    proof {
        assert(0 <= x * x) by (nonlinear_arith);
        assert(x * x + 14 <= (x * x + 14) * (x * x + 14)) by (nonlinear_arith);
    }
    let y: i32 = {
        let z: i32 = x * x;
        z + 14
    };
    y * y
}

} // verus!
