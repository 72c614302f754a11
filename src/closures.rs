//! Vectors filtered and mapped element by element.
use vstd::prelude::*;

verus! {

/// `d` divides `n`.
pub open spec fn divides(d: int, n: int) -> bool {
    n % (if d < 0 { -d } else { d }) == 0
}

/// For `b > 0`, `b` divides `n` exactly when it divides `|n|`.
proof fn lemma_divides_abs(n: int, b: int)
    requires
        b > 0,
    ensures
        (n % b == 0) == ((if n < 0 { -n } else { n }) % b == 0),
{
    let a = if n < 0 { -n } else { n };
    vstd::arithmetic::div_mod::lemma_fundamental_div_mod(n, b);
    vstd::arithmetic::div_mod::lemma_fundamental_div_mod(a, b);
    if n % b == 0 {
        let q = n / b;
        let q2 = if n < 0 { -q } else { q };
        assert(a == q2 * b) by (nonlinear_arith)
            requires
                n == b * q,
                a == (if n < 0 { -n } else { n }),
                q2 == (if n < 0 { -q } else { q }),
        ;
        vstd::arithmetic::div_mod::lemma_mod_multiples_basic(q2, b);
    }
    if a % b == 0 {
        let q = a / b;
        let q2 = if n < 0 { -q } else { q };
        assert(n == q2 * b) by (nonlinear_arith)
            requires
                a == b * q,
                a == (if n < 0 { -n } else { n }),
                q2 == (if n < 0 { -q } else { q }),
        ;
        vstd::arithmetic::div_mod::lemma_mod_multiples_basic(q2, b);
    }
}

/// The elements of `v` that `divisor` divides, in their order.
pub fn filter_vec_by_divisor(v: &Vec<i32>, divisor: i32) -> (r: Vec<i32>)
    requires
        divisor != 0,
    ensures
        r@ == v@.filter(|n: i32| divides(divisor as int, n as int)),
{
    let mut r: Vec<i32> = Vec::new();
    let mut i: usize = 0;
    while i < v.len()
        invariant
            i <= v@.len(),
            divisor != 0,
            r@ == v@.take(i as int).filter(|n: i32| divides(divisor as int, n as int)),
        decreases v@.len() - i,
    {
        let n = v[i];
        proof {
            assert(v@.take(i as int + 1).drop_last() =~= v@.take(i as int));
            reveal(Seq::filter);
        }
        let a: i64 = if n < 0 { -(n as i64) } else { n as i64 };
        let d: i64 = if divisor < 0 { -(divisor as i64) } else { divisor as i64 };
        proof {
            lemma_divides_abs(n as int, d as int);
        }
        if a % d == 0 {
            r.push(n);
        }
        i += 1;
    }
    proof {
        assert(v@.take(v@.len() as int) =~= v@);
    }
    r
}

/// Each element of `v` plus `offset`, kept when it exceeds `threshold`, in
/// order; no sum leaves the range of `i32`.
pub fn offset_above_threshold(v: &Vec<i32>, offset: i32, threshold: i32) -> (r: Vec<i32>)
    requires
        forall|k: int| 0 <= k < v@.len() ==> i32::MIN <= #[trigger] v@[k] + offset <= i32::MAX,
    ensures
        r@ == v@.map_values(|n: i32| (n + offset) as i32).filter(|n: i32| n > threshold),
{
    let mut r: Vec<i32> = Vec::new();
    let mut i: usize = 0;
    while i < v.len()
        invariant
            i <= v@.len(),
            forall|k: int| 0 <= k < v@.len() ==> i32::MIN <= #[trigger] v@[k] + offset <= i32::MAX,
            r@ == v@.take(i as int).map_values(|n: i32| (n + offset) as i32).filter(|n: i32| n > threshold),
        decreases v@.len() - i,
    {
        let n = v[i] + offset;
        proof {
            let t = v@.take(i as int + 1).map_values(|n: i32| (n + offset) as i32);
            assert(t.drop_last() =~= v@.take(i as int).map_values(|n: i32| (n + offset) as i32));
            assert(t.last() == n);
            reveal(Seq::filter);
        }
        if n > threshold {
            r.push(n);
        }
        i += 1;
    }
    proof {
        assert(v@.take(v@.len() as int) =~= v@);
    }
    r
}

} // verus!
