//! Quicksort of a slice, in place.
use vstd::prelude::*;
use std::cmp::Ordering;
use vstd::std_specs::cmp::PartialOrdSpec;

verus! {

broadcast use vstd::seq_lib::group_to_multiset_ensures;

/// `a` is not above `b` in the order that `partial_cmp` describes.
pub open spec fn le<T: PartialOrd>(a: T, b: T) -> bool {
    a.partial_cmp_spec(&b) matches Some(Ordering::Less | Ordering::Equal)
}

/// `partial_cmp` describes a total order up to ties: any two values
/// compare, the comparison reads the same both ways, and `le` is
/// transitive.
pub open spec fn total_order<T: PartialOrd>() -> bool {
    &&& T::obeys_partial_cmp_spec()
    &&& forall|x: T, y: T| #[trigger] x.partial_cmp_spec(&y) is Some
    &&& forall|x: T, y: T|
        (#[trigger] x.partial_cmp_spec(&y) == Some(Ordering::Less)) == (y.partial_cmp_spec(&x) == Some(
            Ordering::Greater,
        ))
    &&& forall|x: T, y: T|
        (#[trigger] x.partial_cmp_spec(&y) == Some(Ordering::Equal)) == (y.partial_cmp_spec(&x) == Some(
            Ordering::Equal,
        ))
    &&& forall|x: T, y: T, z: T| #[trigger] le(x, y) && #[trigger] le(y, z) ==> le(x, z)
}

/// Every element is at most every later one.
pub open spec fn sorted<T: PartialOrd>(s: Seq<T>) -> bool {
    forall|i: int, j: int| 0 <= i < j < s.len() ==> le(s[i], s[j])
}

/// Relies on `slice::swap`: the elements at `i` and `j` change places.
#[verifier::external_body]
fn swap<T>(data: &mut [T], i: usize, j: usize)
    requires
        i < old(data)@.len(),
        j < old(data)@.len(),
    ensures
        final(data)@ == old(data)@.update(i as int, old(data)@[j as int]).update(j as int, old(data)@[i as int]),
{
    data.swap(i, j)
}

/// Exchanging two elements keeps the multiset of the elements.
proof fn lemma_swap_multiset<T>(s: Seq<T>, i: int, j: int)
    requires
        0 <= i < s.len(),
        0 <= j < s.len(),
    ensures
        s.update(i, s[j]).update(j, s[i]).to_multiset() == s.to_multiset(),
{
    broadcast use vstd::multiset::group_multiset_properties;
    broadcast use vstd::seq_lib::to_multiset_update;

    let t = s.update(i, s[j]);
    assert(t.to_multiset() == s.to_multiset().insert(s[j]).remove(s[i]));
    assert(t.update(j, s[i]).to_multiset() == t.to_multiset().insert(s[i]).remove(t[j]));
    if i == j {
        assert(s.update(i, s[j]).update(j, s[i]) =~= s);
    } else {
        assert(t[j] == s[j]);
        let m = s.to_multiset();
        assert(s.contains(s[i]));
        assert(m.count(s[i]) > 0);
        assert(m.insert(s[j]).remove(s[i]).insert(s[i]).remove(s[j]) =~= m);
    }
}

/// Two sorted runs around a pivot that separates them make one sorted run.
proof fn lemma_sorted_join<T: PartialOrd>(l: Seq<T>, p: T, r: Seq<T>)
    requires
        total_order::<T>(),
        sorted(l),
        sorted(r),
        forall|k: int| 0 <= k < l.len() ==> le(l[k], p),
        forall|k: int| 0 <= k < r.len() ==> le(p, r[k]),
    ensures
        sorted(l + seq![p] + r),
{
    let s = l + seq![p] + r;
    assert forall|i: int, j: int| 0 <= i < j < s.len() implies le(s[i], s[j]) by {
        if j < l.len() {
        } else if j == l.len() {
            assert(s[i] == l[i]);
        } else if i < l.len() {
            assert(s[i] == l[i]);
            assert(s[j] == r[j - l.len() - 1]);
            assert(le(l[i], p) && le(p, r[j - l.len() - 1]));
        } else if i == l.len() {
            assert(s[j] == r[j - l.len() - 1]);
        } else {
            assert(s[i] == r[i - l.len() - 1]);
            assert(s[j] == r[j - l.len() - 1]);
        }
    }
}

/// A bound on every element carries over to a sequence with the same
/// multiset of elements.
proof fn lemma_bound_carries<T: PartialOrd>(a: Seq<T>, b: Seq<T>, p: T, below: bool)
    requires
        a.to_multiset() == b.to_multiset(),
        forall|k: int| 0 <= k < a.len() ==> if below { le(a[k], p) } else { le(p, a[k]) },
    ensures
        forall|k: int| 0 <= k < b.len() ==> if below { le(b[k], p) } else { le(p, b[k]) },
{
    assert forall|k: int| 0 <= k < b.len() implies if below { le(b[k], p) } else { le(p, b[k]) } by {
        assert(b.contains(b[k]));
        assert(a.to_multiset().count(b[k]) > 0);
        assert(a.contains(b[k]));
        let j = choose|j: int| 0 <= j < a.len() && a[j] == b[k];
    }
}

/// Sorts `data` in place: the first element is the pivot, the rest is split
/// into what is not above and what is not below it, and both parts are
/// sorted in turn.
pub fn sort<T: PartialOrd>(data: &mut [T])
    requires
        total_order::<T>(),
    ensures
        sorted(final(data)@),
        final(data)@.to_multiset() == old(data)@.to_multiset(),
    decreases old(data)@.len(),
{
    let len = data.len();
    if len < 2 {
        return;
    }
    let ghost pivot = data@[0];
    let mut lpos: usize = 1;
    let mut rpos: usize = len;
    loop
        invariant
            total_order::<T>(),
            1 <= lpos <= rpos <= len == data@.len(),
            data@[0] == pivot,
            forall|k: int| 1 <= k < lpos ==> le(data@[k], pivot),
            forall|k: int| rpos <= k < len ==> le(pivot, data@[k]),
            data@.to_multiset() == old(data)@.to_multiset(),
        ensures
            1 <= lpos == rpos <= len == data@.len(),
            data@[0] == pivot,
            forall|k: int| 1 <= k < lpos ==> le(data@[k], pivot),
            forall|k: int| rpos <= k < len ==> le(pivot, data@[k]),
            data@.to_multiset() == old(data)@.to_multiset(),
        decreases rpos - lpos,
    {
        while lpos < rpos && data[lpos] <= data[0]
            invariant
                total_order::<T>(),
                1 <= lpos <= rpos <= len == data@.len(),
                data@[0] == pivot,
                forall|k: int| 1 <= k < lpos ==> le(data@[k], pivot),
            decreases rpos - lpos,
        {
            lpos += 1;
        }
        while rpos > lpos && data[rpos - 1] >= data[0]
            invariant
                total_order::<T>(),
                1 <= lpos <= rpos <= len == data@.len(),
                data@[0] == pivot,
                forall|k: int| rpos <= k < len ==> le(pivot, data@[k]),
            decreases rpos - lpos,
        {
            proof {
                assert(le(pivot, data@[rpos - 1]));
            }
            rpos -= 1;
        }
        if rpos == lpos {
            break;
        }
        proof {
            let x = data@[lpos as int];
            let y = data@[rpos - 1];
            assert(x.partial_cmp_spec(&pivot) is Some);
            assert(y.partial_cmp_spec(&pivot) is Some);
            assert(le(pivot, x));
            assert(le(y, pivot));
            assert(lpos + 1 < rpos) by {
                if lpos + 1 == rpos {
                    assert(x == y);
                }
            }
            lemma_swap_multiset(data@, lpos as int, rpos - 1);
        }
        swap(data, lpos, rpos - 1);
        lpos += 1;
        rpos -= 1;
    }
    let ghost pre = data@;
    proof {
        lemma_swap_multiset(data@, 0, lpos - 1);
        assert(pivot.partial_cmp_spec(&pivot) is Some);
        assert(le(pivot, pivot));
    }
    swap(data, 0, lpos - 1);
    let ghost mid = data@;
    let (part1, part2) = data.split_at_mut(lpos);
    let (left, piv) = part1.split_at_mut(lpos - 1);
    proof {
        assert(piv@ =~= seq![pivot]);
        assert(left@ =~= mid.subrange(0, lpos - 1));
        assert(part2@ =~= mid.subrange(lpos as int, len as int));
        assert(forall|k: int| lpos <= k < len ==> mid[k] == pre[k]);
    }
    sort(left);
    sort(part2);
    proof {
        let l0 = mid.subrange(0, lpos - 1);
        let r0 = mid.subrange(lpos as int, len as int);
        assert forall|k: int| 0 <= k < l0.len() implies le(l0[k], pivot) by {
            assert(l0[k] == mid[k]);
            if k > 0 {
                assert(mid[k] == pre[k]);
            }
        }
        assert forall|k: int| 0 <= k < r0.len() implies le(pivot, r0[k]) by {
            assert(r0[k] == mid[lpos + k]);
            assert(mid[lpos + k] == pre[lpos + k]);
        }
        lemma_bound_carries(l0, final(left)@, pivot, true);
        lemma_bound_carries(r0, final(part2)@, pivot, false);
        lemma_sorted_join(final(left)@, pivot, final(part2)@);
        assert(mid =~= l0 + seq![pivot] + r0);
        vstd::seq_lib::lemma_multiset_commutative(l0 + seq![pivot], r0);
        vstd::seq_lib::lemma_multiset_commutative(l0, seq![pivot]);
        vstd::seq_lib::lemma_multiset_commutative(final(left)@ + seq![pivot], final(part2)@);
        vstd::seq_lib::lemma_multiset_commutative(final(left)@, seq![pivot]);
    }
}

/// The order of `i32` is total.
pub proof fn lemma_i32_total_order()
    ensures
        total_order::<i32>(),
{
}

/// Sorts the numbers of `data`.
pub fn sort_nums(data: &mut Vec<i32>)
    ensures
        sorted(final(data)@),
        final(data)@.to_multiset() == old(data)@.to_multiset(),
{
    proof {
        lemma_i32_total_order();
    }
    sort(data.as_mut_slice());
}

} // verus!
