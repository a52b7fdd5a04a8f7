use vstd::prelude::*;
use std::collections::VecDeque;

verus! {

/// `j` is the next greater position of `i`: the first position after `i`
/// whose value exceeds `nums[i]`.
pub open spec fn is_next_greater(nums: Seq<i32>, i: int, j: int) -> bool {
    &&& 0 <= i < j < nums.len()
    &&& nums[j] > nums[i]
    &&& forall|k: int| i < k < j ==> #[trigger] nums[k] <= nums[i]
}

/// No position in `(i, j)` holds a value above `nums[i]`.
pub open spec fn unbeaten(nums: Seq<i32>, i: int, j: int) -> bool {
    forall|k: int| i < k < j ==> #[trigger] nums[k] <= nums[i]
}

/// `ps` lists position pairs ordered by their second position, and by
/// decreasing first position among pairs that share it.
pub open spec fn pair_order(ps: Seq<(int, int)>) -> bool {
    forall|t: int, u: int|
        0 <= t < u < ps.len() ==> (#[trigger] ps[t]).1 < (#[trigger] ps[u]).1 || (ps[t].1 == ps[u].1 && ps[t].0
            > ps[u].0)
}

/// `out` pairs each position of `nums[..j]` that has its next greater
/// position before `j` with that position, as values, once each, in
/// `pair_order`; `ps` gives the positions.
pub open spec fn greater_pairs(nums: Seq<i32>, j: int, out: Seq<(i32, i32)>, ps: Seq<(int, int)>) -> bool {
    &&& ps.len() == out.len()
    &&& forall|t: int|
        0 <= t < ps.len() ==> is_next_greater(nums, (#[trigger] ps[t]).0, ps[t].1) && ps[t].1 < j && out[t] == (
        nums[ps[t].0],
        nums[ps[t].1],
    )
    &&& forall|i: int, k: int| #[trigger] is_next_greater(nums, i, k) && k < j ==> exists|t: int| 0 <= t < ps.len() && #[trigger] ps[t] == (i, k)
    &&& pair_order(ps)
}

/// Each value paired with the next greater value after it, for every value
/// that has one; pairs come in the order their greater value appears, and
/// for one greater value, later values first.
pub fn next_largest_elem(nums: &Vec<i32>) -> (r: Vec<(i32, i32)>)
    ensures
        exists|ps: Seq<(int, int)>| greater_pairs(nums@, nums@.len() as int, r@, ps),
{
    let n = nums.len();
    let mut d: VecDeque<i32> = VecDeque::new();
    let mut maxs: Vec<(i32, i32)> = Vec::new();
    // the positions of the values in `d`
    let ghost mut st: Seq<int> = Seq::empty();
    let ghost mut ps: Seq<(int, int)> = Seq::empty();
    let mut j: usize = 0;
    while j < n
        invariant
            j <= n,
            n == nums@.len(),
            d@.len() == st.len(),
            forall|k: int| 0 <= k < st.len() ==> 0 <= #[trigger] st[k] < j && d@[k] == nums@[st[k]],
            forall|a: int, b: int| 0 <= a < b < st.len() ==> #[trigger] st[a] < #[trigger] st[b],
            forall|a: int, b: int| 0 <= a < b < st.len() ==> nums@[#[trigger] st[a]] >= nums@[#[trigger] st[b]],
            forall|i: int| 0 <= i < j ==> (unbeaten(nums@, i, j as int) <==> st.contains(i)),
            greater_pairs(nums@, j as int, maxs@, ps),
        decreases n - j,
    {
        let elem = nums[j];
        let ghost st0 = st;
        let ghost ps0 = ps;
        while d.len() > 0 && d[d.len() - 1] < elem
            invariant
                j < n,
                n == nums@.len(),
                elem == nums@[j as int],
                d@.len() == st.len(),
                st.len() <= st0.len(),
                st == st0.subrange(0, st.len() as int),
                forall|k: int| 0 <= k < st0.len() ==> 0 <= #[trigger] st0[k] < j,
                forall|k: int| 0 <= k < st.len() ==> d@[k] == nums@[#[trigger] st[k]],
                forall|a: int, b: int| 0 <= a < b < st0.len() ==> #[trigger] st0[a] < #[trigger] st0[b],
                forall|a: int, b: int| 0 <= a < b < st0.len() ==> nums@[#[trigger] st0[a]] >= nums@[#[trigger] st0[b]],
                forall|k: int| st.len() <= k < st0.len() ==> nums@[#[trigger] st0[k]] < elem,
                ps.len() == ps0.len() + (st0.len() - st.len()),
                ps.subrange(0, ps0.len() as int) == ps0,
                forall|q: int|
                    0 <= q < st0.len() - st.len() ==> #[trigger] ps[ps0.len() + q] == (st0[st0.len() - 1 - q], j as int),
                maxs@.len() == ps.len(),
                forall|t: int| 0 <= t < ps.len() ==> maxs@[t] == (nums@[(#[trigger] ps[t]).0], nums@[ps[t].1]),
            decreases st.len(),
        {
            let top = d.pop_back();
            if let Some(value) = top {
                maxs.push((value, elem));
                proof {
                    ps = ps.push((st.last(), j as int));
                    st = st.drop_last();
                }
            }
        }
        d.push_back(elem);
        proof {
            let cut = st.len() as int;
            // what stays on the stack is at least `elem`
            assert forall|k: int| 0 <= k < cut implies nums@[#[trigger] st0[k]] >= elem by {
                assert(st[cut - 1] == st0[cut - 1]);
                if k < cut - 1 {
                    assert(nums@[st0[k]] >= nums@[st0[cut - 1]]);
                }
            }
            assert forall|k: int| 0 <= k < cut implies st0[k] == #[trigger] st[k] by {}
            // a position waits for its greater value exactly while on the stack
            assert forall|i: int| 0 <= i < j && #[trigger] unbeaten(nums@, i, j as int) implies st0.contains(i) by {}
            let pos_of = |i: int| choose|k: int| 0 <= k < st0.len() && st0[k] == i;
            assert forall|i: int, k: int| #[trigger] is_next_greater(nums@, i, k) && k < j + 1 implies exists|t: int|
                0 <= t < ps.len() && #[trigger] ps[t] == (i, k) by {
                if k < j {
                    assert(is_next_greater(nums@, i, k));
                    let t = choose|t: int| 0 <= t < ps0.len() && #[trigger] ps0[t] == (i, k);
                    assert(ps[t] == ps0[t]);
                } else {
                    assert(unbeaten(nums@, i, j as int));
                    assert(st0.contains(i));
                    let p = choose|p: int| 0 <= p < st0.len() && st0[p] == i;
                    if p < cut {
                        assert(nums@[st0[p]] >= elem);
                    }
                    let q = st0.len() - 1 - p;
                    assert(ps[ps0.len() + q] == (i, k));
                }
            }
            assert forall|t: int|
                0 <= t < ps.len() implies is_next_greater(nums@, (#[trigger] ps[t]).0, ps[t].1) && ps[t].1 < j + 1 && maxs@[t]
                == (nums@[ps[t].0], nums@[ps[t].1]) by {
                if t < ps0.len() {
                    assert(ps[t] == ps0[t]);
                } else {
                    let q = t - ps0.len();
                    let i = st0[st0.len() - 1 - q];
                    assert(st0.contains(i));
                    assert(unbeaten(nums@, i, j as int));
                    assert(ps[ps0.len() + q] == (i, j as int));
                    assert(nums@[st0[st0.len() - 1 - q]] < elem);
                }
            }
            assert forall|t: int, u: int|
                0 <= t < u < ps.len() implies (#[trigger] ps[t]).1 < (#[trigger] ps[u]).1 || (ps[t].1 == ps[u].1
                && ps[t].0 > ps[u].0) by {
                if u < ps0.len() {
                    assert(ps[t] == ps0[t] && ps[u] == ps0[u]);
                } else if t < ps0.len() {
                    assert(ps[t] == ps0[t]);
                    let qu = u - ps0.len();
                    assert(ps[ps0.len() + qu] == (st0[st0.len() - 1 - qu], j as int));
                } else {
                    let qt = t - ps0.len();
                    let qu = u - ps0.len();
                    assert(ps[ps0.len() + qt] == (st0[st0.len() - 1 - qt], j as int));
                    assert(ps[ps0.len() + qu] == (st0[st0.len() - 1 - qu], j as int));
                    assert(st0[st0.len() - 1 - qu] < st0[st0.len() - 1 - qt]);
                }
            }
            st = st.push(j as int);
            assert forall|i: int| 0 <= i < j + 1 implies (unbeaten(nums@, i, j + 1) <==> st.contains(i)) by {
                if i == j {
                    assert(st[st.len() - 1] == i);
                } else if unbeaten(nums@, i, j + 1) {
                    assert(unbeaten(nums@, i, j as int));
                    assert(st0.contains(i));
                    let p = choose|p: int| 0 <= p < st0.len() && st0[p] == i;
                    if p >= cut {
                        assert(nums@[st0[p]] < elem);
                        assert(nums@[j as int] <= nums@[i]);
                    }
                    assert(st[p] == i);
                } else if st.contains(i) {
                    let p = choose|p: int| 0 <= p < st.len() && st[p] == i;
                    assert(p < cut);
                    assert(st0[p] == i);
                    assert(st0.contains(i));
                    assert(nums@[st0[p]] >= elem);
                    assert(unbeaten(nums@, i, j as int));
                }
            }
        }
        j = j + 1;
    }
    maxs
}

/// The integer square root of `v`: the largest `r` with `r * r <= v`.
pub fn sqrt(v: u64) -> (r: u64)
    requires
        v < u64::MAX,
    ensures
        r * r <= v < (r + 1) * (r + 1),
{
    let mut low: u64 = 0;
    let mut high: u64 = v + 1;
    let mut ans: Option<u64> = None;
    proof {
        assert((v + 1) * (v + 1) > v) by (nonlinear_arith);
    }
    while low < high
        invariant
            low <= high <= v + 1,
            high * high > v,
            ans == (if low == 0 { None } else { Some((low - 1) as u64) }),
            low > 0 ==> (low - 1) * (low - 1) <= v,
        decreases high - low,
    {
        let middle = low + (high - low) / 2;
        proof {
            assert((middle as int) * (middle as int) <= (u64::MAX as int) * (u64::MAX as int)) by (nonlinear_arith)
                requires
                    0 <= middle <= u64::MAX,
            ;
        }
        let square = (middle as u128) * (middle as u128);
        if square <= v as u128 {
            low = middle + 1;
            ans = Some(middle);
        } else {
            high = middle;
        }
    }
    proof {
        assert(high >= 1) by (nonlinear_arith)
            requires
                high * high > v,
        ;
    }
    match ans {
        Some(x) => x,
        None => 0,
    }
}

} // verus!
