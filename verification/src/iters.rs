//! The cartesian power: every ordered tuple, with repetition, of a given
//! length over a given set of elements, each tuple exactly once.

use vstd::prelude::*;
use vstd::arithmetic::div_mod::{
    lemma_fundamental_div_mod,
    lemma_fundamental_div_mod_converse,
};
use vstd::arithmetic::power::{lemma_pow_positive, pow};

verus! {

/// The tuple standing at position `k` of the `times`-fold cartesian power of
/// `elements`: position `k` is read as a `times`-digit number in base
/// `elements.len()`, least significant digit first.
pub open spec fn tuple_at<T>(elements: Seq<T>, times: nat, k: int) -> Seq<T>
    decreases times,
{
    if times == 0 {
        Seq::empty()
    } else {
        let block = pow(elements.len() as int, (times - 1) as nat);
        tuple_at(elements, (times - 1) as nat, k % block).push(elements[k / block])
    }
}

/// No two elements of `s` are equal.
pub open spec fn all_distinct<T>(s: Seq<T>) -> bool {
    forall|i: int, j: int| 0 <= i < s.len() && 0 <= j < s.len() && i != j ==> s[i] != s[j]
}

/// Every tuple of the power has `times` elements, each drawn from `elements`.
pub proof fn lemma_tuple_at_wf<T>(elements: Seq<T>, times: nat, k: int)
    requires
        0 <= k < pow(elements.len() as int, times),
    ensures
        tuple_at(elements, times, k).len() == times,
        forall|i: int|
            0 <= i < times ==> elements.contains(#[trigger] tuple_at(elements, times, k)[i]),
    decreases times,
{
    reveal(pow);
    if times > 0 {
        let n = elements.len() as int;
        let block = pow(n, (times - 1) as nat);
        assert(pow(n, times) == n * block);
        assert(n > 0) by (nonlinear_arith)
            requires
                0 <= k < n * block,
                n >= 0,
        ;
        lemma_pow_positive(n, (times - 1) as nat);
        lemma_fundamental_div_mod(k, block);
        assert(pow(n, times) == n * block);
        assert(0 <= k % block < block);
        assert(0 <= k / block < n) by (nonlinear_arith)
            requires
                block > 0,
                0 <= k < n * block,
                k == block * (k / block) + k % block,
                0 <= k % block < block,
        ;
        lemma_tuple_at_wf(elements, (times - 1) as nat, k % block);
        let prefix = tuple_at(elements, (times - 1) as nat, k % block);
        let t = tuple_at(elements, times, k);
        assert(t == prefix.push(elements[k / block]));
        assert forall|i: int| 0 <= i < times implies elements.contains(#[trigger] t[i]) by {
            if i < times - 1 {
                assert(t[i] == prefix[i]);
            } else {
                assert(t[i] == elements[k / block]);
            }
        }
    }
}

/// Distinct positions of the power hold distinct tuples, as long as the
/// elements themselves are distinct.
pub proof fn lemma_tuple_at_injective<T>(elements: Seq<T>, times: nat, k1: int, k2: int)
    requires
        all_distinct(elements),
        0 <= k1 < pow(elements.len() as int, times),
        0 <= k2 < pow(elements.len() as int, times),
        k1 != k2,
    ensures
        tuple_at(elements, times, k1) != tuple_at(elements, times, k2),
    decreases times,
{
    let n = elements.len() as int;
    reveal(pow);
    if times == 0 {
        assert(pow(n, 0) == 1);
        assert(false);
    } else {
        let block = pow(n, (times - 1) as nat);
        assert(pow(n, times) == n * block);
        assert(n > 0) by (nonlinear_arith)
            requires
                0 <= k1 < n * block,
                n >= 0,
        ;
        lemma_pow_positive(n, (times - 1) as nat);
        lemma_fundamental_div_mod(k1, block);
        lemma_fundamental_div_mod(k2, block);
        assert(pow(n, times) == n * block);
        assert(0 <= k1 / block < n && 0 <= k2 / block < n) by (nonlinear_arith)
            requires
                block > 0,
                0 <= k1 < n * block,
                0 <= k2 < n * block,
                k1 == block * (k1 / block) + k1 % block,
                k2 == block * (k2 / block) + k2 % block,
                0 <= k1 % block < block,
                0 <= k2 % block < block,
        ;
        let p1 = tuple_at(elements, (times - 1) as nat, k1 % block);
        let p2 = tuple_at(elements, (times - 1) as nat, k2 % block);
        let t1 = tuple_at(elements, times, k1);
        let t2 = tuple_at(elements, times, k2);
        lemma_tuple_at_wf(elements, (times - 1) as nat, k1 % block);
        lemma_tuple_at_wf(elements, (times - 1) as nat, k2 % block);
        if t1 == t2 {
            if k1 / block == k2 / block {
                assert(k1 % block != k2 % block);
                lemma_tuple_at_injective(elements, (times - 1) as nat, k1 % block, k2 % block);
                assert forall|i: int| 0 <= i < p1.len() implies p1[i] == p2[i] by {
                    assert(t1[i] == p1[i] && t2[i] == p2[i]);
                }
                assert(p1 =~= p2);
            } else {
                assert(t1[times - 1] == elements[k1 / block]);
                assert(t2[times - 1] == elements[k2 / block]);
            }
            assert(false);
        }
    }
}

/// Every tuple of the right length whose elements are all drawn from
/// `elements` stands somewhere in the power.
pub proof fn lemma_tuple_at_complete<T>(elements: Seq<T>, times: nat, s: Seq<T>)
    requires
        s.len() == times,
        forall|i: int| 0 <= i < times ==> elements.contains(#[trigger] s[i]),
    ensures
        exists|k: int|
            0 <= k < pow(elements.len() as int, times) && tuple_at(elements, times, k) == s,
    decreases times,
{
    let n = elements.len() as int;
    reveal(pow);
    if times == 0 {
        assert(pow(n, 0) == 1);
        assert(tuple_at(elements, 0, 0) =~= s);
    } else {
        let block = pow(n, (times - 1) as nat);
        assert(elements.contains(s[times - 1]));
        assert(n > 0);
        lemma_pow_positive(n, (times - 1) as nat);
        let prefix = s.drop_last();
        assert forall|i: int| 0 <= i < times - 1 implies elements.contains(#[trigger] prefix[i]) by {
            assert(prefix[i] == s[i]);
        }
        lemma_tuple_at_complete(elements, (times - 1) as nat, prefix);
        let kp = choose|kp: int|
            0 <= kp < block && #[trigger] tuple_at(elements, (times - 1) as nat, kp) == prefix;
        assert(elements.contains(s[times - 1]));
        let j = choose|j: int| 0 <= j < n && elements[j] == s[times - 1];
        let k = j * block + kp;
        assert(pow(n, times) == n * block);
        assert(0 <= k < n * block) by (nonlinear_arith)
            requires
                block > 0,
                0 <= j < n,
                0 <= kp < block,
                k == j * block + kp,
        ;
        lemma_fundamental_div_mod_converse(k, block, j, kp);
        assert(tuple_at(elements, times, k) == prefix.push(elements[j]));
        assert(prefix.push(s[times - 1]) =~= s);
    }
}

/// A copy of a vector of copyable elements.
pub(crate) fn copy_vec<T: Copy>(v: &Vec<T>) -> (r: Vec<T>)
    ensures
        r@ == v@,
{
    let mut r: Vec<T> = Vec::new();
    for i in 0..v.len()
        invariant
            r@ == v@.take(i as int),
    {
        r.push(v[i]);
        assert(v@.take(i as int).push(v@[i as int]) =~= v@.take(i + 1));
    }
    assert(v@.take(v@.len() as int) =~= v@);
    r
}

/// The `times`-fold cartesian power of `elements`: every ordered tuple of
/// `times` elements, with repetition, exactly once, in the order that
/// `tuple_at` gives.
pub fn product<T: Copy>(elements: &Vec<T>, times: usize) -> (r: Vec<Vec<T>>)
    ensures
        r@.len() == pow(elements@.len() as int, times as nat),
        forall|k: int|
            0 <= k < r@.len() ==> (#[trigger] r@[k])@ == tuple_at(elements@, times as nat, k),
    decreases times,
{
    let ghost n = elements@.len() as int;
    if times == 0 {
        let mut r: Vec<Vec<T>> = Vec::new();
        r.push(Vec::new());
        proof {
            reveal(pow);
            assert(pow(n, 0) == 1);
            assert(r@[0]@ =~= tuple_at(elements@, 0nat, 0));
        }
        return r;
    }
    let sub_product = product(elements, times - 1);
    let ghost block = pow(n, (times - 1) as nat);
    proof {
        reveal(pow);
        if n > 0 {
            lemma_pow_positive(n, (times - 1) as nat);
        }
        assert(pow(n, times as nat) == n * block);
    }
    let mut r: Vec<Vec<T>> = Vec::new();
    proof {
        assert(0 * block == 0) by (nonlinear_arith);
    }
    for j in 0..elements.len()
        invariant
            times >= 1,
            n == elements@.len(),
            block == pow(n, (times - 1) as nat),
            n > 0 ==> block > 0,
            pow(n, times as nat) == n * block,
            sub_product@.len() == block,
            forall|s: int|
                0 <= s < block ==> (#[trigger] sub_product@[s])@ == tuple_at(
                    elements@,
                    (times - 1) as nat,
                    s,
                ),
            r@.len() == j * block,
            forall|k: int|
                0 <= k < r@.len() ==> (#[trigger] r@[k])@ == tuple_at(elements@, times as nat, k),
    {
        assert(block > 0);
        assert(j * block + block == (j + 1) * block) by (nonlinear_arith);
        assert((j + 1) * block <= n * block) by (nonlinear_arith)
            requires
                block > 0,
                j + 1 <= n,
        ;
        for s in 0..sub_product.len()
            invariant
                times >= 1,
                n == elements@.len(),
                j < n,
                block == pow(n, (times - 1) as nat),
                block > 0,
                sub_product@.len() == block,
                forall|t: int|
                    0 <= t < block ==> (#[trigger] sub_product@[t])@ == tuple_at(
                        elements@,
                        (times - 1) as nat,
                        t,
                    ),
                r@.len() == j * block + s,
                forall|k: int|
                    0 <= k < r@.len() ==> (#[trigger] r@[k])@ == tuple_at(
                        elements@,
                        times as nat,
                        k,
                    ),
        {
            let mut tuple = copy_vec(&sub_product[s]);
            tuple.push(elements[j]);
            r.push(tuple);
            proof {
                let k = j * block + s;
                lemma_fundamental_div_mod_converse(k, block, j as int, s as int);
                assert(k / block == j as int && k % block == s as int);
                assert(tuple@ == sub_product@[s as int]@.push(elements@[j as int]));
                assert(tuple_at(elements@, times as nat, k) == tuple_at(
                    elements@,
                    (times - 1) as nat,
                    s as int,
                ).push(elements@[j as int]));
            }
        }
    }
    r
}

} // verus!
