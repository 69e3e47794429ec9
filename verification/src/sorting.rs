//! Stable ordering of positions by integer keys.
//!
//! The managers that rank what they hold (policies by priority, items by
//! access count or by last access) order positions `0..n` by a key, keeping
//! positions with equal keys in their original order, as a stable sort does.

use vstd::prelude::*;

verus! {

/// `s` with `x` placed just before the first element whose key exceeds the
/// key of `x`.
pub open spec fn sorted_insert(s: Seq<usize>, x: usize, keys: Seq<i128>) -> Seq<usize>
    decreases s.len(),
{
    if s.len() == 0 {
        seq![x]
    } else if keys[x as int] < keys[s[0] as int] {
        seq![x] + s
    } else {
        seq![s[0]] + sorted_insert(s.drop_first(), x, keys)
    }
}

/// The positions `0..n` in ascending order of `keys`; positions with equal
/// keys keep their relative order.
pub open spec fn stable_order(n: nat, keys: Seq<i128>) -> Seq<usize>
    decreases n,
{
    if n == 0 {
        Seq::empty()
    } else {
        sorted_insert(stable_order((n - 1) as nat, keys), (n - 1) as usize, keys)
    }
}

/// Where the scan of `stable_order_by` stops is where `sorted_insert` puts `x`.
proof fn lemma_sorted_insert_at(s: Seq<usize>, x: usize, keys: Seq<i128>, p: int)
    requires
        0 <= p <= s.len(),
        forall|j: int| 0 <= j < p ==> keys[#[trigger] s[j] as int] <= keys[x as int],
        p < s.len() ==> keys[x as int] < keys[s[p] as int],
    ensures
        sorted_insert(s, x, keys) == s.insert(p, x),
    decreases p,
{
    if p == 0 {
        if s.len() == 0 {
            assert(seq![x] =~= s.insert(0, x));
        } else {
            assert(seq![x] + s =~= s.insert(0, x));
        }
    } else {
        let t = s.drop_first();
        assert forall|j: int| 0 <= j < p - 1 implies keys[#[trigger] t[j] as int] <= keys[x as int] by {
            assert(t[j] == s[j + 1]);
        }
        assert(p - 1 < t.len() ==> t[p - 1] == s[p]);
        lemma_sorted_insert_at(t, x, keys, p - 1);
        assert(seq![s[0]] + t.insert(p - 1, x) =~= s.insert(p, x));
    }
}

/// `sorted_insert` keeps the elements of `s` and adds `x`.
proof fn lemma_sorted_insert_elems(s: Seq<usize>, x: usize, keys: Seq<i128>)
    ensures
        sorted_insert(s, x, keys).len() == s.len() + 1,
        forall|j: int|
            0 <= j < sorted_insert(s, x, keys).len() ==> #[trigger] sorted_insert(s, x, keys)[j] == x
                || s.contains(sorted_insert(s, x, keys)[j]),
    decreases s.len(),
{
    if s.len() > 0 && !(keys[x as int] < keys[s[0] as int]) {
        let t = s.drop_first();
        lemma_sorted_insert_elems(t, x, keys);
        let r = sorted_insert(s, x, keys);
        assert forall|j: int| 0 <= j < r.len() implies #[trigger] r[j] == x || s.contains(r[j]) by {
            if j > 0 {
                let y = sorted_insert(t, x, keys)[j - 1];
                assert(r[j] == y);
                if y != x {
                    let k = choose|k: int| 0 <= k < t.len() && t[k] == y;
                    assert(s[k + 1] == y);
                }
            } else {
                assert(s[0] == r[0]);
            }
        }
    } else if s.len() > 0 {
        let r = sorted_insert(s, x, keys);
        assert forall|j: int| 0 <= j < r.len() implies #[trigger] r[j] == x || s.contains(r[j]) by {
            if j > 0 {
                assert(r[j] == s[j - 1]);
            }
        }
    }
}

/// `stable_order` holds exactly `n` positions, each below `n`.
pub proof fn lemma_stable_order_range(n: nat, keys: Seq<i128>)
    ensures
        stable_order(n, keys).len() == n,
        forall|j: int| 0 <= j < n ==> #[trigger] stable_order(n, keys)[j] < n,
    decreases n,
{
    if n > 0 {
        let m = (n - 1) as nat;
        lemma_stable_order_range(m, keys);
        let s = stable_order(m, keys);
        lemma_sorted_insert_elems(s, m as usize, keys);
        assert forall|j: int| 0 <= j < n implies #[trigger] stable_order(n, keys)[j] < n by {
            let y = stable_order(n, keys)[j];
            if y != m as usize {
                let k = choose|k: int| 0 <= k < s.len() && s[k] == y;
            }
        }
    }
}

/// Whether the positions of `s` come in ascending order of `keys`.
pub open spec fn keys_ascending(s: Seq<usize>, keys: Seq<i128>) -> bool {
    forall|i: int, j: int|
        0 <= i < j < s.len() ==> keys[#[trigger] s[i] as int] <= keys[#[trigger] s[j] as int]
}

proof fn lemma_sorted_insert_ascending(s: Seq<usize>, x: usize, keys: Seq<i128>)
    requires
        keys_ascending(s, keys),
    ensures
        keys_ascending(sorted_insert(s, x, keys), keys),
    decreases s.len(),
{
    if s.len() > 0 {
        let r = sorted_insert(s, x, keys);
        if keys[x as int] < keys[s[0] as int] {
            assert forall|i: int, j: int| 0 <= i < j < r.len() implies keys[#[trigger] r[i] as int]
                <= keys[#[trigger] r[j] as int] by {
                if i > 0 {
                    assert(r[i] == s[i - 1] && r[j] == s[j - 1]);
                } else {
                    assert(r[j] == s[j - 1]);
                    assert(keys[s[0] as int] <= keys[s[j - 1] as int] || j - 1 == 0);
                }
            }
        } else {
            let t = s.drop_first();
            assert forall|i: int, j: int| 0 <= i < j < t.len() implies keys[#[trigger] t[i] as int]
                <= keys[#[trigger] t[j] as int] by {
                assert(t[i] == s[i + 1] && t[j] == s[j + 1]);
            }
            lemma_sorted_insert_ascending(t, x, keys);
            lemma_sorted_insert_elems(t, x, keys);
            let u = sorted_insert(t, x, keys);
            assert forall|i: int, j: int| 0 <= i < j < r.len() implies keys[#[trigger] r[i] as int]
                <= keys[#[trigger] r[j] as int] by {
                if i > 0 {
                    assert(r[i] == u[i - 1] && r[j] == u[j - 1]);
                } else {
                    let y = u[j - 1];
                    assert(r[j] == y);
                    if y != x {
                        let k = choose|k: int| 0 <= k < t.len() && t[k] == y;
                        assert(s[k + 1] == y);
                        assert(keys[s[0] as int] <= keys[s[k + 1] as int]);
                    }
                }
            }
        }
    }
}

/// `stable_order` lists positions in ascending order of their keys.
pub proof fn lemma_stable_order_ascending(n: nat, keys: Seq<i128>)
    ensures
        keys_ascending(stable_order(n, keys), keys),
    decreases n,
{
    if n > 0 {
        lemma_stable_order_ascending((n - 1) as nat, keys);
        lemma_sorted_insert_ascending(stable_order((n - 1) as nat, keys), (n - 1) as usize, keys);
    }
}

/// The positions `0..keys.len()`, stably ordered by ascending key.
pub fn stable_order_by(keys: &Vec<i128>) -> (r: Vec<usize>)
    ensures
        r@ == stable_order(keys@.len(), keys@),
{
    let n = keys.len();
    let mut out: Vec<usize> = Vec::new();
    let mut i: usize = 0;
    while i < n
        invariant
            i <= n,
            n == keys@.len(),
            out@ == stable_order(i as nat, keys@),
        decreases n - i,
    {
        proof {
            lemma_stable_order_range(i as nat, keys@);
        }
        let ki = keys[i];
        let mut p: usize = 0;
        while p < out.len() && keys[out[p]] <= ki
            invariant
                i < n,
                n == keys@.len(),
                ki == keys@[i as int],
                out@ == stable_order(i as nat, keys@),
                out@.len() == i,
                forall|j: int| 0 <= j < i ==> #[trigger] out@[j] < i,
                p <= out@.len(),
                forall|j: int| 0 <= j < p ==> keys@[#[trigger] out@[j] as int] <= ki,
            decreases out@.len() - p,
        {
            p = p + 1;
        }
        proof {
            lemma_sorted_insert_at(out@, i, keys@, p as int);
        }
        out.insert(p, i);
        i = i + 1;
    }
    out
}

} // verus!
