//! Sequence vocabulary shared by the contracts, and small sorted-list helpers.

use vstd::prelude::*;

verus! {

/// `i` is the first position of `s` whose element satisfies `p`.
pub open spec fn is_first<A>(s: Seq<A>, p: spec_fn(A) -> bool, i: int) -> bool {
    &&& 0 <= i < s.len()
    &&& p(s[i])
    &&& forall|k: int| 0 <= k < i ==> !p(#[trigger] s[k])
}

/// The first position of `s` whose element satisfies `p`.
pub open spec fn first_where<A>(s: Seq<A>, p: spec_fn(A) -> bool) -> Option<int> {
    if exists|i: int| is_first(s, p, i) {
        Some(choose|i: int| is_first(s, p, i))
    } else {
        None
    }
}

pub proof fn lemma_first_found<A>(s: Seq<A>, p: spec_fn(A) -> bool, i: int)
    requires
        is_first(s, p, i),
    ensures
        first_where(s, p) == Some(i),
{
    let j = choose|j: int| is_first(s, p, j);
    assert(is_first(s, p, j));
    if i < j {
        assert(!p(s[i]));
    } else if j < i {
        assert(!p(s[j]));
    }
}

pub proof fn lemma_first_none<A>(s: Seq<A>, p: spec_fn(A) -> bool)
    requires
        forall|k: int| 0 <= k < s.len() ==> !p(#[trigger] s[k]),
    ensures
        first_where(s, p) is None,
{
}

/// A position that satisfies `p` bounds the first one; without one there is none.
pub proof fn lemma_first_cases<A>(s: Seq<A>, p: spec_fn(A) -> bool)
    ensures
        match first_where(s, p) {
            Some(i) => is_first(s, p, i),
            None => forall|k: int| 0 <= k < s.len() ==> !p(#[trigger] s[k]),
        },
{
    if first_where(s, p) is None {
        assert forall|k: int| 0 <= k < s.len() implies !p(#[trigger] s[k]) by {
            if p(s[k]) {
                lemma_least(s, p, k);
            }
        }
    }
}

proof fn lemma_least<A>(s: Seq<A>, p: spec_fn(A) -> bool, k: int)
    requires
        0 <= k < s.len(),
        p(s[k]),
    ensures
        exists|i: int| is_first(s, p, i),
    decreases k,
{
    if forall|j: int| 0 <= j < k ==> !p(#[trigger] s[j]) {
        assert(is_first(s, p, k));
    } else {
        let j = choose|j: int| 0 <= j < k && p(#[trigger] s[j]);
        lemma_least(s, p, j);
    }
}

/// The elements of a slice in a vector of their own.
pub fn copied<A: Copy>(s: &[A]) -> (v: Vec<A>)
    ensures
        v@ == s@,
{
    let mut v: Vec<A> = Vec::new();
    let mut i: usize = 0;
    while i < s.len()
        invariant
            i <= s.len(),
            v@ == s@.take(i as int),
        decreases s.len() - i,
    {
        v.push(s[i]);
        i += 1;
        assert(s@.take(i as int) =~= s@.take(i - 1).push(s@[i - 1]));
    }
    assert(s@.take(i as int) =~= s@);
    v
}

/// Strictly increasing.
pub open spec fn increasing_u32(s: Seq<u32>) -> bool {
    forall|i: int, j: int| 0 <= i < j < s.len() ==> #[trigger] s[i] < #[trigger] s[j]
}

/// Strictly increasing.
pub open spec fn increasing_u64(s: Seq<u64>) -> bool {
    forall|i: int, j: int| 0 <= i < j < s.len() ==> #[trigger] s[i] < #[trigger] s[j]
}

/// The numbers below `n` that satisfy `p`, in increasing order.
pub open spec fn members_below(p: spec_fn(u32) -> bool, n: nat) -> Seq<u32>
    decreases n,
{
    if n == 0 {
        Seq::empty()
    } else {
        let rest = members_below(p, (n - 1) as nat);
        if p((n - 1) as u32) {
            rest.push((n - 1) as u32)
        } else {
            rest
        }
    }
}

/// The numbers that satisfy `p`, in increasing order.
pub open spec fn sorted_members(p: spec_fn(u32) -> bool) -> Seq<u32> {
    members_below(p, 0x1_0000_0000)
}

proof fn lemma_members_below(p: spec_fn(u32) -> bool, n: nat)
    requires
        n <= 0x1_0000_0000,
    ensures
        increasing_u32(members_below(p, n)),
        forall|x: u32| #[trigger] members_below(p, n).contains(x) <==> x < n && p(x),
    decreases n,
{
    if n > 0 {
        let rest = members_below(p, (n - 1) as nat);
        let all = members_below(p, n);
        let last = (n - 1) as u32;
        lemma_members_below(p, (n - 1) as nat);
        assert forall|i: int, j: int| 0 <= i < j < all.len() implies #[trigger] all[i]
            < #[trigger] all[j] by {
            if j < rest.len() {
                assert(rest[i] < rest[j]);
            } else {
                assert(rest.contains(rest[i]));
            }
        }
        assert forall|x: u32| #[trigger] all.contains(x) <==> x < n && p(x) by {
            if all.contains(x) {
                let i = choose|i: int| 0 <= i < all.len() && all[i] == x;
                if i < rest.len() {
                    assert(rest.contains(rest[i]));
                }
            }
            if x < n && p(x) {
                if x == last {
                    assert(all[rest.len() as int] == x);
                } else {
                    assert(rest.contains(x));
                    let i = choose|i: int| 0 <= i < rest.len() && rest[i] == x;
                    assert(all[i] == x);
                }
            }
        }
    }
}

/// The list holds exactly the numbers that satisfy `p`, each once.
pub proof fn lemma_sorted_members_hold(p: spec_fn(u32) -> bool)
    ensures
        is_sorted_members(p, sorted_members(p)),
{
    lemma_members_below(p, 0x1_0000_0000);
}

/// `s` lists what satisfies `p` in increasing order.
pub open spec fn is_sorted_members(p: spec_fn(u32) -> bool, s: Seq<u32>) -> bool {
    increasing_u32(s) && forall|x: u32| #[trigger] s.contains(x) <==> p(x)
}

proof fn lemma_increasing_unique(s: Seq<u32>, t: Seq<u32>)
    requires
        increasing_u32(s),
        increasing_u32(t),
        forall|x: u32| #[trigger] s.contains(x) <==> t.contains(x),
    ensures
        s == t,
    decreases s.len(),
{
    if s.len() == 0 {
        if t.len() > 0 {
            assert(t.contains(t[0]));
            assert(s.contains(t[0]));
        }
        assert(s =~= t);
    } else {
        assert(s.contains(s.last()));
        assert(t.contains(s.last()));
        assert(t.contains(t.last()));
        assert(s.contains(t.last()));
        let i = choose|i: int| 0 <= i < t.len() && t[i] == s.last();
        let j = choose|j: int| 0 <= j < s.len() && s[j] == t.last();
        if i < t.len() - 1 {
            assert(t[i] < t[t.len() - 1]);
            if j < s.len() - 1 {
                assert(s[j] < s[s.len() - 1]);
            }
        }
        let a = s.drop_last();
        let b = t.drop_last();
        assert forall|x: u32| #[trigger] a.contains(x) <==> b.contains(x) by {
            if a.contains(x) {
                let k = choose|k: int| 0 <= k < a.len() && a[k] == x;
                assert(s[k] < s[s.len() - 1]);
                assert(s.contains(x));
                assert(t.contains(x));
                let m = choose|m: int| 0 <= m < t.len() && t[m] == x;
                assert(b[m] == x);
            }
            if b.contains(x) {
                let k = choose|k: int| 0 <= k < b.len() && b[k] == x;
                assert(t[k] < t[t.len() - 1]);
                assert(t.contains(x));
                assert(s.contains(x));
                let m = choose|m: int| 0 <= m < s.len() && s[m] == x;
                assert(a[m] == x);
            }
        }
        lemma_increasing_unique(a, b);
        assert(s =~= a.push(s.last()));
        assert(t =~= b.push(t.last()));
    }
}

/// There is at most one increasing list of given members.
pub proof fn lemma_sorted_members(p: spec_fn(u32) -> bool, s: Seq<u32>)
    requires
        is_sorted_members(p, s),
    ensures
        sorted_members(p) == s,
{
    let t = sorted_members(p);
    lemma_sorted_members_hold(p);
    assert forall|x: u32| #[trigger] s.contains(x) <==> t.contains(x) by {
        assert(t.contains(x) <==> p(x));
    }
    lemma_increasing_unique(s, t);
}

/// Adds `x` to an increasing list unless it is there already.
pub fn insert_sorted_u32(v: &mut Vec<u32>, x: u32)
    requires
        increasing_u32(old(v)@),
    ensures
        increasing_u32(final(v)@),
        forall|y: u32| #[trigger]
            final(v)@.contains(y) <==> (y == x || old(v)@.contains(y)),
{
    let mut k: usize = 0;
    while k < v.len() && v[k] < x
        invariant
            k <= v.len(),
            v@ == old(v)@,
            increasing_u32(v@),
            forall|i: int| 0 <= i < k ==> #[trigger] v[i] < x,
        decreases v.len() - k,
    {
        k += 1;
    }
    let ghost s = v@;
    if k < v.len() && v[k] == x {
        assert(s[k as int] == x);
        return;
    }
    v.insert(k, x);
    proof {
        let t = v@;
        assert forall|i: int, j: int| 0 <= i < j < t.len() implies #[trigger] t[i]
            < #[trigger] t[j] by {
            if i < k && j > k {
                assert(s[i] < s[j - 1]);
            } else if i < k && j < k {
                assert(s[i] < s[j]);
            } else if i > k {
                assert(s[i - 1] < s[j - 1]);
            } else if i == k {
                assert(s[k as int] <= s[j - 1]);
            }
        }
        assert forall|y: u32| #[trigger] t.contains(y) <==> (y == x || s.contains(y)) by {
            if s.contains(y) {
                let i = choose|i: int| 0 <= i < s.len() && s[i] == y;
                if i < k {
                    assert(t[i] == y);
                } else {
                    assert(t[i + 1] == y);
                }
            }
            if t.contains(y) && y != x {
                let i = choose|i: int| 0 <= i < t.len() && t[i] == y;
                if i < k {
                    assert(s[i] == y);
                } else {
                    assert(s[i - 1] == y);
                }
            }
            assert(t[k as int] == x);
        }
    }
}

/// Adds `x` to an increasing list unless it is there already.
pub fn insert_sorted_u64(v: &mut Vec<u64>, x: u64)
    requires
        increasing_u64(old(v)@),
    ensures
        increasing_u64(final(v)@),
        forall|y: u64| #[trigger]
            final(v)@.contains(y) <==> (y == x || old(v)@.contains(y)),
{
    let mut k: usize = 0;
    while k < v.len() && v[k] < x
        invariant
            k <= v.len(),
            v@ == old(v)@,
            increasing_u64(v@),
            forall|i: int| 0 <= i < k ==> #[trigger] v[i] < x,
        decreases v.len() - k,
    {
        k += 1;
    }
    let ghost s = v@;
    if k < v.len() && v[k] == x {
        assert(s[k as int] == x);
        return;
    }
    v.insert(k, x);
    proof {
        let t = v@;
        assert forall|i: int, j: int| 0 <= i < j < t.len() implies #[trigger] t[i]
            < #[trigger] t[j] by {
            if i < k && j > k {
                assert(s[i] < s[j - 1]);
            } else if i < k && j < k {
                assert(s[i] < s[j]);
            } else if i > k {
                assert(s[i - 1] < s[j - 1]);
            } else if i == k {
                assert(s[k as int] <= s[j - 1]);
            }
        }
        assert forall|y: u64| #[trigger] t.contains(y) <==> (y == x || s.contains(y)) by {
            if s.contains(y) {
                let i = choose|i: int| 0 <= i < s.len() && s[i] == y;
                if i < k {
                    assert(t[i] == y);
                } else {
                    assert(t[i + 1] == y);
                }
            }
            if t.contains(y) && y != x {
                let i = choose|i: int| 0 <= i < t.len() && t[i] == y;
                if i < k {
                    assert(s[i] == y);
                } else {
                    assert(s[i - 1] == y);
                }
            }
            assert(t[k as int] == x);
        }
    }
}

} // verus!
