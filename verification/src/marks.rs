use vstd::prelude::*;

verus! {

/// Number of `true` flags among the first `k` entries of `s`.
pub open spec fn count_true_upto(s: Seq<bool>, k: int) -> int
    decreases k,
{
    if k <= 0 {
        0
    } else {
        count_true_upto(s, k - 1) + if s[k - 1] {
            1int
        } else {
            0int
        }
    }
}

/// Number of `true` flags in `s`.
pub open spec fn count_true(s: Seq<bool>) -> int {
    count_true_upto(s, s.len() as int)
}

/// The indices of the `true` flags among the first `k` entries, ascending.
pub open spec fn trues_upto(s: Seq<bool>, k: int) -> Seq<usize>
    decreases k,
{
    if k <= 0 {
        Seq::empty()
    } else {
        trues_upto(s, k - 1) + if s[k - 1] {
            seq![(k - 1) as usize]
        } else {
            Seq::empty()
        }
    }
}

/// The indices of all `true` flags of `s`, ascending.
pub open spec fn trues(s: Seq<bool>) -> Seq<usize> {
    trues_upto(s, s.len() as int)
}

pub open spec fn strictly_increasing(s: Seq<usize>) -> bool {
    forall|a: int, b: int| 0 <= a < b < s.len() ==> s[a] < s[b]
}

/// What `trues_upto` lists: exactly the indices below `k` whose flag is set,
/// in strictly increasing order, one entry per set flag.
pub proof fn lemma_trues_upto(s: Seq<bool>, k: int)
    requires
        0 <= k <= s.len(),
        s.len() <= usize::MAX,
    ensures
        trues_upto(s, k).len() == count_true_upto(s, k),
        forall|x: usize| #[trigger] trues_upto(s, k).contains(x) <==> x < k && s[x as int],
        strictly_increasing(trues_upto(s, k)),
        forall|a: int| 0 <= a < trues_upto(s, k).len() ==> #[trigger] trues_upto(s, k)[a] < k,
    decreases k,
{
    if k > 0 {
        lemma_trues_upto(s, k - 1);
        let prev = trues_upto(s, k - 1);
        let cur = trues_upto(s, k);
        assert forall|x: usize| #[trigger] cur.contains(x) implies x < k && s[x as int] by {
            let i = choose|i: int| 0 <= i < cur.len() && cur[i] == x;
            if i < prev.len() {
                assert(prev.contains(x));
            }
        }
        assert forall|x: usize| x < k && s[x as int] implies #[trigger] cur.contains(x) by {
            if x < k - 1 {
                assert(prev.contains(x));
                let i = choose|i: int| 0 <= i < prev.len() && prev[i] == x;
                assert(cur[i] == x);
            } else {
                assert(cur[cur.len() - 1] == x);
            }
        }
        assert forall|a: int, b: int| 0 <= a < b < cur.len() implies cur[a] < cur[b] by {
            if b < prev.len() {
            } else {
                assert(s[k - 1]);
                assert(cur[b] == (k - 1) as usize);
                assert(prev.contains(prev[a]));
            }
        }
        assert forall|a: int| 0 <= a < cur.len() implies #[trigger] cur[a] < k by {
            if a < prev.len() {
            } else {
                assert(cur[a] == (k - 1) as usize);
            }
        }
    }
}

/// Setting one clear flag raises the count of the prefixes beyond it by one.
pub proof fn lemma_count_true_upto_update(s: Seq<bool>, v: int, k: int)
    requires
        0 <= v < s.len(),
        0 <= k <= s.len(),
        !s[v],
    ensures
        count_true_upto(s.update(v, true), k) == count_true_upto(s, k) + if v < k {
            1int
        } else {
            0int
        },
    decreases k,
{
    if k > 0 {
        lemma_count_true_upto_update(s, v, k - 1);
    }
}

pub proof fn lemma_count_true_upto_bound(s: Seq<bool>, k: int)
    requires
        0 <= k <= s.len(),
    ensures
        0 <= count_true_upto(s, k) <= k,
    decreases k,
{
    if k > 0 {
        lemma_count_true_upto_bound(s, k - 1);
    }
}

/// A prefix with one clear flag has strictly fewer set flags than entries.
pub proof fn lemma_count_true_upto_missing(s: Seq<bool>, v: int, k: int)
    requires
        0 <= v < k <= s.len(),
        !s[v],
    ensures
        count_true_upto(s, k) < k,
    decreases k,
{
    if v == k - 1 {
        lemma_count_true_upto_bound(s, k - 1);
    } else {
        lemma_count_true_upto_missing(s, v, k - 1);
    }
}

/// A sequence of unset flags counts no set flag.
pub proof fn lemma_count_true_upto_zero(s: Seq<bool>, k: int)
    requires
        0 <= k <= s.len(),
        forall|i: int| 0 <= i < s.len() ==> !s[i],
    ensures
        count_true_upto(s, k) == 0,
    decreases k,
{
    if k > 0 {
        lemma_count_true_upto_zero(s, k - 1);
    }
}

/// A strictly increasing list of indices below `n` that contains every index
/// below `n` has exactly `n` entries.
pub proof fn lemma_increasing_covers(s: Seq<usize>, n: int)
    requires
        strictly_increasing(s),
        forall|i: int| 0 <= i < s.len() ==> (#[trigger] s[i]) < n,
        forall|v: int| 0 <= v < n ==> #[trigger] s.contains(v as usize),
        0 <= n <= usize::MAX,
    ensures
        s.len() == n,
    decreases n,
{
    if n == 0 {
        if s.len() > 0 {
            assert(s[0] < 0);
        }
    } else {
        assert(s.contains((n - 1) as usize));
        let i = choose|i: int| 0 <= i < s.len() && s[i] == (n - 1) as usize;
        assert(i == s.len() - 1) by {
            if i < s.len() - 1 {
                assert(s[i] < s[s.len() - 1]);
                assert(s[s.len() - 1] < n);
            }
        }
        let t = s.drop_last();
        assert forall|j: int| 0 <= j < t.len() implies (#[trigger] t[j]) < n - 1 by {
            assert(t[j] == s[j] && s[j] < s[s.len() - 1]);
        }
        assert forall|v: int| 0 <= v < n - 1 implies #[trigger] t.contains(v as usize) by {
            assert(s.contains(v as usize));
            let iv = choose|iv: int| 0 <= iv < s.len() && s[iv] == v as usize;
            assert(iv != s.len() - 1);
            assert(t[iv] == v as usize);
        }
        lemma_increasing_covers(t, n - 1);
    }
}

/// `n` clear visited flags.
pub fn false_flags(n: usize) -> (r: Vec<bool>)
    ensures
        r@.len() == n,
        forall|i: int| 0 <= i < n ==> !r@[i],
{
    let mut r: Vec<bool> = Vec::new();
    let mut i: usize = 0;
    while i < n
        invariant
            i <= n,
            r@.len() == i,
            forall|k: int| 0 <= k < i ==> !r@[k],
        decreases n - i,
    {
        r.push(false);
        i += 1;
    }
    r
}

/// `n` empty predecessor entries.
pub fn no_parents(n: usize) -> (r: Vec<Option<usize>>)
    ensures
        r@.len() == n,
        forall|i: int| 0 <= i < n ==> (#[trigger] r@[i]) is None,
{
    let mut r: Vec<Option<usize>> = Vec::new();
    let mut i: usize = 0;
    while i < n
        invariant
            i <= n,
            r@.len() == i,
            forall|k: int| 0 <= k < i ==> (#[trigger] r@[k]) is None,
        decreases n - i,
    {
        r.push(None);
        i += 1;
    }
    r
}

/// Lists the indices of the set flags of `visited`, ascending.
pub fn visited_list(visited: &Vec<bool>) -> (r: Vec<usize>)
    ensures
        r@ == trues(visited@),
{
    let mut r: Vec<usize> = Vec::new();
    let mut i: usize = 0;
    while i < visited.len()
        invariant
            i <= visited@.len(),
            r@ == trues_upto(visited@, i as int),
        decreases visited@.len() - i,
    {
        if visited[i] {
            let ghost old_r = r@;
            r.push(i);
            proof {
                assert(r@ =~= old_r + seq![i]);
            }
        } else {
            proof {
                assert(r@ =~= r@ + Seq::<usize>::empty());
            }
        }
        i += 1;
    }
    r
}

} // verus!
