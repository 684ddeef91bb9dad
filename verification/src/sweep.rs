//! Sweeps over seeds.

use vstd::prelude::*;

verus! {

/// The seeds of a sweep of `n` from `base` on, in order.
pub open spec fn seeds_from(base: u64, n: u64) -> Seq<u64> {
    Seq::new(n as nat, |i: int| (base + i) as u64)
}

/// The seeds of a sweep of `n` from `base` on, in order.
pub fn seeds(base: u64, n: u64) -> (r: Vec<u64>)
    requires
        base + n <= u64::MAX + 1,
    ensures
        r@ == seeds_from(base, n),
        r@.len() == n,
        forall|i: int| 0 <= i < n ==> #[trigger] r@[i] == base + i,
        forall|s: u64| #[trigger] r@.contains(s) <==> base <= s < base + n,
        r@.no_duplicates(),
{
    let mut r: Vec<u64> = Vec::new();
    for i in 0..n
        invariant
            base + n <= u64::MAX + 1,
            r@ == seeds_from(base, i),
    {
        r.push(base + i);
    }
    proof {
        law_sweep_runs_each_seed_once(base, n);
    }
    r
}

/// Seeds with a text each, the texts as characters.
pub open spec fn noted(v: Seq<(u64, String)>) -> Seq<(u64, Seq<char>)> {
    v.map_values(|e: (u64, String)| (e.0, e.1@))
}

/// A sweep of `n` begins at `base` and goes up by one from seed to seed. So it
/// runs exactly the seeds from `base` up to `base + n`, each of them once.
pub proof fn law_sweep_runs_each_seed_once(base: u64, n: u64)
    requires
        base + n <= u64::MAX + 1,
    ensures
        seeds_from(base, n).len() == n,
        n > 0 ==> seeds_from(base, n)[0] == base,
        forall|i: int, j: int|
            0 <= i && j == i + 1 && j < n ==> #[trigger] seeds_from(base, n)[j]
                == #[trigger] seeds_from(base, n)[i] + 1,
        forall|i: int| 0 <= i < n ==> #[trigger] seeds_from(base, n)[i] == base + i,
        forall|s: u64| #[trigger] seeds_from(base, n).contains(s) <==> base <= s < base + n,
        seeds_from(base, n).no_duplicates(),
{
    let all = seeds_from(base, n);
    assert forall|s: u64| #[trigger] all.contains(s) <==> base <= s < base + n by {
        if base <= s < base + n {
            assert(all[s - base] == s);
        }
        if all.contains(s) {
            let i = choose|i: int| 0 <= i < all.len() && all[i] == s;
            assert(all[i] == base + i);
        }
    }
}

/// A sweep may be cut in two: what is left goes on where the first part ended.
pub proof fn law_sweep_goes_on_where_it_was_cut(base: u64, a: u64, b: u64)
    requires
        base + a + b <= u64::MAX,
    ensures
        seeds_from(base, (a + b) as u64) == seeds_from(base, a) + seeds_from((base + a) as u64, b),
{
}

/// Noting keeps every seed and its text, in place.
pub proof fn law_notes_keep_seed_and_text(v: Seq<(u64, String)>)
    ensures
        noted(v).len() == v.len(),
        forall|i: int| 0 <= i < v.len() ==> (#[trigger] noted(v)[i]).0 == v[i].0,
        forall|i: int| 0 <= i < v.len() ==> (#[trigger] noted(v)[i]).1 == v[i].1@,
{
}

/// What a list with one more entry holds.
pub proof fn lemma_push_contains<A>(all: Seq<A>, last: A, e: A)
    ensures
        all.push(last).contains(e) <==> all.contains(e) || e == last,
{
    if all.contains(e) {
        let k = choose|k: int| 0 <= k < all.len() && all[k] == e;
        assert(all.push(last)[k] == e);
    }
    if e == last {
        assert(all.push(last)[all.len() as int] == e);
    }
    if all.push(last).contains(e) {
        let k = choose|k: int| 0 <= k < all.push(last).len() && all.push(last)[k] == e;
        if k < all.len() {
            assert(all[k] == e);
        }
    }
}

} // verus!
