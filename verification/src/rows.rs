//! The row of leaves that each replica of a plan has grown, in the model of
//! `leaves`.

use crate::group::{
    among, authored, everyone, growing, held, lemma_push, merges, seeding, Action, Site, Step,
};
use crate::leaves::{
    founded, law_add_takes_the_next_leaf, lemma_seat, pushed, removed, seat, seated, Row,
};
use vstd::prelude::*;

verus! {

/// The row after an operation, where it is not refused.
pub open spec fn applied(row: Row, action: Action) -> Row {
    match action {
        Action::Add { member, .. } => pushed(row, member as int),
        Action::Remove { member, .. } => match removed(row, member as int) {
            Some(r) => r,
            None => row,
        },
        _ => row,
    }
}

/// The call that authored the operation numbered `op`.
pub open spec fn content(steps: Seq<Step>, op: int) -> Action
    decreases steps.len(),
{
    if steps.len() == 0 {
        Action::Found
    } else if steps.last().authors() is Some && op == authored(steps.drop_last()) {
        steps.last().action
    } else {
        content(steps.drop_last(), op)
    }
}

/// The row of a replica that applies operations as they come to it. That is its
/// row as long as nothing has come that is concurrent to what it held.
pub open spec fn row(steps: Seq<Step>, replica: int) -> Row
    decreases steps.len(),
{
    if steps.len() == 0 {
        founded()
    } else {
        let earlier = steps.drop_last();
        match steps.last().authors() {
            Some(author) => if author == replica {
                applied(row(earlier, replica), steps.last().action)
            } else {
                row(earlier, replica)
            },
            None => match steps.last().action {
                Action::Merge { replica: r, op } => if r == replica && !held(
                    earlier,
                    replica,
                ).contains(op as int) {
                    applied(row(earlier, replica), content(earlier, op as int))
                } else {
                    row(earlier, replica)
                },
                _ => row(earlier, replica),
            },
        }
    }
}

/// The row of the author of `op` when it authored it.
pub open spec fn author_row(steps: Seq<Step>, op: int) -> Row
    decreases steps.len(),
{
    if steps.len() == 0 {
        founded()
    } else {
        match steps.last().authors() {
            Some(author) => if op == authored(steps.drop_last()) {
                row(steps.drop_last(), author as int)
            } else {
                author_row(steps.drop_last(), op)
            },
            None => author_row(steps.drop_last(), op),
        }
    }
}

/// One further step, seen from what the plan did before it.
pub proof fn lemma_row_push(steps: Seq<Step>, step: Step)
    ensures
        forall|o: int| #[trigger]
            content(steps.push(step), o) == if step.authors() is Some && o == authored(steps) {
                step.action
            } else {
                content(steps, o)
            },
        forall|r: int| #[trigger]
            row(steps.push(step), r) == match step.authors() {
                Some(author) => if author == r {
                    applied(row(steps, r), step.action)
                } else {
                    row(steps, r)
                },
                None => match step.action {
                    Action::Merge { replica, op } => if replica == r && !held(steps, r).contains(
                        op as int,
                    ) {
                        applied(row(steps, r), content(steps, op as int))
                    } else {
                        row(steps, r)
                    },
                    _ => row(steps, r),
                },
            },
        forall|o: int| #[trigger]
            author_row(steps.push(step), o) == match step.authors() {
                Some(author) => if o == authored(steps) {
                    row(steps, author as int)
                } else {
                    author_row(steps, o)
                },
                None => author_row(steps, o),
            },
{
    assert(steps.push(step).drop_last() == steps);
}

/// Merging an operation into replicas, seen from what the plan did before it.
pub proof fn lemma_row_merges(steps: Seq<Step>, op: usize, to: Seq<usize>)
    ensures
        authored(steps + merges(op, to)) == authored(steps),
        forall|o: int| #[trigger] content(steps + merges(op, to), o) == content(steps, o),
        forall|o: int| #[trigger] author_row(steps + merges(op, to), o) == author_row(steps, o),
        forall|r: int| #[trigger]
            held(steps + merges(op, to), r) == if among(to, r) {
                held(steps, r).insert(op as int)
            } else {
                held(steps, r)
            },
        forall|r: int| #[trigger]
            row(steps + merges(op, to), r) == if !held(steps, r).contains(op as int) && among(to, r) {
                applied(row(steps, r), content(steps, op as int))
            } else {
                row(steps, r)
            },
    decreases to.len(),
{
    let all = merges(op, to);
    if to.len() == 0 {
        assert(steps + all == steps);
    } else {
        let short = to.drop_last();
        let earlier = steps + merges(op, short);
        let last = Step {
            action: Action::Merge { replica: to.last(), op },
            site: Site::Delivery,
        };
        lemma_row_merges(steps, op, short);
        assert(all == merges(op, short).push(last));
        assert(steps + all == earlier.push(last));
        lemma_push(earlier, last);
        lemma_row_push(earlier, last);
        let n = to.len() - 1;
        assert forall|r: int| #[trigger] among(to, r) == (to.last() == r || among(short, r)) by {
            if among(to, r) {
                let j = choose|j: int| 0 <= j < to.len() && #[trigger] to[j] == r;
                if j < n {
                    assert(short[j] == r);
                }
            }
            if among(short, r) {
                let j = choose|j: int| 0 <= j < short.len() && #[trigger] short[j] == r;
                assert(to[j] == r);
            }
            if to.last() == r {
                assert(to[n] == r);
            }
        }
        assert forall|r: int| #[trigger]
            held(steps + all, r) == if among(to, r) {
                held(steps, r).insert(op as int)
            } else {
                held(steps, r)
            } by {
            assert(held(earlier, r).insert(op as int) =~= held(steps, r).insert(op as int));
        }
    }
}

/// A row into which the first `k` members have been seated one by one.
pub open spec fn filled(k: nat) -> Row
    decreases k,
{
    if k <= 1 {
        founded()
    } else {
        pushed(filled((k - 1) as nat), k - 1)
    }
}

/// The first `k` members and nobody else are seated, each at its own place.
pub open spec fn in_order(row: Row, k: nat) -> bool {
    &&& row.wf()
    &&& row.next == k
    &&& forall|m: int|
        (#[trigger] seated(row, m) <==> 0 <= m < k) && (0 <= m < k ==> seat(row, m) == m)
}

/// Members who are seated one by one sit in that order, without gaps.
pub proof fn law_members_sit_in_the_order_they_were_added(k: nat)
    requires
        k >= 1,
    ensures
        in_order(filled(k), k),
    decreases k,
{
    if k == 1 {
        let row = founded();
        lemma_seat(row, 0);
        assert forall|m: int|
            (#[trigger] seated(row, m) <==> 0 <= m < k) && (0 <= m < k ==> seat(row, m) == m) by {}
    } else {
        let before = filled((k - 1) as nat);
        law_members_sit_in_the_order_they_were_added((k - 1) as nat);
        assert(!seated(before, k - 1));
        law_add_takes_the_next_leaf(before, k - 1);
        let row = filled(k);
        assert forall|m: int|
            (#[trigger] seated(row, m) <==> 0 <= m < k) && (0 <= m < k ==> seat(row, m) == m) by {
            if m != k - 1 {
                assert(seated(row, m) == seated(before, m));
            }
        }
    }
}

proof fn lemma_seeding_rows(n: nat)
    ensures
        authored(seeding(n)) == 0,
        forall|r: int| #[trigger] held(seeding(n), r) == Set::<int>::empty(),
        forall|r: int| #[trigger] row(seeding(n), r) == founded(),
    decreases n,
{
    if n <= 1 {
        let found = Step { action: Action::Found, site: Site::Founding };
        assert(seeding(n) == Seq::empty().push(found));
        lemma_push(Seq::empty(), found);
        lemma_row_push(Seq::empty(), found);
    } else {
        let member = (n - 1) as usize;
        let earlier = seeding((n - 1) as nat);
        let seed = Step { action: Action::Seed { member }, site: Site::Seeding };
        let own = Step { action: Action::Own { member }, site: Site::Owning };
        lemma_seeding_rows((n - 1) as nat);
        lemma_push(earlier, seed);
        lemma_row_push(earlier, seed);
        lemma_push(earlier.push(seed), own);
        lemma_row_push(earlier.push(seed), own);
    }
}

/// A founded group agrees: every replica holds every add and has seated the
/// members in the order in which they were added.
pub proof fn law_founding_leaves_all_replicas_alike(n: nat, k: nat)
    requires
        1 <= k <= n <= usize::MAX,
    ensures
        authored(growing(n, k)) == k - 1,
        forall|r: int|
            0 <= r < n ==> #[trigger] held(growing(n, k), r) == Set::new(|o: int| 0 <= o < k - 1),
        forall|r: int|
            0 <= r < n ==> #[trigger] row(growing(n, k), r) == filled(k) && in_order(
                row(growing(n, k), r),
                k,
            ),
    decreases k,
{
    law_members_sit_in_the_order_they_were_added(k);
    if k <= 1 {
        lemma_seeding_rows(n);
        assert forall|r: int| 0 <= r < n implies #[trigger] held(growing(n, k), r) == Set::new(
            |o: int| 0 <= o < k - 1,
        ) by {
            assert(held(growing(n, k), r) =~= Set::new(|o: int| 0 <= o < k - 1));
        }
    } else {
        let earlier = growing(n, (k - 1) as nat);
        let add = Step {
            action: Action::Add { author: 0, member: (k - 1) as usize },
            site: Site::FoundingAdd,
        };
        let op = (k - 2) as usize;
        let to = everyone(n);
        law_founding_leaves_all_replicas_alike(n, (k - 1) as nat);
        lemma_push(earlier, add);
        lemma_row_push(earlier, add);
        lemma_row_merges(earlier.push(add), op, to);
        assert forall|r: int| 0 <= r < n implies #[trigger] held(growing(n, k), r) == Set::new(
            |o: int| 0 <= o < k - 1,
        ) by {
            assert(to[r] == r);
            assert(held(growing(n, k), r) =~= Set::new(|o: int| 0 <= o < k - 1));
        }
        assert forall|r: int| 0 <= r < n implies #[trigger] row(growing(n, k), r) == filled(k) by {
            assert(to[r] == r);
            assert(row(earlier, r) == filled((k - 1) as nat));
        }
    }
}

/// The first rows.
pub proof fn lemma_filled()
    ensures
        filled(3) == (Row { leaves: seq![Some(0int), Some(1), Some(2), None], next: 3 }),
        filled(4) == (Row { leaves: seq![Some(0int), Some(1), Some(2), Some(3)], next: 4 }),
        filled(3).wf(),
        filled(4).wf(),
{
    reveal_with_fuel(filled, 5);
    assert(!seated(filled(1), 1));
    assert(filled(2) =~= (Row { leaves: seq![Some(0int), Some(1)], next: 2 }));
    assert(!seated(filled(2), 2));
    assert(filled(3) =~= (Row { leaves: seq![Some(0int), Some(1), Some(2), None], next: 3 }));
    assert(!seated(filled(3), 3));
    assert(filled(4) =~= (Row { leaves: seq![Some(0int), Some(1), Some(2), Some(3)], next: 4 }));
}

} // verus!
