//! A model of how a tree keeps its leaves, and what that does to concurrent
//! changes.
//!
//! In the model the members sit in a row of leaves. An add takes the next free
//! leaf, and the row doubles when it is full. A removal is refused to the last
//! member; otherwise it blanks the leaf of the member and then gives back the
//! blank leaves at the end of the row, so that a later add takes them again.
//! Nothing here is proved of any one implementation of a tree.

use vstd::prelude::*;

verus! {

/// A row of leaves and the leaf that the next add takes.
#[verifier::ext_equal]
pub struct Row {
    pub leaves: Seq<Option<int>>,
    pub next: int,
}

/// The leaf of a member.
pub open spec fn seat(row: Row, member: int) -> int {
    choose|i: int| 0 <= i < row.leaves.len() && #[trigger] row.leaves[i] == Some(member)
}

/// Who has a leaf.
pub open spec fn seated(row: Row, member: int) -> bool {
    exists|i: int| 0 <= i < row.leaves.len() && #[trigger] row.leaves[i] == Some(member)
}

/// The row with only the founder.
pub open spec fn founded() -> Row {
    Row { leaves: seq![Some(0)], next: 1 }
}

/// The end of the row without the blank leaves that close it.
pub open spec fn trimmed(leaves: Seq<Option<int>>, next: int) -> int
    decreases next,
{
    if 0 < next <= leaves.len() && leaves[next - 1] is None {
        trimmed(leaves, next - 1)
    } else {
        next
    }
}

/// The row after `member` was added. Whoever has a leaf keeps it and gets no
/// other.
pub open spec fn pushed(row: Row, member: int) -> Row {
    if seated(row, member) {
        row
    } else {
        let leaves = if row.next == row.leaves.len() {
            row.leaves + Seq::new(row.leaves.len(), |i: int| None)
        } else {
            row.leaves
        };
        Row { leaves: leaves.update(row.next, Some(member)), next: row.next + 1 }
    }
}

/// Only one leaf is taken.
#[verifier::opaque]
pub open spec fn lone(row: Row) -> bool {
    exists|m: int|
        seated(row, m) && forall|o: int| #[trigger] seated(row, o) ==> o == m
}

/// The row after `member` was removed, or nothing where the removal is refused.
/// Without a leaf of its own a member leaves the row as it is.
pub open spec fn removed(row: Row, member: int) -> Option<Row> {
    if lone(row) {
        None
    } else if !seated(row, member) {
        Some(row)
    } else {
        let leaves = row.leaves.update(seat(row, member), None);
        Some(Row { leaves, next: trimmed(leaves, row.next) })
    }
}

impl Row {
    /// Every member has one leaf, the leaves from `next` on are blank, and the
    /// one before is not.
    pub open spec fn wf(self) -> bool {
        &&& 0 < self.next <= self.leaves.len()
        &&& self.leaves[self.next - 1] is Some
        &&& forall|i: int|
            self.next <= i < self.leaves.len() ==> (#[trigger] self.leaves[i]) is None
        &&& forall|i: int, j: int|
            0 <= i < j < self.leaves.len() && self.leaves[i] is Some ==> #[trigger] self.leaves[i]
                != #[trigger] self.leaves[j]
    }
}

/// A member has no other leaf than its own.
pub proof fn lemma_seat(row: Row, i: int)
    requires
        row.wf(),
        0 <= i < row.leaves.len(),
        row.leaves[i] is Some,
    ensures
        seated(row, row.leaves[i]->0),
        seat(row, row.leaves[i]->0) == i,
        i < row.next,
{
    let m = row.leaves[i]->0;
    assert(row.leaves[i] == Some(m));
    let s = seat(row, m);
    assert(row.leaves[s] == Some(m));
}

/// Trimming stops behind the last leaf that is taken.
pub proof fn lemma_trimmed(leaves: Seq<Option<int>>, next: int)
    requires
        0 <= next <= leaves.len(),
    ensures
        0 <= trimmed(leaves, next) <= next,
        trimmed(leaves, next) > 0 ==> leaves[trimmed(leaves, next) - 1] is Some,
        forall|i: int| trimmed(leaves, next) <= i < next ==> (#[trigger] leaves[i]) is None,
    decreases next,
{
    if 0 < next && leaves[next - 1] is None {
        lemma_trimmed(leaves, next - 1);
    }
}

/// An add gives the new member the next leaf and leaves everybody else where
/// they were.
pub proof fn law_add_takes_the_next_leaf(row: Row, member: int)
    requires
        row.wf(),
        !seated(row, member),
    ensures
        pushed(row, member).wf(),
        pushed(row, member).next == row.next + 1,
        pushed(row, member).leaves.len() == if row.next == row.leaves.len() {
            2 * row.leaves.len()
        } else {
            row.leaves.len()
        },
        seated(pushed(row, member), member),
        seat(pushed(row, member), member) == row.next,
        forall|m: int|
            m != member ==> #[trigger] seated(pushed(row, member), m) == seated(row, m),
        forall|m: int|
            m != member && seated(row, m) ==> #[trigger] seat(pushed(row, member), m) == seat(
                row,
                m,
            ),
{
    let p = pushed(row, member);
    assert forall|i: int| 0 <= i < row.next implies #[trigger] p.leaves[i] == row.leaves[i] by {}
    assert forall|i: int| row.next < i < p.leaves.len() implies (#[trigger] p.leaves[i]) is None by {}
    assert(p.leaves[row.next] == Some(member));
    assert forall|i: int, j: int|
        0 <= i < j < p.leaves.len() && p.leaves[i] is Some implies #[trigger] p.leaves[i]
        != #[trigger] p.leaves[j] by {
        if i < row.next && j == row.next {
            assert(row.leaves[i] != Some(member));
        }
    }
    lemma_seat(p, row.next);
    assert forall|m: int| m != member implies #[trigger] seated(p, m) == seated(row, m) by {
        if seated(row, m) {
            let i = seat(row, m);
            assert(p.leaves[i] == Some(m));
        }
        if seated(p, m) {
            let i = seat(p, m);
            assert(row.leaves[i] == Some(m));
        }
    }
    assert forall|m: int| m != member && seated(row, m) implies #[trigger] seat(p, m) == seat(
        row,
        m,
    ) by {
        let i = seat(row, m);
        assert(p.leaves[i] == Some(m));
        lemma_seat(p, i);
    }
}

/// Blanking one of several leaves and trimming the row keeps it in order.
proof fn lemma_blanked_wf(row: Row, s: int, other: int, r: Row)
    requires
        row.wf(),
        0 <= s < row.leaves.len(),
        0 <= other < row.leaves.len(),
        other != s,
        row.leaves[other] is Some,
        r.leaves == row.leaves.update(s, None),
        r.next == trimmed(r.leaves, row.next),
    ensures
        r.wf(),
{
    lemma_trimmed(r.leaves, row.next);
    lemma_seat(row, other);
    assert(r.leaves[other] == row.leaves[other]);
    assert(r.next > other);
    assert forall|i: int| r.next <= i < r.leaves.len() implies (#[trigger] r.leaves[i]) is None by {
        if i >= row.next {
            assert(row.leaves[i] is None);
        }
    }
    assert forall|i: int, j: int|
        0 <= i < j < r.leaves.len() && r.leaves[i] is Some implies #[trigger] r.leaves[i]
        != #[trigger] r.leaves[j] by {
        assert(row.leaves[i] != row.leaves[j]);
    }
}

/// Blanking a leaf unseats whoever had it and nobody else.
proof fn lemma_blanked_seats(row: Row, s: int, r: Row, m: int)
    requires
        row.wf(),
        r.wf(),
        0 <= s < row.leaves.len(),
        r.leaves == row.leaves.update(s, None),
    ensures
        row.leaves[s] == Some(m) ==> !seated(r, m),
        row.leaves[s] != Some(m) ==> seated(r, m) == seated(row, m),
        row.leaves[s] != Some(m) && seated(row, m) ==> seat(r, m) == seat(row, m),
{
    if seated(r, m) {
        let i = seat(r, m);
        assert(r.leaves[i] == Some(m));
        assert(i != s);
        assert(row.leaves[i] == Some(m));
        lemma_seat(row, i);
        if row.leaves[s] == Some(m) {
            lemma_seat(row, s);
        }
    }
    if row.leaves[s] != Some(m) && seated(row, m) {
        let i = seat(row, m);
        assert(row.leaves[i] == Some(m));
        assert(r.leaves[i] == Some(m));
        lemma_seat(r, i);
    }
}

/// A removal that is not refused unseats the member and nobody else, and moves
/// nobody.
pub proof fn law_removal_unseats_only_the_member(row: Row, member: int)
    requires
        row.wf(),
        seated(row, member),
        !lone(row),
    ensures
        removed(row, member) is Some,
        removed(row, member)->0.wf(),
        removed(row, member)->0.leaves.len() == row.leaves.len(),
        !seated(removed(row, member)->0, member),
        forall|m: int|
            m != member ==> #[trigger] seated(removed(row, member)->0, m) == seated(row, m),
        forall|m: int|
            m != member && seated(row, m) ==> #[trigger] seat(removed(row, member)->0, m) == seat(
                row,
                m,
            ),
{
    let s = seat(row, member);
    let r = removed(row, member)->0;
    assert(row.leaves[s] == Some(member));
    let other = choose|o: int| #[trigger] seated(row, o) && o != member;
    assert(seated(row, other) && other != member) by {
        reveal(lone);
    }
    assert(row.leaves[seat(row, other)] == Some(other));
    lemma_blanked_wf(row, s, seat(row, other), r);
    lemma_blanked_seats(row, s, r, member);
    assert forall|m: int| m != member implies #[trigger] seated(r, m) == seated(row, m) by {
        lemma_blanked_seats(row, s, r, m);
    }
    assert forall|m: int| m != member && seated(row, m) implies #[trigger] seat(r, m) == seat(
        row,
        m,
    ) by {
        lemma_blanked_seats(row, s, r, m);
    }
}

/// An add that follows the removal of the trailing member takes a leaf at or
/// before the one that was freed, and exactly that one where the leaf before it
/// is taken. A replica that has not got the removal places the same add higher.
pub proof fn law_freed_trailing_leaf_is_taken_again(row: Row, trailing: int, new: int)
    requires
        row.wf(),
        seated(row, trailing),
        seat(row, trailing) == row.next - 1,
        !lone(row),
        !seated(row, new),
    ensures
        removed(row, trailing) is Some,
        seat(pushed(removed(row, trailing)->0, new), new) <= seat(row, trailing),
        seat(row, trailing) < seat(pushed(row, new), new),
        row.next >= 2 && row.leaves[row.next - 2] is Some ==> seat(
            pushed(removed(row, trailing)->0, new),
            new,
        ) == seat(row, trailing),
{
    assert(new != trailing);
    law_removal_unseats_only_the_member(row, trailing);
    let r = removed(row, trailing)->0;
    assert(seated(r, new) == seated(row, new));
    law_add_takes_the_next_leaf(r, new);
    law_add_takes_the_next_leaf(row, new);
    assert(r.leaves[row.next - 1] is None);
    lemma_trimmed(r.leaves, row.next - 1);
    if row.next >= 2 && row.leaves[row.next - 2] is Some {
        assert(r.leaves[row.next - 2] == row.leaves[row.next - 2]);
    }
}

/// The row after removing members in order, or nothing where a removal was
/// refused.
pub open spec fn walked(row: Row, order: Seq<int>) -> Option<Row>
    decreases order.len(),
{
    if order.len() == 0 {
        Some(row)
    } else {
        match walked(row, order.drop_last()) {
            Some(r) => removed(r, order.last()),
            None => None,
        }
    }
}

/// What is left of an order after one more member has gone.
proof fn lemma_rest(order: Seq<int>, k: int, m: int)
    requires
        order.no_duplicates(),
        0 < k <= order.len(),
    ensures
        order.skip(k).contains(m) <==> order.skip(k - 1).contains(m) && m != order[k - 1],
{
    let rest = order.skip(k - 1);
    let after = order.skip(k);
    if after.contains(m) {
        let i = choose|i: int| 0 <= i < after.len() && after[i] == m;
        assert(rest[i + 1] == m);
        assert(order[k + i] == m);
    }
    if rest.contains(m) && m != order[k - 1] {
        let i = choose|i: int| 0 <= i < rest.len() && rest[i] == m;
        assert(after[i - 1] == m);
    }
}

/// Two members are not alone.
pub proof fn lemma_not_lone(row: Row, a: int, b: int)
    requires
        seated(row, a),
        seated(row, b),
        a != b,
    ensures
        !lone(row),
{
    reveal(lone);
}

/// As long as one member is left to go, removals are not refused.
proof fn lemma_walked(row: Row, order: Seq<int>, k: int)
    requires
        row.wf(),
        order.no_duplicates(),
        forall|m: int| #[trigger] seated(row, m) <==> order.contains(m),
        0 <= k < order.len(),
    ensures
        walked(row, order.take(k)) matches Some(r) && r.wf() && forall|m: int| #[trigger]
            seated(r, m) <==> order.skip(k).contains(m),
    decreases k,
{
    if k == 0 {
        assert(order.skip(0) == order);
    } else {
        lemma_walked(row, order, k - 1);
        let r = walked(row, order.take(k - 1))->0;
        let out = order[k - 1];
        assert(order.take(k).drop_last() == order.take(k - 1));
        assert(order.take(k).last() == out);
        assert(order.skip(k - 1)[0] == out);
        assert(order.skip(k - 1)[1] == order[k]);
        assert(seated(r, out) && seated(r, order[k]));
        lemma_not_lone(r, out, order[k]);
        law_removal_unseats_only_the_member(r, out);
        let after = removed(r, out)->0;
        assert(walked(row, order.take(k)) == Some(after));
        assert forall|m: int| #[trigger] seated(after, m) <==> order.skip(k).contains(m) by {
            lemma_rest(order, k, m);
            if m != out {
                assert(seated(after, m) == seated(r, m));
            }
        }
    }
}

/// Whatever the order, removing all members one after the other walks the row
/// down to one member, and then the last removal is refused.
pub proof fn law_removing_everyone_is_refused_at_the_last(row: Row, order: Seq<int>)
    requires
        row.wf(),
        order.no_duplicates(),
        forall|m: int| #[trigger] seated(row, m) <==> order.contains(m),
    ensures
        order.len() > 0,
        walked(row, order.drop_last()) is Some,
        lone(walked(row, order.drop_last())->0),
        seated(walked(row, order.drop_last())->0, order.last()),
        walked(row, order) is None,
{
    lemma_seat(row, row.next - 1);
    assert(order.contains(row.leaves[row.next - 1]->0));
    let k = order.len() - 1;
    lemma_walked(row, order, k);
    assert(order.take(k) == order.drop_last());
    let r = walked(row, order.drop_last())->0;
    let last = order.last();
    assert(order.skip(k)[0] == last);
    assert(seated(r, last));
    assert forall|o: int| #[trigger] seated(r, o) implies o == last by {
        let i = choose|i: int| 0 <= i < order.skip(k).len() && order.skip(k)[i] == o;
        assert(i == 0);
    }
    assert(lone(r)) by {
        reveal(lone);
    }
}

} // verus!
