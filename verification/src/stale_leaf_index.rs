//! The leaf index that a removal records must not be used unchecked against the
//! merged tree.

use crate::group::{
    among, authored, concurrent, context, everyone, founding, held, lemma_push, merges, owners,
    Action, Group, Site, Step,
};
use crate::keys::{blocks, drawn, seed_rng, seeded_blocks, share, Share};
use crate::leaves::{
    law_add_takes_the_next_leaf, lemma_not_lone, lemma_seat, pushed, removed, seat, seated,
    trimmed, Row,
};
use crate::rows::{
    author_row, content, filled, law_founding_leaves_all_replicas_alike, lemma_filled,
    lemma_row_merges, lemma_row_push, row,
};
use crate::run::{
    fitting, gone_through, law_run_reaches_its_end_exactly_when_its_calls_go_through,
    lemma_founding_is_strict, lemma_no_probe_errors, replayed, Progress, Seen,
};
use crate::sweep::{lemma_push_contains, noted};
use crate::text::{
    before, contains, decimal, decimal_text, first_line, first_line_of, hex, hex_text,
    law_before_is_a_total_order, law_before_is_transitive, occurs, place, Place,
};
use rand::rngs::StdRng;
use vstd::prelude::*;

verus! {

/// The first seed of the sweep.
pub const SEED_BASE: u64 = 0x5ca1_e000;

/// How many seeds the sweep covers.
pub const SEEDS: u64 = 64;

/// `author` removes `member`.
pub open spec fn removal(author: usize, member: usize) -> Step {
    Step { action: Action::Remove { author, member }, site: Site::Removing }
}

/// `author` adds `member`.
pub open spec fn addition(author: usize, member: usize) -> Step {
    Step { action: Action::Add { author, member }, site: Site::Adding }
}

/// The calls of the scenario. Of four founders `a` to `d`, with `e` and `f` yet
/// to join: `a` removes `c`, which reaches everyone. Then `a` removes `d` while
/// `b` adds `e`; the removal reaches `a` alone, the add `a` and `b`. Unaware of
/// the removal, `b` removes `e` again while `a` adds `f`. `b`'s removal reaches
/// `a`, and `a` replays by replacing its key.
pub open spec fn plan() -> Seq<Step> {
    ((((founding(4).push(removal(0, 2)) + merges(3, everyone(4))).push(removal(0, 3)).push(
        addition(1, 4),
    ) + merges(4, seq![0usize]) + merges(5, seq![0usize, 1])).push(removal(1, 4)).push(
        addition(0, 5),
    )) + merges(6, seq![0usize])).push(
        Step { action: Action::Update { author: 0 }, site: Site::Replay },
    )
}

/// The recorded index is stale: `b` records leaf 4 of its row of eight when it
/// removes `e`, while a row in which the removal of `d` was applied first has
/// shrunk to its first two leaves, seats `e` at leaf 2 and has no leaf 4.
pub open spec fn outgrown(steps: Seq<Step>) -> bool {
    let mine = author_row(steps, 6);
    let theirs = author_row(steps, 4);
    &&& seated(mine, 4) && seat(mine, 4) == 4 && mine.leaves.len() == 8
    &&& removed(theirs, 3) matches Some(after) && {
        &&& after.next == 2
        &&& seat(pushed(after, 4), 4) == 2
        &&& pushed(after, 4).leaves.len() == 4
    }
}

/// Four leaves, the third of them blank.
pub open spec fn holed() -> Row {
    Row { leaves: seq![Some(0int), Some(1), None, Some(3)], next: 4 }
}

/// Four leaves, the last two of them given back.
pub open spec fn shrunk() -> Row {
    Row { leaves: seq![Some(0int), Some(1), None, None], next: 2 }
}

/// Removing the third of four members leaves a hole.
proof fn lemma_holed()
    ensures
        removed(filled(4), 2) == Some(holed()),
        holed().wf(),
{
    let full = filled(4);
    lemma_filled();
    lemma_seat(full, 0);
    lemma_seat(full, 1);
    lemma_seat(full, 2);
    lemma_not_lone(full, 0, 1);
    assert(full.leaves.update(2, None) =~= holed().leaves);
    assert(trimmed(holed().leaves, 4) == 4);
}

/// Removing the trailing member then gives back the hole too.
proof fn lemma_shrunk()
    ensures
        removed(holed(), 3) == Some(shrunk()),
        shrunk().wf(),
{
    lemma_holed();
    lemma_seat(holed(), 0);
    lemma_seat(holed(), 1);
    lemma_seat(holed(), 3);
    lemma_not_lone(holed(), 0, 1);
    assert(holed().leaves.update(3, None) =~= shrunk().leaves);
    assert(trimmed(shrunk().leaves, 2) == 2);
    assert(trimmed(shrunk().leaves, 3) == 2);
    assert(trimmed(shrunk().leaves, 4) == 2);
}

/// The rows in which `a` removes `d` and `b` removes `e`.
proof fn lemma_plan_rows()
    ensures
        author_row(plan(), 4) == holed(),
        author_row(plan(), 6) == pushed(holed(), 4),
{
    let steps0 = founding(4);
    let steps1 = steps0.push(removal(0, 2));
    let steps2 = steps1 + merges(3, everyone(4));
    let steps3 = steps2.push(removal(0, 3));
    let steps4 = steps3.push(addition(1, 4));
    let steps5 = steps4 + merges(4, seq![0usize]);
    let steps6 = steps5 + merges(5, seq![0usize, 1]);
    let steps7 = steps6.push(removal(1, 4));
    let steps8 = steps7.push(addition(0, 5));
    let steps9 = steps8 + merges(6, seq![0usize]);
    let replay = Step { action: Action::Update { author: 0 }, site: Site::Replay };
    lemma_holed();
    assert(authored(steps1) == 4 && row(steps1, 0) == holed() && held(steps1, 0).contains(3)
        && row(steps1, 1) == filled(4) && !held(steps1, 1).contains(3) && content(steps1, 3)
        == removal(0, 2).action) by {
        law_founding_leaves_all_replicas_alike(4, 4);
        lemma_push(steps0, removal(0, 2));
        lemma_row_push(steps0, removal(0, 2));
    }
    assert(authored(steps2) == 4 && row(steps2, 0) == holed() && row(steps2, 1) == holed()) by {
        lemma_row_merges(steps1, 3, everyone(4));
        assert(everyone(4)[1] == 1);
        assert(among(everyone(4), 1));
    }
    assert(authored(steps3) == 5 && row(steps3, 1) == holed() && author_row(steps3, 4)
        == holed()) by {
        lemma_push(steps2, removal(0, 3));
        lemma_row_push(steps2, removal(0, 3));
    }
    assert(authored(steps4) == 6 && row(steps4, 1) == pushed(holed(), 4) && held(
        steps4,
        1,
    ).contains(5) && author_row(steps4, 4) == holed()) by {
        lemma_push(steps3, addition(1, 4));
        lemma_row_push(steps3, addition(1, 4));
    }
    assert(authored(steps5) == 6 && row(steps5, 1) == pushed(holed(), 4) && held(
        steps5,
        1,
    ).contains(5) && author_row(steps5, 4) == holed()) by {
        lemma_row_merges(steps4, 4, seq![0usize]);
        assert(!among(seq![0usize], 1));
    }
    assert(authored(steps6) == 6 && row(steps6, 1) == pushed(holed(), 4) && author_row(steps6, 4)
        == holed()) by {
        lemma_row_merges(steps5, 5, seq![0usize, 1]);
    }
    assert(authored(steps7) == 7 && author_row(steps7, 6) == pushed(holed(), 4) && author_row(
        steps7,
        4,
    ) == holed()) by {
        lemma_push(steps6, removal(1, 4));
        lemma_row_push(steps6, removal(1, 4));
    }
    assert(author_row(steps8, 6) == pushed(holed(), 4) && author_row(steps8, 4) == holed()) by {
        lemma_row_push(steps7, addition(0, 5));
    }
    assert(author_row(steps9, 6) == pushed(holed(), 4) && author_row(steps9, 4) == holed()) by {
        lemma_row_merges(steps8, 6, seq![0usize]);
    }
    assert(author_row(plan(), 6) == pushed(holed(), 4) && author_row(plan(), 4) == holed()) by {
        lemma_row_push(steps9, replay);
    }
}

proof fn lemma_plan_outgrown()
    ensures
        outgrown(plan()),
{
    lemma_plan_rows();
    lemma_holed();
    lemma_shrunk();
    assert(!seated(holed(), 4));
    assert(!seated(shrunk(), 4));
    law_add_takes_the_next_leaf(holed(), 4);
    law_add_takes_the_next_leaf(shrunk(), 4);
}

/// The calls behind the founding, one by one. The removal of `c` reaches all
/// four replicas. The removal of `d` never reaches `b`, and `b`'s removal of `e`
/// reaches nobody but `a`, which replays last of all.
pub proof fn law_calls_of_the_scenario()
    ensures
        plan() == founding(4) + seq![
            Step { action: Action::Remove { author: 0, member: 2 }, site: Site::Removing },
            Step { action: Action::Merge { replica: 0, op: 3 }, site: Site::Delivery },
            Step { action: Action::Merge { replica: 1, op: 3 }, site: Site::Delivery },
            Step { action: Action::Merge { replica: 2, op: 3 }, site: Site::Delivery },
            Step { action: Action::Merge { replica: 3, op: 3 }, site: Site::Delivery },
            Step { action: Action::Remove { author: 0, member: 3 }, site: Site::Removing },
            Step { action: Action::Add { author: 1, member: 4 }, site: Site::Adding },
            Step { action: Action::Merge { replica: 0, op: 4 }, site: Site::Delivery },
            Step { action: Action::Merge { replica: 0, op: 5 }, site: Site::Delivery },
            Step { action: Action::Merge { replica: 1, op: 5 }, site: Site::Delivery },
            Step { action: Action::Remove { author: 1, member: 4 }, site: Site::Removing },
            Step { action: Action::Add { author: 0, member: 5 }, site: Site::Adding },
            Step { action: Action::Merge { replica: 0, op: 6 }, site: Site::Delivery },
            Step { action: Action::Update { author: 0 }, site: Site::Replay },
        ],
{
    assert(everyone(4) =~= seq![0usize, 1, 2, 3]);
}

/// A scenario ready to be run: the group with its plan, the key that `a` moves
/// to when it replays, and the generator that the replay goes on drawing from.
pub struct Scenario {
    pub group: Group,
    pub fresh: Share,
    pub rng: StdRng,
}

/// Prepares the scenario for a seed.
pub fn scenario(seed: u64) -> (s: Scenario)
    ensures
        s.group.wf(),
        s.group.replicas == 4,
        s.group.members@.len() == 6,
        s.group.drawn_from(seeded_blocks(seed)),
        s.fresh.of(seeded_blocks(seed)[13]),
        drawn(s.rng, seeded_blocks(seed), 14),
        s.group.steps@ == plan(),
        owners(s.group.steps@) == everyone(4),
        // The removal of `d` and the add of `e` do not know of each other, ...
        concurrent(s.group.steps@, 4, 5),
        // ... nor do the removal of `e` and the add of `f`; ...
        concurrent(s.group.steps@, 6, 7),
        // ... `b` removes `e` knowing its add but not the removal of `d`, ...
        context(s.group.steps@, 6) == Set::new(|o: int| 0 <= o < 6 && o != 4),
        // ... and in the end `a` holds everything.
        held(s.group.steps@, 0) == Set::new(|o: int| 0 <= o < 8),
        // The leaf that `b` records is beyond the row that the changes leave.
        outgrown(s.group.steps@),
{
    let ghost all = seeded_blocks(seed);
    let mut rng = seed_rng(seed);
    let mut group = Group::found(4, &mut rng);
    let remove_c = group.author(Action::Remove { author: 0, member: 2 }, Site::Removing);
    group.broadcast(remove_c);
    let remove_d = group.author(Action::Remove { author: 0, member: 3 }, Site::Removing);
    assert(group.drawn_from(all));
    let e = group.enlist(&mut rng);
    let add_e = group.author(Action::Add { author: 1, member: e }, Site::Adding);
    let only_a: [usize; 1] = [0];
    let a_and_b: [usize; 2] = [0, 1];
    group.deliver(remove_d, only_a.as_slice());
    group.deliver(add_e, a_and_b.as_slice());
    let remove_e = group.author(Action::Remove { author: 1, member: e }, Site::Removing);
    assert(group.drawn_from(all));
    let f = group.enlist(&mut rng);
    let _add_f = group.author(Action::Add { author: 0, member: f }, Site::Adding);
    group.deliver(remove_e, only_a.as_slice());
    let ghost mid = blocks(rng);
    let fresh = share(&mut rng);
    proof {
        lemma_push(
            group.steps@,
            Step { action: Action::Update { author: 0 }, site: Site::Replay },
        );
    }
    group.call(Action::Update { author: 0 }, Site::Replay);
    proof {
        assert(only_a@ == seq![0usize]);
        assert(a_and_b@ == seq![0usize, 1]);
        assert(mid[0] == all[13]);
        assert forall|k: nat| #[trigger] blocks(rng)[k] == all[k + 14] by {
            assert(blocks(rng)[k] == mid[k + 1]);
            assert(mid[k + 1] == all[k + 1 + 13]);
        }
        assert(group.drawn_from(all));
        lemma_plan_outgrown();
    }
    Scenario { group, fresh, rng }
}

/// Where every call before the replay goes through, the run comes to its end
/// without a panic, whatever the replay itself returns: that it rejects the index
/// is as good as that it resolves it. Where one of them does not, the run ends in
/// a panic.
pub proof fn law_run_reaches_its_end_whatever_the_replay_returns(replies: Seq<Seen>)
    requires
        replies.len() == plan().len(),
    ensures
        (forall|i: int| 0 <= i < replies.len() - 1 ==> (#[trigger] replies[i]) is Done)
            ==> replayed(plan(), replies) == (Progress {
            at: plan().len() as int,
            recorded: Seq::empty(),
            ending: None,
        }),
        fitting(plan(), replies) && !(forall|i: int|
            0 <= i < replies.len() - 1 ==> (#[trigger] replies[i]) is Done) ==> (replayed(
            plan(),
            replies,
        ).ending matches Some(j) && j is Panic),
{
    let steps = plan();
    let last = steps.len() - 1;
    assert(forall|i: int| 0 <= i < last ==> (#[trigger] steps[i]).site.strict()) by {
        lemma_founding_is_strict(4, 4);
    }
    assert(steps[last].site is Replay);
    assert forall|i: int| 0 <= i < steps.len() implies (#[trigger] steps[i]).site.strict()
        || steps[i].site.lenient() by {
        assert(i < last || i == last);
    }
    law_run_reaches_its_end_exactly_when_its_calls_go_through(steps, replies);
    lemma_no_probe_errors(steps, replies);
    if gone_through(steps, replies) {
        assert forall|i: int| 0 <= i < last implies (#[trigger] replies[i]) is Done by {
            assert(steps[i].site.strict());
        }
    } else {
        let i = choose|i: int|
            0 <= i < replies.len() && (#[trigger] steps[i]).site.strict() && !(replies[i] is Done);
        assert(i < last);
        assert(!(replies[i] is Done));
    }
}

/// What a panic tells.
#[derive(Clone, Copy, PartialEq, Eq, Debug)]
pub enum Class {
    /// The merge indexed past the leaves.
    Stale,
    /// The one known co-located fault: the assertion of a blank leaf.
    Family,
    /// Anything else.
    Unrelated,
}

/// The class of a panic whose first line is `line`. An index out of bounds goes
/// before the assertion.
pub open spec fn class_of(line: Seq<char>) -> Class {
    if occurs("Leaf index should be in bounds"@, line) || occurs("index out of bounds"@, line) {
        Class::Stale
    } else if occurs("self.leaf(leaf_idx).is_none()"@, line) {
        Class::Family
    } else {
        Class::Unrelated
    }
}

/// Tells the class of a panic from the first line of its message.
pub fn classify(line: &str) -> (r: Class)
    ensures
        r == class_of(line@),
        r is Stale <==> occurs("Leaf index should be in bounds"@, line@) || occurs(
            "index out of bounds"@,
            line@,
        ),
        r is Family <==> occurs("self.leaf(leaf_idx).is_none()"@, line@) && !occurs(
            "Leaf index should be in bounds"@,
            line@,
        ) && !occurs("index out of bounds"@, line@),
        r is Unrelated <==> !occurs("Leaf index should be in bounds"@, line@) && !occurs(
            "index out of bounds"@,
            line@,
        ) && !occurs("self.leaf(leaf_idx).is_none()"@, line@),
{
    if contains(line, "Leaf index should be in bounds") || contains(line, "index out of bounds") {
        Class::Stale
    } else if contains(line, "self.leaf(leaf_idx).is_none()") {
        Class::Family
    } else {
        Class::Unrelated
    }
}

/// Texts in ascending order, each with how often it was counted.
pub type Census = Seq<(Seq<char>, nat)>;

/// One more `key`: its count goes up, or it enters at its place.
pub open spec fn bumped(c: Census, key: Seq<char>) -> Census
    decreases c.len(),
{
    if c.len() == 0 || before(key, c[0].0) {
        seq![(key, 1nat)] + c
    } else if c[0].0 == key {
        c.update(0, (key, c[0].1 + 1))
    } else {
        seq![c[0]] + bumped(c.drop_first(), key)
    }
}

/// The census of some texts.
pub open spec fn census(texts: Seq<Seq<char>>) -> Census
    decreases texts.len(),
{
    if texts.len() == 0 {
        Seq::empty()
    } else {
        bumped(census(texts.drop_last()), texts.last())
    }
}

/// Counted texts, as characters.
pub open spec fn census_view(v: Seq<(String, usize)>) -> Census {
    v.map_values(|e: (String, usize)| (e.0@, e.1 as nat))
}

/// Texts come strictly one after the other.
pub open spec fn ascending(c: Census) -> bool {
    forall|i: int, j: int|
        0 <= i < j < c.len() ==> before((#[trigger] c[i]).0, (#[trigger] c[j]).0)
}

/// `bumped`, seen from the place at which the key stands or enters.
proof fn lemma_bumped_at(c: Census, key: Seq<char>, k: int)
    requires
        0 <= k <= c.len(),
        forall|i: int| 0 <= i < k ==> before((#[trigger] c[i]).0, key),
    ensures
        k < c.len() && c[k].0 == key ==> bumped(c, key) == c.update(k, (key, c[k].1 + 1)),
        k == c.len() || before(key, c[k].0) ==> bumped(c, key) == c.insert(k, (key, 1nat)),
    decreases k,
{
    if k == 0 {
        assert(seq![(key, 1nat)] + c == c.insert(0, (key, 1nat)));
        if c.len() > 0 {
            law_before_is_a_total_order(key, c[0].0);
        }
    } else {
        let rest = c.drop_first();
        law_before_is_a_total_order(c[0].0, key);
        assert(before(c[0].0, key));
        assert forall|i: int| 0 <= i < k - 1 implies before((#[trigger] rest[i]).0, key) by {
            assert(rest[i] == c[i + 1]);
        }
        lemma_bumped_at(rest, key, k - 1);
        if k < c.len() {
            assert(rest[k - 1] == c[k]);
            assert(seq![c[0]] + rest.update(k - 1, (key, c[k].1 + 1)) == c.update(
                k,
                (key, c[k].1 + 1),
            ));
        }
        assert(seq![c[0]] + rest.insert(k - 1, (key, 1nat)) == c.insert(k, (key, 1nat)));
    }
}

/// Counts one more `key`.
fn bump(counts: &mut Vec<(String, usize)>, key: String)
    requires
        forall|i: int| 0 <= i < old(counts)@.len() ==> (#[trigger] old(counts)@[i]).1 < usize::MAX,
    ensures
        census_view(final(counts)@) == bumped(census_view(old(counts)@), key@),
{
    let ghost c = census_view(counts@);
    let mut k: usize = 0;
    while k < counts.len()
        invariant
            k <= counts@.len(),
            c == census_view(counts@),
            *counts == *old(counts),
            forall|i: int| 0 <= i < old(counts)@.len() ==> (#[trigger] old(counts)@[i]).1 < usize::MAX,
            forall|i: int| 0 <= i < k ==> before((#[trigger] c[i]).0, key@),
        decreases counts@.len() - k,
    {
        assert(c[k as int].0 == counts@[k as int].0@);
        match place(counts[k].0.as_str(), key.as_str()) {
            Place::Before => {
                k += 1;
            },
            Place::Same => {
                proof {
                    lemma_bumped_at(c, key@, k as int);
                }
                let n = counts[k].1;
                assert(old(counts)@[k as int].1 < usize::MAX);
                counts.set(k, (key, n + 1));
                assert(census_view(counts@) == c.update(k as int, (key@, c[k as int].1 + 1)));
                return ;
            },
            Place::After => {
                proof {
                    lemma_bumped_at(c, key@, k as int);
                }
                let ghost text = key@;
                counts.insert(k, (key, 1));
                assert(census_view(counts@) == c.insert(k as int, (text, 1nat)));
                return ;
            },
        }
    }
    proof {
        lemma_bumped_at(c, key@, k as int);
    }
    let ghost text = key@;
    counts.push((key, 1));
    assert(census_view(counts@) == c.insert(k as int, (text, 1nat)));
}

/// How often `key` is among the texts.
pub open spec fn times(texts: Seq<Seq<char>>, key: Seq<char>) -> nat
    decreases texts.len(),
{
    if texts.len() == 0 {
        0
    } else if texts.last() == key {
        times(texts.drop_last(), key) + 1
    } else {
        times(texts.drop_last(), key)
    }
}

/// What a census says of `key`.
pub open spec fn counted(c: Census, key: Seq<char>) -> nat
    decreases c.len(),
{
    if c.len() == 0 {
        0
    } else if c[0].0 == key {
        c[0].1
    } else {
        counted(c.drop_first(), key)
    }
}

/// A text before all of an ascending census is not in it.
proof fn lemma_counted_before(c: Census, key: Seq<char>)
    requires
        forall|i: int| 0 <= i < c.len() ==> before(key, (#[trigger] c[i]).0),
    ensures
        counted(c, key) == 0,
    decreases c.len(),
{
    if c.len() > 0 {
        assert(before(key, c[0].0));
        law_before_is_a_total_order(key, c[0].0);
        assert forall|i: int| 0 <= i < c.drop_first().len() implies before(
            key,
            (#[trigger] c.drop_first()[i]).0,
        ) by {
            assert(c.drop_first()[i] == c[i + 1]);
        }
        lemma_counted_before(c.drop_first(), key);
    }
}

/// `text` comes after `low`, where there is one.
pub open spec fn above(low: Option<Seq<char>>, text: Seq<char>) -> bool {
    low matches Some(l) ==> before(l, text)
}

/// Counting one more text keeps the order, stays above `low`, and adds one to
/// that text alone.
proof fn lemma_bumped(c: Census, text: Seq<char>, low: Option<Seq<char>>, key: Seq<char>)
    requires
        ascending(c),
        above(low, text),
        forall|i: int| 0 <= i < c.len() ==> above(low, (#[trigger] c[i]).0),
    ensures
        ascending(bumped(c, text)),
        forall|i: int|
            0 <= i < bumped(c, text).len() ==> above(low, (#[trigger] bumped(c, text)[i]).0),
        counted(bumped(c, text), key) == counted(c, key) + if key == text {
            1nat
        } else {
            0nat
        },
    decreases c.len(),
{
    let b = bumped(c, text);
    if c.len() == 0 || before(text, c[0].0) {
        assert forall|i: int| 0 <= i < c.len() implies before(text, (#[trigger] c[i]).0) by {
            if i > 0 {
                assert(before(c[0].0, c[i].0));
                law_before_is_transitive(text, c[0].0, c[i].0);
            }
        }
        lemma_counted_before(c, text);
        assert(b.drop_first() == c);
    } else if c[0].0 == text {
        assert(b.drop_first() == c.drop_first());
    } else {
        let rest = c.drop_first();
        law_before_is_a_total_order(text, c[0].0);
        assert forall|i: int, j: int| 0 <= i < j < rest.len() implies before(
            (#[trigger] rest[i]).0,
            (#[trigger] rest[j]).0,
        ) by {
            assert(rest[i] == c[i + 1] && rest[j] == c[j + 1]);
        }
        assert forall|i: int| 0 <= i < rest.len() implies above(
            Some(c[0].0),
            (#[trigger] rest[i]).0,
        ) by {
            assert(rest[i] == c[i + 1]);
        }
        lemma_bumped(rest, text, Some(c[0].0), key);
        let tail = bumped(rest, text);
        assert(b.drop_first() == tail);
        assert forall|i: int| 0 <= i < b.len() implies above(low, (#[trigger] b[i]).0) by {
            if i > 0 {
                assert(b[i] == tail[i - 1]);
                assert(above(low, c[0].0));
                if let Some(l) = low {
                    law_before_is_transitive(l, c[0].0, tail[i - 1].0);
                }
            }
        }
        assert forall|i: int, j: int| 0 <= i < j < b.len() implies before(
            (#[trigger] b[i]).0,
            (#[trigger] b[j]).0,
        ) by {
            assert(b[j] == tail[j - 1]);
            if i > 0 {
                assert(b[i] == tail[i - 1]);
            } else {
                assert(above(Some(c[0].0), tail[j - 1].0));
            }
        }
    }
}

/// A census lists its texts in strictly ascending order and says of every text
/// how often it was counted.
pub proof fn law_census_counts_every_text(texts: Seq<Seq<char>>, key: Seq<char>)
    ensures
        ascending(census(texts)),
        counted(census(texts), key) == times(texts, key),
    decreases texts.len(),
{
    if texts.len() > 0 {
        law_census_counts_every_text(texts.drop_last(), key);
        lemma_bumped(census(texts.drop_last()), texts.last(), None, key);
    }
}

/// No count is larger than the number of texts.
proof fn lemma_bumped_bounded(c: Census, text: Seq<char>, most: nat)
    requires
        forall|i: int| 0 <= i < c.len() ==> 0 < (#[trigger] c[i]).1 <= most,
    ensures
        forall|i: int|
            0 <= i < bumped(c, text).len() ==> 0 < (#[trigger] bumped(c, text)[i]).1 <= most + 1,
    decreases c.len(),
{
    if !(c.len() == 0 || before(text, c[0].0) || c[0].0 == text) {
        let rest = c.drop_first();
        assert forall|i: int| 0 <= i < rest.len() implies 0 < (#[trigger] rest[i]).1 <= most by {
            assert(rest[i] == c[i + 1]);
        }
        lemma_bumped_bounded(rest, text, most);
        let b = bumped(c, text);
        assert forall|i: int| 0 <= i < b.len() implies 0 < (#[trigger] b[i]).1 <= most + 1 by {
            if i > 0 {
                assert(b[i] == bumped(rest, text)[i - 1]);
            }
        }
    } else {
        let b = bumped(c, text);
        assert forall|i: int| 0 <= i < b.len() implies 0 < (#[trigger] b[i]).1 <= most + 1 by {
            if i > 0 && b.len() > c.len() {
                assert(b[i] == c[i - 1]);
            } else if i < c.len() {
                assert(0 < c[i].1 <= most);
            }
        }
    }
}

/// Every text in a census was counted at least once, and no count is larger
/// than the number of texts.
pub proof fn lemma_census_bounded(texts: Seq<Seq<char>>)
    ensures
        forall|i: int|
            0 <= i < census(texts).len() ==> 0 < (#[trigger] census(texts)[i]).1 <= texts.len(),
    decreases texts.len(),
{
    if texts.len() > 0 {
        lemma_census_bounded(texts.drop_last());
        lemma_bumped_bounded(
            census(texts.drop_last()),
            texts.last(),
            (texts.len() - 1) as nat,
        );
    }
}

/// How the seeds came out: the message of its panic for each seed that
/// panicked.
pub open spec fn outcome_views(outcomes: Seq<Option<String>>) -> Seq<Option<Seq<char>>> {
    outcomes.map_values(
        |o: Option<String>|
            match o {
                Some(m) => Some(m@),
                None => None,
            },
    )
}

/// The first lines of the panics of a class, in the order of the seeds.
pub open spec fn lines_of(outcomes: Seq<Option<Seq<char>>>, class: Class) -> Seq<Seq<char>>
    decreases outcomes.len(),
{
    if outcomes.len() == 0 {
        Seq::empty()
    } else {
        let earlier = lines_of(outcomes.drop_last(), class);
        match outcomes.last() {
            Some(m) => if class_of(first_line(m)) == class {
                earlier.push(first_line(m))
            } else {
                earlier
            },
            None => earlier,
        }
    }
}

/// The seeds whose panic is of the class `Stale`, each with its first line.
pub open spec fn stale_seeds(outcomes: Seq<Option<Seq<char>>>) -> Seq<(u64, Seq<char>)>
    decreases outcomes.len(),
{
    if outcomes.len() == 0 {
        Seq::empty()
    } else {
        let earlier = stale_seeds(outcomes.drop_last());
        match outcomes.last() {
            Some(m) => if class_of(first_line(m)) is Stale {
                earlier.push(((SEED_BASE + outcomes.len() - 1) as u64, first_line(m)))
            } else {
                earlier
            },
            None => earlier,
        }
    }
}

/// A line for each text of a census: its count, `what`, the text.
pub open spec fn census_lines(c: Census, what: Seq<char>) -> Seq<char>
    decreases c.len(),
{
    if c.len() == 0 {
        Seq::empty()
    } else {
        census_lines(c.drop_last(), what) + ("\n  ("@ + decimal(c.last().1) + what + c.last().0
            + ")"@)
    }
}

/// The report on a sweep: the first seed with a stale index, then the other
/// panics by their texts.
pub open spec fn report_on(
    stale: Seq<(u64, Seq<char>)>,
    family: Census,
    unexpected: Census,
) -> Seq<char> {
    let first = if stale.len() > 0 {
        "\n  first seed "@ + hex(stale[0].0 as nat) + ": "@ + stale[0].1
    } else {
        Seq::empty()
    };
    first + census_lines(
        family,
        " further seed(s) stopped earlier, in the same slot-bookkeeping family, with: "@,
    ) + census_lines(unexpected, " seed(s) hit an UNRELATED panic, not this family: "@)
}

/// The message with which a sweep fails.
pub open spec fn failure(outcomes: Seq<Option<Seq<char>>>) -> Seq<char> {
    "a Remove operation's recorded leaf index was used unchecked against the merged tree and indexed past its leaves vec on "@
        + decimal(stale_seeds(outcomes).len()) + " of "@ + decimal(SEEDS as nat) + " seeds"@
        + report_on(
        stale_seeds(outcomes),
        census(lines_of(outcomes, Class::Family)),
        census(lines_of(outcomes, Class::Unrelated)),
    )
}

fn census_text(counts: &Vec<(String, usize)>, what: &str) -> (r: String)
    ensures
        r@ == census_lines(census_view(counts@), what@),
{
    let ghost c = census_view(counts@);
    let mut r = String::new();
    for i in 0..counts.len()
        invariant
            c == census_view(counts@),
            r@ == census_lines(c.take(i as int), what@),
    {
        let mut line = "\n  (".to_owned();
        line.append(decimal_text(counts[i].1 as u64).as_str());
        line.append(what);
        line.append(counts[i].0.as_str());
        line.append(")");
        r.append(line.as_str());
        proof {
            assert(c.take(i + 1).drop_last() == c.take(i as int));
            assert(c.take(i + 1).last() == (counts@[i as int].0@, counts@[i as int].1 as nat));
        }
    }
    assert(c.take(counts@.len() as int) == c);
    r
}

fn report(
    stale: &Vec<(u64, String)>,
    family: &Vec<(String, usize)>,
    unexpected: &Vec<(String, usize)>,
) -> (r: String)
    ensures
        r@ == report_on(noted(stale@), census_view(family@), census_view(unexpected@)),
{
    let mut r = if stale.len() > 0 {
        let mut first = "\n  first seed ".to_owned();
        first.append(hex_text(stale[0].0).as_str());
        first.append(": ");
        first.append(stale[0].1.as_str());
        first
    } else {
        String::new()
    };
    r.append(
        census_text(
            family,
            " further seed(s) stopped earlier, in the same slot-bookkeeping family, with: ",
        ).as_str(),
    );
    r.append(
        census_text(unexpected, " seed(s) hit an UNRELATED panic, not this family: ").as_str(),
    );
    r
}

/// A seed does not count against the sweep: it went through, or it stopped at
/// the one known co-located fault.
pub open spec fn tolerated(outcome: Option<Seq<char>>) -> bool {
    outcome matches Some(m) ==> class_of(first_line(m)) is Family
}

/// Judges a sweep by the outcomes of its seeds, in order: the message of the
/// panic of each seed that panicked.
pub fn verdict(outcomes: &Vec<Option<String>>) -> (r: Result<(), String>)
    requires
        outcomes@.len() == SEEDS,
    ensures
        r is Ok <==> forall|i: int|
            0 <= i < SEEDS ==> tolerated(#[trigger] outcome_views(outcomes@)[i]),
        r matches Err(m) ==> m@ == failure(outcome_views(outcomes@)),
        // No panic passes but one whose first line names the known assertion and
        // no index out of bounds.
        r is Ok <==> forall|i: int|
            0 <= i < outcomes@.len() ==> ((#[trigger] outcomes@[i]) matches Some(m) ==> occurs(
                "self.leaf(leaf_idx).is_none()"@,
                first_line(m@),
            ) && !occurs("Leaf index should be in bounds"@, first_line(m@)) && !occurs(
                "index out of bounds"@,
                first_line(m@),
            )),
{
    let ghost all = outcome_views(outcomes@);
    let mut stale: Vec<(u64, String)> = Vec::new();
    let mut family: Vec<(String, usize)> = Vec::new();
    let mut unexpected: Vec<(String, usize)> = Vec::new();
    proof {
        assert(noted(stale@) == stale_seeds(all.take(0)));
        assert(census_view(family@) == census(lines_of(all.take(0), Class::Family)));
        assert(census_view(unexpected@) == census(lines_of(all.take(0), Class::Unrelated)));
    }
    for i in 0..outcomes.len()
        invariant
            outcomes@.len() == SEEDS,
            all == outcome_views(outcomes@),
            noted(stale@) == stale_seeds(all.take(i as int)),
            census_view(family@) == census(lines_of(all.take(i as int), Class::Family)),
            census_view(unexpected@) == census(lines_of(all.take(i as int), Class::Unrelated)),
    {
        proof {
            assert(all.take(i + 1).drop_last() == all.take(i as int));
            assert(all.take(i + 1).last() == all[i as int]);
        }
        if let Some(message) = &outcomes[i] {
            let line = first_line_of(message.as_str());
            let ghost text = line@;
            match classify(line.as_str()) {
                Class::Stale => {
                    let ghost was = noted(stale@);
                    stale.push((SEED_BASE + i as u64, line));
                    assert(noted(stale@) == was.push(((SEED_BASE + i) as u64, text)));
                },
                Class::Family => {
                    let ghost lines = lines_of(all.take(i as int), Class::Family);
                    proof {
                        lemma_counts_fit(family@, lines, all.take(i as int), Class::Family);
                        assert(lines.push(text).drop_last() == lines);
                    }
                    bump(&mut family, line);
                },
                Class::Unrelated => {
                    let ghost lines = lines_of(all.take(i as int), Class::Unrelated);
                    proof {
                        lemma_counts_fit(unexpected@, lines, all.take(i as int), Class::Unrelated);
                        assert(lines.push(text).drop_last() == lines);
                    }
                    bump(&mut unexpected, line);
                },
            }
        }
    }
    proof {
        assert(all.take(SEEDS as int) == all);
        law_passes_exactly_when_every_seed_is_tolerated(all);
        lemma_tolerated(outcomes@);
    }
    if stale.len() == 0 && unexpected.len() == 0 {
        return Ok(());
    }
    let mut m =
        "a Remove operation's recorded leaf index was used unchecked against the merged tree and indexed past its leaves vec on ".to_owned();
    m.append(decimal_text(stale.len() as u64).as_str());
    m.append(" of ");
    m.append(decimal_text(SEEDS).as_str());
    m.append(" seeds");
    m.append(report(&stale, &family, &unexpected).as_str());
    Err(m)
}

/// There are no more lines of a class than outcomes.
proof fn lemma_lines_bounded(outcomes: Seq<Option<Seq<char>>>, class: Class)
    ensures
        lines_of(outcomes, class).len() <= outcomes.len(),
    decreases outcomes.len(),
{
    if outcomes.len() > 0 {
        lemma_lines_bounded(outcomes.drop_last(), class);
    }
}

/// The counts of a sweep stay small.
proof fn lemma_counts_fit(
    counts: Seq<(String, usize)>,
    lines: Seq<Seq<char>>,
    outcomes: Seq<Option<Seq<char>>>,
    class: Class,
)
    requires
        census_view(counts) == census(lines),
        lines == lines_of(outcomes, class),
        outcomes.len() < SEEDS,
    ensures
        forall|i: int| 0 <= i < counts.len() ==> (#[trigger] counts[i]).1 < SEEDS,
{
    lemma_census_bounded(lines);
    lemma_lines_bounded(outcomes, class);
    assert forall|i: int| 0 <= i < counts.len() implies (#[trigger] counts[i]).1 < SEEDS by {
        assert(census_view(counts)[i].1 == counts[i].1);
    }
}

/// A census is empty exactly when nothing was counted.
proof fn lemma_census_empty(texts: Seq<Seq<char>>)
    ensures
        census(texts).len() == 0 <==> texts.len() == 0,
{
    if texts.len() > 0 {
        lemma_bumped_bounded(Seq::empty(), texts.last(), 0);
    }
}

/// Nothing is counted against a sweep exactly when every seed went through or
/// stopped at the known co-located fault; any other panic fails it.
pub proof fn law_passes_exactly_when_every_seed_is_tolerated(outcomes: Seq<Option<Seq<char>>>)
    ensures
        (stale_seeds(outcomes).len() == 0 && census(lines_of(outcomes, Class::Unrelated)).len()
            == 0) <==> (forall|i: int|
            0 <= i < outcomes.len() ==> tolerated(#[trigger] outcomes[i])),
    decreases outcomes.len(),
{
    lemma_census_empty(lines_of(outcomes, Class::Unrelated));
    if outcomes.len() > 0 {
        let earlier = outcomes.drop_last();
        lemma_census_empty(lines_of(earlier, Class::Unrelated));
        law_passes_exactly_when_every_seed_is_tolerated(earlier);
        assert(outcomes.last() == outcomes[outcomes.len() - 1]);
        if forall|i: int| 0 <= i < earlier.len() ==> tolerated(#[trigger] earlier[i]) {
            assert forall|i: int| 0 <= i < outcomes.len() - 1 implies tolerated(
                #[trigger] outcomes[i],
            ) by {
                assert(tolerated(earlier[i]));
            }
        } else {
            let i = choose|i: int| 0 <= i < earlier.len() && !tolerated(#[trigger] earlier[i]);
            assert(!tolerated(outcomes[i]));
        }
    }
}

/// The outcome of a seed is seen at its place, as what it is.
pub proof fn law_outcomes_are_seen_in_place(outcomes: Seq<Option<String>>, i: int)
    requires
        0 <= i < outcomes.len(),
    ensures
        outcome_views(outcomes).len() == outcomes.len(),
        outcomes[i] matches Some(m) ==> outcome_views(outcomes)[i] == Some(m@),
        outcomes[i] is None ==> outcome_views(outcomes)[i] is None,
{
}

/// What is tolerated, told by the texts in the first lines.
proof fn lemma_tolerated(outcomes: Seq<Option<String>>)
    ensures
        (forall|i: int|
            0 <= i < outcomes.len() ==> tolerated(#[trigger] outcome_views(outcomes)[i]))
            <==> (forall|i: int|
            0 <= i < outcomes.len() ==> ((#[trigger] outcomes[i]) matches Some(m) ==> occurs(
                "self.leaf(leaf_idx).is_none()"@,
                first_line(m@),
            ) && !occurs("Leaf index should be in bounds"@, first_line(m@)) && !occurs(
                "index out of bounds"@,
                first_line(m@),
            ))),
{
    let all = outcome_views(outcomes);
    assert forall|i: int| 0 <= i < outcomes.len() implies tolerated(#[trigger] all[i]) == (
    outcomes[i] matches Some(m) ==> occurs("self.leaf(leaf_idx).is_none()"@, first_line(m@))
        && !occurs("Leaf index should be in bounds"@, first_line(m@)) && !occurs(
        "index out of bounds"@,
        first_line(m@),
    )) by {
        law_outcomes_are_seen_in_place(outcomes, i);
    }
    if forall|i: int| 0 <= i < outcomes.len() ==> tolerated(#[trigger] all[i]) {
        assert forall|i: int| 0 <= i < outcomes.len() implies ((
        #[trigger] outcomes[i]) matches Some(m) ==> occurs(
            "self.leaf(leaf_idx).is_none()"@,
            first_line(m@),
        ) && !occurs("Leaf index should be in bounds"@, first_line(m@)) && !occurs(
            "index out of bounds"@,
            first_line(m@),
        )) by {
            assert(tolerated(all[i]));
        }
    } else {
        let i = choose|i: int| 0 <= i < outcomes.len() && !tolerated(#[trigger] all[i]);
        assert(!(outcomes[i] matches Some(m) ==> occurs(
            "self.leaf(leaf_idx).is_none()"@,
            first_line(m@),
        ) && !occurs("Leaf index should be in bounds"@, first_line(m@)) && !occurs(
            "index out of bounds"@,
            first_line(m@),
        )));
    }
}

/// The class of a panic is told by three texts and nothing else. An index out of
/// bounds, in either wording, is a stale index; only the one known assertion is
/// of its family; a line with none of the three is unrelated.
pub proof fn law_class_is_told_by_three_texts(line: Seq<char>)
    ensures
        class_of(line) is Stale <==> occurs("Leaf index should be in bounds"@, line) || occurs(
            "index out of bounds"@,
            line,
        ),
        class_of(line) is Family ==> occurs("self.leaf(leaf_idx).is_none()"@, line),
        class_of(line) is Unrelated <==> !occurs("Leaf index should be in bounds"@, line)
            && !occurs("index out of bounds"@, line) && !occurs(
            "self.leaf(leaf_idx).is_none()"@,
            line,
        ),
{
}

/// A sweep in which some panic's first line holds none of the three texts, or
/// tells of an index out of bounds, has something counted against it.
pub proof fn law_only_the_known_fault_is_passed_over(outcomes: Seq<Option<Seq<char>>>, i: int)
    requires
        0 <= i < outcomes.len(),
        outcomes[i] is Some,
        !occurs("self.leaf(leaf_idx).is_none()"@, first_line(outcomes[i]->0)) || occurs(
            "Leaf index should be in bounds"@,
            first_line(outcomes[i]->0),
        ) || occurs("index out of bounds"@, first_line(outcomes[i]->0)),
    ensures
        stale_seeds(outcomes).len() > 0 || census(lines_of(outcomes, Class::Unrelated)).len() > 0,
{
    law_passes_exactly_when_every_seed_is_tolerated(outcomes);
    assert(!tolerated(outcomes[i]));
}

/// The lines of a class are gathered seed by seed: what two sweeps one after the
/// other bring is what each of them brings. A seed brings the first line of its
/// panic to the class of that line and to no other.
pub proof fn law_lines_are_gathered_seed_by_seed(
    a: Seq<Option<Seq<char>>>,
    b: Seq<Option<Seq<char>>>,
    m: Seq<char>,
    class: Class,
)
    ensures
        lines_of(Seq::empty(), class) == Seq::<Seq<char>>::empty(),
        lines_of(seq![None], class) == Seq::<Seq<char>>::empty(),
        lines_of(seq![Some(m)], class) == (if class_of(first_line(m)) == class {
            seq![first_line(m)]
        } else {
            Seq::empty()
        }),
        lines_of(a + b, class) == lines_of(a, class) + lines_of(b, class),
    decreases b.len(),
{
    reveal_with_fuel(lines_of, 2);
    let none: Seq<Option<Seq<char>>> = seq![None];
    let one = seq![Some(m)];
    assert(none.drop_last() == Seq::<Option<Seq<char>>>::empty());
    assert(one.drop_last() == Seq::<Option<Seq<char>>>::empty());
    if b.len() == 0 {
        assert(a + b == a);
    } else {
        assert((a + b).drop_last() == a + b.drop_last());
        law_lines_are_gathered_seed_by_seed(a, b.drop_last(), m, class);
    }
}

/// Seeds with a stale index are listed in the order of the sweep, and none twice.
pub proof fn law_stale_seeds_go_up(outcomes: Seq<Option<Seq<char>>>)
    requires
        outcomes.len() <= SEEDS,
    ensures
        forall|k: int|
            0 <= k < stale_seeds(outcomes).len() ==> 0x5ca1_e000 <= (#[trigger] stale_seeds(
                outcomes,
            )[k]).0 < 0x5ca1_e000 + outcomes.len(),
        forall|k: int, l: int|
            0 <= k < l < stale_seeds(outcomes).len() ==> (#[trigger] stale_seeds(outcomes)[k]).0 < (
            #[trigger] stale_seeds(outcomes)[l]).0,
    decreases outcomes.len(),
{
    if outcomes.len() > 0 {
        let p = stale_seeds(outcomes.drop_last());
        let s = stale_seeds(outcomes);
        law_stale_seeds_go_up(outcomes.drop_last());
        assert forall|k: int| 0 <= k < s.len() implies 0x5ca1_e000 <= (#[trigger] s[k]).0
            < 0x5ca1_e000 + outcomes.len() by {
            if k < p.len() {
                assert(s[k] == p[k]);
            }
        }
        assert forall|k: int, l: int| 0 <= k < l < s.len() implies (#[trigger] s[k]).0 < (
        #[trigger] s[l]).0 by {
            assert(s[k] == p[k]);
            if l < p.len() {
                assert(s[l] == p[l]);
            }
        }
    }
}

/// A seed is listed with a stale index exactly when it panicked with a first
/// line that tells of an index out of bounds, and then with that line.
pub proof fn law_stale_seeds_are_those_out_of_bounds(outcomes: Seq<Option<Seq<char>>>, i: int)
    requires
        0 <= i < outcomes.len() <= SEEDS,
    ensures
        forall|text: Seq<char>| #[trigger]
            stale_seeds(outcomes).contains(((0x5ca1_e000 + i) as u64, text)) <==> (
            outcomes[i] matches Some(m) && text == first_line(m) && (occurs(
                "Leaf index should be in bounds"@,
                text,
            ) || occurs("index out of bounds"@, text))),
    decreases outcomes.len(),
{
    let earlier = outcomes.drop_last();
    let n = outcomes.len() - 1;
    let seed = (0x5ca1_e000 + i) as u64;
    let last = (0x5ca1_e000 + n) as u64;
    let s = stale_seeds(outcomes);
    let p = stale_seeds(earlier);
    law_stale_seeds_go_up(earlier);
    assert(outcomes.last() == outcomes[n]);
    if i < n {
        law_stale_seeds_are_those_out_of_bounds(earlier, i);
        assert(earlier[i] == outcomes[i]);
    }
    assert forall|text: Seq<char>| #[trigger]
        s.contains((seed, text)) <==> (outcomes[i] matches Some(m) && text == first_line(m) && (
        occurs("Leaf index should be in bounds"@, text) || occurs("index out of bounds"@, text))) by {
        if let Some(m) = outcomes[n] {
            lemma_push_contains(p, (last, first_line(m)), (seed, text));
        }
        assert(i < n ==> p.contains((seed, text)) == (outcomes[i] matches Some(m) && text
            == first_line(m) && (occurs("Leaf index should be in bounds"@, text) || occurs(
            "index out of bounds"@,
            text,
        ))));
    }
}

/// How often a text is counted is how often it is there.
proof fn lemma_times(texts: Seq<Seq<char>>, key: Seq<char>)
    ensures
        times(texts, key) == texts.to_multiset().count(key),
    decreases texts.len(),
{
    broadcast use vstd::seq_lib::group_to_multiset_ensures;

    if texts.len() > 0 {
        lemma_times(texts.drop_last(), key);
        assert(texts == texts.drop_last().push(texts.last()));
    }
}

/// What an ascending census says of the text at a place stands at that place.
proof fn lemma_counted_at(c: Census, i: int)
    requires
        ascending(c),
        0 <= i < c.len(),
    ensures
        counted(c, c[i].0) == c[i].1,
    decreases c.len(),
{
    if i > 0 {
        let rest = c.drop_first();
        assert(before(c[0].0, c[i].0));
        law_before_is_a_total_order(c[0].0, c[i].0);
        assert forall|k: int, l: int| 0 <= k < l < rest.len() implies before(
            (#[trigger] rest[k]).0,
            (#[trigger] rest[l]).0,
        ) by {
            assert(rest[k] == c[k + 1] && rest[l] == c[l + 1]);
        }
        assert(rest[i - 1] == c[i]);
        lemma_counted_at(rest, i - 1);
    }
}

/// A text that is counted has a place.
proof fn lemma_counted_has_a_place(c: Census, key: Seq<char>)
    requires
        counted(c, key) > 0,
    ensures
        exists|i: int| 0 <= i < c.len() && (#[trigger] c[i]).0 == key,
    decreases c.len(),
{
    if c[0].0 != key {
        let rest = c.drop_first();
        lemma_counted_has_a_place(rest, key);
        let i = choose|i: int| 0 <= i < rest.len() && (#[trigger] rest[i]).0 == key;
        assert(c[i + 1].0 == key);
    }
}

/// A census has every text that there is, once, in ascending order, with how
/// often it is there, and no other text.
pub proof fn law_census_lists_every_text_once(texts: Seq<Seq<char>>)
    ensures
        forall|i: int, j: int|
            0 <= i < j < census(texts).len() ==> before(
                (#[trigger] census(texts)[i]).0,
                (#[trigger] census(texts)[j]).0,
            ),
        forall|i: int|
            0 <= i < census(texts).len() ==> 0 < (#[trigger] census(texts)[i]).1
                && census(texts)[i].1 == texts.to_multiset().count(census(texts)[i].0),
        forall|k: int|
            0 <= k < texts.len() ==> exists|i: int|
                0 <= i < census(texts).len() && (#[trigger] census(texts)[i]).0
                    == #[trigger] texts[k],
{
    broadcast use vstd::seq_lib::group_to_multiset_ensures;

    let c = census(texts);
    law_census_counts_every_text(texts, Seq::empty());
    lemma_census_bounded(texts);
    assert forall|i: int| 0 <= i < c.len() implies 0 < (#[trigger] c[i]).1 && c[i].1
        == texts.to_multiset().count(c[i].0) by {
        law_census_counts_every_text(texts, c[i].0);
        lemma_counted_at(c, i);
        lemma_times(texts, c[i].0);
    }
    assert forall|k: int| 0 <= k < texts.len() implies exists|i: int|
        0 <= i < c.len() && (#[trigger] c[i]).0 == #[trigger] texts[k] by {
        law_census_counts_every_text(texts, texts[k]);
        lemma_times(texts, texts[k]);
        assert(texts.contains(texts[k]));
        assert(texts.to_multiset().contains(texts[k]));
        lemma_counted_has_a_place(c, texts[k]);
    }
}

/// Counted texts are seen in place, each with its count.
pub proof fn law_counts_are_seen_in_place(v: Seq<(String, usize)>)
    ensures
        census_view(v).len() == v.len(),
        forall|i: int|
            0 <= i < v.len() ==> (#[trigger] census_view(v)[i]) == (v[i].0@, v[i].1 as nat),
{
}

/// The message of a failed sweep. It says on how many seeds the index was stale,
/// the first of them with its line, and then each text of the other panics with
/// how often it came: those of the known family first.
pub proof fn law_what_a_failed_sweep_says(outcomes: Seq<Option<Seq<char>>>)
    ensures
        failure(outcomes)
            == "a Remove operation's recorded leaf index was used unchecked against the merged tree and indexed past its leaves vec on "@
            + decimal(stale_seeds(outcomes).len()) + " of "@ + decimal(64) + " seeds"@ + ((
        if stale_seeds(outcomes).len() > 0 {
            "\n  first seed "@ + hex(stale_seeds(outcomes)[0].0 as nat) + ": "@ + stale_seeds(
                outcomes,
            )[0].1
        } else {
            Seq::empty()
        }) + census_lines(
            census(lines_of(outcomes, Class::Family)),
            " further seed(s) stopped earlier, in the same slot-bookkeeping family, with: "@,
        ) + census_lines(
            census(lines_of(outcomes, Class::Unrelated)),
            " seed(s) hit an UNRELATED panic, not this family: "@,
        )),
{
}

/// A census is reported line by line, in its order.
pub proof fn law_every_count_has_its_line(
    a: Census,
    b: Census,
    text: Seq<char>,
    n: nat,
    what: Seq<char>,
)
    ensures
        census_lines(Seq::empty(), what) == Seq::<char>::empty(),
        census_lines(seq![(text, n)], what) == "\n  ("@ + decimal(n) + what + text + ")"@,
        census_lines(a + b, what) == census_lines(a, what) + census_lines(b, what),
    decreases b.len(),
{
    reveal_with_fuel(census_lines, 2);
    let one = seq![(text, n)];
    assert(one.drop_last() == Seq::<(Seq<char>, nat)>::empty());
    assert(census_lines(one, what) == Seq::<char>::empty() + ("\n  ("@ + decimal(n) + what + text
        + ")"@));
    if b.len() == 0 {
        assert(a + b == a);
    } else {
        assert((a + b).drop_last() == a + b.drop_last());
        law_every_count_has_its_line(a, b.drop_last(), text, n, what);
    }
}

} // verus!
