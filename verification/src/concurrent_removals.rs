//! Concurrent removals must not wedge a group permanently.

use crate::group::{
    among, authored, concurrent, context, everyone, founding, growing, held, lemma_push, merges,
    owners, seeding, Action, Group, Site, Step,
};
use crate::keys::{seed_rng, seeded_blocks};
use crate::leaves::{
    law_removal_unseats_only_the_member, law_removing_everyone_is_refused_at_the_last,
    lemma_not_lone, lone, removed, seated, walked,
};
use crate::rows::{
    applied, author_row, content, filled, law_founding_leaves_all_replicas_alike, lemma_filled,
    lemma_row_merges, lemma_row_push, row,
};
use crate::run::{
    accepted, fitting, gone_through, law_accepted_replies_carry_the_run,
    law_run_goes_on_exactly_when_every_reply_is_accepted,
    law_run_reaches_its_end_exactly_when_its_calls_go_through, lemma_founding_is_strict,
    lemma_no_probe_errors, open_at, probe_errors, recorded_view, replayed, Judged, Judgement,
    Progress, Run, Seen,
};
use crate::sweep::{lemma_push_contains, noted};
use crate::text::{
    decimal, decimal_text, hex, hex_text, join, joined, law_joining_puts_the_separator_between,
    views,
};
use vstd::prelude::*;

verus! {

/// The first seed of the sweep. The control runs on it too.
pub const SEED_BASE: u64 = 0xd1ff_0000;

/// How many seeds the sweep covers.
pub const SEEDS: u64 = 8;

/// `author` removes `member`, at `site`.
pub open spec fn removal(author: usize, member: usize, site: Site) -> Step {
    Step { action: Action::Remove { author, member }, site }
}

/// `author` adds `member`, at `site`.
pub open spec fn addition(author: usize, member: usize, site: Site) -> Step {
    Step { action: Action::Add { author, member }, site }
}

/// The calls of the control. Of three founders `a`, `b` and `c`: `a` removes `b`
/// and then `c`, each removal merged everywhere before the next call, tries to
/// remove itself, and adds a joiner.
pub open spec fn control_plan() -> Seq<Step> {
    ((founding(3).push(removal(0, 1, Site::ControlRemoval)) + merges(2, everyone(3))).push(
        removal(0, 2, Site::ControlRemoval),
    ) + merges(3, everyone(3))).push(removal(0, 0, Site::ControlGuard)).push(
        addition(0, 3, Site::ControlProgress),
    )
}

/// The calls of the scenario. Of three founders `a`, `b` and `c`: `a` removes
/// `b`, `b` removes `c` and `c` removes `a`, then all three removals are merged
/// everywhere, and each founder in turn tries to add a joiner of its own.
pub open spec fn plan() -> Seq<Step> {
    (founding(3).push(removal(0, 1, Site::Removing)).push(removal(1, 2, Site::Removing)).push(
        removal(2, 0, Site::Removing),
    ) + merges(2, everyone(3)) + merges(3, everyone(3)) + merges(4, everyone(3))).push(
        addition(0, 3, Site::Probe),
    ).push(addition(1, 4, Site::Probe)).push(addition(2, 5, Site::Probe))
}

/// The calls of the control behind the founding, one by one: each of two
/// removals reaches all three replicas before the next call, then come the
/// removal of the last member and a further add.
pub proof fn law_calls_of_the_control()
    ensures
        control_plan() == founding(3) + seq![
            Step { action: Action::Remove { author: 0, member: 1 }, site: Site::ControlRemoval },
            Step { action: Action::Merge { replica: 0, op: 2 }, site: Site::Delivery },
            Step { action: Action::Merge { replica: 1, op: 2 }, site: Site::Delivery },
            Step { action: Action::Merge { replica: 2, op: 2 }, site: Site::Delivery },
            Step { action: Action::Remove { author: 0, member: 2 }, site: Site::ControlRemoval },
            Step { action: Action::Merge { replica: 0, op: 3 }, site: Site::Delivery },
            Step { action: Action::Merge { replica: 1, op: 3 }, site: Site::Delivery },
            Step { action: Action::Merge { replica: 2, op: 3 }, site: Site::Delivery },
            Step { action: Action::Remove { author: 0, member: 0 }, site: Site::ControlGuard },
            Step { action: Action::Add { author: 0, member: 3 }, site: Site::ControlProgress },
        ],
{
    assert(everyone(3) =~= seq![0usize, 1, 2]);
}

/// The calls of the scenario behind the founding, one by one: three removals
/// before any of them is merged, then each merged into all three replicas, then
/// an add on every replica.
pub proof fn law_calls_of_the_scenario()
    ensures
        plan() == founding(3) + seq![
            Step { action: Action::Remove { author: 0, member: 1 }, site: Site::Removing },
            Step { action: Action::Remove { author: 1, member: 2 }, site: Site::Removing },
            Step { action: Action::Remove { author: 2, member: 0 }, site: Site::Removing },
            Step { action: Action::Merge { replica: 0, op: 2 }, site: Site::Delivery },
            Step { action: Action::Merge { replica: 1, op: 2 }, site: Site::Delivery },
            Step { action: Action::Merge { replica: 2, op: 2 }, site: Site::Delivery },
            Step { action: Action::Merge { replica: 0, op: 3 }, site: Site::Delivery },
            Step { action: Action::Merge { replica: 1, op: 3 }, site: Site::Delivery },
            Step { action: Action::Merge { replica: 2, op: 3 }, site: Site::Delivery },
            Step { action: Action::Merge { replica: 0, op: 4 }, site: Site::Delivery },
            Step { action: Action::Merge { replica: 1, op: 4 }, site: Site::Delivery },
            Step { action: Action::Merge { replica: 2, op: 4 }, site: Site::Delivery },
            Step { action: Action::Add { author: 0, member: 3 }, site: Site::Probe },
            Step { action: Action::Add { author: 1, member: 4 }, site: Site::Probe },
            Step { action: Action::Add { author: 2, member: 5 }, site: Site::Probe },
        ],
{
    assert(everyone(3) =~= seq![0usize, 1, 2]);
}

/// Each removal is valid where it is authored: its author's row still seats all
/// three founders.
pub open spec fn locally_valid(steps: Seq<Step>) -> bool {
    forall|o: int, m: int|
        2 <= o < 5 ==> (#[trigger] seated(author_row(steps, o), m) <==> 0 <= m < 3)
}

proof fn lemma_plan_rows()
    ensures
        forall|o: int| 2 <= o < 5 ==> #[trigger] author_row(plan(), o) == filled(3),
        locally_valid(plan()),
{
    let steps0 = founding(3);
    let steps1 = steps0.push(removal(0, 1, Site::Removing));
    let steps2 = steps1.push(removal(1, 2, Site::Removing));
    let steps3 = steps2.push(removal(2, 0, Site::Removing));
    let steps4 = steps3 + merges(2, everyone(3));
    let steps5 = steps4 + merges(3, everyone(3));
    let steps6 = steps5 + merges(4, everyone(3));
    let steps7 = steps6.push(addition(0, 3, Site::Probe));
    let steps8 = steps7.push(addition(1, 4, Site::Probe));
    law_founding_leaves_all_replicas_alike(3, 3);
    lemma_filled();
    lemma_push(steps0, removal(0, 1, Site::Removing));
    lemma_row_push(steps0, removal(0, 1, Site::Removing));
    lemma_push(steps1, removal(1, 2, Site::Removing));
    lemma_row_push(steps1, removal(1, 2, Site::Removing));
    lemma_push(steps2, removal(2, 0, Site::Removing));
    lemma_row_push(steps2, removal(2, 0, Site::Removing));
    lemma_row_merges(steps3, 2, everyone(3));
    lemma_row_merges(steps4, 3, everyone(3));
    lemma_row_merges(steps5, 4, everyone(3));
    lemma_row_push(steps6, addition(0, 3, Site::Probe));
    lemma_row_push(steps7, addition(1, 4, Site::Probe));
    lemma_row_push(steps8, addition(2, 5, Site::Probe));
    let row = filled(3);
    assert forall|m: int| #[trigger] seated(row, m) <==> 0 <= m < 3 by {
        if 0 <= m < 3 {
            assert(row.leaves[m] == Some(m));
        }
    }
}

/// The removals cannot all be applied: in whatever order they are taken from
/// the row in which they were authored, the third is refused.
pub proof fn law_no_order_applies_all_three_removals(op: int, order: Seq<int>)
    requires
        2 <= op < 5,
        order.no_duplicates(),
        forall|m: int| #[trigger] order.contains(m) <==> 0 <= m < 3,
    ensures
        walked(author_row(plan(), op), order.drop_last()) is Some,
        walked(author_row(plan(), op), order) is None,
{
    lemma_plan_rows();
    lemma_filled();
    assert(author_row(plan(), op) == filled(3));
    assert forall|m: int| #[trigger]
        seated(author_row(plan(), op), m) <==> order.contains(m) by {
        assert(seated(author_row(plan(), op), m) <==> 0 <= m < 3);
    }
    law_removing_everyone_is_refused_at_the_last(author_row(plan(), op), order);
}

/// The row of three without the second member, and then without the third.
proof fn lemma_lone_row()
    ensures
        removed(filled(3), 1) matches Some(two) && removed(two, 2) matches Some(one) && {
            &&& one.wf()
            &&& lone(one)
            &&& seated(one, 0)
        },
{
    let row = filled(3);
    lemma_filled();
    assert forall|m: int| #[trigger] seated(row, m) <==> 0 <= m < 3 by {
        if 0 <= m < 3 {
            assert(row.leaves[m] == Some(m));
        }
    }
    lemma_not_lone(row, 0, 1);
    law_removal_unseats_only_the_member(row, 1);
    let two = removed(row, 1)->0;
    assert(seated(two, 0) && seated(two, 2) && !seated(two, 1));
    lemma_not_lone(two, 0, 2);
    law_removal_unseats_only_the_member(two, 2);
    let one = removed(two, 2)->0;
    assert(seated(one, 0));
    assert(lone(one)) by {
        reveal(lone);
        assert forall|o: int| #[trigger] seated(one, o) implies o == 0 by {
            assert(o != 2);
            assert(seated(two, o));
            assert(o != 1);
            assert(seated(row, o));
        }
    }
}

/// On every replica the control's last removal meets the last member: the
/// removal of `a` is refused, and the refusal leaves the row as it was.
pub open spec fn meets_the_guard(steps: Seq<Step>) -> bool {
    let guard = steps.len() - 2;
    forall|r: int|
        0 <= r < 3 ==> {
            &&& lone(#[trigger] row(steps.take(guard), r))
            &&& seated(row(steps.take(guard), r), 0)
            &&& removed(row(steps.take(guard), r), 0) is None
            &&& applied(row(steps.take(guard), r), steps[guard].action) == row(
                steps.take(guard),
                r,
            )
            &&& row(steps.take(guard + 1), r) == row(steps.take(guard), r)
        }
}

/// The control's last removal meets the last member, is refused and changes
/// nothing, on every replica.
pub proof fn law_control_meets_the_guard()
    ensures
        meets_the_guard(control_plan()),
{
    let steps0 = founding(3);
    let steps1 = steps0.push(removal(0, 1, Site::ControlRemoval));
    let steps2 = steps1 + merges(2, everyone(3));
    let steps3 = steps2.push(removal(0, 2, Site::ControlRemoval));
    let steps4 = steps3 + merges(3, everyone(3));
    let guard = removal(0, 0, Site::ControlGuard);
    let steps = control_plan();
    let n = steps.len() - 2;
    lemma_lone_row();
    let two = removed(filled(3), 1)->0;
    let one = removed(two, 2)->0;
    assert(forall|r: int| 0 <= r < 3 ==> among(everyone(3), r)) by {
        assert forall|r: int| 0 <= r < 3 implies among(everyone(3), r) by {
            assert(everyone(3)[r] == r);
        }
    }
    assert(authored(steps1) == 3 && content(steps1, 2) == removal(0, 1, Site::ControlRemoval).action
        && forall|r: int|
        0 <= r < 3 ==> #[trigger] row(steps1, r) == (if r == 0 {
            two
        } else {
            filled(3)
        }) && held(steps1, r).contains(2) == (r == 0) && !held(steps1, r).contains(3)) by {
        law_founding_leaves_all_replicas_alike(3, 3);
        lemma_push(steps0, removal(0, 1, Site::ControlRemoval));
        lemma_row_push(steps0, removal(0, 1, Site::ControlRemoval));
    }
    assert(authored(steps2) == 3 && forall|r: int|
        0 <= r < 3 ==> #[trigger] row(steps2, r) == two && !held(steps2, r).contains(3)) by {
        lemma_row_merges(steps1, 2, everyone(3));
    }
    assert(content(steps3, 3) == removal(0, 2, Site::ControlRemoval).action && forall|r: int|
        0 <= r < 3 ==> #[trigger] row(steps3, r) == (if r == 0 {
            one
        } else {
            two
        }) && held(steps3, r).contains(3) == (r == 0)) by {
        lemma_push(steps2, removal(0, 2, Site::ControlRemoval));
        lemma_row_push(steps2, removal(0, 2, Site::ControlRemoval));
    }
    assert(forall|r: int| 0 <= r < 3 ==> #[trigger] row(steps4, r) == one) by {
        lemma_row_merges(steps3, 3, everyone(3));
    }
    assert(steps.take(n) =~= steps4);
    assert(steps.take(n + 1) =~= steps4.push(guard));
    assert(steps[n] == guard);
    lemma_row_push(steps4, guard);
}

/// The members that a plan removes or tries to remove, in order.
pub open spec fn victims(steps: Seq<Step>) -> Seq<usize>
    decreases steps.len(),
{
    if steps.len() == 0 {
        Seq::empty()
    } else {
        let before = victims(steps.drop_last());
        match steps.last().action {
            Action::Remove { member, .. } => before.push(member),
            _ => before,
        }
    }
}

/// One further step.
proof fn lemma_victims_push(steps: Seq<Step>, step: Step)
    ensures
        victims(steps.push(step)) == match step.action {
            Action::Remove { member, .. } => victims(steps).push(member),
            _ => victims(steps),
        },
{
    assert(steps.push(step).drop_last() == steps);
}

/// Merging removes nobody.
proof fn lemma_victims_merges(steps: Seq<Step>, op: usize, to: Seq<usize>)
    ensures
        victims(steps + merges(op, to)) == victims(steps),
    decreases to.len(),
{
    if to.len() == 0 {
        assert(steps + merges(op, to) == steps);
    } else {
        let all = merges(op, to);
        lemma_victims_merges(steps, op, to.drop_last());
        assert(merges(op, to.drop_last()) == all.drop_last());
        assert(steps + all == (steps + all.drop_last()).push(all.last()));
        lemma_victims_push(steps + all.drop_last(), all.last());
    }
}

/// Seeding replicas removes nobody.
proof fn lemma_victims_seeding(n: nat)
    ensures
        victims(seeding(n)) == Seq::<usize>::empty(),
    decreases n,
{
    if n <= 1 {
        assert(seeding(n) == Seq::empty().push(
            Step { action: Action::Found, site: Site::Founding },
        ));
        lemma_victims_push(Seq::empty(), Step { action: Action::Found, site: Site::Founding });
    } else {
        let member = (n - 1) as usize;
        let seed = Step { action: Action::Seed { member }, site: Site::Seeding };
        lemma_victims_seeding((n - 1) as nat);
        lemma_victims_push(seeding((n - 1) as nat), seed);
        lemma_victims_push(
            seeding((n - 1) as nat).push(seed),
            Step { action: Action::Own { member }, site: Site::Owning },
        );
    }
}

/// Founding a group removes nobody.
proof fn lemma_victims_growing(n: nat, k: nat)
    ensures
        victims(growing(n, k)) == Seq::<usize>::empty(),
    decreases k,
{
    if k <= 1 {
        lemma_victims_seeding(n);
    } else {
        let add = addition(0, (k - 1) as usize, Site::FoundingAdd);
        lemma_victims_growing(n, (k - 1) as nat);
        lemma_victims_push(growing(n, (k - 1) as nat), add);
        lemma_victims_merges(
            growing(n, (k - 1) as nat).push(add),
            (k - 2) as usize,
            everyone(n),
        );
    }
}

/// Prepares the control for a seed.
pub fn sequential_control(seed: u64) -> (group: Group)
    ensures
        group.wf(),
        group.replicas == 3,
        group.members@.len() == 4,
        group.drawn_from(seeded_blocks(seed)),
        group.steps@ == control_plan(),
        owners(group.steps@) == everyone(3),
        victims(group.steps@) == seq![1usize, 2, 0],
        // The second removal follows the first, ...
        context(group.steps@, 3).contains(2),
        // ... and every replica is in sync before the last two calls.
        forall|r: int|
            0 <= r < 3 ==> #[trigger] held(group.steps@, r) == Set::new(|o: int| 0 <= o < 4),
        // The first of these calls meets the last member.
        meets_the_guard(group.steps@),
{
    let ghost all = seeded_blocks(seed);
    let mut rng = seed_rng(seed);
    let mut group = Group::found(3, &mut rng);
    let ghost steps0 = group.steps@;
    let remove_b = group.author(Action::Remove { author: 0, member: 1 }, Site::ControlRemoval);
    let ghost steps1 = group.steps@;
    group.broadcast(remove_b);
    let ghost steps2 = group.steps@;
    let remove_c = group.author(Action::Remove { author: 0, member: 2 }, Site::ControlRemoval);
    let ghost steps3 = group.steps@;
    group.broadcast(remove_c);
    let ghost steps4 = group.steps@;
    proof {
        lemma_push(steps4, removal(0, 0, Site::ControlGuard));
        lemma_push(
            steps4.push(removal(0, 0, Site::ControlGuard)),
            addition(0, 3, Site::ControlProgress),
        );
    }
    group.call(Action::Remove { author: 0, member: 0 }, Site::ControlGuard);
    let ghost steps5 = group.steps@;
    assert(group.drawn_from(all));
    let joiner = group.enlist(&mut rng);
    group.call(Action::Add { author: 0, member: joiner }, Site::ControlProgress);
    assert(group.drawn_from(all));
    proof {
        law_control_meets_the_guard();
        lemma_victims_growing(3, 3);
        lemma_victims_push(steps0, removal(0, 1, Site::ControlRemoval));
        lemma_victims_merges(steps1, 2, everyone(3));
        lemma_victims_push(steps2, removal(0, 2, Site::ControlRemoval));
        lemma_victims_merges(steps3, 3, everyone(3));
        lemma_victims_push(steps4, removal(0, 0, Site::ControlGuard));
        lemma_victims_push(steps5, addition(0, 3, Site::ControlProgress));
    }
    group
}

/// Prepares the scenario for a seed.
pub fn scenario(seed: u64) -> (group: Group)
    ensures
        group.wf(),
        group.replicas == 3,
        group.members@.len() == 6,
        group.drawn_from(seeded_blocks(seed)),
        group.steps@ == plan(),
        owners(group.steps@) == everyone(3),
        // The removals are those of the control, ...
        victims(group.steps@) == seq![1usize, 2, 0],
        // ... authored from the same three-member state, none knowing of another, ...
        forall|o: int|
            2 <= o < 5 ==> #[trigger] context(group.steps@, o) == Set::new(|p: int| 0 <= p < 2),
        forall|o: int, p: int|
            2 <= o < 5 && 2 <= p < 5 ==> #[trigger] concurrent(group.steps@, o, p),
        // ... and in the end everyone holds all of them.
        forall|r: int|
            0 <= r < 3 ==> #[trigger] held(group.steps@, r) == Set::new(|o: int| 0 <= o < 5),
        locally_valid(group.steps@),
{
    let ghost all = seeded_blocks(seed);
    let mut rng = seed_rng(seed);
    let mut group = Group::found(3, &mut rng);
    let ghost steps0 = group.steps@;
    let op_a = group.author(Action::Remove { author: 0, member: 1 }, Site::Removing);
    let ghost steps1 = group.steps@;
    let op_b = group.author(Action::Remove { author: 1, member: 2 }, Site::Removing);
    let ghost steps2 = group.steps@;
    let op_c = group.author(Action::Remove { author: 2, member: 0 }, Site::Removing);
    let ghost steps3 = group.steps@;
    group.broadcast(op_a);
    let ghost steps4 = group.steps@;
    group.broadcast(op_b);
    let ghost steps5 = group.steps@;
    group.broadcast(op_c);
    let ghost steps6 = group.steps@;
    let ghost step_a = addition(0, 3, Site::Probe);
    let ghost step_b = addition(1, 4, Site::Probe);
    let ghost step_c = addition(2, 5, Site::Probe);
    proof {
        lemma_push(steps6, step_a);
        lemma_push(steps6.push(step_a), step_b);
        lemma_push(steps6.push(step_a).push(step_b), step_c);
    }
    assert(group.drawn_from(all));
    let joiner = group.enlist(&mut rng);
    group.call(Action::Add { author: 0, member: joiner }, Site::Probe);
    assert(group.drawn_from(all));
    let joiner = group.enlist(&mut rng);
    group.call(Action::Add { author: 1, member: joiner }, Site::Probe);
    assert(group.drawn_from(all));
    let joiner = group.enlist(&mut rng);
    group.call(Action::Add { author: 2, member: joiner }, Site::Probe);
    assert(group.drawn_from(all));
    proof {
        lemma_plan_rows();
        lemma_victims_growing(3, 3);
        lemma_victims_push(steps0, removal(0, 1, Site::Removing));
        lemma_victims_push(steps1, removal(1, 2, Site::Removing));
        lemma_victims_push(steps2, removal(2, 0, Site::Removing));
        lemma_victims_merges(steps3, 2, everyone(3));
        lemma_victims_merges(steps4, 3, everyone(3));
        lemma_victims_merges(steps5, 4, everyone(3));
        lemma_victims_push(steps6, step_a);
        lemma_victims_push(steps6.push(step_a), step_b);
        lemma_victims_push(steps6.push(step_a).push(step_b), step_c);
    }
    group
}

/// What the control came to, once it has been run: success where it made all
/// its calls, or the refusal that ended it. A control that panicked has no
/// result.
pub fn control_result(run: &Run) -> (r: Result<(), String>)
    requires
        run.wf(),
        run.steps@ == control_plan(),
        !open_at(run.steps@, run.progress()),
        !(run.progress().ending matches Some(Judged::Panic(_))),
    ensures
        r is Ok <==> run.at == control_plan().len(),
        r matches Err(e) ==> run.progress().ending == Some(Judged::Refuse(e@)),
        run.ending is None ==> r is Ok,
        run.ending matches Some(Judgement::Refuse(m)) ==> (r matches Err(e) && e@ == m@),
        // Success is owed to the replies alone.
        forall|replies: Seq<Seen>|
            run.progress() == #[trigger] replayed(control_plan(), replies) && fitting(
                control_plan(),
                replies,
            ) ==> (r is Ok <==> replies.len() == control_plan().len() && as_expected(replies)),
{
    proof {
        assert forall|replies: Seq<Seen>|
            run.progress() == #[trigger] replayed(control_plan(), replies) && fitting(
                control_plan(),
                replies,
            ) implies (run.ending is None <==> replies.len() == control_plan().len()
            && as_expected(replies)) by {
            law_control_passes_exactly_when_the_guard_refuses_cleanly(replies);
            law_run_goes_on_exactly_when_every_reply_is_accepted(control_plan(), replies);
        }
    }
    match &run.ending {
        Some(Judgement::Refuse(e)) => Err(e.clone()),
        _ => Ok(()),
    }
}

/// A replica of a seed and the error that it is left in.
pub open spec fn detail_part(e: (int, Seq<char>)) -> Seq<char> {
    "replica "@ + decimal(e.0 as nat) + ": "@ + e.1
}

/// The replicas that a seed left wedged, each with its error.
pub open spec fn detail(wedged: Seq<(int, Seq<char>)>) -> Seq<char> {
    joined(wedged.map_values(|e: (int, Seq<char>)| detail_part(e)), ", "@)
}

fn detail_text(wedged: &Vec<(usize, String)>) -> (r: String)
    ensures
        r@ == detail(recorded_view(wedged@)),
{
    let ghost parts = recorded_view(wedged@).map_values(|e: (int, Seq<char>)| detail_part(e));
    let mut all: Vec<String> = Vec::new();
    for i in 0..wedged.len()
        invariant
            parts == recorded_view(wedged@).map_values(|e: (int, Seq<char>)| detail_part(e)),
            views(all@) == parts.take(i as int),
    {
        let mut part = "replica ".to_owned();
        part.append(decimal_text(wedged[i].0 as u64).as_str());
        part.append(": ");
        part.append(wedged[i].1.as_str());
        let ghost was = views(all@);
        all.push(part);
        proof {
            assert(views(all@) == was.push(part@));
            assert(parts[i as int] == part@);
            assert(parts.take(i + 1) == parts.take(i as int).push(part@));
        }
    }
    assert(parts.take(wedged@.len() as int) == parts);
    join(&all, ", ")
}

/// The seeds of a sweep that left a replica wedged, each with its detail, in
/// order. `outcomes` holds for each seed the replicas that it left wedged.
pub open spec fn wedged_seeds(outcomes: Seq<Seq<(int, Seq<char>)>>) -> Seq<(u64, Seq<char>)>
    decreases outcomes.len(),
{
    if outcomes.len() == 0 {
        Seq::empty()
    } else {
        let before = wedged_seeds(outcomes.drop_last());
        if outcomes.last().len() > 0 {
            before.push(((SEED_BASE + outcomes.len() - 1) as u64, detail(outcomes.last())))
        } else {
            before
        }
    }
}

/// The lines of the report: one for each of the first two wedged seeds.
pub open spec fn report_on(wedged: Seq<(u64, Seq<char>)>) -> Seq<char> {
    let line = |e: (u64, Seq<char>)| "\n  seed "@ + hex(e.0 as nat) + ": "@ + e.1;
    if wedged.len() == 0 {
        Seq::empty()
    } else if wedged.len() == 1 {
        line(wedged[0])
    } else {
        line(wedged[0]) + line(wedged[1])
    }
}

/// The message with which a sweep fails.
pub open spec fn failure(wedged: Seq<(u64, Seq<char>)>) -> Seq<char> {
    "three concurrent removals in a three-member group left the tree unmaterializable on "@
        + decimal(wedged.len()) + " of "@ + decimal(SEEDS as nat)
        + " seeds; the error is re-derived from the durable operation graph on every replica and every call, so the group can never make progress again"@
        + report_on(wedged)
}

/// The outcomes of a sweep, with their texts as characters.
pub open spec fn outcome_views(outcomes: Seq<Vec<(usize, String)>>) -> Seq<Seq<(int, Seq<char>)>> {
    outcomes.map_values(|o: Vec<(usize, String)>| recorded_view(o@))
}

fn seed_line(e: &(u64, String)) -> (r: String)
    ensures
        r@ == "\n  seed "@ + hex(e.0 as nat) + ": "@ + e.1@,
{
    let mut r = "\n  seed ".to_owned();
    r.append(hex_text(e.0).as_str());
    r.append(": ");
    r.append(e.1.as_str());
    r
}

fn report(wedged: &Vec<(u64, String)>) -> (r: String)
    ensures
        r@ == report_on(noted(wedged@)),
{
    if wedged.len() == 0 {
        String::new()
    } else if wedged.len() == 1 {
        seed_line(&wedged[0])
    } else {
        let mut r = seed_line(&wedged[0]);
        r.append(seed_line(&wedged[1]).as_str());
        r
    }
}

/// Judges a sweep: first by its control, then by the replicas that each seed,
/// in order, left wedged.
pub fn verdict(control: &Result<(), String>, outcomes: &Vec<Vec<(usize, String)>>) -> (r: Result<
    (),
    String,
>)
    requires
        control is Ok ==> outcomes@.len() == SEEDS,
    ensures
        r is Ok <==> control is Ok && forall|i: int|
            0 <= i < SEEDS ==> (#[trigger] outcomes@[i])@.len() == 0,
        control matches Err(e) ==> (r matches Err(m) && m@
            == "the sequential control did not behave as expected: "@ + e@),
        control is Ok ==> (r matches Err(m) ==> m@ == failure(
            wedged_seeds(outcome_views(outcomes@)),
        )),
{
    if let Err(e) = control {
        let mut m = "the sequential control did not behave as expected: ".to_owned();
        m.append(e.as_str());
        return Err(m);
    }
    let ghost all = outcome_views(outcomes@);
    let mut wedged: Vec<(u64, String)> = Vec::new();
    assert(noted(wedged@) == wedged_seeds(all.take(0)));
    for i in 0..outcomes.len()
        invariant
            outcomes@.len() == SEEDS,
            all == outcome_views(outcomes@),
            noted(wedged@) == wedged_seeds(all.take(i as int)),
    {
        assert(all.take(i + 1).drop_last() == all.take(i as int));
        assert(all.take(i + 1).last() == recorded_view(outcomes@[i as int]@));
        if outcomes[i].len() > 0 {
            let ghost was = noted(wedged@);
            let text = detail_text(&outcomes[i]);
            wedged.push((SEED_BASE + i as u64, text));
            assert(noted(wedged@) == was.push(((SEED_BASE + i) as u64, text@)));
        }
    }
    proof {
        assert(all.take(SEEDS as int) == all);
        law_passes_exactly_when_no_seed_wedges(all);
        if forall|i: int| 0 <= i < SEEDS ==> (#[trigger] outcomes@[i])@.len() == 0 {
            assert forall|i: int| 0 <= i < all.len() implies (#[trigger] all[i]).len() == 0 by {
                assert(outcomes@[i]@.len() == 0);
            }
        } else {
            let i = choose|i: int| 0 <= i < SEEDS && (#[trigger] outcomes@[i])@.len() != 0;
            assert(all[i].len() > 0);
        }
    }
    if wedged.len() == 0 {
        return Ok(());
    }
    let mut m =
        "three concurrent removals in a three-member group left the tree unmaterializable on ".to_owned();
    m.append(decimal_text(wedged.len() as u64).as_str());
    m.append(" of ");
    m.append(decimal_text(SEEDS).as_str());
    m.append(
        " seeds; the error is re-derived from the durable operation graph on every replica and every call, so the group can never make progress again",
    );
    m.append(report(&wedged).as_str());
    Err(m)
}

/// Nothing is counted against a sweep exactly when no seed left any replica
/// wedged.
pub proof fn law_passes_exactly_when_no_seed_wedges(outcomes: Seq<Seq<(int, Seq<char>)>>)
    ensures
        wedged_seeds(outcomes).len() == 0 <==> (forall|i: int|
            0 <= i < outcomes.len() ==> (#[trigger] outcomes[i]).len() == 0),
    decreases outcomes.len(),
{
    if outcomes.len() > 0 {
        let before = outcomes.drop_last();
        law_passes_exactly_when_no_seed_wedges(before);
        assert(outcomes.last() == outcomes[outcomes.len() - 1]);
        if forall|i: int| 0 <= i < before.len() ==> (#[trigger] before[i]).len() == 0 {
            assert forall|i: int| 0 <= i < outcomes.len() - 1 implies (
            #[trigger] outcomes[i]).len() == 0 by {
                assert(before[i].len() == 0);
            }
        } else {
            let i = choose|i: int| 0 <= i < before.len() && (#[trigger] before[i]).len() != 0;
            assert(outcomes[i].len() != 0);
        }
    }
}

/// What the control counts on at each site: removals and deliveries go through,
/// the guard refuses to remove the last member, and a further add does not fail.
pub open spec fn control_expects(site: Site, reply: Seen) -> bool {
    match site {
        Site::ControlGuard => reply matches Seen::Failed { last_member, .. } && last_member,
        Site::ControlProgress => !(reply is Failed),
        _ => reply is Done,
    }
}

/// Every reply is what the control counts on.
pub open spec fn as_expected(replies: Seq<Seen>) -> bool {
    forall|i: int|
        0 <= i < replies.len() ==> control_expects(
            (#[trigger] control_plan()[i]).site,
            replies[i],
        )
}

/// The control goes on exactly as long as every reply is what it counts on: it
/// is not enough that the last removal fails, nor that it goes through.
pub proof fn law_control_passes_exactly_when_the_guard_refuses_cleanly(replies: Seq<Seen>)
    requires
        fitting(control_plan(), replies),
    ensures
        replayed(control_plan(), replies).ending is None <==> as_expected(replies),
{
    let steps = control_plan();
    lemma_control_sites();
    assert forall|i: int| 0 <= i < replies.len() implies accepted(
        (#[trigger] steps[i]).site,
        replies[i],
    ) == control_expects(steps[i].site, replies[i]) by {
        assert(steps[i].site.fits(replies[i]));
    }
    law_run_goes_on_exactly_when_every_reply_is_accepted(steps, replies);
    if forall|i: int|
        0 <= i < replies.len() ==> accepted((#[trigger] steps[i]).site, replies[i]) {
        assert forall|i: int| 0 <= i < replies.len() implies control_expects(
            (#[trigger] steps[i]).site,
            replies[i],
        ) by {
            assert(accepted(steps[i].site, replies[i]));
        }
    } else {
        let i = choose|i: int|
            0 <= i < replies.len() && !accepted((#[trigger] steps[i]).site, replies[i]);
        assert(!control_expects(steps[i].site, replies[i]));
    }
}

/// The sites of the control: what it removes and delivers, then the guard and
/// the further add.
proof fn lemma_control_sites()
    ensures
        forall|i: int|
            0 <= i < control_plan().len() - 2 ==> (#[trigger] control_plan()[i]).site.strict()
                || control_plan()[i].site is ControlRemoval,
        control_plan()[control_plan().len() - 2].site is ControlGuard,
        control_plan()[control_plan().len() - 1].site is ControlProgress,
{
    lemma_founding_is_strict(3, 3);
}

/// The sites of the scenario: calls that have to go through, then three probes.
proof fn lemma_plan_sites()
    ensures
        forall|i: int| 0 <= i < plan().len() - 3 ==> (#[trigger] plan()[i]).site.strict(),
        plan()[plan().len() - 3] == addition(0, 3, Site::Probe),
        plan()[plan().len() - 2] == addition(1, 4, Site::Probe),
        plan()[plan().len() - 1] == addition(2, 5, Site::Probe),
{
    lemma_founding_is_strict(3, 3);
}

/// The run comes to its end exactly when founding, removals and deliveries go
/// through, whatever the closing adds come to. Otherwise it ends in a panic.
pub proof fn law_run_reaches_its_end_exactly_when_the_removals_reach_everyone(replies: Seq<Seen>)
    requires
        replies.len() == plan().len(),
        fitting(plan(), replies),
    ensures
        replayed(plan(), replies).ending is None <==> (forall|i: int|
            0 <= i < replies.len() - 3 ==> (#[trigger] replies[i]) is Done),
        replayed(plan(), replies).ending is None ==> replayed(plan(), replies).at == plan().len(),
        replayed(plan(), replies).ending matches Some(j) ==> j is Panic,
{
    let steps = plan();
    lemma_plan_sites();
    assert forall|i: int| 0 <= i < steps.len() implies (#[trigger] steps[i]).site.strict()
        || steps[i].site.lenient() by {
        if i >= steps.len() - 3 {
            assert(i == steps.len() - 3 || i == steps.len() - 2 || i == steps.len() - 1);
        }
    }
    law_run_reaches_its_end_exactly_when_its_calls_go_through(steps, replies);
    if gone_through(steps, replies) {
        assert forall|i: int| 0 <= i < replies.len() - 3 implies (#[trigger] replies[i]) is Done by {
            assert(steps[i].site.strict());
        }
    } else {
        let i = choose|i: int|
            0 <= i < replies.len() && (#[trigger] steps[i]).site.strict() && !(replies[i] is Done);
        assert(i < replies.len() - 3);
        assert(!(replies[i] is Done));
    }
}

/// What one probe adds to the wedged replicas.
pub open spec fn probe_result(replica: int, reply: Seen) -> Seq<(int, Seq<char>)> {
    match reply {
        Seen::Failed { shown, .. } => seq![(replica, shown)],
        _ => Seq::empty(),
    }
}

/// Where founding, removals and deliveries go through, the run makes all its
/// calls, and the replicas it notes as wedged are exactly those on which the
/// closing add fails, in order and with that error.
pub proof fn law_wedged_replicas_are_those_that_cannot_add(replies: Seq<Seen>)
    requires
        replies.len() == plan().len(),
        forall|i: int| 0 <= i < replies.len() - 3 ==> (#[trigger] replies[i]) is Done,
    ensures
        replayed(plan(), replies) == (Progress {
            at: plan().len() as int,
            recorded: probe_result(0, replies[replies.len() - 3]) + probe_result(
                1,
                replies[replies.len() - 2],
            ) + probe_result(2, replies[replies.len() - 1]),
            ending: None,
        }),
{
    let steps = plan();
    let n = steps.len() - 3;
    lemma_plan_sites();
    assert forall|i: int| 0 <= i < replies.len() implies accepted(
        (#[trigger] steps[i]).site,
        replies[i],
    ) by {
        if i < n {
            assert(replies[i] is Done);
        }
    }
    law_accepted_replies_carry_the_run(steps, replies);
    let r2 = replies.drop_last();
    let r1 = r2.drop_last();
    let r0 = r1.drop_last();
    lemma_no_probe_errors(steps, r0);
    assert(probe_errors(steps, r1) == probe_result(0, replies[n]));
    assert(probe_errors(steps, r2) == probe_result(0, replies[n]) + probe_result(1, replies[n + 1]));
    assert(probe_errors(steps, replies) == probe_result(0, replies[n]) + probe_result(
        1,
        replies[n + 1],
    ) + probe_result(2, replies[n + 2]));
}

/// The outcome of a seed is seen at its place: every replica that was noted with
/// the text noted for it.
pub proof fn law_outcomes_are_seen_in_place(outcomes: Seq<Vec<(usize, String)>>, i: int)
    requires
        0 <= i < outcomes.len(),
    ensures
        outcome_views(outcomes).len() == outcomes.len(),
        outcome_views(outcomes)[i].len() == outcomes[i]@.len(),
        forall|k: int|
            0 <= k < outcomes[i]@.len() ==> (#[trigger] outcome_views(outcomes)[i][k]) == (
                outcomes[i]@[k].0 as int,
                outcomes[i]@[k].1@,
            ),
{
}

/// The detail of a seed names every wedged replica with its error, in order,
/// with commas between them.
pub proof fn law_detail_names_every_wedged_replica(
    a: Seq<(int, Seq<char>)>,
    b: Seq<(int, Seq<char>)>,
    replica: nat,
    error: Seq<char>,
)
    ensures
        detail(Seq::empty()) == Seq::<char>::empty(),
        detail(seq![(replica as int, error)]) == "replica "@ + decimal(replica) + ": "@ + error,
        a.len() > 0 && b.len() > 0 ==> detail(a + b) == detail(a) + ", "@ + detail(b),
{
    let part = |e: (int, Seq<char>)| detail_part(e);
    let none = Seq::<(int, Seq<char>)>::empty();
    let one = seq![(replica as int, error)];
    assert(none.map_values(part) == Seq::<Seq<char>>::empty());
    assert(one.map_values(part) == seq![detail_part((replica as int, error))]);
    assert((a + b).map_values(part) == a.map_values(part) + b.map_values(part));
    law_joining_puts_the_separator_between(a.map_values(part), b.map_values(part), ", "@);
    law_joining_puts_the_separator_between(one.map_values(part), Seq::empty(), ", "@);
}

/// Wedged seeds are listed in the order of the sweep, and none twice.
pub proof fn law_wedged_seeds_go_up(outcomes: Seq<Seq<(int, Seq<char>)>>)
    requires
        outcomes.len() <= SEEDS,
    ensures
        forall|k: int|
            0 <= k < wedged_seeds(outcomes).len() ==> 0xd1ff_0000 <= (#[trigger] wedged_seeds(
                outcomes,
            )[k]).0 < 0xd1ff_0000 + outcomes.len(),
        forall|k: int, l: int|
            0 <= k < l < wedged_seeds(outcomes).len() ==> (#[trigger] wedged_seeds(outcomes)[k]).0
                < (#[trigger] wedged_seeds(outcomes)[l]).0,
    decreases outcomes.len(),
{
    if outcomes.len() > 0 {
        let p = wedged_seeds(outcomes.drop_last());
        let s = wedged_seeds(outcomes);
        law_wedged_seeds_go_up(outcomes.drop_last());
        assert forall|k: int| 0 <= k < s.len() implies 0xd1ff_0000 <= (#[trigger] s[k]).0
            < 0xd1ff_0000 + outcomes.len() by {
            if k < p.len() {
                assert(s[k] == p[k]);
            }
        }
        assert forall|k: int, l: int| 0 <= k < l < s.len() implies (#[trigger] s[k]).0 < (
        #[trigger] s[l]).0 by {
            assert(s[k] == p[k]);
            if l < p.len() {
                assert(s[l] == p[l]);
            }
        }
    }
}

/// A seed is listed exactly when it left some replica wedged, and then with the
/// detail of all that it left wedged.
pub proof fn law_wedged_seeds_are_those_with_a_wedged_replica(
    outcomes: Seq<Seq<(int, Seq<char>)>>,
    i: int,
)
    requires
        0 <= i < outcomes.len() <= SEEDS,
    ensures
        forall|text: Seq<char>| #[trigger]
            wedged_seeds(outcomes).contains(((0xd1ff_0000 + i) as u64, text))
                <==> outcomes[i].len() > 0 && text == detail(outcomes[i]),
    decreases outcomes.len(),
{
    let earlier = outcomes.drop_last();
    let n = outcomes.len() - 1;
    let seed = (0xd1ff_0000 + i) as u64;
    let last = (0xd1ff_0000 + n) as u64;
    let s = wedged_seeds(outcomes);
    let p = wedged_seeds(earlier);
    law_wedged_seeds_go_up(earlier);
    assert(outcomes.last() == outcomes[n]);
    if i < n {
        law_wedged_seeds_are_those_with_a_wedged_replica(earlier, i);
        assert(earlier[i] == outcomes[i]);
    }
    assert forall|text: Seq<char>| #[trigger]
        s.contains((seed, text)) <==> outcomes[i].len() > 0 && text == detail(outcomes[i]) by {
        lemma_push_contains(p, (last, detail(outcomes[n])), (seed, text));
        assert(i < n ==> p.contains((seed, text)) == (outcomes[i].len() > 0 && text == detail(
            outcomes[i],
        )));
    }
}

/// The message of a failed sweep. It says how many seeds left a replica wedged
/// and shows the first two of them, each with its detail.
pub proof fn law_what_a_failed_sweep_says(wedged: Seq<(u64, Seq<char>)>)
    ensures
        failure(wedged)
            == "three concurrent removals in a three-member group left the tree unmaterializable on "@
            + decimal(wedged.len()) + " of "@ + decimal(8)
            + " seeds; the error is re-derived from the durable operation graph on every replica and every call, so the group can never make progress again"@
            + (if wedged.len() == 0 {
            Seq::empty()
        } else if wedged.len() == 1 {
            "\n  seed "@ + hex(wedged[0].0 as nat) + ": "@ + wedged[0].1
        } else {
            ("\n  seed "@ + hex(wedged[0].0 as nat) + ": "@ + wedged[0].1) + ("\n  seed "@ + hex(
                wedged[1].0 as nat,
            ) + ": "@ + wedged[1].1)
        }),
{
}

} // verus!
