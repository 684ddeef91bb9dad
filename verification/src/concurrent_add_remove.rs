//! A concurrent add must not be destroyed by a concurrent removal of the
//! trailing member.

use crate::group::{
    authored, concurrent, context, everyone, founding, held, lemma_push, merges, owners, Action,
    Group, Site, Step,
};
use crate::keys::{blocks, drawn, seed_rng, seeded_blocks, share, Share};
use crate::leaves::{
    law_freed_trailing_leaf_is_taken_again, lemma_not_lone, lemma_seat, pushed, removed, seat,
    seated,
};
use crate::rows::{
    author_row, filled, law_founding_leaves_all_replicas_alike, lemma_filled, lemma_row_merges,
    lemma_row_push, row,
};
use crate::run::{
    fitting, gone_through, law_run_reaches_its_end_exactly_when_its_calls_go_through,
    lemma_founding_is_strict, lemma_no_probe_errors, replayed, Progress, Seen,
};
use crate::sweep::{lemma_push_contains, noted};
use crate::text::{
    contains, decimal, decimal_text, hex, hex_text, join, joined, occurs, views,
};
use rand::rngs::StdRng;
use vstd::prelude::*;

verus! {

/// The first seed of the sweep.
pub const SEED_BASE: u64 = 0x5107_0000;

/// How many seeds the sweep covers.
pub const SEEDS: u64 = 64;

/// The assertion that the defect trips in a debug build. A panic counts as this
/// defect only where its message holds this text.
pub const EXPECTED_ASSERTION: &'static str = "self.leaf(leaf_idx).is_none()";

/// The calls of the scenario. Of three founders `a`, `b` and `c`, with `d` yet
/// to join: `b` adds `d` while `a` removes `c`, both reach everyone, and a heal
/// of `a` that follows both reaches everyone.
pub open spec fn plan() -> Seq<Step> {
    (founding(3).push(
        Step { action: Action::Add { author: 1, member: 3 }, site: Site::Adding },
    ).push(Step { action: Action::Remove { author: 0, member: 2 }, site: Site::Removing }) + merges(
        2,
        everyone(3),
    ) + merges(3, everyone(3))).push(
        Step { action: Action::Update { author: 0 }, site: Site::Healing },
    ) + merges(4, everyone(3))
}

/// The calls collide: `c` has the trailing leaf when `a` removes it, and an add
/// of `d` that is applied after the removal takes that very leaf, which the
/// removal has on record for `c`.
pub open spec fn collides(steps: Seq<Step>) -> bool {
    let row = author_row(steps, 3);
    &&& seated(row, 2)
    &&& seat(row, 2) == row.next - 1
    &&& removed(row, 2) matches Some(after) && seat(pushed(after, 3), 3) == seat(row, 2)
}

/// `a` removes `c` from the row that founding left.
proof fn lemma_plan_rows()
    ensures
        author_row(plan(), 3) == filled(3),
{
    let add = Step { action: Action::Add { author: 1, member: 3 }, site: Site::Adding };
    let remove = Step { action: Action::Remove { author: 0, member: 2 }, site: Site::Removing };
    let heal = Step { action: Action::Update { author: 0 }, site: Site::Healing };
    let steps0 = founding(3);
    let steps1 = steps0.push(add);
    let steps2 = steps1.push(remove);
    let steps3 = steps2 + merges(2, everyone(3));
    let steps4 = steps3 + merges(3, everyone(3));
    let steps5 = steps4.push(heal);
    assert(authored(steps1) == 3 && row(steps1, 0) == filled(3)) by {
        law_founding_leaves_all_replicas_alike(3, 3);
        lemma_push(steps0, add);
        lemma_row_push(steps0, add);
    }
    assert(authored(steps2) == 4 && author_row(steps2, 3) == filled(3)) by {
        lemma_push(steps1, remove);
        lemma_row_push(steps1, remove);
    }
    assert(authored(steps4) == 4 && author_row(steps4, 3) == filled(3)) by {
        lemma_row_merges(steps2, 2, everyone(3));
        lemma_row_merges(steps3, 3, everyone(3));
    }
    assert(author_row(steps5, 3) == filled(3)) by {
        lemma_row_push(steps4, heal);
    }
    assert(author_row(plan(), 3) == filled(3)) by {
        lemma_row_merges(steps5, 4, everyone(3));
    }
}

proof fn lemma_plan_collides()
    ensures
        collides(plan()),
{
    let row = filled(3);
    lemma_plan_rows();
    lemma_filled();
    lemma_seat(row, 0);
    lemma_seat(row, 2);
    lemma_not_lone(row, 0, 2);
    assert(!seated(row, 3));
    law_freed_trailing_leaf_is_taken_again(row, 2, 3);
}

/// The calls behind the founding, one by one: the add and the removal, made
/// before either is merged, then each merged into all three replicas, then the
/// heal and its merging.
pub proof fn law_calls_of_the_scenario()
    ensures
        plan() == founding(3) + seq![
            Step { action: Action::Add { author: 1, member: 3 }, site: Site::Adding },
            Step { action: Action::Remove { author: 0, member: 2 }, site: Site::Removing },
            Step { action: Action::Merge { replica: 0, op: 2 }, site: Site::Delivery },
            Step { action: Action::Merge { replica: 1, op: 2 }, site: Site::Delivery },
            Step { action: Action::Merge { replica: 2, op: 2 }, site: Site::Delivery },
            Step { action: Action::Merge { replica: 0, op: 3 }, site: Site::Delivery },
            Step { action: Action::Merge { replica: 1, op: 3 }, site: Site::Delivery },
            Step { action: Action::Merge { replica: 2, op: 3 }, site: Site::Delivery },
            Step { action: Action::Update { author: 0 }, site: Site::Healing },
            Step { action: Action::Merge { replica: 0, op: 4 }, site: Site::Delivery },
            Step { action: Action::Merge { replica: 1, op: 4 }, site: Site::Delivery },
            Step { action: Action::Merge { replica: 2, op: 4 }, site: Site::Delivery },
        ],
{
    assert(everyone(3) =~= seq![0usize, 1, 2]);
}

/// A scenario ready to be run: the group with its plan, the key that the heal
/// moves to, and the generator that the heal goes on drawing from.
pub struct Scenario {
    pub group: Group,
    pub heal: Share,
    pub rng: StdRng,
}

/// Prepares the scenario for a seed.
pub fn scenario(seed: u64) -> (s: Scenario)
    ensures
        s.group.wf(),
        s.group.replicas == 3,
        s.group.members@.len() == 4,
        s.group.drawn_from(seeded_blocks(seed)),
        s.heal.of(seeded_blocks(seed)[9]),
        drawn(s.rng, seeded_blocks(seed), 10),
        s.group.steps@ == plan(),
        owners(s.group.steps@) == everyone(3),
        // `b`'s add and `a`'s removal do not know of each other, ...
        concurrent(s.group.steps@, 2, 3),
        // ... the heal knows of both, ...
        context(s.group.steps@, 4) == Set::new(|o: int| 0 <= o < 4),
        // ... and in the end everyone holds everything.
        forall|r: int|
            0 <= r < 3 ==> #[trigger] held(s.group.steps@, r) == Set::new(|o: int| 0 <= o < 5),
        // The two changes meet at one leaf.
        collides(s.group.steps@),
{
    let ghost all = seeded_blocks(seed);
    let mut rng = seed_rng(seed);
    let mut group = Group::found(3, &mut rng);
    assert(group.drawn_from(all));
    let d = group.enlist(&mut rng);
    let add_d = group.author(Action::Add { author: 1, member: d }, Site::Adding);
    let remove_c = group.author(Action::Remove { author: 0, member: 2 }, Site::Removing);
    group.broadcast(add_d);
    group.broadcast(remove_c);
    let ghost mid = blocks(rng);
    let heal = share(&mut rng);
    let op = group.author(Action::Update { author: 0 }, Site::Healing);
    group.broadcast(op);
    proof {
        assert(mid[0] == all[9]);
        assert forall|k: nat| #[trigger] blocks(rng)[k] == all[k + 10] by {
            assert(blocks(rng)[k] == mid[k + 1]);
            assert(mid[k + 1] == all[k + 1 + 9]);
        }
    }
    proof {
        lemma_plan_collides();
    }
    Scenario { group, heal, rng }
}

/// The run comes to its end exactly when every one of its calls goes through.
/// Otherwise it ends in a panic.
pub proof fn law_run_reaches_its_end_exactly_when_every_call_goes_through(replies: Seq<Seen>)
    requires
        replies.len() == plan().len(),
        fitting(plan(), replies),
    ensures
        replayed(plan(), replies).ending is None <==> (forall|i: int|
            0 <= i < replies.len() ==> (#[trigger] replies[i]) is Done),
        replayed(plan(), replies).ending is None ==> replayed(plan(), replies) == (Progress {
            at: plan().len() as int,
            recorded: Seq::empty(),
            ending: None,
        }),
        replayed(plan(), replies).ending matches Some(j) ==> j is Panic,
{
    let steps = plan();
    assert(forall|i: int| 0 <= i < steps.len() ==> (#[trigger] steps[i]).site.strict()) by {
        lemma_founding_is_strict(3, 3);
    }
    law_run_reaches_its_end_exactly_when_its_calls_go_through(steps, replies);
    lemma_no_probe_errors(steps, replies);
    if gone_through(steps, replies) {
        assert forall|i: int| 0 <= i < replies.len() implies (#[trigger] replies[i]) is Done by {
            assert(steps[i].site.strict());
        }
    }
}

/// The replica that is inspected after the run: `b`'s.
pub const INSPECTED: usize = 1;

/// The ids of the members that the inspection asks for.
#[derive(Clone, Copy, Debug)]
pub struct Subjects {
    pub a: [u8; 32],
    pub b: [u8; 32],
    pub c: [u8; 32],
    pub d: [u8; 32],
}

/// Names the members of the scenario: the founders in order, then the member
/// that is added.
pub fn subjects(s: &Scenario) -> (r: Subjects)
    requires
        s.group.members@.len() == 4,
    ensures
        r.a == s.group.members@[0].id,
        r.b == s.group.members@[1].id,
        r.c == s.group.members@[2].id,
        r.d == s.group.members@[3].id,
{
    let members = &s.group.members;
    Subjects { a: members[0].id, b: members[1].id, c: members[2].id, d: members[3].id }
}

/// What the tree says of one member: whether it counts it, and whether it has a
/// key at its leaf.
#[derive(Clone, Copy, PartialEq, Eq, Debug)]
pub struct Standing {
    pub member: bool,
    pub leaf: bool,
}

/// What the inspected tree says of `a`, `b` and `d`, whether it still counts
/// `c`, and how many members it counts.
#[derive(Clone, Copy, PartialEq, Eq, Debug)]
pub struct Inspection {
    pub a: Standing,
    pub b: Standing,
    pub d: Standing,
    pub c: bool,
    pub count: usize,
}

/// What is wrong with a member that belongs to the group.
pub open spec fn standing_faults(name: Seq<char>, s: Standing) -> Seq<Seq<char>> {
    if !s.member {
        seq![name + " is no longer a member"@]
    } else if !s.leaf {
        seq![name + " is counted as a member but its leaf has been blanked"@]
    } else {
        Seq::empty()
    }
}

/// What is wrong with the tree.
pub open spec fn faults(i: Inspection) -> Seq<Seq<char>> {
    standing_faults("a"@, i.a) + standing_faults("b"@, i.b) + standing_faults("d (added)"@, i.d) + (
    if i.c {
        seq!["c (removed) is still a member"@]
    } else {
        Seq::empty()
    }) + (if i.count != 3 {
        seq!["member_count is "@ + decimal(i.count as nat) + ", expected 3 (a, b, d)"@]
    } else {
        Seq::empty()
    })
}

fn inspect_member(name: &str, s: Standing, violations: &mut Vec<String>)
    ensures
        views(final(violations)@) == views(old(violations)@) + standing_faults(name@, s),
{
    let ghost was = views(violations@);
    if !s.member {
        let mut v = name.to_owned();
        v.append(" is no longer a member");
        violations.push(v);
        assert(views(violations@) == was.push(v@));
    } else if !s.leaf {
        let mut v = name.to_owned();
        v.append(" is counted as a member but its leaf has been blanked");
        violations.push(v);
        assert(views(violations@) == was.push(v@));
    }
}

/// The invariants of the tree that are violated: every member it counts has a
/// leaf, the removed member is gone, and nobody else is.
pub fn violations(i: &Inspection) -> (r: Vec<String>)
    ensures
        views(r@) == faults(*i),
        views(r@) == (if !i.a.member {
            seq!["a"@ + " is no longer a member"@]
        } else if !i.a.leaf {
            seq!["a"@ + " is counted as a member but its leaf has been blanked"@]
        } else {
            Seq::empty()
        }) + (if !i.b.member {
            seq!["b"@ + " is no longer a member"@]
        } else if !i.b.leaf {
            seq!["b"@ + " is counted as a member but its leaf has been blanked"@]
        } else {
            Seq::empty()
        }) + (if !i.d.member {
            seq!["d (added)"@ + " is no longer a member"@]
        } else if !i.d.leaf {
            seq!["d (added)"@ + " is counted as a member but its leaf has been blanked"@]
        } else {
            Seq::empty()
        }) + (if i.c {
            seq!["c (removed) is still a member"@]
        } else {
            Seq::empty()
        }) + (if i.count != 3 {
            seq!["member_count is "@ + decimal(i.count as nat) + ", expected 3 (a, b, d)"@]
        } else {
            Seq::empty()
        }),
{
    let mut r: Vec<String> = Vec::new();
    inspect_member("a", i.a, &mut r);
    inspect_member("b", i.b, &mut r);
    inspect_member("d (added)", i.d, &mut r);
    let ghost was = views(r@);
    if i.c {
        let v = "c (removed) is still a member".to_owned();
        r.push(v);
        assert(views(r@) == was.push(v@));
    }
    let ghost was = views(r@);
    if i.count != 3 {
        let mut v = "member_count is ".to_owned();
        v.append(decimal_text(i.count as u64).as_str());
        v.append(", expected 3 (a, b, d)");
        r.push(v);
        assert(views(r@) == was.push(v@));
    }
    r
}

/// How one seed came out: with a panic and its message, or with the violations
/// that the inspection found.
#[derive(Debug)]
pub enum Outcome {
    Panicked(String),
    Finished(Vec<String>),
}

/// An outcome, with its texts as characters.
pub enum Came {
    Panicked(Seq<char>),
    Finished(Seq<Seq<char>>),
}

impl View for Outcome {
    type V = Came;

    open spec fn view(&self) -> Came {
        match self {
            Outcome::Panicked(m) => Came::Panicked(m@),
            Outcome::Finished(v) => Came::Finished(views(v@)),
        }
    }
}

/// The outcomes, with their texts as characters.
pub open spec fn outcome_views(outcomes: Seq<Outcome>) -> Seq<Came> {
    outcomes.map_values(|o: Outcome| o@)
}

impl Came {
    /// The defect's own assertion fired.
    pub open spec fn asserted(self) -> bool {
        self matches Came::Panicked(m) && occurs(EXPECTED_ASSERTION@, m)
    }

    /// Some other panic was hit.
    pub open spec fn unrelated(self) -> bool {
        self matches Came::Panicked(m) && !occurs(EXPECTED_ASSERTION@, m)
    }

    /// The run went through and left a broken tree.
    pub open spec fn corrupted(self) -> bool {
        self matches Came::Finished(v) && v.len() > 0
    }

    /// The run went through and left a sound tree.
    pub open spec fn clean(self) -> bool {
        self matches Came::Finished(v) && v.len() == 0
    }
}

/// The seeds of a sweep by how they came out, in order.
pub struct Sorted {
    pub asserted: Seq<u64>,
    pub corrupted: Seq<(u64, Seq<char>)>,
    pub unexpected: Seq<(u64, Seq<char>)>,
}

/// The sorting after one more seed.
pub open spec fn sorted_with(s: Sorted, seed: u64, o: Came) -> Sorted {
    match o {
        Came::Panicked(m) => if o.asserted() {
            Sorted { asserted: s.asserted.push(seed), ..s }
        } else {
            Sorted { unexpected: s.unexpected.push((seed, m)), ..s }
        },
        Came::Finished(v) => if o.corrupted() {
            Sorted { corrupted: s.corrupted.push((seed, joined(v, "; "@))), ..s }
        } else {
            s
        },
    }
}

/// The sorting of a sweep whose outcomes these are.
pub open spec fn sorted(outcomes: Seq<Came>) -> Sorted
    decreases outcomes.len(),
{
    if outcomes.len() == 0 {
        Sorted { asserted: Seq::empty(), corrupted: Seq::empty(), unexpected: Seq::empty() }
    } else {
        sorted_with(
            sorted(outcomes.drop_last()),
            (SEED_BASE + outcomes.len() - 1) as u64,
            outcomes.last(),
        )
    }
}

/// A sweep under way: its seeds so far, sorted by how they came out.
struct Tally {
    asserted: Vec<u64>,
    corrupted: Vec<(u64, String)>,
    unexpected: Vec<(u64, String)>,
}

impl View for Tally {
    type V = Sorted;

    closed spec fn view(&self) -> Sorted {
        Sorted {
            asserted: self.asserted@,
            corrupted: noted(self.corrupted@),
            unexpected: noted(self.unexpected@),
        }
    }
}

impl Tally {
    /// A sweep that has not begun.
    fn new() -> (t: Tally)
        ensures
            t@ == sorted(Seq::empty()),
    {
        let t = Tally { asserted: Vec::new(), corrupted: Vec::new(), unexpected: Vec::new() };
        assert(noted(t.corrupted@) == Seq::<(u64, Seq<char>)>::empty());
        assert(noted(t.unexpected@) == Seq::<(u64, Seq<char>)>::empty());
        t
    }

    /// Takes the outcome of a seed.
    fn record(&mut self, seed: u64, outcome: &Outcome)
        ensures
            final(self)@ == sorted_with(old(self)@, seed, outcome@),
    {
        let ghost was = *self;
        match outcome {
            Outcome::Panicked(message) => {
                if contains(message.as_str(), EXPECTED_ASSERTION) {
                    self.asserted.push(seed);
                } else {
                    self.unexpected.push((seed, message.clone()));
                    assert(noted(self.unexpected@) == noted(was.unexpected@).push(
                        (seed, message@),
                    ));
                }
            },
            Outcome::Finished(violations) => {
                if violations.len() > 0 {
                    let all = join(violations, "; ");
                    self.corrupted.push((seed, all));
                    assert(noted(self.corrupted@) == noted(was.corrupted@).push((seed, all@)));
                }
            },
        }
    }
}

/// A line of the report: how many seeds came out in one way, and the first.
pub open spec fn counted(n: nat, what: Seq<char>, first: u64) -> Seq<char> {
    "\n  "@ + decimal(n) + what + hex(first as nat)
}

/// The line on seeds that are noted with a text, if there are any.
pub open spec fn counted_notes(notes: Seq<(u64, Seq<char>)>, what: Seq<char>) -> Seq<char> {
    if notes.len() > 0 {
        counted(notes.len(), what, notes[0].0) + " -> "@ + notes[0].1
    } else {
        Seq::empty()
    }
}

/// The report on a sorted sweep: for each kind that occurred how often it did
/// and where first.
pub open spec fn report_on(s: Sorted) -> Seq<char> {
    let asserted = if s.asserted.len() > 0 {
        counted(
            s.asserted.len(),
            " seed(s) tripped BeeKEM's own state assertion ("@ + EXPECTED_ASSERTION@
                + ") in sort_leaves_and_blank_paths_for_concurrent_membership_changes; first: "@,
            s.asserted[0],
        )
    } else {
        Seq::empty()
    };
    asserted + counted_notes(
        s.corrupted,
        " seed(s) corrupted the tree without any error; first: "@,
    ) + counted_notes(
        s.unexpected,
        " seed(s) hit an UNRELATED panic (not this defect and not counted as it); first: "@,
    )
}

/// The seeds on which the defect showed, one way or the other.
pub open spec fn broken(s: Sorted) -> nat {
    s.asserted.len() + s.corrupted.len()
}

/// The message with which a sweep fails.
pub open spec fn failure(s: Sorted) -> Seq<char> {
    "a concurrent add and a concurrent removal of the trailing member broke the tree on "@
        + decimal(broken(s)) + " of "@ + decimal(SEEDS as nat) + " seeds"@ + report_on(s)
}

fn count_line(n: usize, what: &str, first: u64) -> (r: String)
    ensures
        r@ == counted(n as nat, what@, first),
{
    let mut r = "\n  ".to_owned();
    r.append(decimal_text(n as u64).as_str());
    r.append(what);
    r.append(hex_text(first).as_str());
    r
}

fn notes_line(notes: &Vec<(u64, String)>, what: &str) -> (r: String)
    ensures
        r@ == counted_notes(noted(notes@), what@),
{
    if notes.len() > 0 {
        let mut r = count_line(notes.len(), what, notes[0].0);
        r.append(" -> ");
        r.append(notes[0].1.as_str());
        r
    } else {
        String::new()
    }
}

impl Tally {
    /// Writes the report.
    fn report(&self) -> (r: String)
        ensures
            r@ == report_on(self@),
    {
        let mut what = " seed(s) tripped BeeKEM's own state assertion (".to_owned();
        what.append(EXPECTED_ASSERTION);
        what.append(") in sort_leaves_and_blank_paths_for_concurrent_membership_changes; first: ");
        let mut r = if self.asserted.len() > 0 {
            count_line(self.asserted.len(), what.as_str(), self.asserted[0])
        } else {
            String::new()
        };
        r.append(
            notes_line(
                &self.corrupted,
                " seed(s) corrupted the tree without any error; first: ",
            ).as_str(),
        );
        r.append(
            notes_line(
                &self.unexpected,
                " seed(s) hit an UNRELATED panic (not this defect and not counted as it); first: ",
            ).as_str(),
        );
        r
    }

    /// Passes a sweep on which neither the defect nor any other panic showed,
    /// and fails any other with its report.
    fn verdict(&self) -> (r: Result<(), String>)
        requires
            broken(self@) <= usize::MAX,
        ensures
            r is Ok <==> broken(self@) == 0 && self@.unexpected.len() == 0,
            r matches Err(m) ==> m@ == failure(self@),
    {
        let broken: usize = self.asserted.len() + self.corrupted.len();
        if broken == 0 && self.unexpected.len() == 0 {
            return Ok(());
        }
        let mut m =
            "a concurrent add and a concurrent removal of the trailing member broke the tree on ".to_owned();
        m.append(decimal_text(broken as u64).as_str());
        m.append(" of ");
        m.append(decimal_text(SEEDS).as_str());
        m.append(" seeds");
        m.append(self.report().as_str());
        Err(m)
    }
}

/// Judges a sweep by the outcomes of its seeds, in order.
pub fn verdict(outcomes: &Vec<Outcome>) -> (r: Result<(), String>)
    requires
        outcomes@.len() == SEEDS,
    ensures
        r is Ok <==> forall|i: int|
            0 <= i < SEEDS ==> (#[trigger] outcome_views(outcomes@)[i]).clean(),
        r matches Err(m) ==> m@ == failure(sorted(outcome_views(outcomes@))),
        // Only a sweep passes whose every seed went through with nothing found.
        r is Ok <==> forall|i: int|
            0 <= i < outcomes@.len() ==> ((#[trigger] outcomes@[i]) matches Outcome::Finished(v)
                && v@.len() == 0),
        (exists|i: int| 0 <= i < outcomes@.len() && (#[trigger] outcomes@[i]) is Panicked)
            ==> r is Err,
{
    let ghost all = outcome_views(outcomes@);
    let mut t = Tally::new();
    assert(all.take(0) == Seq::<Came>::empty());
    for i in 0..outcomes.len()
        invariant
            outcomes@.len() == SEEDS,
            all == outcome_views(outcomes@),
            t@ == sorted(all.take(i as int)),
    {
        t.record(SEED_BASE + i as u64, &outcomes[i]);
        assert(all.take(i + 1).drop_last() == all.take(i as int));
    }
    assert(all.take(SEEDS as int) == all);
    proof {
        law_each_seed_counts_once(all);
        law_passes_exactly_when_every_seed_is_clean(all);
        assert forall|i: int| 0 <= i < outcomes@.len() implies (#[trigger] all[i]).clean() == (
        outcomes@[i] matches Outcome::Finished(v) && v@.len() == 0) by {
            law_outcomes_are_seen_in_place(outcomes@, i);
        }
        if forall|i: int| 0 <= i < all.len() ==> (#[trigger] all[i]).clean() {
            assert forall|i: int| 0 <= i < outcomes@.len() implies ((
            #[trigger] outcomes@[i]) matches Outcome::Finished(v) && v@.len() == 0) by {
                assert(all[i].clean());
            }
        } else {
            let i = choose|i: int| 0 <= i < all.len() && !(#[trigger] all[i]).clean();
            assert(!(outcomes@[i] matches Outcome::Finished(v) && v@.len() == 0));
        }
    }
    t.verdict()
}

/// How many of the outcomes are clean.
pub open spec fn clean_seeds(outcomes: Seq<Came>) -> nat
    decreases outcomes.len(),
{
    if outcomes.len() == 0 {
        0
    } else if outcomes.last().clean() {
        clean_seeds(outcomes.drop_last()) + 1
    } else {
        clean_seeds(outcomes.drop_last())
    }
}

/// Every seed of a sweep is counted exactly once: as asserted, as corrupted, as
/// an unrelated panic or as clean.
pub proof fn law_each_seed_counts_once(outcomes: Seq<Came>)
    ensures
        broken(sorted(outcomes)) + sorted(outcomes).unexpected.len() + clean_seeds(outcomes)
            == outcomes.len(),
    decreases outcomes.len(),
{
    if outcomes.len() > 0 {
        law_each_seed_counts_once(outcomes.drop_last());
    }
}

/// Nothing is counted against a sweep exactly when every seed went through and
/// left a sound tree.
pub proof fn law_passes_exactly_when_every_seed_is_clean(outcomes: Seq<Came>)
    ensures
        (broken(sorted(outcomes)) == 0 && sorted(outcomes).unexpected.len() == 0) <==> (forall|
            i: int,
        |
            0 <= i < outcomes.len() ==> (#[trigger] outcomes[i]).clean()),
    decreases outcomes.len(),
{
    if outcomes.len() > 0 {
        let before = outcomes.drop_last();
        law_passes_exactly_when_every_seed_is_clean(before);
        assert(outcomes.last() == outcomes[outcomes.len() - 1]);
        if forall|i: int| 0 <= i < before.len() ==> (#[trigger] before[i]).clean() {
            assert forall|i: int| 0 <= i < outcomes.len() - 1 implies (
            #[trigger] outcomes[i]).clean() by {
                assert(before[i].clean());
            }
        } else {
            let i = choose|i: int| 0 <= i < before.len() && !(#[trigger] before[i]).clean();
            assert(!outcomes[i].clean());
        }
    }
}

/// A seed is counted as the defect's own assertion exactly when its panic says
/// so, and as an unrelated panic exactly when its panic does not.
pub proof fn law_only_the_expected_assertion_counts_as_the_defect(outcomes: Seq<Came>, i: int)
    requires
        0 <= i < outcomes.len() <= SEEDS,
    ensures
        sorted(outcomes).asserted.contains((SEED_BASE + i) as u64) <==> outcomes[i].asserted(),
        (exists|k: int|
            0 <= k < sorted(outcomes).unexpected.len() && (#[trigger] sorted(
                outcomes,
            ).unexpected[k]).0 == SEED_BASE + i) <==> outcomes[i].unrelated(),
    decreases outcomes.len(),
{
    lemma_sorted_seeds(outcomes);
    let before = outcomes.drop_last();
    let n = outcomes.len() - 1;
    let s = sorted(outcomes);
    let p = sorted(before);
    lemma_sorted_seeds(before);
    if i < n {
        law_only_the_expected_assertion_counts_as_the_defect(before, i);
        if p.asserted.contains((SEED_BASE + i) as u64) {
            let k = choose|k: int| 0 <= k < p.asserted.len() && p.asserted[k] == SEED_BASE + i;
            assert(s.asserted[k] == SEED_BASE + i);
        }
        if exists|k: int|
            0 <= k < p.unexpected.len() && (#[trigger] p.unexpected[k]).0 == SEED_BASE + i {
            let k = choose|k: int|
                0 <= k < p.unexpected.len() && (#[trigger] p.unexpected[k]).0 == SEED_BASE + i;
            assert(s.unexpected[k].0 == SEED_BASE + i);
        }
        if exists|k: int|
            0 <= k < s.unexpected.len() && (#[trigger] s.unexpected[k]).0 == SEED_BASE + i {
            let k = choose|k: int|
                0 <= k < s.unexpected.len() && (#[trigger] s.unexpected[k]).0 == SEED_BASE + i;
            assert(k < p.unexpected.len());
            assert(p.unexpected[k].0 == SEED_BASE + i);
        }
    } else {
        if outcomes[i].asserted() {
            assert(s.asserted[p.asserted.len() as int] == SEED_BASE + i);
        }
        if outcomes[i].unrelated() {
            assert(s.unexpected[p.unexpected.len() as int].0 == SEED_BASE + i);
        }
    }
}

/// The seeds that are noted so far belong to the sweep so far.
proof fn lemma_sorted_seeds(outcomes: Seq<Came>)
    requires
        outcomes.len() <= SEEDS,
    ensures
        forall|k: int|
            0 <= k < sorted(outcomes).asserted.len() ==> #[trigger] sorted(outcomes).asserted[k]
                < SEED_BASE + outcomes.len(),
        forall|k: int|
            0 <= k < sorted(outcomes).unexpected.len() ==> (#[trigger] sorted(
                outcomes,
            ).unexpected[k]).0 < SEED_BASE + outcomes.len(),
    decreases outcomes.len(),
{
    if outcomes.len() > 0 {
        let p = sorted(outcomes.drop_last());
        let s = sorted(outcomes);
        lemma_sorted_seeds(outcomes.drop_last());
        assert forall|k: int| 0 <= k < s.asserted.len() implies #[trigger] s.asserted[k] < SEED_BASE
            + outcomes.len() by {
            if k < p.asserted.len() {
                assert(s.asserted[k] == p.asserted[k]);
            }
        }
        assert forall|k: int| 0 <= k < s.unexpected.len() implies (#[trigger] s.unexpected[k]).0
            < SEED_BASE + outcomes.len() by {
            if k < p.unexpected.len() {
                assert(s.unexpected[k] == p.unexpected[k]);
            }
        }
    }
}

/// A tree as far as the inspection sees it: the members it counts, and which of
/// them have a key at their leaf.
pub open spec fn inspected(tree: Map<int, bool>, a: int, b: int, c: int, d: int) -> Inspection {
    Inspection {
        a: Standing { member: tree.contains_key(a), leaf: tree.contains_key(a) && tree[a] },
        b: Standing { member: tree.contains_key(b), leaf: tree.contains_key(b) && tree[b] },
        d: Standing { member: tree.contains_key(d), leaf: tree.contains_key(d) && tree[d] },
        c: tree.contains_key(c),
        count: tree.dom().len() as usize,
    }
}

/// The inspection finds nothing exactly when the tree counts `a`, `b` and `d`
/// and nobody else, and each of them has its leaf.
pub proof fn law_no_violation_means_exactly_the_three_members(
    tree: Map<int, bool>,
    a: int,
    b: int,
    c: int,
    d: int,
)
    requires
        tree.dom().finite(),
        tree.dom().len() <= usize::MAX,
        a != b && a != c && a != d && b != c && b != d && c != d,
    ensures
        faults(inspected(tree, a, b, c, d)).len() == 0 <==> tree == map![a => true, b => true, d => true],
{
    let three = set![a, b, d];
    let i = inspected(tree, a, b, c, d);
    assert(three.len() == 3);
    if faults(i).len() == 0 {
        assert(three.subset_of(tree.dom()));
        vstd::set_lib::lemma_subset_equality(three, tree.dom());
        assert(tree =~= map![a => true, b => true, d => true]);
    }
    if tree == map![a => true, b => true, d => true] {
        assert(tree.dom() =~= three);
        assert(faults(i) =~= Seq::empty());
    }
}

/// The four members of one seed, `a` to `d`, are four.
pub open spec fn four(ids: (int, int, int, int)) -> bool {
    let (a, b, c, d) = ids;
    a != b && a != c && a != d && b != c && b != d && c != d
}

/// How the seeds come out that leave these trees.
pub open spec fn left(trees: Seq<Map<int, bool>>, ids: Seq<(int, int, int, int)>) -> Seq<Came> {
    Seq::new(
        trees.len(),
        |i: int|
            Came::Finished(
                faults(inspected(trees[i], ids[i].0, ids[i].1, ids[i].2, ids[i].3)),
            ),
    )
}

/// A sweep whose seeds all go through counts nothing against them exactly when
/// every tree that they leave counts `a`, `b` and `d` and nobody else, each with
/// its leaf.
pub proof fn law_sweep_passes_exactly_when_every_tree_keeps_the_added_leaf(
    trees: Seq<Map<int, bool>>,
    ids: Seq<(int, int, int, int)>,
)
    requires
        trees.len() == ids.len(),
        forall|i: int|
            0 <= i < trees.len() ==> {
                &&& (#[trigger] trees[i]).dom().finite()
                &&& trees[i].dom().len() <= usize::MAX
            },
        forall|i: int| 0 <= i < ids.len() ==> four(#[trigger] ids[i]),
    ensures
        (broken(sorted(left(trees, ids))) == 0 && sorted(left(trees, ids)).unexpected.len() == 0)
            <==> (forall|i: int|
            0 <= i < trees.len() ==> #[trigger] trees[i]
                == map![ids[i].0 => true, ids[i].1 => true, ids[i].3 => true]),
{
    let outcomes = left(trees, ids);
    law_passes_exactly_when_every_seed_is_clean(outcomes);
    assert forall|i: int| 0 <= i < trees.len() implies (#[trigger] outcomes[i]).clean() == (trees[i]
        == map![ids[i].0 => true, ids[i].1 => true, ids[i].3 => true]) by {
        assert(four(ids[i]));
        law_no_violation_means_exactly_the_three_members(
            trees[i],
            ids[i].0,
            ids[i].1,
            ids[i].2,
            ids[i].3,
        );
    }
    if forall|i: int| 0 <= i < outcomes.len() ==> (#[trigger] outcomes[i]).clean() {
        assert forall|i: int| 0 <= i < trees.len() implies #[trigger] trees[i]
            == map![ids[i].0 => true, ids[i].1 => true, ids[i].3 => true] by {
            assert(outcomes[i].clean());
        }
    } else {
        let i = choose|i: int| 0 <= i < outcomes.len() && !(#[trigger] outcomes[i]).clean();
        assert(trees[i] != map![ids[i].0 => true, ids[i].1 => true, ids[i].3 => true]);
    }
}

/// The outcome of a seed is seen at its place, as what it is.
pub proof fn law_outcomes_are_seen_in_place(outcomes: Seq<Outcome>, i: int)
    requires
        0 <= i < outcomes.len(),
    ensures
        outcome_views(outcomes).len() == outcomes.len(),
        outcomes[i] matches Outcome::Panicked(m) ==> outcome_views(outcomes)[i] == Came::Panicked(
            m@,
        ),
        outcomes[i] matches Outcome::Finished(v) ==> outcome_views(outcomes)[i] == Came::Finished(
            views(v@),
        ),
        outcomes[i] matches Outcome::Finished(v) ==> views(v@).len() == v@.len(),
{
}

/// The texts on one member, told apart from each other and by their first
/// character from all others.
proof fn lemma_standing_faults(name: Seq<char>, s: Standing)
    requires
        name.len() > 0,
    ensures
        standing_faults(name, s).contains(name + " is no longer a member"@) <==> !s.member,
        standing_faults(name, s).contains(
            name + " is counted as a member but its leaf has been blanked"@,
        ) <==> s.member && !s.leaf,
        forall|t: Seq<char>| #[trigger]
            standing_faults(name, s).contains(t) ==> t.len() > 0 && t[0] == name[0],
        standing_faults(name, s).len() == if s.member && s.leaf {
            0int
        } else {
            1int
        },
{
    let gone = name + " is no longer a member"@;
    let blank = name + " is counted as a member but its leaf has been blanked"@;
    reveal_strlit(" is no longer a member");
    reveal_strlit(" is counted as a member but its leaf has been blanked");
    assert(gone.len() != blank.len());
    assert(gone[0] == name[0] && blank[0] == name[0]);
    let all = standing_faults(name, s);
    if !s.member {
        assert(all[0] == gone);
    } else if !s.leaf {
        assert(all[0] == blank);
    }
}

/// Each invariant is reported on its own: a text is among the violations exactly
/// when its own condition holds, whatever else is wrong. Nothing is reported
/// twice, and nothing but these.
pub proof fn law_each_violation_is_reported_on_its_own(i: Inspection)
    ensures
        faults(i).contains("a"@ + " is no longer a member"@) <==> !i.a.member,
        faults(i).contains("a"@ + " is counted as a member but its leaf has been blanked"@)
            <==> i.a.member && !i.a.leaf,
        faults(i).contains("b"@ + " is no longer a member"@) <==> !i.b.member,
        faults(i).contains("b"@ + " is counted as a member but its leaf has been blanked"@)
            <==> i.b.member && !i.b.leaf,
        faults(i).contains("d (added)"@ + " is no longer a member"@) <==> !i.d.member,
        faults(i).contains("d (added)"@ + " is counted as a member but its leaf has been blanked"@)
            <==> i.d.member && !i.d.leaf,
        faults(i).contains("c (removed) is still a member"@) <==> i.c,
        faults(i).contains(
            "member_count is "@ + decimal(i.count as nat) + ", expected 3 (a, b, d)"@,
        ) <==> i.count != 3,
        faults(i).len() == (if i.a.member && i.a.leaf {
            0int
        } else {
            1int
        }) + (if i.b.member && i.b.leaf {
            0int
        } else {
            1int
        }) + (if i.d.member && i.d.leaf {
            0int
        } else {
            1int
        }) + (if i.c {
            1int
        } else {
            0int
        }) + (if i.count != 3 {
            1int
        } else {
            0int
        }),
{
    reveal_strlit("a");
    reveal_strlit("b");
    reveal_strlit("d (added)");
    reveal_strlit("c (removed) is still a member");
    reveal_strlit("member_count is ");
    let c = "c (removed) is still a member"@;
    let m = "member_count is "@ + decimal(i.count as nat) + ", expected 3 (a, b, d)"@;
    let fa = standing_faults("a"@, i.a);
    let fb = standing_faults("b"@, i.b);
    let fd = standing_faults("d (added)"@, i.d);
    let fc = if i.c {
        seq![c]
    } else {
        Seq::empty()
    };
    let fm = if i.count != 3 {
        seq![m]
    } else {
        Seq::empty()
    };
    lemma_standing_faults("a"@, i.a);
    lemma_standing_faults("b"@, i.b);
    lemma_standing_faults("d (added)"@, i.d);
    assert(c[0] == 'c' && m[0] == 'm');
    if i.c {
        assert(fc[0] == c);
    }
    if i.count != 3 {
        assert(fm[0] == m);
    }
    assert forall|t: Seq<char>| #[trigger]
        faults(i).contains(t) <==> fa.contains(t) || fb.contains(t) || fd.contains(t)
            || fc.contains(t) || fm.contains(t) by {
        vstd::seq_lib::lemma_seq_concat_contains_all_elements(fa, fb, t);
        vstd::seq_lib::lemma_seq_concat_contains_all_elements(fa + fb, fd, t);
        vstd::seq_lib::lemma_seq_concat_contains_all_elements(fa + fb + fd, fc, t);
        vstd::seq_lib::lemma_seq_concat_contains_all_elements(fa + fb + fd + fc, fm, t);
    }
    assert(("a"@ + " is no longer a member"@)[0] == 'a');
    assert(("b"@ + " is no longer a member"@)[0] == 'b');
    assert(("d (added)"@ + " is no longer a member"@)[0] == 'd');
    assert(("a"@ + " is counted as a member but its leaf has been blanked"@)[0] == 'a');
    assert(("b"@ + " is counted as a member but its leaf has been blanked"@)[0] == 'b');
    assert(("d (added)"@ + " is counted as a member but its leaf has been blanked"@)[0] == 'd');
}

/// Seeds are listed in the order of the sweep, and none twice.
pub proof fn law_sorted_seeds_go_up(outcomes: Seq<Came>)
    requires
        outcomes.len() <= SEEDS,
    ensures
        forall|k: int|
            0 <= k < sorted(outcomes).asserted.len() ==> 0x5107_0000
                <= #[trigger] sorted(outcomes).asserted[k] < 0x5107_0000 + outcomes.len(),
        forall|k: int|
            0 <= k < sorted(outcomes).corrupted.len() ==> 0x5107_0000 <= (
            #[trigger] sorted(outcomes).corrupted[k]).0 < 0x5107_0000 + outcomes.len(),
        forall|k: int|
            0 <= k < sorted(outcomes).unexpected.len() ==> 0x5107_0000 <= (
            #[trigger] sorted(outcomes).unexpected[k]).0 < 0x5107_0000 + outcomes.len(),
        forall|k: int, l: int|
            0 <= k < l < sorted(outcomes).asserted.len() ==> #[trigger] sorted(
                outcomes,
            ).asserted[k] < #[trigger] sorted(outcomes).asserted[l],
        forall|k: int, l: int|
            0 <= k < l < sorted(outcomes).corrupted.len() ==> (#[trigger] sorted(
                outcomes,
            ).corrupted[k]).0 < (#[trigger] sorted(outcomes).corrupted[l]).0,
        forall|k: int, l: int|
            0 <= k < l < sorted(outcomes).unexpected.len() ==> (#[trigger] sorted(
                outcomes,
            ).unexpected[k]).0 < (#[trigger] sorted(outcomes).unexpected[l]).0,
    decreases outcomes.len(),
{
    if outcomes.len() > 0 {
        let p = sorted(outcomes.drop_last());
        let s = sorted(outcomes);
        let end = 0x5107_0000 + outcomes.len();
        law_sorted_seeds_go_up(outcomes.drop_last());
        assert forall|k: int| 0 <= k < s.asserted.len() implies 0x5107_0000 <= #[trigger] s.asserted[k] < end by {
            if k < p.asserted.len() {
                assert(s.asserted[k] == p.asserted[k]);
            }
        }
        assert forall|k: int, l: int| 0 <= k < l < s.asserted.len() implies #[trigger] s.asserted[k] < #[trigger] s.asserted[l] by {
            assert(s.asserted[k] == p.asserted[k]);
            if l < p.asserted.len() {
                assert(s.asserted[l] == p.asserted[l]);
            }
        }
        assert forall|k: int| 0 <= k < s.corrupted.len() implies 0x5107_0000 <= (#[trigger] s.corrupted[k]).0 < end by {
            if k < p.corrupted.len() {
                assert(s.corrupted[k] == p.corrupted[k]);
            }
        }
        assert forall|k: int, l: int| 0 <= k < l < s.corrupted.len() implies (#[trigger] s.corrupted[k]).0 < (#[trigger] s.corrupted[l]).0 by {
            assert(s.corrupted[k] == p.corrupted[k]);
            if l < p.corrupted.len() {
                assert(s.corrupted[l] == p.corrupted[l]);
            }
        }
        assert forall|k: int| 0 <= k < s.unexpected.len() implies 0x5107_0000 <= (#[trigger] s.unexpected[k]).0 < end by {
            if k < p.unexpected.len() {
                assert(s.unexpected[k] == p.unexpected[k]);
            }
        }
        assert forall|k: int, l: int| 0 <= k < l < s.unexpected.len() implies (#[trigger] s.unexpected[k]).0 < (#[trigger] s.unexpected[l]).0 by {
            assert(s.unexpected[k] == p.unexpected[k]);
            if l < p.unexpected.len() {
                assert(s.unexpected[l] == p.unexpected[l]);
            }
        }
    }
}

/// Every seed is listed by what came of it, and only so. A panic that names the
/// assertion is listed as the defect's, any other panic as unrelated with its
/// message, and a run that left a broken tree with all that is broken. A seed
/// that went through and left a sound tree is not listed.
pub proof fn law_every_seed_is_listed_by_its_outcome(outcomes: Seq<Came>, i: int)
    requires
        0 <= i < outcomes.len() <= SEEDS,
    ensures
        sorted(outcomes).asserted.contains((0x5107_0000 + i) as u64) <==> (
        outcomes[i] matches Came::Panicked(m) && occurs("self.leaf(leaf_idx).is_none()"@, m)),
        forall|text: Seq<char>| #[trigger]
            sorted(outcomes).unexpected.contains(((0x5107_0000 + i) as u64, text))
                <==> outcomes[i] == Came::Panicked(text) && !occurs(
                "self.leaf(leaf_idx).is_none()"@,
                text,
            ),
        forall|text: Seq<char>| #[trigger]
            sorted(outcomes).corrupted.contains(((0x5107_0000 + i) as u64, text)) <==> (
            outcomes[i] matches Came::Finished(v) && v.len() > 0 && text == joined(v, "; "@)),
    decreases outcomes.len(),
{
    let before = outcomes.drop_last();
    let n = outcomes.len() - 1;
    let seed = (0x5107_0000 + i) as u64;
    let last = (0x5107_0000 + n) as u64;
    let s = sorted(outcomes);
    let p = sorted(before);
    law_sorted_seeds_go_up(before);
    assert(outcomes.last() == outcomes[n]);
    assert(s == sorted_with(p, last, outcomes[n]));
    if i < n {
        law_every_seed_is_listed_by_its_outcome(before, i);
        assert(before[i] == outcomes[i]);
    }
    lemma_push_contains(p.asserted, last, seed);
    assert forall|text: Seq<char>| #[trigger]
        s.unexpected.contains((seed, text)) <==> outcomes[i] == Came::Panicked(text) && !occurs(
            "self.leaf(leaf_idx).is_none()"@,
            text,
        ) by {
        if let Came::Panicked(m) = outcomes[n] {
            lemma_push_contains(p.unexpected, (last, m), (seed, text));
        }
        assert(i < n ==> p.unexpected.contains((seed, text)) == (outcomes[i] == Came::Panicked(text)
            && !occurs("self.leaf(leaf_idx).is_none()"@, text)));
    }
    assert forall|text: Seq<char>| #[trigger]
        s.corrupted.contains((seed, text)) <==> (outcomes[i] matches Came::Finished(v) && v.len()
            > 0 && text == joined(v, "; "@)) by {
        if let Came::Finished(v) = outcomes[n] {
            lemma_push_contains(p.corrupted, (last, joined(v, "; "@)), (seed, text));
        }
        assert(i < n ==> p.corrupted.contains((seed, text)) == (
        outcomes[i] matches Came::Finished(v) && v.len() > 0 && text == joined(v, "; "@)));
    }
}

/// A seed that panicked always counts against the sweep, whatever its message:
/// it is listed with the defect's assertion or as unrelated, never as neither
/// and never as both.
pub proof fn law_a_panic_never_passes(outcomes: Seq<Came>, i: int)
    requires
        0 <= i < outcomes.len() <= SEEDS,
        outcomes[i] is Panicked,
    ensures
        sorted(outcomes).asserted.contains((0x5107_0000 + i) as u64) <==> !sorted(
            outcomes,
        ).unexpected.contains(((0x5107_0000 + i) as u64, outcomes[i]->Panicked_0)),
        sorted(outcomes).asserted.len() + sorted(outcomes).unexpected.len() > 0,
{
    law_every_seed_is_listed_by_its_outcome(outcomes, i);
    let text = outcomes[i]->Panicked_0;
    assert(outcomes[i] == Came::Panicked(text));
    let seed = (0x5107_0000 + i) as u64;
    assert(sorted(outcomes).unexpected.contains((seed, text)) || sorted(outcomes).asserted.contains(
        seed,
    ));
}

/// The message of a failed sweep. It says on how many seeds the tree broke, one
/// way or the other, and then for each kind that occurred how often it did, on
/// which seed first and, but for the assertion, with what text.
pub proof fn law_what_a_failed_sweep_says(s: Sorted)
    ensures
        failure(s)
            == "a concurrent add and a concurrent removal of the trailing member broke the tree on "@
            + decimal(s.asserted.len() + s.corrupted.len()) + " of "@ + decimal(64) + " seeds"@ + ((
        if s.asserted.len() > 0 {
            "\n  "@ + decimal(s.asserted.len()) + (
            " seed(s) tripped BeeKEM's own state assertion ("@ + "self.leaf(leaf_idx).is_none()"@
                + ") in sort_leaves_and_blank_paths_for_concurrent_membership_changes; first: "@)
                + hex(s.asserted[0] as nat)
        } else {
            Seq::empty()
        }) + (if s.corrupted.len() > 0 {
            "\n  "@ + decimal(s.corrupted.len())
                + " seed(s) corrupted the tree without any error; first: "@ + hex(
                s.corrupted[0].0 as nat,
            ) + " -> "@ + s.corrupted[0].1
        } else {
            Seq::empty()
        }) + (if s.unexpected.len() > 0 {
            "\n  "@ + decimal(s.unexpected.len())
                + " seed(s) hit an UNRELATED panic (not this defect and not counted as it); first: "@
                + hex(s.unexpected[0].0 as nat) + " -> "@ + s.unexpected[0].1
        } else {
            Seq::empty()
        })),
{
}

} // verus!
