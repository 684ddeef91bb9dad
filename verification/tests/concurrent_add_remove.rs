use beekem_regressions::concurrent_add_remove::{
    scenario, subjects, verdict, violations, Inspection, Outcome, Standing, EXPECTED_ASSERTION,
    INSPECTED, SEEDS, SEED_BASE,
};
use beekem_regressions::group::{Action, Group, Site, Step};
use beekem_regressions::keys::{member, share};
use beekem_regressions::run::{Judgement, Reply, Run};
use beekem_regressions::sweep::seeds;
use rand::rngs::StdRng;
use rand::{RngCore, SeedableRng};

fn sound() -> Inspection {
    let there = Standing { member: true, leaf: true };
    Inspection { a: there, b: there, d: there, c: false, count: 3 }
}

fn clean() -> Vec<Outcome> {
    (0..SEEDS).map(|_| Outcome::Finished(vec![])).collect()
}

#[test]
fn the_plan_makes_the_changes_concurrently() {
    let s = scenario(SEED_BASE);
    let founded = Group::found(3, &mut StdRng::seed_from_u64(0)).steps;
    let (head, tail) = s.group.steps.split_at(founded.len());
    assert_eq!(head.to_vec(), founded);
    let merge = |replica: usize, op: usize| Step {
        action: Action::Merge { replica, op },
        site: Site::Delivery,
    };
    assert_eq!(
        tail.to_vec(),
        vec![
            Step { action: Action::Add { author: 1, member: 3 }, site: Site::Adding },
            Step { action: Action::Remove { author: 0, member: 2 }, site: Site::Removing },
            merge(0, 2),
            merge(1, 2),
            merge(2, 2),
            merge(0, 3),
            merge(1, 3),
            merge(2, 3),
            Step { action: Action::Update { author: 0 }, site: Site::Healing },
            merge(0, 4),
            merge(1, 4),
            merge(2, 4),
        ]
    );
    assert_eq!(s.group.replicas, 3);
    assert_eq!(INSPECTED, 1);
}

#[test]
fn the_cast_is_drawn_in_order() {
    let mut s = scenario(77);
    let mut rng = StdRng::seed_from_u64(77);
    let founded = Group::found(3, &mut rng);
    let d = member(&mut rng);
    let heal = share(&mut rng);
    assert_eq!(s.group.doc.verifying, founded.doc.verifying);
    for i in 0..3 {
        assert_eq!(s.group.members[i].id, founded.members[i].id);
    }
    assert_eq!(s.group.members.len(), 4);
    assert_eq!(s.group.members[3].id, d.id);
    let ids = subjects(&s);
    assert_eq!((ids.a, ids.b), (founded.members[0].id, founded.members[1].id));
    assert_eq!((ids.c, ids.d), (founded.members[2].id, d.id));
    assert_eq!((s.heal.sk, s.heal.pk), (heal.sk, heal.pk));
    assert_eq!(s.rng.next_u64(), rng.next_u64());
}

#[test]
fn the_run_reaches_its_end_exactly_when_every_call_goes_through() {
    let steps = scenario(SEED_BASE).group.steps;
    let n = steps.len();
    let answers = |failing: usize| {
        let mut run = Run::new(steps.clone());
        while run.next().is_some() {
            let reply = if run.at == failing {
                Reply::Failed { last_member: false, shown: "E".to_string() }
            } else {
                Reply::Done { shown: String::new() }
            };
            run.answer(reply);
        }
        run
    };
    let run = answers(n);
    assert_eq!(run.at, n);
    assert!(run.ending.is_none() && run.recorded.is_empty());
    for i in 0..n {
        let run = answers(i);
        assert_eq!(run.at, i);
        assert!(matches!(run.ending, Some(Judgement::Panic(_))));
    }
}

#[test]
fn a_sound_tree_has_no_violations() {
    assert!(violations(&sound()).is_empty());
}

#[test]
fn every_violation_is_named() {
    let gone = Standing { member: false, leaf: false };
    let blank = Standing { member: true, leaf: false };
    let i = Inspection { a: gone, b: blank, d: blank, c: true, count: 12 };
    assert_eq!(
        violations(&i),
        vec![
            "a is no longer a member",
            "b is counted as a member but its leaf has been blanked",
            "d (added) is counted as a member but its leaf has been blanked",
            "c (removed) is still a member",
            "member_count is 12, expected 3 (a, b, d)",
        ]
    );
    let i = Inspection { d: gone, count: 2, ..sound() };
    assert_eq!(
        violations(&i),
        vec!["d (added) is no longer a member", "member_count is 2, expected 3 (a, b, d)"]
    );
    let i = Inspection { count: 4, ..sound() };
    assert_eq!(violations(&i), vec!["member_count is 4, expected 3 (a, b, d)"]);
}

#[test]
fn a_clean_sweep_passes() {
    let all = seeds(SEED_BASE, SEEDS);
    assert_eq!(all.len(), 64);
    assert_eq!((all[0], all[63]), (0x5107_0000, 0x5107_003f));
    assert_eq!(verdict(&clean()), Ok(()));
}

#[test]
fn every_kind_of_seed_is_counted_once() {
    let mut o = clean();
    o[3] = Outcome::Panicked(format!("assertion failed: {EXPECTED_ASSERTION}"));
    o[5] = Outcome::Finished(vec!["x".to_string(), "y".to_string()]);
    o[6] = Outcome::Panicked("index out of bounds".to_string());
    o[9] = Outcome::Panicked(EXPECTED_ASSERTION.to_string());
    o[63] = Outcome::Finished(vec!["z".to_string()]);
    assert_eq!(
        verdict(&o),
        Err(concat_lines(&[
            "a concurrent add and a concurrent removal of the trailing member broke the tree on 4 of 64 seeds",
            "  2 seed(s) tripped BeeKEM's own state assertion (self.leaf(leaf_idx).is_none()) in sort_leaves_and_blank_paths_for_concurrent_membership_changes; first: 0x51070003",
            "  2 seed(s) corrupted the tree without any error; first: 0x51070005 -> x; y",
            "  1 seed(s) hit an UNRELATED panic (not this defect and not counted as it); first: 0x51070006 -> index out of bounds",
        ]))
    );
}

#[test]
fn an_unrelated_panic_alone_fails_the_sweep() {
    let mut o = clean();
    o[0] = Outcome::Panicked("other".to_string());
    assert_eq!(
        verdict(&o),
        Err(concat_lines(&[
            "a concurrent add and a concurrent removal of the trailing member broke the tree on 0 of 64 seeds",
            "  1 seed(s) hit an UNRELATED panic (not this defect and not counted as it); first: 0x51070000 -> other",
        ]))
    );
}

fn concat_lines(lines: &[&str]) -> String {
    lines.join("\n")
}
