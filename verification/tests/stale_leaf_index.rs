use beekem_regressions::group::{Action, Group, Site, Step};
use beekem_regressions::keys::{member, share};
use beekem_regressions::run::{Judgement, Reply, Run};
use beekem_regressions::stale_leaf_index::{classify, scenario, verdict, Class, SEEDS, SEED_BASE};
use rand::rngs::StdRng;
use rand::{RngCore, SeedableRng};

fn merge(replica: usize, op: usize) -> Step {
    Step { action: Action::Merge { replica, op }, site: Site::Delivery }
}

fn removal(author: usize, member: usize) -> Step {
    Step { action: Action::Remove { author, member }, site: Site::Removing }
}

fn addition(author: usize, member: usize) -> Step {
    Step { action: Action::Add { author, member }, site: Site::Adding }
}

#[test]
fn the_plan_withholds_the_removal_from_b() {
    let s = scenario(SEED_BASE);
    let founded = Group::found(4, &mut StdRng::seed_from_u64(0)).steps;
    let (head, tail) = s.group.steps.split_at(founded.len());
    assert_eq!(head.to_vec(), founded);
    assert_eq!(
        tail.to_vec(),
        vec![
            removal(0, 2),
            merge(0, 3),
            merge(1, 3),
            merge(2, 3),
            merge(3, 3),
            removal(0, 3),
            addition(1, 4),
            merge(0, 4),
            merge(0, 5),
            merge(1, 5),
            removal(1, 4),
            addition(0, 5),
            merge(0, 6),
            Step { action: Action::Update { author: 0 }, site: Site::Replay },
        ]
    );
}

#[test]
fn the_cast_and_the_fresh_key_are_drawn_in_order() {
    let mut s = scenario(4);
    let mut rng = StdRng::seed_from_u64(4);
    let founded = Group::found(4, &mut rng);
    let e = member(&mut rng);
    let f = member(&mut rng);
    let fresh = share(&mut rng);
    assert_eq!(s.group.members.len(), 6);
    assert_eq!(s.group.members[3].id, founded.members[3].id);
    assert_eq!(s.group.members[4].id, e.id);
    assert_eq!(s.group.members[5].id, f.id);
    assert_eq!((s.fresh.sk, s.fresh.pk), (fresh.sk, fresh.pk));
    assert_eq!(s.rng.next_u64(), rng.next_u64());
}

#[test]
fn the_run_reaches_its_end_whatever_the_replay_returns() {
    let steps = scenario(SEED_BASE).group.steps;
    let n = steps.len();
    let answers = |failing: usize| {
        let mut run = Run::new(steps.clone());
        while run.next().is_some() {
            let reply = if run.at == failing {
                Reply::Failed { last_member: false, shown: "E".to_string() }
            } else {
                Reply::Done { shown: String::new() }
            };
            run.answer(reply);
        }
        run
    };
    for i in [n - 1, n] {
        let run = answers(i);
        assert_eq!(run.at, n);
        assert!(run.ending.is_none() && run.recorded.is_empty());
    }
    for i in 0..n - 1 {
        let run = answers(i);
        assert_eq!(run.at, i);
        assert!(matches!(run.ending, Some(Judgement::Panic(_))));
    }
}

#[test]
fn classes() {
    assert_eq!(classify("Leaf index should be in bounds"), Class::Stale);
    assert_eq!(classify("index out of bounds: the len is 4 but the index is 4"), Class::Stale);
    assert_eq!(classify("assertion failed: self.leaf(leaf_idx).is_none()"), Class::Family);
    assert_eq!(
        classify("index out of bounds at self.leaf(leaf_idx).is_none()"),
        Class::Stale
    );
    assert_eq!(classify(""), Class::Unrelated);
    assert_eq!(classify("leaf index should be in bounds"), Class::Unrelated);
}

fn quiet() -> Vec<Option<String>> {
    vec![None; SEEDS as usize]
}

#[test]
fn a_quiet_sweep_passes() {
    assert_eq!(verdict(&quiet()), Ok(()));
}

#[test]
fn the_known_fault_is_tolerated() {
    let mut o = quiet();
    for i in 0..30 {
        o[i] = Some("assertion failed: self.leaf(leaf_idx).is_none()".to_string());
    }
    assert_eq!(verdict(&o), Ok(()));
}

#[test]
fn the_report_sorts_and_counts_other_panics() {
    let mut o = quiet();
    o[1] = Some("zebra\nmore".to_string());
    o[2] = Some("Leaf index should be in bounds\nmore".to_string());
    o[3] = Some("b: self.leaf(leaf_idx).is_none()".to_string());
    o[4] = Some("ant".to_string());
    o[5] = Some("zebra\r\nother".to_string());
    o[6] = Some("a: self.leaf(leaf_idx).is_none()".to_string());
    o[7] = Some("b: self.leaf(leaf_idx).is_none()".to_string());
    o[8] = Some("index out of bounds: the len is 4 but the index is 4".to_string());
    o[9] = Some("zoo\nindex out of bounds".to_string());
    let lines = [
        "a Remove operation's recorded leaf index was used unchecked against the merged tree and indexed past its leaves vec on 2 of 64 seeds",
        "  first seed 0x5ca1e002: Leaf index should be in bounds",
        "  (1 further seed(s) stopped earlier, in the same slot-bookkeeping family, with: a: self.leaf(leaf_idx).is_none())",
        "  (2 further seed(s) stopped earlier, in the same slot-bookkeeping family, with: b: self.leaf(leaf_idx).is_none())",
        "  (1 seed(s) hit an UNRELATED panic, not this family: ant)",
        "  (2 seed(s) hit an UNRELATED panic, not this family: zebra)",
        "  (1 seed(s) hit an UNRELATED panic, not this family: zoo)",
    ];
    assert_eq!(verdict(&o), Err(lines.join("\n")));
}

#[test]
fn an_unrelated_panic_fails_the_sweep_without_a_stale_index() {
    let mut o = quiet();
    o[63] = Some("".to_string());
    assert_eq!(
        verdict(&o),
        Err("a Remove operation's recorded leaf index was used unchecked against the merged tree and indexed past its leaves vec on 0 of 64 seeds\n  (1 seed(s) hit an UNRELATED panic, not this family: )".to_string())
    );
}
