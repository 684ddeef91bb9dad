use beekem_regressions::concurrent_removals::{
    control_result, scenario, sequential_control, verdict, SEEDS, SEED_BASE,
};
use beekem_regressions::group::{Action, Group, Site, Step};
use beekem_regressions::run::{Judgement, Reply, Run};
use rand::rngs::StdRng;
use rand::SeedableRng;

fn merge(replica: usize, op: usize) -> Step {
    Step { action: Action::Merge { replica, op }, site: Site::Delivery }
}

fn removal(author: usize, member: usize, site: Site) -> Step {
    Step { action: Action::Remove { author, member }, site }
}

fn addition(author: usize, member: usize, site: Site) -> Step {
    Step { action: Action::Add { author, member }, site }
}

fn after_founding(g: &Group) -> Vec<Step> {
    let founded = Group::found(3, &mut StdRng::seed_from_u64(0)).steps;
    let (head, tail) = g.steps.split_at(founded.len());
    assert_eq!(head.to_vec(), founded);
    tail.to_vec()
}

#[test]
fn the_control_removes_one_at_a_time() {
    let g = sequential_control(SEED_BASE);
    assert_eq!(
        after_founding(&g),
        vec![
            removal(0, 1, Site::ControlRemoval),
            merge(0, 2),
            merge(1, 2),
            merge(2, 2),
            removal(0, 2, Site::ControlRemoval),
            merge(0, 3),
            merge(1, 3),
            merge(2, 3),
            removal(0, 0, Site::ControlGuard),
            addition(0, 3, Site::ControlProgress),
        ]
    );
}

#[test]
fn the_scenario_removes_concurrently_and_probes_everyone() {
    let g = scenario(SEED_BASE);
    assert_eq!(g.members.len(), 6);
    assert_eq!(
        after_founding(&g),
        vec![
            removal(0, 1, Site::Removing),
            removal(1, 2, Site::Removing),
            removal(2, 0, Site::Removing),
            merge(0, 2),
            merge(1, 2),
            merge(2, 2),
            merge(0, 3),
            merge(1, 3),
            merge(2, 3),
            merge(0, 4),
            merge(1, 4),
            merge(2, 4),
            addition(0, 3, Site::Probe),
            addition(1, 4, Site::Probe),
            addition(2, 5, Site::Probe),
        ]
    );
}

/// Replicas that keep a list of members and apply removals as they come: with
/// `guarded`, a merged removal of the last member leaves the replica wedged.
struct Lists {
    guarded: bool,
    ops: Vec<Action>,
    replicas: Vec<(Vec<usize>, Vec<usize>, bool)>,
}

impl Lists {
    fn refusal() -> Reply {
        Reply::Failed { last_member: true, shown: "RemoveLastMember".to_string() }
    }

    fn done() -> Reply {
        Reply::Done { shown: "()".to_string() }
    }

    fn apply(&mut self, replica: usize, op: usize) {
        let (held, members, wedged) = &mut self.replicas[replica];
        if held.contains(&op) {
            return;
        }
        held.push(op);
        match self.ops[op] {
            Action::Add { member, .. } => members.push(member),
            Action::Remove { member, .. } => {
                if members.len() == 1 {
                    *wedged = self.guarded;
                } else {
                    members.retain(|m| *m != member);
                }
            }
            _ => {}
        }
    }

    fn call(&mut self, action: Action) -> Reply {
        match action {
            Action::Found | Action::Seed { .. } => {
                self.replicas.push((vec![], vec![0], false));
                Self::done()
            }
            Action::Own { .. } => Self::done(),
            Action::Merge { replica, op } => {
                self.apply(replica, op);
                Self::done()
            }
            Action::Add { author, .. } | Action::Remove { author, .. } | Action::Update { author } => {
                if self.replicas[author].2 {
                    return Self::refusal();
                }
                if matches!(action, Action::Remove { .. }) && self.replicas[author].1.len() == 1 {
                    return Self::refusal();
                }
                self.ops.push(action);
                let op = self.ops.len() - 1;
                self.apply(author, op);
                Reply::Done { shown: "op".to_string() }
            }
        }
    }
}

fn run_on_lists(group: Group, guarded: bool) -> Run {
    let mut lists = Lists { guarded, ops: vec![], replicas: vec![] };
    let mut run = Run::new(group.steps);
    while let Some(step) = run.next() {
        let reply = lists.call(step.action);
        run.answer(reply);
    }
    run
}

#[test]
fn the_control_passes_on_guarded_lists() {
    let run = run_on_lists(sequential_control(SEED_BASE), true);
    assert_eq!(control_result(&run), Ok(()));
}

#[test]
fn the_control_refuses_a_missing_guard() {
    let g = sequential_control(SEED_BASE);
    let mut run = Run::new(g.steps);
    while run.next().is_some() {
        run.answer(Reply::Done { shown: "op".to_string() });
    }
    assert_eq!(
        control_result(&run),
        Err("expected the authoring guard, got Ok(Some(op))".to_string())
    );
}

#[test]
fn the_control_refuses_other_errors_at_the_guard() {
    let g = sequential_control(SEED_BASE);
    let mut run = Run::new(g.steps);
    while let Some(step) = run.next() {
        run.answer(if step.site == Site::ControlGuard {
            Reply::Failed { last_member: false, shown: "Other".to_string() }
        } else {
            Reply::Done { shown: "op".to_string() }
        });
    }
    assert_eq!(
        control_result(&run),
        Err("expected the authoring guard, got Err(Other)".to_string())
    );
}

#[test]
fn guarded_replay_wedges_every_replica() {
    let wedged = run_on_lists(scenario(SEED_BASE), true).recorded;
    let error = "RemoveLastMember".to_string();
    assert_eq!(wedged, vec![(0, error.clone()), (1, error.clone()), (2, error)]);
    let outcomes: Vec<_> = (0..SEEDS).map(|i| run_on_lists(scenario(SEED_BASE + i), true).recorded).collect();
    let head = "three concurrent removals in a three-member group left the tree unmaterializable on 8 of 8 seeds; the error is re-derived from the durable operation graph on every replica and every call, so the group can never make progress again";
    let detail = "replica 0: RemoveLastMember, replica 1: RemoveLastMember, replica 2: RemoveLastMember";
    assert_eq!(
        verdict(&Ok(()), &outcomes),
        Err(format!("{head}\n  seed 0xd1ff0000: {detail}\n  seed 0xd1ff0001: {detail}"))
    );
}

#[test]
fn forgiving_replay_passes() {
    let outcomes: Vec<_> = (0..SEEDS).map(|i| run_on_lists(scenario(SEED_BASE + i), false).recorded).collect();
    assert_eq!(verdict(&Ok(()), &outcomes), Ok(()));
}

#[test]
fn one_wedged_seed_is_reported_alone() {
    let mut outcomes = vec![vec![]; 8];
    outcomes[6] = vec![(2usize, "E".to_string())];
    let m = verdict(&Ok(()), &outcomes).unwrap_err();
    assert!(m.contains("unmaterializable on 1 of 8 seeds; "));
    assert!(m.ends_with("progress again\n  seed 0xd1ff0006: replica 2: E"));
}

#[test]
fn a_failed_control_is_reported_first() {
    assert_eq!(
        verdict(&Err("why".to_string()), &vec![]),
        Err("the sequential control did not behave as expected: why".to_string())
    );
}

#[test]
fn the_run_reaches_its_end_exactly_when_the_removals_reach_everyone() {
    let steps = scenario(SEED_BASE).steps;
    let n = steps.len();
    for failing in 0..=n {
        let mut run = Run::new(steps.clone());
        while run.next().is_some() {
            let reply = if run.at == failing {
                Reply::Failed { last_member: false, shown: "E".to_string() }
            } else {
                Reply::Done { shown: String::new() }
            };
            run.answer(reply);
        }
        if failing < n - 3 {
            assert_eq!(run.at, failing);
            assert!(matches!(run.ending, Some(Judgement::Panic(_))));
        } else {
            assert_eq!(run.at, n);
            assert!(run.ending.is_none());
            assert_eq!(run.recorded.len(), if failing < n { 1 } else { 0 });
        }
    }
}
