use beekem_regressions::group::{Action, Site, Step};
use beekem_regressions::payload::{panic_message, Payload};
use beekem_regressions::run::{judge, Judgement, Reply, Run};

fn done() -> Reply {
    Reply::Done { shown: "op".to_string() }
}

fn failed(last_member: bool, shown: &str) -> Reply {
    Reply::Failed { last_member, shown: shown.to_string() }
}

fn shown(j: Judgement) -> String {
    match j {
        Judgement::Proceed => "proceed".to_string(),
        Judgement::Record(e) => format!("record {e}"),
        Judgement::Refuse(e) => format!("refuse {e}"),
        Judgement::Panic(e) => format!("panic {e}"),
    }
}

#[test]
fn values_are_accepted_everywhere_but_at_the_guard() {
    for site in [
        Site::Founding,
        Site::Seeding,
        Site::Owning,
        Site::FoundingAdd,
        Site::Delivery,
        Site::Adding,
        Site::Removing,
        Site::Healing,
        Site::ControlRemoval,
        Site::ControlProgress,
        Site::Probe,
        Site::Replay,
    ] {
        assert_eq!(shown(judge(site, &done())), "proceed");
    }
    assert_eq!(
        shown(judge(Site::ControlGuard, &done())),
        "refuse expected the authoring guard, got Ok(Some(op))"
    );
}

#[test]
fn missing_operations() {
    for (site, expected) in [
        (Site::FoundingAdd, "panic the added member is new"),
        (Site::Adding, "panic the added member is new"),
        (Site::Removing, "panic the removed member is present"),
        (Site::ControlRemoval, "panic the removed member is present"),
        (Site::ControlGuard, "refuse expected the authoring guard, got Ok(None)"),
        (Site::ControlProgress, "proceed"),
        (Site::Probe, "proceed"),
    ] {
        assert_eq!(shown(judge(site, &Reply::Nothing)), expected);
    }
}

#[test]
fn errors() {
    for (site, expected) in [
        (Site::Founding, "panic founding the tree succeeds: E"),
        (Site::Seeding, "panic seeding a replica from the init add succeeds: E"),
        (Site::Owning, "panic re-owning a replica succeeds: E"),
        (Site::FoundingAdd, "panic authoring the founding add succeeds: E"),
        (Site::Delivery, "panic operations are delivered in causal order: E"),
        (Site::Adding, "panic authoring the add succeeds: E"),
        (Site::Removing, "panic authoring the removal succeeds: E"),
        (Site::Healing, "panic authoring the covering heal succeeds: E"),
        (Site::ControlRemoval, "refuse a removal that leaves members behind failed: E"),
        (Site::ControlGuard, "refuse expected the authoring guard, got Err(E)"),
        (Site::ControlProgress, "refuse the group could not make progress afterwards: E"),
        (Site::Probe, "record E"),
        (Site::Replay, "proceed"),
    ] {
        assert_eq!(shown(judge(site, &failed(false, "E"))), expected);
    }
    assert_eq!(shown(judge(Site::ControlGuard, &failed(true, "RemoveLastMember"))), "proceed");
    assert_eq!(
        shown(judge(Site::ControlRemoval, &failed(true, "RemoveLastMember"))),
        "refuse a removal that leaves members behind failed: RemoveLastMember"
    );
}

fn probe(author: usize) -> Step {
    Step { action: Action::Add { author, member: 3 }, site: Site::Probe }
}

fn removal() -> Step {
    Step { action: Action::Remove { author: 1, member: 2 }, site: Site::Removing }
}

#[test]
fn a_run_notes_errors_at_probes_and_goes_on() {
    let mut run = Run::new(vec![probe(0), probe(2), removal(), probe(1)]);
    assert_eq!(run.next(), Some(probe(0)));
    run.answer(failed(true, "x"));
    assert_eq!(run.next(), Some(probe(2)));
    run.answer(done());
    run.answer(done());
    run.answer(failed(false, "y"));
    assert_eq!(run.next(), None);
    assert!(run.ending.is_none());
    assert_eq!(run.recorded, vec![(0, "x".to_string()), (1, "y".to_string())]);
}

#[test]
fn the_first_unaccepted_reply_ends_a_run() {
    let mut run = Run::new(vec![probe(0), removal(), probe(1)]);
    run.answer(failed(false, "x"));
    run.answer(Reply::Nothing);
    assert_eq!(run.next(), None);
    assert_eq!(run.at, 1);
    assert_eq!(shown(run.ending.unwrap()), "panic the removed member is present");
    assert_eq!(run.recorded, vec![(0, "x".to_string())]);
}

#[test]
fn an_empty_plan_is_done() {
    let run = Run::new(vec![]);
    assert_eq!(run.next(), None);
    assert!(run.ending.is_none());
}

#[test]
fn panic_messages() {
    assert_eq!(panic_message(&Payload::Owned("boom 7".to_string())), "boom 7");
    assert_eq!(panic_message(&Payload::Literal("plain")), "plain");
    assert_eq!(panic_message(&Payload::Other), "panic with a non-string payload");
}
