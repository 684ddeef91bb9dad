use beekem_regressions::group::{Action, Call, Group, Site, Step};
use beekem_regressions::keys::share;
use rand::rngs::StdRng;
use rand::SeedableRng;

fn found() -> Step {
    Step { action: Action::Found, site: Site::Founding }
}

fn merge(replica: usize, op: usize) -> Step {
    Step { action: Action::Merge { replica, op }, site: Site::Delivery }
}

fn founding_add(member: usize) -> Step {
    Step { action: Action::Add { author: 0, member }, site: Site::FoundingAdd }
}

#[test]
fn founding_alone() {
    let mut rng = StdRng::seed_from_u64(1);
    let g = Group::found(1, &mut rng);
    assert_eq!(g.steps, vec![found()]);
    assert_eq!((g.replicas, g.members.len(), g.ops), (1, 1, 0));
}

#[test]
fn founding_three() {
    let mut rng = StdRng::seed_from_u64(1);
    let g = Group::found(3, &mut rng);
    assert_eq!(
        g.steps,
        vec![
            found(),
            Step { action: Action::Seed { member: 1 }, site: Site::Seeding },
            Step { action: Action::Own { member: 1 }, site: Site::Owning },
            Step { action: Action::Seed { member: 2 }, site: Site::Seeding },
            Step { action: Action::Own { member: 2 }, site: Site::Owning },
            founding_add(1),
            merge(0, 0),
            merge(1, 0),
            merge(2, 0),
            founding_add(2),
            merge(0, 1),
            merge(1, 1),
            merge(2, 1),
        ]
    );
    assert_eq!((g.replicas, g.members.len(), g.ops), (3, 3, 2));
}

#[test]
fn one_seed_draws_one_cast() {
    let a = Group::found(3, &mut StdRng::seed_from_u64(5));
    let b = Group::found(3, &mut StdRng::seed_from_u64(5));
    let c = Group::found(3, &mut StdRng::seed_from_u64(6));
    assert_eq!(a.doc.verifying, b.doc.verifying);
    for i in 0..3 {
        assert_eq!(a.members[i].id, b.members[i].id);
        assert_eq!(a.members[i].pk, b.members[i].pk);
        assert_ne!(a.members[i].id, c.members[i].id);
    }
    assert_ne!(a.members[0].id, a.members[1].id);
}

#[test]
fn deliveries_follow_the_given_order() {
    let mut rng = StdRng::seed_from_u64(2);
    let mut g = Group::found(2, &mut rng);
    let before = g.steps.len();
    let place = g.enlist(&mut rng);
    assert_eq!(place, 2);
    let op = g.author(Action::Add { author: 1, member: place }, Site::Adding);
    assert_eq!(op, 1);
    g.deliver(op, &[1, 0]);
    g.deliver(op, &[]);
    g.broadcast(op);
    assert_eq!(
        g.steps[before..].to_vec(),
        vec![
            Step { action: Action::Add { author: 1, member: 2 }, site: Site::Adding },
            merge(1, 1),
            merge(0, 1),
            merge(0, 1),
            merge(1, 1),
        ]
    );
    assert_eq!(g.ops, 2);
}

#[test]
fn reaching_everyone_is_delivery_in_order() {
    let mut a = Group::found(4, &mut StdRng::seed_from_u64(3));
    let mut b = Group::found(4, &mut StdRng::seed_from_u64(3));
    let op = a.author(Action::Remove { author: 2, member: 1 }, Site::Removing);
    assert_eq!(b.author(Action::Remove { author: 2, member: 1 }, Site::Removing), op);
    a.broadcast(op);
    b.deliver(op, &[0, 1, 2, 3]);
    assert_eq!(a.steps, b.steps);
    assert_eq!((a.ops, a.replicas), (b.ops, b.replicas));
}

#[test]
fn calls_are_handed_the_keys_of_the_members_they_name() {
    let mut rng = StdRng::seed_from_u64(9);
    let mut g = Group::found(3, &mut rng);
    let joiner = g.enlist(&mut rng);
    let fresh = share(&mut rng);
    let m = g.members.clone();
    assert_eq!(
        g.handed(Action::Found, None),
        Call::Found {
            doc: g.doc.verifying,
            id: m[0].id,
            pk: m[0].pk,
            sk: m[0].sk,
            signer: m[0].signer
        }
    );
    assert_eq!(
        g.handed(Action::Seed { member: 2 }, None),
        Call::Seed { doc: g.doc.verifying, id: m[0].id, pk: m[0].pk }
    );
    assert_eq!(
        g.handed(Action::Own { member: 2 }, None),
        Call::Own { id: m[2].id, pk: m[2].pk, sk: m[2].sk }
    );
    assert_eq!(
        g.handed(Action::Add { author: 1, member: joiner }, None),
        Call::Add { replica: 1, id: m[3].id, pk: m[3].pk, signer: m[1].signer }
    );
    assert_eq!(
        g.handed(Action::Remove { author: 0, member: 2 }, None),
        Call::Remove { replica: 0, id: m[2].id, signer: m[0].signer }
    );
    assert_eq!(
        g.handed(Action::Update { author: 2 }, Some(fresh)),
        Call::Update { replica: 2, pk: fresh.pk, sk: fresh.sk, signer: m[2].signer }
    );
    assert_eq!(
        g.handed(Action::Merge { replica: 2, op: 1 }, None),
        Call::Merge { replica: 2, op: 1 }
    );
    assert_ne!(m[0].id, m[2].id);
    assert_ne!(m[1].signer, m[3].signer);
}

#[test]
fn each_member_owns_the_replica_at_its_place() {
    let g = Group::found(4, &mut StdRng::seed_from_u64(9));
    let mut owners = vec![];
    for step in &g.steps {
        match g.handed(step.action, None) {
            Call::Found { id, .. } => owners.push(id),
            Call::Own { id, .. } => owners.push(id),
            _ => {}
        }
    }
    let ids: Vec<[u8; 32]> = g.members.iter().map(|m| m.id).collect();
    assert_eq!(owners, ids);
}

#[test]
fn only_numbered_operations_are_kept() {
    let add = Action::Add { author: 0, member: 1 };
    let update = Action::Update { author: 0 };
    for (action, site, kept) in [
        (add, Site::FoundingAdd, true),
        (add, Site::Adding, true),
        (add, Site::Probe, false),
        (add, Site::ControlProgress, false),
        (Action::Remove { author: 0, member: 0 }, Site::Removing, true),
        (Action::Remove { author: 0, member: 0 }, Site::ControlRemoval, true),
        (Action::Remove { author: 0, member: 0 }, Site::ControlGuard, false),
        (update, Site::Healing, true),
        (update, Site::Replay, false),
        (Action::Found, Site::Founding, false),
        (Action::Own { member: 1 }, Site::Owning, false),
        (Action::Merge { replica: 0, op: 0 }, Site::Delivery, false),
    ] {
        assert_eq!(Step { action, site }.keeps_operation(), kept);
    }
    let g = Group::found(3, &mut StdRng::seed_from_u64(9));
    assert_eq!(g.steps.iter().filter(|s| s.keeps_operation()).count(), g.ops);
}
