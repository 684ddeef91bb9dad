//! A group of replicas of one tree, as a plan: the calls that are to be made on
//! the replicas, in order.
//!
//! Operations are numbered in the order in which the plan authors them. An
//! operation is authored once and then merged into replicas, so that a replica
//! lags behind by exactly the operations that the plan withholds from it.

use crate::keys::{
    blocks, drawn, member, share_key_of, signer, verifying_key_of, Member, Share, Signer,
};
use rand::rngs::StdRng;
use vstd::prelude::*;

verus! {

/// A call to be made. Members and replicas are named by their place in the
/// group; an author calls its own replica and signs with its own signer.
#[derive(Clone, Copy, PartialEq, Eq, Structural, Debug)]
pub enum Action {
    /// The first member founds the tree.
    Found,
    /// A replica for `member` is seeded from the founding add.
    Seed { member: usize },
    /// The replica just seeded is handed to `member` with its share secret.
    Own { member: usize },
    /// `author` adds `member`.
    Add { author: usize, member: usize },
    /// `author` removes `member`.
    Remove { author: usize, member: usize },
    /// `author` replaces its own key.
    Update { author: usize },
    /// `replica` merges the operation numbered `op`.
    Merge { replica: usize, op: usize },
}

/// Where in a plan a call stands. It decides what the reply must be.
#[derive(Clone, Copy, PartialEq, Eq, Structural, Debug)]
pub enum Site {
    /// Founding the tree.
    Founding,
    /// Seeding a replica.
    Seeding,
    /// Handing a seeded replica over.
    Owning,
    /// An add that is part of founding the group.
    FoundingAdd,
    /// Merging an operation.
    Delivery,
    /// An add of the scenario.
    Adding,
    /// A removal of the scenario.
    Removing,
    /// A key replacement that covers what came before.
    Healing,
    /// A removal that leaves members behind.
    ControlRemoval,
    /// The removal of the last member, which has to be refused.
    ControlGuard,
    /// An add after that refusal.
    ControlProgress,
    /// An add that tells whether a replica can still go on.
    Probe,
    /// A call made only so that the replica replays; its reply does not matter.
    Replay,
}

impl Site {
    /// Going on from this site takes an operation out of the call.
    pub open spec fn yields(self) -> bool {
        match self {
            Site::FoundingAdd => true,
            Site::Adding => true,
            Site::Removing => true,
            Site::Healing => true,
            Site::ControlRemoval => true,
            _ => false,
        }
    }
}

/// A call and where it stands.
#[derive(Clone, Copy, PartialEq, Eq, Structural, Debug)]
pub struct Step {
    pub action: Action,
    pub site: Site,
}

/// A call with the values that it is handed. Keys are bytes: `id` and `pk` are
/// public, `sk` is a share secret and `signer` a signing secret. `replica` is
/// the place of the replica that is called.
#[derive(Clone, Copy, PartialEq, Eq, Debug)]
pub enum Call {
    /// Founds the tree `doc`.
    Found { doc: [u8; 32], id: [u8; 32], pk: [u8; 32], sk: [u8; 32], signer: [u8; 32] },
    /// Seeds a replica of `doc` from the founding add.
    Seed { doc: [u8; 32], id: [u8; 32], pk: [u8; 32] },
    /// Hands the replica just seeded to its owner.
    Own { id: [u8; 32], pk: [u8; 32], sk: [u8; 32] },
    /// Adds a member.
    Add { replica: usize, id: [u8; 32], pk: [u8; 32], signer: [u8; 32] },
    /// Removes a member.
    Remove { replica: usize, id: [u8; 32], signer: [u8; 32] },
    /// Replaces the key of the replica's owner.
    Update { replica: usize, pk: [u8; 32], sk: [u8; 32], signer: [u8; 32] },
    /// Merges the operation numbered `op`.
    Merge { replica: usize, op: usize },
}

impl Action {
    /// Whose replica authors, where the call authors at all.
    pub open spec fn author(self) -> Option<usize> {
        match self {
            Action::Add { author, .. } => Some(author),
            Action::Remove { author, .. } => Some(author),
            Action::Update { author } => Some(author),
            _ => None,
        }
    }

    /// Every member and replica that is named is there.
    pub open spec fn within(self, members: nat, replicas: nat) -> bool {
        match self {
            Action::Found => replicas > 0,
            Action::Seed { member } => member < members,
            Action::Own { member } => member < members,
            Action::Add { author, member } => author < replicas && member < members,
            Action::Remove { author, member } => author < replicas && member < members,
            Action::Update { author } => author < replicas,
            Action::Merge { replica, .. } => replica < replicas,
        }
    }
}

impl Step {
    /// Who authors an operation that the plan goes on with, if anybody.
    pub open spec fn authors(self) -> Option<usize> {
        if self.site.yields() {
            self.action.author()
        } else {
            None
        }
    }

    /// Whether the call's operation gets a number and is kept for merging.
    pub fn keeps_operation(&self) -> (r: bool)
        ensures
            r == self.authors() is Some,
            r <==> (self.action is Add || self.action is Remove || self.action is Update) && (
            self.site is FoundingAdd || self.site is Adding || self.site is Removing
                || self.site is Healing || self.site is ControlRemoval),
    {
        let authors = match self.action {
            Action::Add { .. } => true,
            Action::Remove { .. } => true,
            Action::Update { .. } => true,
            _ => false,
        };
        let yields = match self.site {
            Site::FoundingAdd => true,
            Site::Adding => true,
            Site::Removing => true,
            Site::Healing => true,
            Site::ControlRemoval => true,
            _ => false,
        };
        authors && yields
    }
}

/// Whose replicas there are at the end of the plan, in the order in which the
/// replicas came to be.
pub open spec fn owners(steps: Seq<Step>) -> Seq<usize>
    decreases steps.len(),
{
    if steps.len() == 0 {
        Seq::empty()
    } else {
        let before = owners(steps.drop_last());
        match steps.last().action {
            Action::Found => before.push(0),
            Action::Own { member } => before.push(member),
            _ => before,
        }
    }
}

/// How many operations the plan authors.
pub open spec fn authored(steps: Seq<Step>) -> nat
    decreases steps.len(),
{
    if steps.len() == 0 {
        0
    } else if steps.last().authors() is Some {
        authored(steps.drop_last()) + 1
    } else {
        authored(steps.drop_last())
    }
}

/// The operations that a replica holds at the end of the plan: those it
/// authored and those merged into it.
pub open spec fn held(steps: Seq<Step>, replica: int) -> Set<int>
    decreases steps.len(),
{
    if steps.len() == 0 {
        Set::empty()
    } else {
        let before = held(steps.drop_last(), replica);
        match steps.last().authors() {
            Some(author) => if author == replica {
                before.insert(authored(steps.drop_last()) as int)
            } else {
                before
            },
            None => match steps.last().action {
                Action::Merge { replica: r, op } => if r == replica {
                    before.insert(op as int)
                } else {
                    before
                },
                _ => before,
            },
        }
    }
}

/// The operations that the author of `op` held when it authored it.
pub open spec fn context(steps: Seq<Step>, op: int) -> Set<int>
    decreases steps.len(),
{
    if steps.len() == 0 {
        Set::empty()
    } else {
        let before = steps.drop_last();
        match steps.last().authors() {
            Some(author) => if op == authored(before) {
                held(before, author as int)
            } else {
                context(before, op)
            },
            None => context(before, op),
        }
    }
}

/// Neither author knew of the other's operation.
pub open spec fn concurrent(steps: Seq<Step>, a: int, b: int) -> bool {
    !context(steps, a).contains(b) && !context(steps, b).contains(a)
}

/// The step may follow the plan: what it merges has been authored, and the
/// replica holds all that its author held.
pub open spec fn may_follow(steps: Seq<Step>, step: Step) -> bool {
    match step.action {
        Action::Merge { replica, op } => {
            &&& op < authored(steps)
            &&& context(steps, op as int).subset_of(held(steps, replica as int))
        },
        _ => true,
    }
}

/// Every operation reaches a replica after all that its author held.
pub open spec fn causal(steps: Seq<Step>) -> bool
    decreases steps.len(),
{
    steps.len() > 0 ==> causal(steps.drop_last()) && may_follow(steps.drop_last(), steps.last())
}

/// Every probe is made on somebody's replica.
pub open spec fn probes_have_authors(steps: Seq<Step>) -> bool {
    forall|i: int|
        0 <= i < steps.len() && (#[trigger] steps[i]).site is Probe
            ==> steps[i].action.author() is Some
}

/// Merging `op` into each of `to`, in order.
pub open spec fn merges(op: usize, to: Seq<usize>) -> Seq<Step> {
    to.map_values(
        |r: usize|
            Step { action: Action::Merge { replica: r, op }, site: Site::Delivery },
    )
}

/// `replica` is one of `to`.
pub open spec fn among(to: Seq<usize>, replica: int) -> bool {
    exists|j: int| 0 <= j < to.len() && #[trigger] to[j] == replica
}

/// All replicas of a group of `n`, in order.
pub open spec fn everyone(n: nat) -> Seq<usize> {
    Seq::new(n, |i: int| i as usize)
}

/// Founding a tree and seeding a replica for each further member below `n`.
pub open spec fn seeding(n: nat) -> Seq<Step>
    decreases n,
{
    if n <= 1 {
        seq![Step { action: Action::Found, site: Site::Founding }]
    } else {
        let member = (n - 1) as usize;
        seeding((n - 1) as nat).push(
            Step { action: Action::Seed { member }, site: Site::Seeding },
        ).push(Step { action: Action::Own { member }, site: Site::Owning })
    }
}

/// A group of `n` replicas into which the first member has added all members
/// below `k`, one after the other, each add merged everywhere.
pub open spec fn growing(n: nat, k: nat) -> Seq<Step>
    decreases k,
{
    if k <= 1 {
        seeding(n)
    } else {
        growing(n, (k - 1) as nat).push(
            Step {
                action: Action::Add { author: 0, member: (k - 1) as usize },
                site: Site::FoundingAdd,
            },
        ) + merges((k - 2) as usize, everyone(n))
    }
}

/// Founding a group of `n`.
pub open spec fn founding(n: nat) -> Seq<Step> {
    growing(n, n)
}

/// One further step, seen from what the plan did before it.
pub proof fn lemma_push(steps: Seq<Step>, step: Step)
    ensures
        authored(steps.push(step)) == authored(steps) + if step.authors() is Some {
            1nat
        } else {
            0nat
        },
        forall|r: int| #[trigger]
            held(steps.push(step), r) == match step.authors() {
                Some(author) => if author == r {
                    held(steps, r).insert(authored(steps) as int)
                } else {
                    held(steps, r)
                },
                None => match step.action {
                    Action::Merge { replica, op } => if replica == r {
                        held(steps, r).insert(op as int)
                    } else {
                        held(steps, r)
                    },
                    _ => held(steps, r),
                },
            },
        forall|o: int| #[trigger]
            context(steps.push(step), o) == match step.authors() {
                Some(author) => if o == authored(steps) {
                    held(steps, author as int)
                } else {
                    context(steps, o)
                },
                None => context(steps, o),
            },
        causal(steps.push(step)) == (causal(steps) && may_follow(steps, step)),
        owners(steps.push(step)) == match step.action {
            Action::Found => owners(steps).push(0),
            Action::Own { member } => owners(steps).push(member),
            _ => owners(steps),
        },
{
    assert(steps.push(step).drop_last() == steps);
}

/// Where every operation reaches a replica after all that its author held,
/// nobody holds an operation that has not been authored.
pub proof fn law_held_operations_were_authored(steps: Seq<Step>, replica: int, op: int)
    requires
        causal(steps),
        held(steps, replica).contains(op),
    ensures
        0 <= op < authored(steps),
    decreases steps.len(),
{
    if steps.len() > 0 {
        let before = steps.drop_last();
        if held(before, replica).contains(op) {
            law_held_operations_were_authored(before, replica, op);
        }
    }
}

/// A group: its members, how many of them have a replica, and the plan so far.
/// Members beyond the replicas are there to be added.
pub struct Group {
    pub doc: Signer,
    pub members: Vec<Member>,
    pub replicas: usize,
    pub steps: Vec<Step>,
    pub ops: usize,
}

impl Group {
    /// Operations are numbered without gaps, everything named is there, and
    /// operations are delivered in causal order.
    pub open spec fn wf(self) -> bool {
        &&& 0 < self.replicas <= self.members@.len()
        &&& self.ops == authored(self.steps@)
        &&& self.ops <= self.steps@.len()
        &&& causal(self.steps@)
        &&& probes_have_authors(self.steps@)
        &&& forall|i: int|
            0 <= i < self.steps@.len() ==> (#[trigger] self.steps@[i]).action.within(
                self.members@.len(),
                self.replicas as nat,
            )
    }

    /// Nothing but the plan is different.
    pub open spec fn same_group(self, other: Group) -> bool {
        &&& self.doc == other.doc
        &&& self.members == other.members
        &&& self.replicas == other.replicas
    }

    /// The members were drawn one after the other, from the block after the
    /// group's own signer on.
    pub open spec fn drawn_from(self, all: Map<nat, Seq<u8>>) -> bool {
        &&& self.doc.of(all[0])
        &&& forall|i: int|
            0 <= i < self.members@.len() ==> (#[trigger] self.members@[i]).of(
                all[(2 * i + 1) as nat],
                all[(2 * i + 2) as nat],
            )
    }

    /// `op` has been authored, and each of `to` is a replica that holds all that
    /// its author held.
    pub open spec fn may_deliver(self, op: usize, to: Seq<usize>) -> bool {
        &&& self.wf()
        &&& op < self.ops
        &&& forall|j: int| 0 <= j < to.len() ==> #[trigger] to[j] < self.replicas
        &&& forall|j: int|
            0 <= j < to.len() ==> context(self.steps@, op as int).subset_of(
                held(self.steps@, #[trigger] to[j] as int),
            )
    }

    /// The group is what `before` becomes when the merging of `op` into `to` is
    /// planned.
    pub open spec fn delivered(self, before: Group, op: usize, to: Seq<usize>) -> bool {
        &&& self.same_group(before)
        &&& self.ops == before.ops
        &&& self.steps@ == before.steps@ + merges(op, to)
    }

    /// Reaching everyone is the same as reaching all places in order: the one
    /// may be planned exactly when the other may, and both leave the same group.
    pub proof fn law_reaching_everyone_is_delivery_in_order(
        before: Group,
        op: usize,
        to: Seq<usize>,
        a: Group,
        b: Group,
    )
        requires
            to.len() == before.replicas,
            forall|i: int| 0 <= i < to.len() ==> #[trigger] to[i] == i,
        ensures
            before.may_deliver(op, everyone(before.replicas as nat)) <==> before.may_deliver(
                op,
                to,
            ),
            a.delivered(before, op, everyone(before.replicas as nat)) && b.delivered(before, op, to)
                ==> a.same_group(b) && a.ops == b.ops && a.steps@ == b.steps@,
    {
        assert(to =~= everyone(before.replicas as nat));
    }

    /// A cast comes out of a stream block by block: the tree's signing secret is
    /// the first, and each member in turn has the next two, first for signing
    /// and then for sharing. Public keys are those of these secrets.
    pub proof fn law_cast_comes_from_the_stream_in_order(self, all: Map<nat, Seq<u8>>)
        ensures
            self.drawn_from(all) <==> {
                &&& self.doc.secret@ == all[0]
                &&& self.doc.verifying@ == verifying_key_of(self.doc.secret@)
                &&& forall|i: int|
                    0 <= i < self.members@.len() ==> {
                        &&& (#[trigger] self.members@[i]).signer@ == all[(2 * i + 1) as nat]
                        &&& self.members@[i].id@ == verifying_key_of(self.members@[i].signer@)
                        &&& self.members@[i].sk@ == all[(2 * i + 2) as nat]
                        &&& self.members@[i].pk@ == share_key_of(self.members@[i].sk@)
                    }
            },
    {
    }

    /// One stream of blocks draws one cast: groups of equal size that were
    /// drawn from it have the same keys throughout.
    pub proof fn law_one_seed_draws_one_cast(a: Group, b: Group, all: Map<nat, Seq<u8>>)
        requires
            a.drawn_from(all),
            b.drawn_from(all),
            a.members@.len() == b.members@.len(),
        ensures
            a.doc.secret@ == b.doc.secret@,
            a.doc.verifying@ == b.doc.verifying@,
            forall|i: int|
                0 <= i < a.members@.len() ==> {
                    &&& (#[trigger] a.members@[i]).id@ == b.members@[i].id@
                    &&& a.members@[i].signer@ == b.members@[i].signer@
                    &&& a.members@[i].pk@ == b.members@[i].pk@
                    &&& a.members@[i].sk@ == b.members@[i].sk@
                },
    {
        assert forall|i: int| 0 <= i < a.members@.len() implies {
            &&& (#[trigger] a.members@[i]).id@ == b.members@[i].id@
            &&& a.members@[i].signer@ == b.members@[i].signer@
            &&& a.members@[i].pk@ == b.members@[i].pk@
            &&& a.members@[i].sk@ == b.members@[i].sk@
        } by {
            assert(b.members@[i].of(all[(2 * i + 1) as nat], all[(2 * i + 2) as nat]));
        }
    }

    /// Founds a group of `n` members, each with a replica: the first founds the
    /// tree, a replica is seeded for each of the others, and the first then adds
    /// them one after the other, every add merged everywhere before the next.
    pub fn found(n: usize, rng: &mut StdRng) -> (group: Group)
        requires
            n > 0,
        ensures
            group.wf(),
            group.replicas == n,
            group.members@.len() == n,
            group.drawn_from(blocks(*old(rng))),
            drawn(*final(rng), blocks(*old(rng)), 2 * n as nat + 1),
            group.ops == n - 1,
            group.steps@ == founding(n as nat),
            // Each member has the replica at its own place.
            owners(group.steps@) == everyone(n as nat),
            forall|r: int|
                0 <= r < n ==> #[trigger] held(group.steps@, r) == Set::new(
                    |o: int| 0 <= o < n - 1,
                ),
            forall|o: int|
                0 <= o < n - 1 ==> #[trigger] context(group.steps@, o) == Set::new(
                    |p: int| 0 <= p < o,
                ),
    {
        let ghost all = blocks(*rng);
        let doc = signer(rng);
        let mut members: Vec<Member> = Vec::new();
        for k in 0..n
            invariant
                members@.len() == k,
                drawn(*rng, all, 2 * k as nat + 1),
                forall|i: int|
                    0 <= i < k ==> (#[trigger] members@[i]).of(
                        all[(2 * i + 1) as nat],
                        all[(2 * i + 2) as nat],
                    ),
        {
            let ghost mid = blocks(*rng);
            let m = member(rng);
            proof {
                assert(mid[0] == all[(2 * k + 1) as nat]);
                assert(mid[1] == all[(2 * k + 2) as nat]);
                assert forall|j: nat| #[trigger] blocks(*rng)[j] == all[j + (2 * (k + 1) as nat + 1)] by {
                    assert(blocks(*rng)[j] == mid[j + 2]);
                    assert(mid[j + 2] == all[j + 2 + (2 * k as nat + 1)]);
                }
            }
            members.push(m);
        }

        let mut steps: Vec<Step> = Vec::new();
        steps.push(Step { action: Action::Found, site: Site::Founding });
        let mut group = Group { doc, members, replicas: n, steps, ops: 0 };
        proof {
            lemma_push(Seq::empty(), Step { action: Action::Found, site: Site::Founding });
            assert(group.steps@ == Seq::empty().push(
                Step { action: Action::Found, site: Site::Founding },
            ));
        }
        let ghost bare = group;
        for k in 1..n
            invariant
                n == group.replicas,
                group.wf(),
                group.same_group(bare),
                group.ops == 0,
                group.steps@ == seeding(k as nat),
                owners(group.steps@) == everyone(k as nat),
                forall|r: int| #[trigger] held(group.steps@, r) == Set::<int>::empty(),
        {
            proof {
                let seed = Step { action: Action::Seed { member: k }, site: Site::Seeding };
                lemma_push(group.steps@, seed);
                lemma_push(
                    group.steps@.push(seed),
                    Step { action: Action::Own { member: k }, site: Site::Owning },
                );
            }
            group.call(Action::Seed { member: k }, Site::Seeding);
            group.call(Action::Own { member: k }, Site::Owning);
        }
        for k in 1..n
            invariant
                n == group.replicas,
                group.wf(),
                group.same_group(bare),
                group.ops == k - 1,
                group.steps@ == growing(n as nat, k as nat),
                owners(group.steps@) == everyone(n as nat),
                forall|r: int|
                    0 <= r < n ==> #[trigger] held(group.steps@, r) == Set::new(
                        |o: int| 0 <= o < k - 1,
                    ),
                forall|o: int|
                    0 <= o < k - 1 ==> #[trigger] context(group.steps@, o) == Set::new(
                        |p: int| 0 <= p < o,
                    ),
        {
            let ghost was = group;
            let op = group.author(Action::Add { author: 0, member: k }, Site::FoundingAdd);
            let ghost mid = group;
            group.broadcast(op);
            proof {
                assert forall|r: int| 0 <= r < n implies #[trigger] held(group.steps@, r)
                    == Set::new(|o: int| 0 <= o < k) by {
                    assert(held(group.steps@, r) == held(mid.steps@, r).insert(op as int));
                    assert(held(was.steps@, r).insert(op as int) =~= Set::new(
                        |o: int| 0 <= o < k,
                    ));
                    assert(held(was.steps@, r).insert(op as int).insert(op as int) =~= held(
                        was.steps@,
                        r,
                    ).insert(op as int));
                }
                assert forall|o: int| 0 <= o < k implies #[trigger] context(group.steps@, o)
                    == Set::new(|p: int| 0 <= p < o) by {
                    assert(context(group.steps@, o) == context(mid.steps@, o));
                    if o == op {
                        assert(context(mid.steps@, o) == held(was.steps@, 0));
                    }
                }
            }
        }
        group
    }

    /// What a call of the plan is handed. The tree is founded with the keys of
    /// the first member, whose founding add every further replica is seeded
    /// from. A replica is owned, a member added or removed with the keys of the
    /// member at that place; an author signs for itself. A replaced key moves to
    /// `fresh`.
    pub fn handed(&self, action: Action, fresh: Option<Share>) -> (call: Call)
        requires
            self.wf(),
            action.within(self.members@.len(), self.replicas as nat),
            action is Update ==> fresh is Some,
        ensures
            action is Found ==> call == (Call::Found {
                doc: self.doc.verifying,
                id: self.members@[0].id,
                pk: self.members@[0].pk,
                sk: self.members@[0].sk,
                signer: self.members@[0].signer,
            }),
            action is Seed ==> call == (Call::Seed {
                doc: self.doc.verifying,
                id: self.members@[0].id,
                pk: self.members@[0].pk,
            }),
            action matches Action::Own { member } ==> call == (Call::Own {
                id: self.members@[member as int].id,
                pk: self.members@[member as int].pk,
                sk: self.members@[member as int].sk,
            }),
            action matches Action::Add { author, member } ==> call == (Call::Add {
                replica: author,
                id: self.members@[member as int].id,
                pk: self.members@[member as int].pk,
                signer: self.members@[author as int].signer,
            }),
            action matches Action::Remove { author, member } ==> call == (Call::Remove {
                replica: author,
                id: self.members@[member as int].id,
                signer: self.members@[author as int].signer,
            }),
            action matches Action::Update { author } ==> call == (Call::Update {
                replica: author,
                pk: fresh->0.pk,
                sk: fresh->0.sk,
                signer: self.members@[author as int].signer,
            }),
            action matches Action::Merge { replica, op } ==> call == (Call::Merge { replica, op }),
    {
        match action {
            Action::Found => {
                let m = self.members[0];
                Call::Found {
                    doc: self.doc.verifying,
                    id: m.id,
                    pk: m.pk,
                    sk: m.sk,
                    signer: m.signer,
                }
            },
            Action::Seed { .. } => {
                let m = self.members[0];
                Call::Seed { doc: self.doc.verifying, id: m.id, pk: m.pk }
            },
            Action::Own { member } => {
                let m = self.members[member];
                Call::Own { id: m.id, pk: m.pk, sk: m.sk }
            },
            Action::Add { author, member } => {
                let m = self.members[member];
                Call::Add {
                    replica: author,
                    id: m.id,
                    pk: m.pk,
                    signer: self.members[author].signer,
                }
            },
            Action::Remove { author, member } => Call::Remove {
                replica: author,
                id: self.members[member].id,
                signer: self.members[author].signer,
            },
            Action::Update { author } => {
                let key = fresh.unwrap();
                Call::Update {
                    replica: author,
                    pk: key.pk,
                    sk: key.sk,
                    signer: self.members[author].signer,
                }
            },
            Action::Merge { replica, op } => Call::Merge { replica, op },
        }
    }

    /// Plans a call that yields no operation.
    pub fn call(&mut self, action: Action, site: Site)
        requires
            old(self).wf(),
            action.within(old(self).members@.len(), old(self).replicas as nat),
            may_follow(old(self).steps@, Step { action, site }),
            (Step { action, site }).authors() is None,
            site is Probe ==> action.author() is Some,
        ensures
            final(self).wf(),
            final(self).same_group(*old(self)),
            final(self).ops == old(self).ops,
            final(self).steps@ == old(self).steps@.push(Step { action, site }),
            owners(final(self).steps@) == match action {
                Action::Found => owners(old(self).steps@).push(0),
                Action::Own { member } => owners(old(self).steps@).push(member),
                _ => owners(old(self).steps@),
            },
    {
        proof {
            lemma_push(self.steps@, Step { action, site });
        }
        self.steps.push(Step { action, site });
    }

    /// Plans a call that yields an operation, and returns its number. The
    /// author holds it from then on; its context is what the author held.
    pub fn author(&mut self, action: Action, site: Site) -> (op: usize)
        requires
            old(self).wf(),
            action.within(old(self).members@.len(), old(self).replicas as nat),
            (Step { action, site }).authors() is Some,
        ensures
            final(self).wf(),
            final(self).same_group(*old(self)),
            op == old(self).ops,
            final(self).ops == old(self).ops + 1,
            final(self).steps@ == old(self).steps@.push(Step { action, site }),
            owners(final(self).steps@) == owners(old(self).steps@),
            forall|r: int| #[trigger]
                held(final(self).steps@, r) == if r == action.author()->0 {
                    held(old(self).steps@, r).insert(op as int)
                } else {
                    held(old(self).steps@, r)
                },
            forall|o: int| #[trigger]
                context(final(self).steps@, o) == if o == op {
                    held(old(self).steps@, action.author()->0 as int)
                } else {
                    context(old(self).steps@, o)
                },
    {
        proof {
            lemma_push(self.steps@, Step { action, site });
        }
        let op = self.ops;
        self.steps.push(Step { action, site });
        assert(self.ops < self.steps.len());
        self.ops = self.ops + 1;
        op
    }

    /// Plans the merging of `op` into the replicas `to`, in order.
    pub fn deliver(&mut self, op: usize, to: &[usize])
        requires
            old(self).may_deliver(op, to@),
        ensures
            final(self).wf(),
            final(self).delivered(*old(self), op, to@),
            final(self).steps@ == old(self).steps@ + merges(op, to@),
            owners(final(self).steps@) == owners(old(self).steps@),
            forall|r: int| #[trigger]
                held(final(self).steps@, r) == if among(to@, r) {
                    held(old(self).steps@, r).insert(op as int)
                } else {
                    held(old(self).steps@, r)
                },
            forall|o: int| #[trigger]
                context(final(self).steps@, o) == context(old(self).steps@, o),
    {
        let ghost was = *self;
        let ghost all = merges(op, to@);
        for k in 0..to.len()
            invariant
                was.wf(),
                self.wf(),
                self.same_group(was),
                op < was.ops,
                self.ops == was.ops,
                all == merges(op, to@),
                self.steps@ == was.steps@ + all.take(k as int),
                owners(self.steps@) == owners(was.steps@),
                forall|j: int| 0 <= j < to@.len() ==> #[trigger] to@[j] < was.replicas,
                forall|j: int|
                    0 <= j < to@.len() ==> context(was.steps@, op as int).subset_of(
                        held(was.steps@, #[trigger] to@[j] as int),
                    ),
                forall|r: int| #[trigger]
                    held(self.steps@, r) == if exists|j: int|
                        0 <= j < k && #[trigger] to@[j] == r {
                        held(was.steps@, r).insert(op as int)
                    } else {
                        held(was.steps@, r)
                    },
                forall|o: int| #[trigger] context(self.steps@, o) == context(was.steps@, o),
        {
            let r = to[k];
            let ghost pre = *self;
            proof {
                assert(to@[k as int] < was.replicas);
                lemma_push(
                    self.steps@,
                    Step { action: Action::Merge { replica: r, op }, site: Site::Delivery },
                );
            }
            self.call(Action::Merge { replica: r, op }, Site::Delivery);
            proof {
                assert(all[k as int] == Step {
                    action: Action::Merge { replica: r, op },
                    site: Site::Delivery,
                });
                assert(all.take(k + 1) == all.take(k as int).push(all[k as int]));
                assert(self.steps@ == was.steps@ + all.take(k + 1));
                assert forall|q: int| #[trigger]
                    held(self.steps@, q) == if exists|j: int|
                        0 <= j < k + 1 && #[trigger] to@[j] == q {
                        held(was.steps@, q).insert(op as int)
                    } else {
                        held(was.steps@, q)
                    } by {
                    if r == q {
                        assert(to@[k as int] == q);
                        assert(held(self.steps@, q) == held(was.steps@, q).insert(op as int));
                    } else {
                        assert(held(self.steps@, q) == held(pre.steps@, q));
                        if exists|j: int| 0 <= j < k && #[trigger] to@[j] == q {
                            let j = choose|j: int| 0 <= j < k && #[trigger] to@[j] == q;
                            assert(0 <= j < k + 1 && to@[j] == q);
                        }
                    }
                }
            }
        }
        assert(all.take(to@.len() as int) == all);
    }

    /// Plans the merging of `op` into every replica, in order.
    pub fn broadcast(&mut self, op: usize)
        requires
            old(self).may_deliver(op, everyone(old(self).replicas as nat)),
        ensures
            final(self).wf(),
            final(self).delivered(*old(self), op, everyone(old(self).replicas as nat)),
            final(self).steps@ == old(self).steps@ + merges(
                op,
                everyone(old(self).replicas as nat),
            ),
            owners(final(self).steps@) == owners(old(self).steps@),
            forall|r: int| #[trigger]
                held(final(self).steps@, r) == if 0 <= r < old(self).replicas {
                    held(old(self).steps@, r).insert(op as int)
                } else {
                    held(old(self).steps@, r)
                },
            forall|o: int| #[trigger]
                context(final(self).steps@, o) == context(old(self).steps@, o),
    {
        let mut to: Vec<usize> = Vec::new();
        for k in 0..self.replicas
            invariant
                to@ == everyone(k as nat),
        {
            to.push(k);
        }
        let ghost was = *self;
        self.deliver(op, to.as_slice());
        proof {
            assert forall|r: int| #[trigger]
                held(self.steps@, r) == if 0 <= r < was.replicas {
                    held(was.steps@, r).insert(op as int)
                } else {
                    held(was.steps@, r)
                } by {
                if 0 <= r < was.replicas {
                    assert(to@[r] == r);
                }
            }
        }
    }

    /// Draws a member that has no replica, and returns its place.
    pub fn enlist(&mut self, rng: &mut StdRng) -> (place: usize)
        requires
            old(self).wf(),
        ensures
            final(self).wf(),
            final(self).doc == old(self).doc,
            final(self).replicas == old(self).replicas,
            final(self).ops == old(self).ops,
            final(self).steps == old(self).steps,
            place == old(self).members@.len(),
            final(self).members@.len() == place + 1,
            final(self).members@.drop_last() == old(self).members@,
            final(self).members@.last().of(blocks(*old(rng))[0], blocks(*old(rng))[1]),
            final(self).members@.last().signer@ == blocks(*old(rng))[0],
            final(self).members@.last().sk@ == blocks(*old(rng))[1],
            drawn(*final(rng), blocks(*old(rng)), 2),
            forall|all: Map<nat, Seq<u8>>| #[trigger]
                old(self).drawn_from(all) && drawn(*old(rng), all, 2 * place as nat + 1) ==> {
                    &&& final(self).drawn_from(all)
                    &&& drawn(*final(rng), all, 2 * place as nat + 3)
                },
    {
        let place = self.members.len();
        let ghost mid = blocks(*rng);
        let m = member(rng);
        self.members.push(m);
        proof {
            assert(self.members@.drop_last() == old(self).members@);
            assert forall|all: Map<nat, Seq<u8>>| #[trigger]
                old(self).drawn_from(all) && drawn(*old(rng), all, 2 * place as nat + 1) implies {
                &&& self.drawn_from(all)
                &&& drawn(*rng, all, 2 * place as nat + 3)
            } by {
                assert(mid[0] == all[(2 * place + 1) as nat]);
                assert(mid[1] == all[(2 * place + 2) as nat]);
                assert forall|i: int| 0 <= i < self.members@.len() implies (
                #[trigger] self.members@[i]).of(
                    all[(2 * i + 1) as nat],
                    all[(2 * i + 2) as nat],
                ) by {
                    if i < place {
                        assert(self.members@[i] == old(self).members@[i]);
                    }
                }
                assert forall|k: nat| #[trigger] blocks(*rng)[k] == all[k + (2 * place as nat + 3)] by {
                    assert(blocks(*rng)[k] == mid[k + 2]);
                    assert(mid[k + 2] == all[k + 2 + (2 * place as nat + 1)]);
                }
            }
        }
        place
    }
}

/// Whoever comes is at its own place among everyone, and everyone is there.
pub proof fn law_everyone_is_each_place_once(n: nat)
    requires
        n <= usize::MAX,
    ensures
        everyone(n).len() == n,
        forall|i: int| 0 <= i < n ==> #[trigger] everyone(n)[i] == i,
{
}

/// Merging into some replicas takes one call for each, in their order.
pub proof fn law_merging_takes_one_call_for_each(op: usize, to: Seq<usize>)
    ensures
        merges(op, to).len() == to.len(),
        forall|j: int|
            0 <= j < to.len() ==> (#[trigger] merges(op, to)[j]) == (Step {
                action: Action::Merge { replica: to[j], op },
                site: Site::Delivery,
            }),
{
}

/// Seeding, call by call.
proof fn lemma_seeding_places(n: nat)
    requires
        1 <= n <= usize::MAX,
    ensures
        seeding(n).len() == 2 * n - 1,
        seeding(n)[0] == (Step { action: Action::Found, site: Site::Founding }),
        forall|i: int|
            0 < i < 2 * n - 1 ==> (#[trigger] seeding(n)[i]) == if i % 2 == 1 {
                Step { action: Action::Seed { member: ((i + 1) / 2) as usize }, site: Site::Seeding }
            } else {
                Step { action: Action::Own { member: (i / 2) as usize }, site: Site::Owning }
            },
    decreases n,
{
    if n > 1 {
        let earlier = seeding((n - 1) as nat);
        lemma_seeding_places((n - 1) as nat);
        assert forall|i: int| 0 < i < 2 * n - 1 implies (#[trigger] seeding(n)[i]) == if i % 2 == 1 {
            Step { action: Action::Seed { member: ((i + 1) / 2) as usize }, site: Site::Seeding }
        } else {
            Step { action: Action::Own { member: (i / 2) as usize }, site: Site::Owning }
        } by {
            if i < 2 * n - 3 {
                assert(seeding(n)[i] == earlier[i]);
            }
        }
    }
}

/// The rounds of a founding: where they begin, and that what came before them
/// stays.
proof fn lemma_rounds(n: nat, k: nat)
    requires
        1 <= k <= n <= usize::MAX,
    ensures
        growing(n, k).len() == 2 * n - 1 + (k - 1) * (n + 1),
        growing(n, k).take(2 * n - 1) == seeding(n),
    decreases k,
{
    lemma_seeding_places(n);
    if k > 1 {
        lemma_rounds(n, (k - 1) as nat);
        assert((k - 1) * (n + 1) == (k - 2) * (n + 1) + (n + 1)) by (nonlinear_arith);
        assert((k - 2) * (n + 1) >= 0) by (nonlinear_arith)
            requires
                k > 1,
        ;
        assert(growing(n, k).take(2 * n - 1) == growing(n, (k - 1) as nat).take(2 * n - 1));
    }
}

/// One call of a round, wherever the founding has come to.
proof fn lemma_round(n: nat, k: nat, m: nat, j: int)
    requires
        1 <= m < k <= n <= usize::MAX,
        0 <= j <= n,
    ensures
        0 <= 2 * n - 1 + (m - 1) * (n + 1) + j < growing(n, k).len(),
        growing(n, k)[2 * n - 1 + (m - 1) * (n + 1) + j] == if j == 0 {
            Step { action: Action::Add { author: 0, member: m as usize }, site: Site::FoundingAdd }
        } else {
            Step {
                action: Action::Merge { replica: (j - 1) as usize, op: (m - 1) as usize },
                site: Site::Delivery,
            }
        },
    decreases k,
{
    let at = 2 * n - 1 + (m - 1) * (n + 1) + j;
    let earlier = growing(n, (k - 1) as nat);
    lemma_rounds(n, k);
    lemma_rounds(n, (k - 1) as nat);
    assert((m - 1) * (n + 1) >= 0) by (nonlinear_arith)
        requires
            m >= 1,
    ;
    assert((k - 1) * (n + 1) == (k - 2) * (n + 1) + (n + 1)) by (nonlinear_arith);
    if m < k - 1 {
        lemma_round(n, (k - 1) as nat, m, j);
        assert(growing(n, k)[at] == earlier[at]);
    } else {
        assert((m - 1) * (n + 1) == (k - 2) * (n + 1));
        assert(at == earlier.len() + j);
    }
}

/// A call behind the seeding belongs to some round.
proof fn lemma_which_round(n: nat, i: int) -> (r: (nat, int))
    requires
        1 <= n,
        2 * n - 1 <= i < 2 * n - 1 + (n - 1) * (n + 1),
    ensures
        1 <= r.0 < n,
        0 <= r.1 <= n,
        i == 2 * n - 1 + (r.0 - 1) * (n + 1) + r.1,
{
    let x = i - (2 * n - 1);
    let w = n + 1;
    let q = x / (w as int);
    let j = x % (w as int);
    vstd::arithmetic::div_mod::lemma_fundamental_div_mod(x, w as int);
    assert(x == q * w + j) by (nonlinear_arith)
        requires
            x == w * q + j,
    ;
    assert(0 <= q < n - 1) by (nonlinear_arith)
        requires
            x == q * w + j,
            0 <= j < w,
            0 <= x < (n - 1) * w,
            w == n + 1,
    ;
    ((q + 1) as nat, j)
}

/// The founding of a group of `n`, call by call. It begins with the founding of
/// the tree. Then each further member in turn gets a replica, in two calls: one
/// that seeds it and one that hands it over. Then each further member in turn
/// gets a round: the first member adds it, and the add is merged into every
/// replica in order.
pub proof fn law_founding_places_every_call(n: nat)
    requires
        1 <= n <= usize::MAX,
    ensures
        founding(n).len() == 2 * n - 1 + (n - 1) * (n + 1),
        forall|i: int|
            0 <= i < founding(n).len() ==> match (#[trigger] founding(n)[i]).action {
                Action::Found => i == 0 && founding(n)[i].site is Founding,
                Action::Seed { member } => {
                    &&& 0 < member < n
                    &&& i == 2 * member - 1
                    &&& founding(n)[i].site is Seeding
                },
                Action::Own { member } => {
                    &&& 0 < member < n
                    &&& i == 2 * member
                    &&& founding(n)[i].site is Owning
                },
                Action::Add { author, member } => {
                    &&& author == 0
                    &&& 0 < member < n
                    &&& i == 2 * n - 1 + (member - 1) * (n + 1)
                    &&& founding(n)[i].site is FoundingAdd
                },
                Action::Merge { replica, op } => {
                    &&& replica < n
                    &&& op < n - 1
                    &&& i == 2 * n + op * (n + 1) + replica
                    &&& founding(n)[i].site is Delivery
                },
                _ => false,
            },
{
    let steps = founding(n);
    lemma_rounds(n, n);
    lemma_seeding_places(n);
    assert forall|i: int| 0 <= i < steps.len() implies match (#[trigger] steps[i]).action {
        Action::Found => i == 0 && steps[i].site is Founding,
        Action::Seed { member } => {
            &&& 0 < member < n
            &&& i == 2 * member - 1
            &&& steps[i].site is Seeding
        },
        Action::Own { member } => {
            &&& 0 < member < n
            &&& i == 2 * member
            &&& steps[i].site is Owning
        },
        Action::Add { author, member } => {
            &&& author == 0
            &&& 0 < member < n
            &&& i == 2 * n - 1 + (member - 1) * (n + 1)
            &&& steps[i].site is FoundingAdd
        },
        Action::Merge { replica, op } => {
            &&& replica < n
            &&& op < n - 1
            &&& i == 2 * n + op * (n + 1) + replica
            &&& steps[i].site is Delivery
        },
        _ => false,
    } by {
        if i < 2 * n - 1 {
            assert(steps[i] == steps.take(2 * n - 1)[i]);
        } else {
            let (m, j) = lemma_which_round(n, i);
            lemma_round(n, n, m, j);
        }
    }
}

/// In the founding of a group of `n` there is exactly one call that seeds a
/// replica for a further member, and the very next call hands that replica over
/// to it.
pub proof fn law_every_further_member_gets_a_seeded_replica(n: nat, m: usize)
    requires
        0 < m < n <= usize::MAX,
    ensures
        forall|i: int|
            0 <= i < founding(n).len() ==> ((#[trigger] founding(n)[i]).action == (Action::Seed {
                member: m,
            }) <==> i == 2 * m - 1),
        founding(n)[2 * m - 1] == (Step { action: Action::Seed { member: m }, site: Site::Seeding }),
        founding(n)[2 * m as int] == (Step {
            action: Action::Own { member: m },
            site: Site::Owning,
        }),
        forall|i: int|
            0 <= i < founding(n).len() ==> ((#[trigger] founding(n)[i]).action == (Action::Own {
                member: m,
            }) <==> i == 2 * m),
{
    let steps = founding(n);
    law_founding_places_every_call(n);
    lemma_rounds(n, n);
    lemma_seeding_places(n);
    assert(steps[2 * m - 1] == steps.take(2 * n - 1)[2 * m - 1]);
    assert(steps[2 * m as int] == steps.take(2 * n - 1)[2 * m as int]);
    assert((2 * m - 1) % 2 == 1);
    assert((2 * m) % 2 == 0);
}

/// Wherever a founding hands a replica over, the call before it seeded a replica
/// for that very member, and no seeded replica is left without its owner.
pub proof fn law_owned_replicas_were_just_seeded(n: nat, i: int)
    requires
        1 <= n <= usize::MAX,
        0 <= i < founding(n).len(),
    ensures
        founding(n)[i].action matches Action::Own { member } ==> i > 0 && founding(n)[i - 1].action
            == (Action::Seed { member }),
        founding(n)[i].action matches Action::Seed { member } ==> i + 1 < founding(n).len()
            && founding(n)[i + 1].action == (Action::Own { member }),
{
    law_founding_places_every_call(n);
    assert((n - 1) * (n + 1) >= 0) by (nonlinear_arith)
        requires
            n >= 1,
    ;
    match founding(n)[i].action {
        Action::Own { member } => law_every_further_member_gets_a_seeded_replica(n, member),
        Action::Seed { member } => law_every_further_member_gets_a_seeded_replica(n, member),
        _ => {},
    }
}

/// In the founding of a group of `n` the first member adds each further member,
/// and the add reaches every replica, in order, before anything else is called.
pub proof fn law_every_add_reaches_everyone_before_the_next(n: nat, m: usize, r: usize)
    requires
        0 < m < n <= usize::MAX,
        r < n,
    ensures
        founding(n)[2 * n - 1 + (m - 1) * (n + 1)] == (Step {
            action: Action::Add { author: 0, member: m },
            site: Site::FoundingAdd,
        }),
        founding(n)[2 * n + (m - 1) * (n + 1) + r] == (Step {
            action: Action::Merge { replica: r, op: (m - 1) as usize },
            site: Site::Delivery,
        }),
{
    lemma_round(n, n, m as nat, 0);
    lemma_round(n, n, m as nat, r + 1);
}

/// Which calls author an operation that is kept, told by the call alone.
pub proof fn law_who_authors(step: Step)
    ensures
        step.authors() is Some <==> (step.action is Add || step.action is Remove
            || step.action is Update) && (step.site is FoundingAdd || step.site is Adding
            || step.site is Removing || step.site is Healing || step.site is ControlRemoval),
        step.authors() is Some ==> step.authors() == step.action.author(),
        step.action matches Action::Add { author, .. } ==> step.action.author() == Some(author),
        step.action matches Action::Remove { author, .. } ==> step.action.author() == Some(author),
        step.action matches Action::Update { author } ==> step.action.author() == Some(author),
{
}

/// Operations are counted call by call: two plans one after the other author
/// what each of them authors.
pub proof fn law_authored_operations_add_up(a: Seq<Step>, b: Seq<Step>)
    ensures
        authored(Seq::empty()) == 0,
        forall|step: Step| #[trigger]
            authored(seq![step]) == if step.authors() is Some {
                1nat
            } else {
                0nat
            },
        authored(a + b) == authored(a) + authored(b),
    decreases b.len(),
{
    assert forall|step: Step| #[trigger]
        authored(seq![step]) == if step.authors() is Some {
            1nat
        } else {
            0nat
        } by {
        assert(seq![step] == Seq::<Step>::empty().push(step));
        lemma_push(Seq::empty(), step);
    }
    if b.len() == 0 {
        assert(a + b == a);
    } else {
        assert((a + b).drop_last() == a + b.drop_last());
        law_authored_operations_add_up(a, b.drop_last());
    }
}

/// A replica holds exactly the operations that it authored and those that were
/// merged into it. An operation's number is how many were authored before it.
pub proof fn law_held_is_authored_or_merged(steps: Seq<Step>, replica: int, op: int)
    ensures
        held(steps, replica).contains(op) <==> exists|i: int|
            0 <= i < steps.len() && match (#[trigger] steps[i]).authors() {
                Some(author) => author == replica && authored(steps.take(i)) == op,
                None => steps[i].action matches Action::Merge { replica: r, op: o } && r == replica
                    && o == op,
            },
    decreases steps.len(),
{
    if steps.len() > 0 {
        let earlier = steps.drop_last();
        let n = earlier.len() as int;
        law_held_is_authored_or_merged(earlier, replica, op);
        assert(steps.take(n) == earlier);
        assert forall|i: int| 0 <= i < n implies earlier.take(i) == #[trigger] steps.take(i) by {}
        if held(earlier, replica).contains(op) {
            let i = choose|i: int|
                0 <= i < earlier.len() && match (#[trigger] earlier[i]).authors() {
                    Some(author) => author == replica && authored(earlier.take(i)) == op,
                    None => earlier[i].action matches Action::Merge { replica: r, op: o } && r
                        == replica && o == op,
                };
            assert(steps[i] == earlier[i] && steps.take(i) == earlier.take(i));
        }
        if exists|i: int|
            0 <= i < steps.len() && match (#[trigger] steps[i]).authors() {
                Some(author) => author == replica && authored(steps.take(i)) == op,
                None => steps[i].action matches Action::Merge { replica: r, op: o } && r == replica
                    && o == op,
            } {
            let i = choose|i: int|
                0 <= i < steps.len() && match (#[trigger] steps[i]).authors() {
                    Some(author) => author == replica && authored(steps.take(i)) == op,
                    None => steps[i].action matches Action::Merge { replica: r, op: o } && r
                        == replica && o == op,
                };
            if i < n {
                assert(steps[i] == earlier[i] && steps.take(i) == earlier.take(i));
            }
        } else {
            if steps[n].authors() is Some {
                assert(steps[n] == steps.last());
            }
        }
    }
}

/// What an author knew of is what it held when it made the call, whatever the
/// plan goes on to do.
pub proof fn law_context_is_what_the_author_held(steps: Seq<Step>, i: int)
    requires
        0 <= i < steps.len(),
        steps[i].authors() is Some,
    ensures
        context(steps, authored(steps.take(i)) as int) == held(
            steps.take(i),
            steps[i].authors()->0 as int,
        ),
    decreases steps.len(),
{
    let earlier = steps.drop_last();
    let n = earlier.len() as int;
    assert(steps.take(n) == earlier);
    if i < n {
        law_context_is_what_the_author_held(earlier, i);
        assert(earlier.take(i) == steps.take(i));
        let rest = earlier.skip(i);
        assert(earlier == earlier.take(i) + rest);
        law_authored_operations_add_up(earlier.take(i), rest);
        assert(rest == seq![earlier[i]] + rest.drop_first());
        law_authored_operations_add_up(seq![earlier[i]], rest.drop_first());
        assert(authored(seq![earlier[i]]) == 1);
    }
}

/// A plan delivers in causal order exactly when every merge takes an operation
/// that was authored before, into a replica that by then holds all that its
/// author held.
pub proof fn law_causal_is_said_of_every_merge(steps: Seq<Step>)
    ensures
        causal(steps) <==> forall|i: int|
            0 <= i < steps.len() ==> ((
            #[trigger] steps[i]).action matches Action::Merge { replica, op } ==> op < authored(
                steps.take(i),
            ) && context(steps.take(i), op as int).subset_of(
                held(steps.take(i), replica as int),
            )),
    decreases steps.len(),
{
    if steps.len() > 0 {
        let earlier = steps.drop_last();
        let n = earlier.len() as int;
        law_causal_is_said_of_every_merge(earlier);
        assert(steps.take(n) == earlier);
        assert(steps[n] == steps.last());
        assert forall|i: int| 0 <= i < n implies earlier.take(i) == #[trigger] steps.take(i) by {}
        if causal(earlier) {
            assert forall|i: int| 0 <= i < n implies ((
            #[trigger] steps[i]).action matches Action::Merge { replica, op } ==> op < authored(
                steps.take(i),
            ) && context(steps.take(i), op as int).subset_of(
                held(steps.take(i), replica as int),
            )) by {
                assert(earlier[i] == steps[i] && earlier.take(i) == steps.take(i));
            }
        } else {
            let i = choose|i: int|
                0 <= i < earlier.len() && !((
                #[trigger] earlier[i]).action matches Action::Merge { replica, op } ==> op
                    < authored(earlier.take(i)) && context(earlier.take(i), op as int).subset_of(
                    held(earlier.take(i), replica as int),
                ));
            assert(earlier[i] == steps[i] && earlier.take(i) == steps.take(i));
        }
    }
}

/// A call is within a group when every member it names is one of the members and
/// every replica it is made on is one of the replicas.
pub proof fn law_what_is_named_is_there(action: Action, members: nat, replicas: nat)
    ensures
        action.within(members, replicas) <==> {
            &&& action is Found ==> replicas > 0
            &&& action matches Action::Seed { member } ==> member < members
            &&& action matches Action::Own { member } ==> member < members
            &&& action matches Action::Add { author, member } ==> author < replicas && member
                < members
            &&& action matches Action::Remove { author, member } ==> author < replicas && member
                < members
            &&& action matches Action::Update { author } ==> author < replicas
            &&& action matches Action::Merge { replica, .. } ==> replica < replicas
        },
{
}

} // verus!
