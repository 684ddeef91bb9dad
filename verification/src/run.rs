//! Running a plan: which call comes next, and what its reply means.
//!
//! The calls themselves are made outside. A run hands out one step at a time
//! and takes the reply back.

use crate::group::{growing, probes_have_authors, Action, Site, Step};
use vstd::prelude::*;

verus! {

/// What a call came back with.
#[derive(Debug)]
pub enum Reply {
    /// A value. `shown` is its debug text, without the `Ok` and the `Some`
    /// around it.
    Done { shown: String },
    /// No operation, from a call that may return none.
    Nothing,
    /// An error. `last_member` tells whether it is the refusal to remove the
    /// last member, `shown` is its debug text.
    Failed { last_member: bool, shown: String },
}

/// A reply, with its text as characters.
pub enum Seen {
    Done { shown: Seq<char> },
    Nothing,
    Failed { last_member: bool, shown: Seq<char> },
}

impl View for Reply {
    type V = Seen;

    open spec fn view(&self) -> Seen {
        match self {
            Reply::Done { shown } => Seen::Done { shown: shown@ },
            Reply::Nothing => Seen::Nothing,
            Reply::Failed { last_member, shown } => Seen::Failed {
                last_member: *last_member,
                shown: shown@,
            },
        }
    }
}

/// What a reply means for the run.
#[derive(Debug)]
pub enum Judgement {
    /// The run goes on.
    Proceed,
    /// The run goes on, and the author's replica is noted with this error.
    Record(String),
    /// The run ends and reports this.
    Refuse(String),
    /// The run ends in a panic with this message.
    Panic(String),
}

/// A judgement, with its text as characters.
pub enum Judged {
    Proceed,
    Record(Seq<char>),
    Refuse(Seq<char>),
    Panic(Seq<char>),
}

impl View for Judgement {
    type V = Judged;

    open spec fn view(&self) -> Judged {
        match self {
            Judgement::Proceed => Judged::Proceed,
            Judgement::Record(e) => Judged::Record(e@),
            Judgement::Refuse(e) => Judged::Refuse(e@),
            Judgement::Panic(e) => Judged::Panic(e@),
        }
    }
}

impl Site {
    /// The call at this site may return no operation.
    pub open spec fn optional(self) -> bool {
        match self {
            Site::FoundingAdd => true,
            Site::Adding => true,
            Site::Removing => true,
            Site::ControlRemoval => true,
            Site::ControlGuard => true,
            Site::ControlProgress => true,
            Site::Probe => true,
            _ => false,
        }
    }

    /// The reply is one that the call at this site can give.
    pub open spec fn fits(self, reply: Seen) -> bool {
        reply is Nothing ==> self.optional()
    }

    /// The call at this site has to go through: any reply but a value is a
    /// panic.
    pub open spec fn strict(self) -> bool {
        match self {
            Site::Founding => true,
            Site::Seeding => true,
            Site::Owning => true,
            Site::FoundingAdd => true,
            Site::Delivery => true,
            Site::Adding => true,
            Site::Removing => true,
            Site::Healing => true,
            _ => false,
        }
    }

    /// The call at this site may come out as it likes: the run goes on.
    pub open spec fn lenient(self) -> bool {
        self is Probe || self is Replay
    }

    /// What the plan counts on at a site where an error is a panic.
    pub open spec fn counts_on(self) -> Seq<char> {
        match self {
            Site::Founding => "founding the tree succeeds"@,
            Site::Seeding => "seeding a replica from the init add succeeds"@,
            Site::Owning => "re-owning a replica succeeds"@,
            Site::FoundingAdd => "authoring the founding add succeeds"@,
            Site::Delivery => "operations are delivered in causal order"@,
            Site::Adding => "authoring the add succeeds"@,
            Site::Removing => "authoring the removal succeeds"@,
            Site::Healing => "authoring the covering heal succeeds"@,
            _ => Seq::empty(),
        }
    }
}

/// The meaning of a reply at a site.
pub open spec fn judged(site: Site, reply: Seen) -> Judged {
    match reply {
        Seen::Done { shown } => match site {
            Site::ControlGuard => Judged::Refuse(
                "expected the authoring guard, got Ok(Some("@ + shown + "))"@,
            ),
            _ => Judged::Proceed,
        },
        Seen::Nothing => match site {
            Site::FoundingAdd => Judged::Panic("the added member is new"@),
            Site::Adding => Judged::Panic("the added member is new"@),
            Site::Removing => Judged::Panic("the removed member is present"@),
            Site::ControlRemoval => Judged::Panic("the removed member is present"@),
            Site::ControlGuard => Judged::Refuse(
                "expected the authoring guard, got Ok(None)"@,
            ),
            _ => Judged::Proceed,
        },
        Seen::Failed { last_member, shown } => match site {
            Site::ControlRemoval => Judged::Refuse(
                "a removal that leaves members behind failed: "@ + shown,
            ),
            Site::ControlGuard => if last_member {
                Judged::Proceed
            } else {
                Judged::Refuse("expected the authoring guard, got Err("@ + shown + ")"@)
            },
            Site::ControlProgress => Judged::Refuse(
                "the group could not make progress afterwards: "@ + shown,
            ),
            Site::Probe => Judged::Record(shown),
            Site::Replay => Judged::Proceed,
            _ => Judged::Panic(site.counts_on() + ": "@ + shown),
        },
    }
}

/// `head` followed by `shown` and `tail`.
fn around(head: &str, shown: &str, tail: &str) -> (r: String)
    ensures
        r@ == head@ + shown@ + tail@,
{
    let mut r = head.to_owned();
    r.append(shown);
    r.append(tail);
    r
}

/// The panic of an expectation that met an error.
fn unmet(promise: &str, shown: &str) -> (r: Judgement)
    ensures
        r@ == Judged::Panic(promise@ + ": "@ + shown@),
{
    let mut r = promise.to_owned();
    r.append(": ");
    r.append(shown);
    Judgement::Panic(r)
}

/// Decides what a reply means.
pub fn judge(site: Site, reply: &Reply) -> (r: Judgement)
    requires
        site.fits(reply@),
    ensures
        r@ == judged(site, reply@),
        // A value is accepted everywhere but where a refusal is called for.
        reply is Done && !(site is ControlGuard) ==> r is Proceed,
        site is ControlGuard ==> (reply matches Reply::Done { shown } ==> (
        r matches Judgement::Refuse(e) && e@ == "expected the authoring guard, got Ok(Some("@
            + shown@ + "))"@)),
        // The guard's own refusal is accepted, and no other error is in its place.
        site is ControlGuard ==> (reply matches Reply::Failed { last_member, shown } ==> (
        if *last_member {
            r is Proceed
        } else {
            r matches Judgement::Refuse(e) && e@ == "expected the authoring guard, got Err("@
                + shown@ + ")"@
        })),
        // An error at a probe is noted, at the replay it does not matter, and
        // nowhere else does the run go on behind one.
        site is Probe ==> (reply matches Reply::Failed { shown, .. } ==> (
        r matches Judgement::Record(e) && e@ == shown@)),
        reply is Failed ==> (r is Record <==> site is Probe),
        reply is Failed && !(site is ControlGuard) ==> (r is Proceed <==> site is Replay),
{
    match reply {
        Reply::Done { shown } => match site {
            Site::ControlGuard => Judgement::Refuse(
                around("expected the authoring guard, got Ok(Some(", shown.as_str(), "))"),
            ),
            _ => Judgement::Proceed,
        },
        Reply::Nothing => match site {
            Site::FoundingAdd => Judgement::Panic("the added member is new".to_owned()),
            Site::Adding => Judgement::Panic("the added member is new".to_owned()),
            Site::Removing => Judgement::Panic("the removed member is present".to_owned()),
            Site::ControlRemoval => Judgement::Panic("the removed member is present".to_owned()),
            Site::ControlGuard => Judgement::Refuse(
                "expected the authoring guard, got Ok(None)".to_owned(),
            ),
            _ => Judgement::Proceed,
        },
        Reply::Failed { last_member, shown } => {
            let shown = shown.as_str();
            match site {
                Site::Founding => unmet("founding the tree succeeds", shown),
                Site::Seeding => unmet("seeding a replica from the init add succeeds", shown),
                Site::Owning => unmet("re-owning a replica succeeds", shown),
                Site::FoundingAdd => unmet("authoring the founding add succeeds", shown),
                Site::Delivery => unmet("operations are delivered in causal order", shown),
                Site::Adding => unmet("authoring the add succeeds", shown),
                Site::Removing => unmet("authoring the removal succeeds", shown),
                Site::Healing => unmet("authoring the covering heal succeeds", shown),
                Site::ControlRemoval => {
                    let mut r = "a removal that leaves members behind failed: ".to_owned();
                    r.append(shown);
                    Judgement::Refuse(r)
                },
                Site::ControlGuard => if *last_member {
                    Judgement::Proceed
                } else {
                    Judgement::Refuse(
                        around("expected the authoring guard, got Err(", shown, ")"),
                    )
                },
                Site::ControlProgress => {
                    let mut r = "the group could not make progress afterwards: ".to_owned();
                    r.append(shown);
                    Judgement::Refuse(r)
                },
                Site::Probe => Judgement::Record(shown.to_owned()),
                Site::Replay => Judgement::Proceed,
            }
        },
    }
}

/// How far a run has come.
pub struct Progress {
    /// How many steps are behind it.
    pub at: int,
    /// The replicas that were noted, each with its error.
    pub recorded: Seq<(int, Seq<char>)>,
    /// What ended it before its last step, if anything did.
    pub ending: Option<Judged>,
}

/// The progress of a run that has not begun.
pub open spec fn start() -> Progress {
    Progress { at: 0, recorded: Seq::empty(), ending: None }
}

/// A step is still to be made.
pub open spec fn open_at(steps: Seq<Step>, p: Progress) -> bool {
    p.ending is None && 0 <= p.at < steps.len()
}

/// The progress after the reply to the step at hand.
pub open spec fn advanced(steps: Seq<Step>, p: Progress, reply: Seen) -> Progress {
    let step = steps[p.at];
    match judged(step.site, reply) {
        Judged::Proceed => Progress { at: p.at + 1, ..p },
        Judged::Record(e) => Progress {
            at: p.at + 1,
            recorded: p.recorded.push((step.action.author()->0 as int, e)),
            ..p
        },
        ended => Progress { ending: Some(ended), ..p },
    }
}

/// A plan under way.
#[derive(Debug)]
pub struct Run {
    pub steps: Vec<Step>,
    pub at: usize,
    pub recorded: Vec<(usize, String)>,
    pub ending: Option<Judgement>,
}

/// The noted replicas with their errors as characters.
pub open spec fn recorded_view(recorded: Seq<(usize, String)>) -> Seq<(int, Seq<char>)> {
    recorded.map_values(|e: (usize, String)| (e.0 as int, e.1@))
}

impl Run {
    /// How far the run has come.
    pub open spec fn progress(self) -> Progress {
        Progress {
            at: self.at as int,
            recorded: recorded_view(self.recorded@),
            ending: match self.ending {
                Some(j) => Some(j@),
                None => None,
            },
        }
    }

    /// The run stands within its plan.
    pub open spec fn wf(self) -> bool {
        &&& self.at <= self.steps@.len()
        &&& probes_have_authors(self.steps@)
        &&& self.ending matches Some(j) ==> {
            &&& self.at < self.steps@.len()
            &&& j@ is Refuse || j@ is Panic
        }
    }

    /// Begins a plan.
    pub fn new(steps: Vec<Step>) -> (run: Run)
        requires
            probes_have_authors(steps@),
        ensures
            run.wf(),
            run.steps == steps,
            run.progress() == start(),
            run.progress() == replayed(steps@, Seq::empty()),
            run.at == 0 && run.recorded@.len() == 0 && run.ending is None,
    {
        let run = Run { steps, at: 0, recorded: Vec::new(), ending: None };
        assert(recorded_view(run.recorded@) == Seq::<(int, Seq<char>)>::empty());
        run
    }

    /// The step to be made, if the run has not ended.
    pub fn next(&self) -> (step: Option<Step>)
        requires
            self.wf(),
        ensures
            step == if open_at(self.steps@, self.progress()) {
                Some(self.steps@[self.at as int])
            } else {
                None
            },
            step is Some <==> self.ending is None && self.at < self.steps@.len(),
    {
        match self.ending {
            Some(_) => None,
            None => if self.at < self.steps.len() {
                Some(self.steps[self.at])
            } else {
                None
            },
        }
    }

    /// Takes the reply to the step that is to be made.
    pub fn answer(&mut self, reply: Reply)
        requires
            old(self).wf(),
            open_at(old(self).steps@, old(self).progress()),
            old(self).steps@[old(self).at as int].site.fits(reply@),
        ensures
            final(self).wf(),
            final(self).steps == old(self).steps,
            final(self).progress() == advanced(
                old(self).steps@,
                old(self).progress(),
                reply@,
            ),
            // The step is behind the run, or the run has ended at it.
            match judged(old(self).steps@[old(self).at as int].site, reply@) {
                Judged::Proceed => {
                    &&& final(self).at == old(self).at + 1
                    &&& final(self).recorded == old(self).recorded
                    &&& final(self).ending is None
                },
                Judged::Record(e) => {
                    &&& final(self).at == old(self).at + 1
                    &&& final(self).recorded@.len() == old(self).recorded@.len() + 1
                    &&& final(self).recorded@.drop_last() == old(self).recorded@
                    &&& Some(final(self).recorded@.last().0) == old(
                        self,
                    ).steps@[old(self).at as int].action.author()
                    &&& final(self).recorded@.last().1@ == e
                    &&& final(self).ending is None
                },
                Judged::Refuse(e) => {
                    &&& final(self).at == old(self).at
                    &&& final(self).recorded == old(self).recorded
                    &&& final(self).ending matches Some(Judgement::Refuse(m)) && m@ == e
                },
                Judged::Panic(e) => {
                    &&& final(self).at == old(self).at
                    &&& final(self).recorded == old(self).recorded
                    &&& final(self).ending matches Some(Judgement::Panic(m)) && m@ == e
                },
            },
            // A run that has come where some replies lead comes where they
            // lead together with this one.
            forall|replies: Seq<Seen>|
                old(self).progress() == #[trigger] replayed(old(self).steps@, replies)
                    ==> final(self).progress() == replayed(
                    old(self).steps@,
                    replies.push(reply@),
                ),
    {
        let ghost was = *self;
        assert(self.at < self.steps.len());
        let step = self.steps[self.at];
        match judge(step.site, &reply) {
            Judgement::Proceed => {
                self.at = self.at + 1;
            },
            Judgement::Record(e) => {
                let author: usize = match step.action {
                    Action::Add { author, .. } => author,
                    Action::Remove { author, .. } => author,
                    Action::Update { author } => author,
                    _ => {
                        assert(was.steps@[was.at as int].site is Probe);
                        0
                    },
                };
                self.recorded.push((author, e));
                self.at = self.at + 1;
                assert(recorded_view(self.recorded@) == recorded_view(was.recorded@).push(
                    (author as int, e@),
                ));
            },
            ended => {
                self.ending = Some(ended);
            },
        }
        assert forall|replies: Seq<Seen>|
            was.progress() == #[trigger] replayed(was.steps@, replies) implies self.progress()
            == replayed(was.steps@, replies.push(reply@)) by {
            assert(replies.push(reply@).drop_last() == replies);
        }
    }
}

/// The progress of a run that got these replies, one for each step it made;
/// what comes after its end is not looked at.
pub open spec fn replayed(steps: Seq<Step>, replies: Seq<Seen>) -> Progress
    decreases replies.len(),
{
    if replies.len() == 0 {
        start()
    } else {
        let p = replayed(steps, replies.drop_last());
        if open_at(steps, p) {
            advanced(steps, p, replies.last())
        } else {
            p
        }
    }
}

/// The run goes on after this reply.
pub open spec fn accepted(site: Site, reply: Seen) -> bool {
    judged(site, reply) is Proceed || judged(site, reply) is Record
}

/// The errors that the replies bring at probes, each with its author, in order.
pub open spec fn probe_errors(steps: Seq<Step>, replies: Seq<Seen>) -> Seq<(int, Seq<char>)>
    decreases replies.len(),
{
    if replies.len() == 0 {
        Seq::empty()
    } else {
        let before = probe_errors(steps, replies.drop_last());
        let step = steps[replies.len() - 1];
        match replies.last() {
            Seen::Failed { shown, .. } => if step.site is Probe {
                before.push((step.action.author()->0 as int, shown))
            } else {
                before
            },
            _ => before,
        }
    }
}

/// As long as every reply is accepted the run makes one step for each, and has
/// noted exactly the errors at probes.
pub proof fn law_accepted_replies_carry_the_run(steps: Seq<Step>, replies: Seq<Seen>)
    requires
        replies.len() <= steps.len(),
        forall|i: int|
            0 <= i < replies.len() ==> accepted((#[trigger] steps[i]).site, replies[i]),
    ensures
        replayed(steps, replies) == (Progress {
            at: replies.len() as int,
            recorded: probe_errors(steps, replies),
            ending: None,
        }),
    decreases replies.len(),
{
    if replies.len() > 0 {
        let n = replies.len() - 1;
        assert(accepted(steps[n].site, replies[n]));
        assert forall|i: int| 0 <= i < replies.drop_last().len() implies accepted(
            (#[trigger] steps[i]).site,
            replies.drop_last()[i],
        ) by {
            assert(accepted(steps[i].site, replies[i]));
        }
        law_accepted_replies_carry_the_run(steps, replies.drop_last());
    }
}

/// The first reply that is not accepted ends the run: no later step is made,
/// and what is reported is the meaning of that reply.
pub proof fn law_first_unaccepted_reply_ends_the_run(
    steps: Seq<Step>,
    replies: Seq<Seen>,
    first: int,
)
    requires
        0 <= first < replies.len(),
        first < steps.len(),
        forall|i: int| 0 <= i < first ==> accepted((#[trigger] steps[i]).site, replies[i]),
        !accepted(steps[first].site, replies[first]),
    ensures
        replayed(steps, replies) == (Progress {
            at: first,
            recorded: probe_errors(steps, replies.take(first)),
            ending: Some(judged(steps[first].site, replies[first])),
        }),
    decreases replies.len(),
{
    if replies.len() == first + 1 {
        assert(replies.drop_last() == replies.take(first));
        assert forall|i: int| 0 <= i < first implies accepted(
            (#[trigger] steps[i]).site,
            replies.take(first)[i],
        ) by {
            assert(accepted(steps[i].site, replies[i]));
        }
        law_accepted_replies_carry_the_run(steps, replies.take(first));
    } else {
        assert forall|i: int| 0 <= i < first implies accepted(
            (#[trigger] steps[i]).site,
            replies.drop_last()[i],
        ) by {
            assert(accepted(steps[i].site, replies[i]));
        }
        law_first_unaccepted_reply_ends_the_run(steps, replies.drop_last(), first);
        assert(replies.drop_last().take(first) == replies.take(first));
    }
}

/// A run that has got a reply for each of its first steps is still going or
/// done exactly when all of them were accepted.
pub proof fn law_run_goes_on_exactly_when_every_reply_is_accepted(
    steps: Seq<Step>,
    replies: Seq<Seen>,
)
    requires
        replies.len() <= steps.len(),
    ensures
        replayed(steps, replies).ending is None <==> (forall|i: int|
            0 <= i < replies.len() ==> accepted((#[trigger] steps[i]).site, replies[i])),
        replayed(steps, replies).ending is None ==> replayed(steps, replies).at == replies.len(),
    decreases replies.len(),
{
    if replies.len() > 0 {
        let before = replies.drop_last();
        law_run_goes_on_exactly_when_every_reply_is_accepted(steps, before);
        if forall|i: int|
            0 <= i < before.len() ==> accepted((#[trigger] steps[i]).site, before[i]) {
            assert forall|i: int| 0 <= i < replies.len() - 1 implies accepted(
                (#[trigger] steps[i]).site,
                replies[i],
            ) by {
                assert(accepted(steps[i].site, before[i]));
            }
            assert(steps[replies.len() - 1] == steps[before.len() as int]);
        } else {
            let i = choose|i: int|
                0 <= i < before.len() && !accepted((#[trigger] steps[i]).site, before[i]);
            assert(!accepted(steps[i].site, replies[i]));
        }
    }
}

/// The replies are ones that the first calls of the plan can give.
pub open spec fn fitting(steps: Seq<Step>, replies: Seq<Seen>) -> bool {
    &&& replies.len() <= steps.len()
    &&& forall|i: int| 0 <= i < replies.len() ==> (#[trigger] steps[i]).site.fits(replies[i])
}

/// Every call that has to go through went through.
pub open spec fn gone_through(steps: Seq<Step>, replies: Seq<Seen>) -> bool {
    forall|i: int|
        0 <= i < replies.len() && (#[trigger] steps[i]).site.strict() ==> replies[i] is Done
}

/// A plan whose every call either has to go through or may come out as it likes
/// is run to its end exactly when the former go through, whatever comes of the
/// latter, and the run has then noted the errors at probes. Otherwise it ends in
/// a panic.
pub proof fn law_run_reaches_its_end_exactly_when_its_calls_go_through(
    steps: Seq<Step>,
    replies: Seq<Seen>,
)
    requires
        replies.len() == steps.len(),
        forall|i: int|
            0 <= i < steps.len() ==> (#[trigger] steps[i]).site.strict()
                || steps[i].site.lenient(),
    ensures
        gone_through(steps, replies) ==> replayed(steps, replies) == (Progress {
            at: steps.len() as int,
            recorded: probe_errors(steps, replies),
            ending: None,
        }),
        fitting(steps, replies) && !gone_through(steps, replies) ==> (replayed(
            steps,
            replies,
        ).ending matches Some(j) && j is Panic),
{
    if gone_through(steps, replies) {
        law_accepted_replies_carry_the_run(steps, replies);
    } else if fitting(steps, replies) {
        let bad = choose|i: int|
            0 <= i < replies.len() && (#[trigger] steps[i]).site.strict() && !(replies[i] is Done);
        assert(!accepted(steps[bad].site, replies[bad]));
        law_run_goes_on_exactly_when_every_reply_is_accepted(steps, replies);
        lemma_ends_in_a_panic(steps, replies);
    }
}

/// Such a run ends early in a panic only.
proof fn lemma_ends_in_a_panic(steps: Seq<Step>, replies: Seq<Seen>)
    requires
        fitting(steps, replies),
        forall|i: int|
            0 <= i < steps.len() ==> (#[trigger] steps[i]).site.strict()
                || steps[i].site.lenient(),
    ensures
        replayed(steps, replies).ending matches Some(j) ==> j is Panic,
    decreases replies.len(),
{
    if replies.len() > 0 {
        let earlier = replies.drop_last();
        assert forall|i: int| 0 <= i < earlier.len() implies (#[trigger] steps[i]).site.fits(
            earlier[i],
        ) by {
            assert(steps[i].site.fits(replies[i]));
        }
        lemma_ends_in_a_panic(steps, earlier);
        law_run_goes_on_exactly_when_every_reply_is_accepted(steps, earlier);
        assert(steps[replies.len() - 1].site.fits(replies.last()));
    }
}

/// Founding a group takes calls that have to go through, and no others.
pub proof fn lemma_founding_is_strict(n: nat, k: nat)
    ensures
        forall|i: int| 0 <= i < growing(n, k).len() ==> (#[trigger] growing(n, k)[i]).site.strict(),
    decreases n + k,
{
    if k <= 1 {
        if n > 1 {
            lemma_founding_is_strict((n - 1) as nat, 0);
        }
    } else {
        lemma_founding_is_strict(n, (k - 1) as nat);
    }
}

/// Without probes nothing is noted.
pub proof fn lemma_no_probe_errors(steps: Seq<Step>, replies: Seq<Seen>)
    requires
        replies.len() <= steps.len(),
        forall|i: int| 0 <= i < replies.len() ==> !((#[trigger] steps[i]).site is Probe),
    ensures
        probe_errors(steps, replies) == Seq::<(int, Seq<char>)>::empty(),
    decreases replies.len(),
{
    if replies.len() > 0 {
        lemma_no_probe_errors(steps, replies.drop_last());
    }
}

/// A reply and a judgement are seen as what they are: texts as their
/// characters, everything else unchanged.
pub proof fn law_seeing_changes_nothing(reply: Reply, judgement: Judgement)
    ensures
        reply matches Reply::Done { shown } ==> reply@ == (Seen::Done { shown: shown@ }),
        reply is Nothing ==> reply@ is Nothing,
        reply matches Reply::Failed { last_member, shown } ==> reply@ == (Seen::Failed {
            last_member,
            shown: shown@,
        }),
        judgement is Proceed ==> judgement@ is Proceed,
        judgement matches Judgement::Record(e) ==> judgement@ == Judged::Record(e@),
        judgement matches Judgement::Refuse(e) ==> judgement@ == Judged::Refuse(e@),
        judgement matches Judgement::Panic(e) ==> judgement@ == Judged::Panic(e@),
{
}

/// A value lets the run go on at every site but one: where a refusal is called
/// for, success is refused, and the report shows it.
pub proof fn law_only_the_guard_refuses_a_value(site: Site, shown: Seq<char>)
    ensures
        !(site is ControlGuard) ==> judged(site, Seen::Done { shown }) is Proceed,
        judged(Site::ControlGuard, Seen::Done { shown }) == Judged::Refuse(
            "expected the authoring guard, got Ok(Some("@ + shown + "))"@,
        ),
{
}

/// Where an operation is counted on, its absence is a panic that says which kind
/// of call brought none. Where success is not called for it is refused, and
/// elsewhere it does not matter.
pub proof fn law_what_a_missing_operation_means(site: Site)
    ensures
        site is FoundingAdd || site is Adding ==> judged(site, Seen::Nothing) == Judged::Panic(
            "the added member is new"@,
        ),
        site is Removing || site is ControlRemoval ==> judged(site, Seen::Nothing)
            == Judged::Panic("the removed member is present"@),
        site is ControlGuard ==> judged(site, Seen::Nothing) == Judged::Refuse(
            "expected the authoring guard, got Ok(None)"@,
        ),
        site is ControlProgress || site is Probe ==> judged(site, Seen::Nothing) is Proceed,
        site.optional() <==> site is FoundingAdd || site is Adding || site is Removing
            || site is ControlRemoval || site is ControlGuard || site is ControlProgress
            || site is Probe,
        site.fits(Seen::Nothing) <==> site.optional(),
        forall|shown: Seq<char>| #[trigger] site.fits(Seen::Done { shown }),
        forall|last_member: bool, shown: Seq<char>| #[trigger]
            site.fits(Seen::Failed { last_member, shown }),
{
}

/// What an error means where the plan counts on success: a panic with what was
/// counted on and the error behind it.
pub proof fn law_what_an_error_breaks(last_member: bool, shown: Seq<char>)
    ensures
        judged(Site::Founding, Seen::Failed { last_member, shown }) == Judged::Panic(
            "founding the tree succeeds"@ + ": "@ + shown,
        ),
        judged(Site::Seeding, Seen::Failed { last_member, shown }) == Judged::Panic(
            "seeding a replica from the init add succeeds"@ + ": "@ + shown,
        ),
        judged(Site::Owning, Seen::Failed { last_member, shown }) == Judged::Panic(
            "re-owning a replica succeeds"@ + ": "@ + shown,
        ),
        judged(Site::FoundingAdd, Seen::Failed { last_member, shown }) == Judged::Panic(
            "authoring the founding add succeeds"@ + ": "@ + shown,
        ),
        judged(Site::Delivery, Seen::Failed { last_member, shown }) == Judged::Panic(
            "operations are delivered in causal order"@ + ": "@ + shown,
        ),
        judged(Site::Adding, Seen::Failed { last_member, shown }) == Judged::Panic(
            "authoring the add succeeds"@ + ": "@ + shown,
        ),
        judged(Site::Removing, Seen::Failed { last_member, shown }) == Judged::Panic(
            "authoring the removal succeeds"@ + ": "@ + shown,
        ),
        judged(Site::Healing, Seen::Failed { last_member, shown }) == Judged::Panic(
            "authoring the covering heal succeeds"@ + ": "@ + shown,
        ),
{
}

/// What an error means elsewhere. The control reports it, except for the refusal
/// that it waits for; a probe notes it; a replay may come to it.
pub proof fn law_what_an_error_tells(last_member: bool, shown: Seq<char>)
    ensures
        judged(Site::ControlRemoval, Seen::Failed { last_member, shown }) == Judged::Refuse(
            "a removal that leaves members behind failed: "@ + shown,
        ),
        judged(Site::ControlGuard, Seen::Failed { last_member, shown }) == (if last_member {
            Judged::Proceed
        } else {
            Judged::Refuse("expected the authoring guard, got Err("@ + shown + ")"@)
        }),
        judged(Site::ControlProgress, Seen::Failed { last_member, shown }) == Judged::Refuse(
            "the group could not make progress afterwards: "@ + shown,
        ),
        judged(Site::Probe, Seen::Failed { last_member, shown }) == Judged::Record(shown),
        judged(Site::Replay, Seen::Failed { last_member, shown }) == Judged::Proceed,
{
}

/// A run is seen as it is: as far as it has come, with every replica that it
/// noted and the text noted for it, and with what ended it.
pub proof fn law_progress_shows_the_run(run: Run)
    ensures
        run.progress().at == run.at,
        run.progress().recorded.len() == run.recorded@.len(),
        forall|i: int|
            0 <= i < run.recorded@.len() ==> (#[trigger] run.progress().recorded[i]) == (
                run.recorded@[i].0 as int,
                run.recorded@[i].1@,
            ),
        run.progress().ending is None <==> run.ending is None,
        run.ending matches Some(j) ==> run.progress().ending == Some(j@),
{
}

/// Noted replicas are seen in place, each with its text.
pub proof fn law_notes_are_seen_in_place(recorded: Seq<(usize, String)>)
    ensures
        recorded_view(recorded).len() == recorded.len(),
        forall|i: int|
            0 <= i < recorded.len() ==> (#[trigger] recorded_view(recorded)[i]) == (
                recorded[i].0 as int,
                recorded[i].1@,
            ),
{
}

} // verus!
