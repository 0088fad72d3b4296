//! The plan container: the root of one plan, and how far its owner has got
//! with it.
//!
//! Once per tick a driver takes one snapshot of the world, ticks every
//! container against that snapshot and one shared buffer, and commits the
//! buffer when all of them have been ticked. What one container does in its
//! tick is `LevelPlan::tick`.
use crate::buffer::{
    despawn, extends, lemma_extends_push, lemma_extends_refl, lemma_extends_trans, pending, Intent,
};
use crate::element::{Child, Hand, Journal, LevelPlanElement};
use crate::journal::{
    active_child, activations, lawful, lemma_one_activation_is_first, lemma_push, Event,
};
use bevy::prelude::{Commands, Entity};
use vstd::prelude::*;

verus! {

/// Where a container stands.
pub enum Phase {
    /// Made, and not seen by the driver yet.
    Dormant,
    /// The root was activated and is stepped every tick.
    Active,
    /// The root has finished and the destruction of the owner is queued. No
    /// call is made on the root any more.
    Retired,
}

/// What a container is, seen from outside.
pub struct PlanView {
    pub phase: Phase,
    /// Every call that the container has made on its root, which is child
    /// `0`, oldest first.
    pub journal: Seq<Event>,
}

impl PlanView {
    /// The journal fits the phase: nothing before the first tick; after it
    /// one activation, which is the first call, and steps only.
    pub open spec fn wf(self) -> bool {
        match self.phase {
            Phase::Dormant => self.journal.len() == 0,
            Phase::Active => {
                &&& lawful(self.journal)
                &&& active_child(self.journal) == Some(0nat)
                &&& activations(self.journal) == 1
            },
            Phase::Retired => {
                &&& lawful(self.journal)
                &&& active_child(self.journal) == Some(0nat)
                &&& activations(self.journal) == 1
                &&& self.journal.len() > 0
                &&& self.journal.last() == Event::step(0, false)
            },
        }
    }

    /// The container once its root has been stepped and has answered
    /// `answer`: a root that has finished retires the container.
    pub open spec fn settled(self, answer: bool) -> PlanView {
        PlanView {
            phase: if answer {
                self.phase
            } else {
                Phase::Retired
            },
            ..self
        }
    }

    /// The container after a tick in which the root, if it was stepped,
    /// answered `answer`. The first tick activates the root before it steps
    /// it. A root that answers `false` retires the container.
    pub open spec fn ticked(self, answer: bool) -> PlanView {
        let next = if answer {
            Phase::Active
        } else {
            Phase::Retired
        };
        match self.phase {
            Phase::Dormant => PlanView {
                phase: next,
                journal: self.journal.push(Event::activate(0)).push(Event::step(0, answer)),
            },
            Phase::Active => PlanView {
                phase: next,
                journal: self.journal.push(Event::step(0, answer)),
            },
            Phase::Retired => self,
        }
    }

    /// A tick keeps the container well formed. So the root is activated
    /// exactly once, in the first tick and before its first step, however
    /// many ticks follow, and a retired container stays retired.
    pub proof fn law_tick_keeps_wf(self, answer: bool)
        requires
            self.wf(),
        ensures
            self.ticked(answer).wf(),
            activations(self.ticked(answer).journal) == 1,
            self.ticked(answer).journal[0] == Event::activate(0),
            self.phase is Retired ==> self.ticked(answer) == self,
    {
        match self.phase {
            Phase::Dormant => {
                lemma_push(self.journal, Event::activate(0));
                lemma_push(self.journal.push(Event::activate(0)), Event::step(0, answer));
                assert(self.journal =~= Seq::empty());
            },
            Phase::Active => {
                lemma_push(self.journal, Event::step(0, answer));
                lemma_one_activation_is_first(self.journal, 0);
            },
            Phase::Retired => {
                lemma_one_activation_is_first(self.journal, 0);
            },
        }
    }
}

/// The container of one plan: the root element, and how far the driver has
/// got with it.
#[verifier::reject_recursive_types(T)]
pub struct LevelPlan<T> {
    plan: Child<T>,
    activated: bool,
    retired: bool,
    journal: Journal<T>,
}

impl<T> View for LevelPlan<T> {
    type V = PlanView;

    closed spec fn view(&self) -> PlanView {
        PlanView {
            phase: if self.retired {
                Phase::Retired
            } else if self.activated {
                Phase::Active
            } else {
                Phase::Dormant
            },
            journal: self.journal.events(),
        }
    }
}

impl<T> LevelPlan<T> {
    /// The root of the plan.
    pub closed spec fn root(&self) -> Child<T> {
        self.plan
    }

    /// The children: the root, at place `0`.
    pub open spec fn children(&self) -> Seq<Child<T>> {
        seq![self.root()]
    }

    /// The journal: the calls of the view, with what each handed on.
    pub closed spec fn log(&self) -> Journal<T> {
        self.journal
    }

    /// The view shows the calls of the journal.
    pub proof fn lemma_view(&self)
        ensures
            self@.journal == self.log().events(),
    {
    }

    /// A dormant container around `element`.
    pub fn new(element: impl LevelPlanElement<T> + 'static) -> (plan: Self)
        requires
            element.ready(),
        ensures
            plan@ == (PlanView { phase: Phase::Dormant, journal: Seq::empty() }),
            plan@.wf(),
            plan.root() == Child::<T>::holding(element),
            plan.log().hands() == Seq::<Hand<T>>::empty(),
    {
        Self { plan: Child::new(element), activated: false, retired: false, journal: Journal::new() }
    }

    /// What follows the step of the root, which answered `running`. For a
    /// root that is still running, nothing. For a root that has finished,
    /// the destruction of `target` is queued and the container retires.
    pub fn settle(&mut self, running: bool, target: Entity, commands: &mut Commands) -> (still:
        bool)
        ensures
            still == running,
            final(self)@ == old(self)@.settled(running),
            final(self).root() == old(self).root(),
            final(self).log() == old(self).log(),
            pending(*final(commands)) == if running {
                pending(*old(commands))
            } else {
                pending(*old(commands)).push(Intent::Despawn(target))
            },
    {
        if !running {
            despawn(commands, target);
            self.retired = true;
        }
        running
    }

    /// One tick of the container, for the object `target` that owns it.
    ///
    /// The first tick activates the root and steps it; every later tick
    /// steps it. When the root answers `false`, the destruction of `target`
    /// is queued behind whatever the root queued, and the container retires.
    /// A retired container is left alone. The answer is whether the plan is
    /// still running. The container queues nothing else: for a root that is
    /// still running the buffer is as the calls on the root left it.
    pub fn tick(&mut self, target: Entity, commands: &mut Commands, context: &mut T) -> (running:
        bool)
        ensures
            final(self)@ == old(self)@.ticked(running),
            running ==> !(old(self)@.phase is Retired),
            *final(context) == *old(context),
            extends(pending(*final(commands)), pending(*old(commands))),
            old(self)@.phase is Retired ==> pending(*final(commands)) == pending(*old(commands))
                && final(self).root() == old(self).root() && final(self).log() == old(self).log(),
            running ==> final(self).log().continues(
                &old(self).log(),
                old(self).children(),
                final(self).children(),
                target,
                pending(*old(commands)),
                pending(*final(commands)),
            ),
            !running && !(old(self)@.phase is Retired) ==> {
                &&& pending(*final(commands)).len() > 0
                &&& pending(*final(commands)).last() == Intent::Despawn(target)
                &&& final(self).log().continues(
                    &old(self).log(),
                    old(self).children(),
                    final(self).children(),
                    target,
                    pending(*old(commands)),
                    pending(*final(commands)).drop_last(),
                )
            },
    {
        let ghost before = pending(*commands);
        proof {
            lemma_extends_refl(before);
            self.journal.lemma_continues_itself(seq![self.plan], target, before);
        }
        if self.retired {
            return false;
        }
        if !self.activated {
            self.plan.activate(Ghost(0), &mut self.journal, target, commands, context);
            self.activated = true;
        }
        let ghost entered = pending(*commands);
        let ghost woken = self.plan;
        proof {
            assert(seq![old(self).plan].update(0, woken) =~= seq![woken]);
        }
        let answer = self.plan.step(Ghost(0), &mut self.journal, target, commands, context);
        let ghost stepped = pending(*commands);
        proof {
            lemma_extends_trans(stepped, entered, before);
            assert(seq![woken].update(0, self.plan) =~= seq![self.plan]);
        }
        let running = self.settle(answer, target, commands);
        proof {
            if !running {
                lemma_extends_push(stepped, Intent::Despawn(target));
                lemma_extends_trans(pending(*commands), stepped, before);
                assert(pending(*commands).drop_last() =~= stepped);
            }
        }
        running
    }
}

} // verus!
