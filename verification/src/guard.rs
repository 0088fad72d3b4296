//! Guards, the predicates over the snapshot that `While` and `Conditional`
//! ask each tick, and `While`, the element that runs its child for as long
//! as its guard holds.
use crate::buffer::{extends, lemma_extends_refl, pending};
use crate::element::{Child, Hand, Journal, LevelPlanElement};
use crate::journal::{active_child, lawful, lemma_push, Event};
use bevy::prelude::{Commands, Entity};
use core::marker::PhantomData;
use vstd::prelude::*;

verus! {

/// A predicate over the snapshot, of whatever type.
pub(crate) trait Guard<T>: Send + Sync {
    /// Whether the predicate may give `answer` on `context`.
    spec fn says(&self, context: &T, answer: bool) -> bool;

    fn test(&self, context: &T) -> (answer: bool)
        ensures
            self.says(context, answer),
    ;
}

/// A closure that can be called on every snapshot.
#[verifier::reject_recursive_types(T)]
pub(crate) struct Predicate<T, F: Fn(&T) -> bool + Send + Sync> {
    condition: F,
    /// Names `T`, which the invariant speaks of, and asks no more of it than
    /// a boxed guard does.
    snapshot: PhantomData<Box<dyn Guard<T>>>,
}

impl<T, F: Fn(&T) -> bool + Send + Sync> Predicate<T, F> {
    #[verifier::type_invariant]
    spec fn total(self) -> bool {
        forall|context: &T| call_requires(self.condition, (context,))
    }

    /// The closure that this guard calls.
    pub(crate) closed spec fn condition(&self) -> F {
        self.condition
    }

    /// The guard that asks `condition`: it answers what `condition` answers.
    pub(crate) fn new(condition: F) -> (predicate: Self)
        requires
            forall|context: &T| call_requires(condition, (context,)),
        ensures
            predicate.condition() == condition,
            forall|context: &T, answer: bool|
                predicate.says(context, answer) == call_ensures(condition, (context,), answer),
    {
        Predicate { condition, snapshot: PhantomData }
    }
}

impl<T, F: Fn(&T) -> bool + Send + Sync> Guard<T> for Predicate<T, F> {
    closed spec fn says(&self, context: &T, answer: bool) -> bool {
        call_ensures(self.condition, (context,), answer)
    }

    fn test(&self, context: &T) -> (answer: bool) {
        proof {
            use_type_invariant(self);
        }
        (self.condition)(context)
    }
}

/// A guard and one child. The guard is asked on every step, not only on the
/// first: while it holds, a step is a step of the child; as soon as it does
/// not, the step answers `false` without a call on the child, and the parent
/// deactivates the node. Activation and deactivation are those of the child.
///
/// The journal holds the calls made on the child, which is child `0`.
#[verifier::reject_recursive_types(T)]
pub struct While<T> {
    condition: Box<dyn Guard<T>>,
    element: Child<T>,
    journal: Journal<T>,
}

impl<T: 'static> While<T> {
    /// The guard must be callable on every snapshot.
    pub fn new(
        condition: impl Fn(&T) -> bool + Send + Sync + 'static,
        element: impl LevelPlanElement<T> + 'static,
    ) -> (node: Self)
        requires
            forall|context: &T| call_requires(condition, (context,)),
            element.ready(),
        ensures
            node.journal() == Seq::<Event>::empty(),
            node.log().hands() == Seq::<Hand<T>>::empty(),
            node.child() == Child::<T>::holding(element),
            forall|context: &T, answer: bool|
                node.guard_says(context, answer) == call_ensures(condition, (context,), answer),
    {
        Self {
            condition: Box::new(Predicate::new(condition)),
            element: Child::new(element),
            journal: Journal::new(),
        }
    }
}

impl<T> While<T> {
    /// Every call that the node has made on its child, oldest first.
    pub closed spec fn journal(&self) -> Seq<Event> {
        self.journal.events()
    }

    /// The journal: those calls, with what each handed on.
    pub closed spec fn log(&self) -> Journal<T> {
        self.journal
    }

    /// The calls of the node are those of its journal.
    pub proof fn lemma_journal(&self)
        ensures
            self.journal() == self.log().events(),
    {
    }

    /// The child.
    pub closed spec fn child(&self) -> Child<T> {
        self.element
    }

    /// The children: the one child, at place `0`.
    pub open spec fn children(&self) -> Seq<Child<T>> {
        seq![self.child()]
    }

    /// Whether the guard may give `answer` on `context`.
    pub closed spec fn guard_says(&self, context: &T, answer: bool) -> bool {
        self.condition.says(context, answer)
    }

    /// The node has followed the lifecycle so far and its child is inactive.
    pub open spec fn idle(&self) -> bool {
        lawful(self.journal()) && active_child(self.journal()) is None
    }

    /// The node has followed the lifecycle so far and its child is active.
    pub open spec fn engaged(&self) -> bool {
        lawful(self.journal()) && active_child(self.journal()) == Some(0nat)
    }

    /// One step, where `holds` is what the guard answered for this tick.
    /// While the guard holds the child is stepped and its answer is the
    /// node's. When it does not, the node has finished and the child is not
    /// called.
    pub fn step_when(
        &mut self,
        holds: bool,
        level: Entity,
        commands: &mut Commands,
        context: &mut T,
    ) -> (running: bool)
        ensures
            *final(context) == *old(context),
            extends(pending(*final(commands)), pending(*old(commands))),
            forall|snapshot: &T, answer: bool|
                final(self).guard_says(snapshot, answer) == old(self).guard_says(snapshot, answer),
            holds ==> final(self).journal() == old(self).journal().push(Event::step(0, running)),
            !holds ==> !running && final(self).journal() == old(self).journal() && pending(
                *final(commands),
            ) == pending(*old(commands)) && final(self).child() == old(self).child(),
            final(self).log().continues(
                &old(self).log(),
                old(self).children(),
                final(self).children(),
                level,
                pending(*old(commands)),
                pending(*final(commands)),
            ),
            old(self).engaged() ==> final(self).engaged(),
    {
        proof {
            self.journal.lemma_continues_itself(seq![self.element], level, pending(*commands));
        }
        if holds {
            let running = self.element.step(Ghost(0), &mut self.journal, level, commands, context);
            proof {
                assert(seq![old(self).element].update(0, self.element) =~= seq![self.element]);
                lemma_push(old(self).journal.events(), Event::step(0, running));
            }
            running
        } else {
            proof {
                lemma_extends_refl(pending(*commands));
            }
            false
        }
    }
}

impl<T> LevelPlanElement<T> for While<T> {
    /// Asks the guard, then steps as `step_when` says for its answer.
    fn step(&mut self, level: Entity, commands: &mut Commands, context: &mut T) -> (running: bool)
        ensures
            forall|snapshot: &T, answer: bool|
                final(self).guard_says(snapshot, answer) == old(self).guard_says(snapshot, answer),
            running ==> old(self).guard_says(&*old(context), true) && final(self).journal() == old(
                self,
            ).journal().push(Event::step(0, true)),
            !running ==> {
                ||| old(self).guard_says(&*old(context), false) && final(self).journal() == old(
                    self,
                ).journal() && pending(*final(commands)) == pending(*old(commands))
                    && final(self).child() == old(self).child()
                ||| old(self).guard_says(&*old(context), true) && final(self).journal() == old(
                    self,
                ).journal().push(Event::step(0, false))
            },
            final(self).log().continues(
                &old(self).log(),
                old(self).children(),
                final(self).children(),
                level,
                pending(*old(commands)),
                pending(*final(commands)),
            ),
            old(self).engaged() ==> final(self).engaged(),
    {
        let holds = self.condition.test(context);
        self.step_when(holds, level, commands, context)
    }

    fn activate(&mut self, level: Entity, commands: &mut Commands, context: &mut T)
        ensures
            forall|snapshot: &T, answer: bool|
                final(self).guard_says(snapshot, answer) == old(self).guard_says(snapshot, answer),
            final(self).journal() == old(self).journal().push(Event::activate(0)),
            final(self).log().continues(
                &old(self).log(),
                old(self).children(),
                final(self).children(),
                level,
                pending(*old(commands)),
                pending(*final(commands)),
            ),
            old(self).idle() ==> final(self).engaged(),
    {
        proof {
            self.journal.lemma_continues_itself(seq![self.element], level, pending(*commands));
        }
        self.element.activate(Ghost(0), &mut self.journal, level, commands, context);
        proof {
            assert(seq![old(self).element].update(0, self.element) =~= seq![self.element]);
            lemma_push(old(self).journal.events(), Event::activate(0));
        }
    }

    fn deactivate(&mut self, level: Entity, commands: &mut Commands, context: &mut T)
        ensures
            forall|snapshot: &T, answer: bool|
                final(self).guard_says(snapshot, answer) == old(self).guard_says(snapshot, answer),
            final(self).journal() == old(self).journal().push(Event::deactivate(0)),
            final(self).log().continues(
                &old(self).log(),
                old(self).children(),
                final(self).children(),
                level,
                pending(*old(commands)),
                pending(*final(commands)),
            ),
            old(self).engaged() ==> final(self).idle(),
    {
        proof {
            self.journal.lemma_continues_itself(seq![self.element], level, pending(*commands));
        }
        self.element.deactivate(Ghost(0), &mut self.journal, level, commands, context);
        proof {
            assert(seq![old(self).element].update(0, self.element) =~= seq![self.element]);
            lemma_push(old(self).journal.events(), Event::deactivate(0));
        }
    }
}

} // verus!
