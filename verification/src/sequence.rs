//! `Sequence` runs its children one after the other; `Cycle` runs a sequence
//! over and over.
use crate::buffer::{extends, lemma_extends_refl, lemma_extends_trans, pending};
use crate::element::{Child, Hand, Journal, LevelPlanElement};
use crate::journal::{
    active_child, lawful, lemma_push, lemma_push_skip, lemma_visits_places, lifecycle, visits,
    Event,
};
use bevy::prelude::{Commands, Entity};
use vstd::prelude::*;

verus! {

/// What a `Sequence` is, seen from outside.
pub struct SequenceView {
    /// The place of the current child. It equals `len` once the sequence is
    /// exhausted.
    pub cursor: nat,
    /// The number of children.
    pub len: nat,
    /// Every call that the sequence has made on its children, oldest first.
    pub journal: Seq<Event>,
    /// The length that the journal had when the sequence was last activated.
    pub run_start: nat,
}

impl SequenceView {
    /// The calls of the current run: those made since the last activation.
    pub open spec fn run(self) -> Seq<Event> {
        self.journal.skip(self.run_start as int)
    }

    /// The child that the cursor stands on, if it stands on one.
    pub open spec fn current(self) -> Option<nat> {
        if self.cursor < self.len {
            Some(self.cursor)
        } else {
            None
        }
    }

    /// The lifecycle that a run has behind it when its cursor has got to
    /// where it is: the children before the cursor visited in order, and the
    /// child under the cursor activated.
    pub open spec fn course(self) -> Seq<Event> {
        if self.cursor < self.len {
            visits(self.cursor).push(Event::activate(self.cursor))
        } else {
            visits(self.cursor)
        }
    }

    /// The sequence has followed the lifecycle so far and has no active
    /// child: it was never activated, was deactivated, or is exhausted.
    pub open spec fn idle(self) -> bool {
        lawful(self.journal) && active_child(self.journal) is None
    }

    /// The sequence is in a run that has followed the lifecycle: the journal
    /// is lawful, the active child is the one under the cursor, and the run
    /// has visited the children before the cursor in order.
    pub open spec fn on_course(self) -> bool {
        &&& self.cursor <= self.len
        &&& self.run_start <= self.journal.len()
        &&& lawful(self.journal)
        &&& active_child(self.journal) == self.current()
        &&& lifecycle(self.run()) == self.course()
    }

    /// The sequence after `activate`: a new run starts at the first child.
    pub open spec fn activated(self) -> SequenceView {
        SequenceView {
            cursor: 0,
            len: self.len,
            journal: if self.len > 0 {
                self.journal.push(Event::activate(0))
            } else {
                self.journal
            },
            run_start: self.journal.len(),
        }
    }

    /// The sequence after `step`, where `answer` is what the current child
    /// answered to its own step. A child that has finished is deactivated,
    /// and the next child, if there is one, is activated in the same tick.
    pub open spec fn stepped(self, answer: bool) -> SequenceView {
        if self.cursor >= self.len {
            self
        } else if answer {
            SequenceView { journal: self.journal.push(Event::step(self.cursor, true)), ..self }
        } else if self.cursor + 1 < self.len {
            SequenceView {
                cursor: self.cursor + 1,
                journal: self.journal.push(Event::step(self.cursor, false)).push(
                    Event::deactivate(self.cursor),
                ).push(Event::activate(self.cursor + 1)),
                ..self
            }
        } else {
            SequenceView {
                cursor: self.cursor + 1,
                journal: self.journal.push(Event::step(self.cursor, false)).push(
                    Event::deactivate(self.cursor),
                ),
                ..self
            }
        }
    }

    /// What `step` answers: the sequence is still running unless it was
    /// exhausted already or its last child has just finished.
    pub open spec fn reports(self, answer: bool) -> bool {
        self.cursor < self.len && (answer || self.cursor + 1 < self.len)
    }

    /// The sequence once the current child has been stepped and has
    /// answered `answer`, and nothing else has been done yet.
    pub open spec fn noted(self, answer: bool) -> SequenceView {
        SequenceView { journal: self.journal.push(Event::step(self.cursor, answer)), ..self }
    }

    /// The sequence after `advance`, where `answer` is what the current
    /// child has just answered: a child that is still running stays the
    /// current one; a child that has finished is deactivated, and the next
    /// child, if there is one, is activated.
    pub open spec fn advanced(self, answer: bool) -> SequenceView {
        if self.cursor >= self.len || answer {
            self
        } else if self.cursor + 1 < self.len {
            SequenceView {
                cursor: self.cursor + 1,
                journal: self.journal.push(Event::deactivate(self.cursor)).push(
                    Event::activate(self.cursor + 1),
                ),
                ..self
            }
        } else {
            SequenceView {
                cursor: self.cursor + 1,
                journal: self.journal.push(Event::deactivate(self.cursor)),
                ..self
            }
        }
    }

    /// The sequence after `deactivate`: the current child, if there is one,
    /// is deactivated, and the cursor goes back to the start.
    pub open spec fn deactivated(self) -> SequenceView {
        SequenceView {
            cursor: 0,
            journal: if self.cursor < self.len {
                self.journal.push(Event::deactivate(self.cursor))
            } else {
                self.journal
            },
            ..self
        }
    }

    /// A `Cycle` after `step`: its sequence is stepped and, if that
    /// exhausted it, activated again in the same tick.
    pub open spec fn cycled(self, answer: bool) -> SequenceView {
        if self.reports(answer) {
            self.stepped(answer)
        } else {
            self.stepped(answer).activated()
        }
    }

    /// Activating an idle sequence starts a run that is on course.
    pub proof fn law_activation_starts_course(self)
        requires
            self.idle(),
        ensures
            self.activated().on_course(),
    {
        let next = self.activated();
        if self.len > 0 {
            lemma_push(self.journal, Event::activate(0));
            assert(next.run() =~= seq![Event::activate(0)]);
            lemma_push(Seq::empty(), Event::activate(0));
            assert(seq![Event::activate(0)] =~= Seq::<Event>::empty().push(Event::activate(0)));
        } else {
            assert(next.run() =~= Seq::<Event>::empty());
        }
    }

    /// A step keeps a run on course, whatever the current child answers: the
    /// children are visited in the order of the list, each is activated once
    /// and deactivated once, and a child is activated only after the child
    /// before it was deactivated.
    pub proof fn law_step_keeps_course(self, answer: bool)
        requires
            self.on_course(),
        ensures
            self.stepped(answer).on_course(),
    {
        if self.cursor < self.len {
            let stepped = self.journal.push(Event::step(self.cursor, answer));
            lemma_push(self.journal, Event::step(self.cursor, answer));
            lemma_push_skip(self.journal, Event::step(self.cursor, answer), self.run_start);
            lemma_push(self.run(), Event::step(self.cursor, answer));
            if !answer {
                let left = stepped.push(Event::deactivate(self.cursor));
                lemma_push(stepped, Event::deactivate(self.cursor));
                lemma_push_skip(stepped, Event::deactivate(self.cursor), self.run_start);
                lemma_push(stepped.skip(self.run_start as int), Event::deactivate(self.cursor));
                if self.cursor + 1 < self.len {
                    lemma_push(left, Event::activate(self.cursor + 1));
                    lemma_push_skip(left, Event::activate(self.cursor + 1), self.run_start);
                    lemma_push(left.skip(self.run_start as int), Event::activate(self.cursor + 1));
                }
            }
        }
    }

    /// A child that finishes is deactivated in the step in which it finishes,
    /// right after it gave its answer, and the child behind it is activated
    /// right after that, in the same step.
    pub proof fn law_finished_child_is_deactivated(self)
        requires
            self.cursor < self.len,
        ensures
            ({
                let after = self.stepped(false).journal;
                let at = self.journal.len() as int;
                &&& after[at] == Event::step(self.cursor, false)
                &&& after[at + 1] == Event::deactivate(self.cursor)
                &&& self.cursor + 1 < self.len ==> after.len() == at + 3 && after[at + 2]
                    == Event::activate(self.cursor + 1)
                &&& self.cursor + 1 == self.len ==> after.len() == at + 2
            }),
    {
    }

    /// Deactivating a sequence that is on course leaves it idle, with the
    /// child that was current deactivated.
    pub proof fn law_deactivation_settles(self)
        requires
            self.on_course(),
        ensures
            self.deactivated().idle(),
            lifecycle(self.deactivated().run()) == if self.cursor < self.len {
                visits(self.cursor + 1)
            } else {
                visits(self.len)
            },
    {
        if self.cursor < self.len {
            lemma_push(self.journal, Event::deactivate(self.cursor));
            lemma_push_skip(self.journal, Event::deactivate(self.cursor), self.run_start);
            lemma_push(self.run(), Event::deactivate(self.cursor));
        }
    }

    /// A run that was on course and is exhausted has visited every child in
    /// the order of the list, exactly once: it activated child `child` at
    /// place `2 * child` of its lifecycle and deactivated it at the next
    /// place, before it activated the child after it. Nothing is left active.
    pub proof fn law_exhausted_run_visited_all(self)
        requires
            self.on_course(),
            self.cursor == self.len,
        ensures
            self.idle(),
            lifecycle(self.run()) == visits(self.len),
            lifecycle(self.run()).len() == 2 * self.len,
            forall|child: nat|
                child < self.len ==> {
                    &&& #[trigger] lifecycle(self.run())[2 * (child as int)] == Event::activate(
                        child,
                    )
                    &&& lifecycle(self.run())[2 * (child as int) + 1] == Event::deactivate(child)
                },
    {
        assert forall|child: nat| child < self.len implies {
            &&& #[trigger] visits(self.len)[2 * (child as int)] == Event::activate(child)
            &&& visits(self.len)[2 * (child as int) + 1] == Event::deactivate(child)
        } by {
            lemma_visits_places(self.len, child);
        }
        if self.len > 0 {
            lemma_visits_places(self.len, 0);
        }
    }

    /// A cycle whose sequence is on course keeps it on course. Where the step
    /// exhausts the sequence, the same step starts the next run: the cursor
    /// is back at the first child, and the activation of that child is the
    /// last call in the journal.
    pub proof fn law_cycle_restarts(self, answer: bool)
        requires
            self.on_course(),
        ensures
            self.cycled(answer).on_course(),
            !self.reports(answer) ==> {
                &&& self.cycled(answer).cursor == 0
                &&& self.cycled(answer).run_start == self.stepped(answer).journal.len()
                &&& self.len > 0 ==> self.cycled(answer).journal == self.stepped(
                    answer,
                ).journal.push(Event::activate(0))
            },
    {
        self.law_step_keeps_course(answer);
        if !self.reports(answer) {
            self.stepped(answer).law_activation_starts_course();
        }
    }
}

/// An ordered list of children with a cursor. Activation puts the cursor on
/// the first child and activates it. Each step steps the child under the
/// cursor; when that child has finished, the sequence deactivates it and, in
/// the same tick, activates the next one. The sequence has finished when its
/// last child has. A sequence must have a child before it is activated or
/// handed to a parent.
#[verifier::reject_recursive_types(T)]
pub struct Sequence<T> {
    index: usize,
    elements: Vec<Child<T>>,
    journal: Journal<T>,
    run_start: Ghost<nat>,
}

impl<T> View for Sequence<T> {
    type V = SequenceView;

    closed spec fn view(&self) -> SequenceView {
        SequenceView {
            cursor: self.index as nat,
            len: self.elements@.len(),
            journal: self.journal.events(),
            run_start: self.run_start@,
        }
    }
}

impl<T> Default for Sequence<T> {
    /// The sequence without children, never activated.
    fn default() -> (sequence: Self)
        ensures
            sequence@ == (SequenceView { cursor: 0, len: 0, journal: Seq::empty(), run_start: 0 }),
            sequence.children() == Seq::<Child<T>>::empty(),
            sequence.log().hands() == Seq::<Hand<T>>::empty(),
    {
        Self { index: 0, elements: Vec::new(), journal: Journal::new(), run_start: Ghost(0) }
    }
}

impl<T> Sequence<T> {
    /// The children, in the order of the list.
    pub closed spec fn children(&self) -> Seq<Child<T>> {
        self.elements@
    }

    /// The journal: the calls of the view, with what each handed on.
    pub closed spec fn log(&self) -> Journal<T> {
        self.journal
    }

    /// The view counts the children and shows the calls of the journal.
    pub proof fn lemma_view(&self)
        ensures
            self@.len == self.children().len(),
            self@.journal == self.log().events(),
    {
    }

    /// The sequence has the children that `before` had, and every child
    /// outside the places `first` to `last` is as it was.
    pub open spec fn keeps_children_outside(&self, before: &Self, first: nat, last: nat) -> bool {
        &&& self.children().len() == before.children().len()
        &&& forall|place: int|
            0 <= place < self.children().len() && !(first <= place <= last)
                ==> #[trigger] self.children()[place] == before.children()[place]
    }

    /// Adds `element` behind the children that the sequence has.
    pub fn push(self, element: impl LevelPlanElement<T> + 'static) -> (sequence: Self)
        requires
            element.ready(),
        ensures
            sequence@ == (SequenceView { len: self@.len + 1, ..self@ }),
            sequence.children() == self.children().push(Child::<T>::holding(element)),
            sequence.log() == self.log(),
    {
        let mut sequence = self;
        sequence.elements.push(Child::new(element));
        sequence
    }

    /// Starts a run: puts the cursor on the first child and activates it.
    /// The sequence must have a child.
    pub fn activate(&mut self, level: Entity, commands: &mut Commands, context: &mut T)
        requires
            old(self)@.len > 0,
        ensures
            final(self)@ == old(self)@.activated(),
            final(self).keeps_children_outside(old(self), 0, 0),
            final(self).log().continues(
                &old(self).log(),
                old(self).children(),
                final(self).children(),
                level,
                pending(*old(commands)),
                pending(*final(commands)),
            ),
            *final(context) == *old(context),
            extends(pending(*final(commands)), pending(*old(commands))),
    {
        proof {
            self.journal.lemma_continues_itself(self.elements@, level, pending(*commands));
            self.run_start@ = self.journal.events().len();
        }
        self.index = 0;
        self.elements[0].activate(Ghost(0), &mut self.journal, level, commands, context);
    }

    /// What follows the step of the current child, which answered `answer`.
    /// A child that is still running stays the current one, and the sequence
    /// is running. A child that has finished is deactivated; the next child,
    /// if there is one, becomes the current one and is activated in the same
    /// tick, and the sequence is running; after the last child it is not.
    pub fn advance(
        &mut self,
        answer: bool,
        level: Entity,
        commands: &mut Commands,
        context: &mut T,
    ) -> (running: bool)
        ensures
            final(self)@ == old(self)@.advanced(answer),
            running == old(self)@.reports(answer),
            final(self).keeps_children_outside(old(self), old(self)@.cursor, final(self)@.cursor),
            old(self)@.current() is None || answer ==> final(self).children() == old(
                self,
            ).children(),
            final(self).log().continues(
                &old(self).log(),
                old(self).children(),
                final(self).children(),
                level,
                pending(*old(commands)),
                pending(*final(commands)),
            ),
            *final(context) == *old(context),
            extends(pending(*final(commands)), pending(*old(commands))),
    {
        let ghost before = pending(*commands);
        proof {
            lemma_extends_refl(before);
            self.journal.lemma_continues_itself(self.elements@, level, before);
        }
        if self.index >= self.elements.len() {
            false
        } else if answer {
            true
        } else {
            self.elements[self.index].deactivate(
                Ghost(self.index as nat),
                &mut self.journal,
                level,
                commands,
                context,
            );
            let ghost left = pending(*commands);
            self.index += 1;
            if self.index < self.elements.len() {
                self.elements[self.index].activate(
                    Ghost(self.index as nat),
                    &mut self.journal,
                    level,
                    commands,
                    context,
                );
                proof {
                    lemma_extends_trans(pending(*commands), left, before);
                }
                true
            } else {
                false
            }
        }
    }
}

impl<T> LevelPlanElement<T> for Sequence<T> {
    open spec fn ready(&self) -> bool {
        self@.len > 0
    }

    /// Steps the current child and advances on its answer. An exhausted
    /// sequence calls no child and answers `false`.
    fn step(&mut self, level: Entity, commands: &mut Commands, context: &mut T) -> (running: bool)
        ensures
            final(self)@ == old(self)@.stepped(final(self)@.cursor == old(self)@.cursor),
            running == old(self)@.reports(final(self)@.cursor == old(self)@.cursor),
            final(self).keeps_children_outside(old(self), old(self)@.cursor, final(self)@.cursor),
            old(self)@.current() is None ==> final(self).children() == old(self).children(),
            final(self).log().continues(
                &old(self).log(),
                old(self).children(),
                final(self).children(),
                level,
                pending(*old(commands)),
                pending(*final(commands)),
            ),
    {
        let ghost before = pending(*commands);
        proof {
            lemma_extends_refl(before);
            self.journal.lemma_continues_itself(self.elements@, level, before);
        }
        if self.index < self.elements.len() {
            let answer = self.elements[self.index].step(
                Ghost(self.index as nat),
                &mut self.journal,
                level,
                commands,
                context,
            );
            let ghost stepped = pending(*commands);
            let ghost origin = old(self).journal;
            let ghost noted = self.journal;
            let ghost halfway = self.elements@;
            assert(noted.continues(&origin, old(self).elements@, halfway, level, before, stepped));
            let running = self.advance(answer, level, commands, context);
            proof {
                lemma_extends_trans(pending(*commands), stepped, before);
                self.journal.lemma_continues_on(
                    &noted,
                    &origin,
                    old(self).elements@,
                    halfway,
                    self.elements@,
                    level,
                    before,
                    stepped,
                    pending(*commands),
                );
            }
            running
        } else {
            false
        }
    }

    /// Starts a run, as the operation of the same name on a sequence does.
    /// A parent reaches a sequence through this one; a sequence that came to
    /// stand in a plan has a child.
    fn activate(&mut self, level: Entity, commands: &mut Commands, context: &mut T)
        ensures
            final(self)@ == old(self)@.activated(),
            final(self).keeps_children_outside(old(self), 0, 0),
            final(self).log().continues(
                &old(self).log(),
                old(self).children(),
                final(self).children(),
                level,
                pending(*old(commands)),
                pending(*final(commands)),
            ),
    {
        if self.elements.len() > 0 {
            Sequence::activate(self, level, commands, context);
        } else {
            proof {
                lemma_extends_refl(pending(*commands));
                self.journal.lemma_continues_itself(self.elements@, level, pending(*commands));
                self.run_start@ = self.journal.events().len();
            }
            self.index = 0;
        }
    }

    /// Ends the run: deactivates the current child, if there is one, and
    /// puts the cursor back at the start.
    fn deactivate(&mut self, level: Entity, commands: &mut Commands, context: &mut T)
        ensures
            final(self)@ == old(self)@.deactivated(),
            final(self).keeps_children_outside(old(self), old(self)@.cursor, old(self)@.cursor),
            old(self)@.current() is None ==> final(self).children() == old(self).children(),
            final(self).log().continues(
                &old(self).log(),
                old(self).children(),
                final(self).children(),
                level,
                pending(*old(commands)),
                pending(*final(commands)),
            ),
    {
        proof {
            lemma_extends_refl(pending(*commands));
            self.journal.lemma_continues_itself(self.elements@, level, pending(*commands));
        }
        if self.index < self.elements.len() {
            self.elements[self.index].deactivate(
                Ghost(self.index as nat),
                &mut self.journal,
                level,
                commands,
                context,
            );
        }
        self.index = 0;
    }
}

/// A sequence that starts again whenever it is exhausted. The step that
/// exhausts the sequence activates it again in the same tick, so a cycle
/// never finishes by itself: its parent ends it.
#[verifier::reject_recursive_types(T)]
pub struct Cycle<T> {
    sequence: Sequence<T>,
}

impl<T> View for Cycle<T> {
    type V = SequenceView;

    /// A cycle is seen as the sequence that it wraps.
    closed spec fn view(&self) -> SequenceView {
        self.sequence@
    }
}

impl<T> Cycle<T> {
    /// The sequence that the cycle runs.
    pub closed spec fn sequence(&self) -> Sequence<T> {
        self.sequence
    }

    /// The view of a cycle is the view of its sequence.
    pub proof fn lemma_view(&self)
        ensures
            self@ == self.sequence()@,
    {
    }

    /// The cycle has the children that `before` had, and every child but the
    /// first and those at the places `first` to `last` is as it was.
    pub open spec fn keeps_children_outside(&self, before: &Self, first: nat, last: nat) -> bool {
        &&& self.sequence().children().len() == before.sequence().children().len()
        &&& forall|place: int|
            0 < place < self.sequence().children().len() && !(first <= place <= last)
                ==> #[trigger] self.sequence().children()[place]
                == before.sequence().children()[place]
    }

    /// The cycle over `sequence`, which must have a child.
    pub fn new(sequence: Sequence<T>) -> (cycle: Self)
        requires
            sequence.ready(),
        ensures
            cycle.sequence() == sequence,
            cycle@ == sequence@,
    {
        Self { sequence }
    }
}

impl<T> LevelPlanElement<T> for Cycle<T> {
    /// Steps the sequence and, if that exhausted it, activates it again.
    /// Besides the children that the step of the sequence calls, only the
    /// first child is called, and only for that new start.
    fn step(&mut self, level: Entity, commands: &mut Commands, context: &mut T) -> (running: bool)
        ensures
            running,
            final(self)@ == old(self)@.cycled(true) || final(self)@ == old(self)@.cycled(false),
            final(self).keeps_children_outside(old(self), old(self)@.cursor, old(self)@.cursor + 1),
            final(self).sequence().log().continues(
                &old(self).sequence().log(),
                old(self).sequence().children(),
                final(self).sequence().children(),
                level,
                pending(*old(commands)),
                pending(*final(commands)),
            ),
    {
        let ghost before = pending(*commands);
        let ghost origin = self.sequence.log();
        if !self.sequence.step(level, commands, context) {
            let ghost stepped = pending(*commands);
            let ghost exhausted = self.sequence.log();
            let ghost halfway = self.sequence.children();
            LevelPlanElement::activate(&mut self.sequence, level, commands, context);
            proof {
                lemma_extends_trans(pending(*commands), stepped, before);
                self.sequence.log().lemma_continues_on(
                    &exhausted,
                    &origin,
                    old(self).sequence.children(),
                    halfway,
                    self.sequence.children(),
                    level,
                    before,
                    stepped,
                    pending(*commands),
                );
            }
        }
        true
    }

    fn activate(&mut self, level: Entity, commands: &mut Commands, context: &mut T)
        ensures
            final(self)@ == old(self)@.activated(),
            final(self).keeps_children_outside(old(self), 0, 0),
            final(self).sequence().log().continues(
                &old(self).sequence().log(),
                old(self).sequence().children(),
                final(self).sequence().children(),
                level,
                pending(*old(commands)),
                pending(*final(commands)),
            ),
    {
        LevelPlanElement::activate(&mut self.sequence, level, commands, context);
    }

    fn deactivate(&mut self, level: Entity, commands: &mut Commands, context: &mut T)
        ensures
            final(self)@ == old(self)@.deactivated(),
            final(self).sequence().keeps_children_outside(
                &old(self).sequence(),
                old(self)@.cursor,
                old(self)@.cursor,
            ),
            old(self)@.current() is None ==> final(self).sequence().children() == old(
                self,
            ).sequence().children(),
            final(self).sequence().log().continues(
                &old(self).sequence().log(),
                old(self).sequence().children(),
                final(self).sequence().children(),
                level,
                pending(*old(commands)),
                pending(*final(commands)),
            ),
    {
        self.sequence.deactivate(level, commands, context);
    }
}

} // verus!
