//! Plan elements: the lifecycle that every node of a plan follows, and the
//! two leaves that the library offers.
use crate::buffer::{
    attach, detach, extends, lemma_extends_push, lemma_extends_refl, pending, Intent,
};
use crate::journal::{active_child, lawful, Call, Event};
use bevy::prelude::{Commands, Entity};
use vstd::prelude::*;

verus! {

/// A node of a plan.
///
/// A parent activates an element once when the element becomes the active
/// one, steps it once a tick while it stays active, and deactivates it once
/// when it leaves it, whether the element finished or the parent gives it up.
/// `level` is the object that owns the plan, `commands` the deferred mutation
/// buffer of this tick and `context` the snapshot of the world that was taken
/// for this tick.
///
/// No operation changes the snapshot, and none takes an entry out of the
/// buffer: an element only reads the one and adds to the other. An element
/// that keeps the default bodies does nothing and runs for ever.
pub trait LevelPlanElement<T>: Send + Sync {
    /// Whether the element can stand in a plan. Every element can, but a
    /// sequence without children: to hand one to a parent or to a container
    /// is an error of the caller.
    open spec fn ready(&self) -> bool {
        true
    }

    /// One tick of the active element. The answer is `true` while the element
    /// is still running, and `false` once it has finished: its parent then
    /// deactivates it and moves on.
    fn step(&mut self, level: Entity, commands: &mut Commands, context: &mut T) -> (running: bool)
        ensures
            *final(context) == *old(context),
            extends(pending(*final(commands)), pending(*old(commands))),
        default_ensures
            running,
            pending(*final(commands)) == pending(*old(commands)),
    {
        true
    }

    /// The element becomes active.
    fn activate(&mut self, level: Entity, commands: &mut Commands, context: &mut T)
        ensures
            *final(context) == *old(context),
            extends(pending(*final(commands)), pending(*old(commands))),
        default_ensures
            pending(*final(commands)) == pending(*old(commands)),
    {
    }

    /// The element stops being active.
    fn deactivate(&mut self, level: Entity, commands: &mut Commands, context: &mut T)
        ensures
            *final(context) == *old(context),
            extends(pending(*final(commands)), pending(*old(commands))),
        default_ensures
            pending(*final(commands)) == pending(*old(commands)),
    {
    }
}

/// One call on a child: what it was made on, what it handed to the child,
/// and what it left.
#[verifier::reject_recursive_types(T)]
pub struct Hand<T> {
    /// The child as the call found it.
    pub child: Child<T>,
    /// The child as the call left it.
    pub left: Child<T>,
    /// The owner of the plan, as the child was told.
    pub target: Entity,
    /// What waited in the buffer when the child was called.
    pub before: Seq<Intent>,
    /// What waited in the buffer when the child returned.
    pub after: Seq<Intent>,
}

/// The journal of a parent: the calls that it made on its children, oldest
/// first, and beside each call what it was made on and what it handed on.
///
/// Only the three operations of `Child` add to a journal, one entry for the
/// one call that each of them makes. A parent cannot write an entry itself,
/// so an entry in its journal is a call that was made.
#[verifier::reject_recursive_types(T)]
pub struct Journal<T> {
    events: Ghost<Seq<Event>>,
    hands: Ghost<Seq<Hand<T>>>,
}

impl<T> Journal<T> {
    /// The calls, oldest first.
    pub closed spec fn events(&self) -> Seq<Event> {
        self.events@
    }

    /// What stands beside each call: `hands()[i]` belongs to `events()[i]`.
    pub closed spec fn hands(&self) -> Seq<Hand<T>> {
        self.hands@
    }

    /// The journal in which nothing is written.
    pub(crate) fn new() -> (journal: Self)
        ensures
            journal.events() == Seq::<Event>::empty(),
            journal.hands() == Seq::<Hand<T>>::empty(),
    {
        Journal { events: Ghost(Seq::empty()), hands: Ghost(Seq::empty()) }
    }

    /// The calls of `events`, with `hands` beside them, are calls on the
    /// children `before`, made one after the other for `target`, and they
    /// leave the children as `after`. Each call is made on the child that
    /// stands at the place that its event names, as the calls before it left
    /// that child. The first call finds the buffer as `start`, each later
    /// one as the one before left it, and the last leaves it as `end`. With
    /// no call, the children and the buffer are as they were.
    pub open spec fn follows(
        events: Seq<Event>,
        hands: Seq<Hand<T>>,
        before: Seq<Child<T>>,
        after: Seq<Child<T>>,
        target: Entity,
        start: Seq<Intent>,
        end: Seq<Intent>,
    ) -> bool
        decreases hands.len(),
    {
        if hands.len() == 0 {
            events.len() == 0 && after == before && end == start
        } else {
            &&& events.len() == hands.len()
            &&& events.last().child < after.len()
            &&& after[events.last().child as int] == hands.last().left
            &&& hands.last().target == target
            &&& hands.last().after == end
            &&& Self::follows(
                events.drop_last(),
                hands.drop_last(),
                before,
                after.update(events.last().child as int, hands.last().child),
                target,
                start,
                hands.last().before,
            )
        }
    }

    /// The journal is `origin` with more calls behind it, and the calls that
    /// were added follow one another on the children `before`, for `target`,
    /// from the buffer `start`, and leave the children as `after` and the
    /// buffer as `end`: nothing but these calls touched a child or the
    /// buffer.
    pub open spec fn continues(
        &self,
        origin: &Journal<T>,
        before: Seq<Child<T>>,
        after: Seq<Child<T>>,
        target: Entity,
        start: Seq<Intent>,
        end: Seq<Intent>,
    ) -> bool {
        &&& origin.hands().len() <= self.hands().len()
        &&& origin.events().len() <= self.events().len()
        &&& self.hands().take(origin.hands().len() as int) == origin.hands()
        &&& self.events().take(origin.events().len() as int) == origin.events()
        &&& Self::follows(
            self.events().skip(origin.events().len() as int),
            self.hands().skip(origin.hands().len() as int),
            before,
            after,
            target,
            start,
            end,
        )
    }

    /// A journal continues itself, with the children and the buffer where
    /// they were.
    pub proof fn lemma_continues_itself(
        &self,
        children: Seq<Child<T>>,
        target: Entity,
        start: Seq<Intent>,
    )
        ensures
            self.continues(self, children, children, target, start, start),
    {
        assert(self.hands().take(self.hands().len() as int) =~= self.hands());
        assert(self.events().take(self.events().len() as int) =~= self.events());
        assert(self.hands().skip(self.hands().len() as int) =~= Seq::<Hand<T>>::empty());
        assert(self.events().skip(self.events().len() as int) =~= Seq::<Event>::empty());
    }

    /// Calls that follow one another, with calls behind them that follow on
    /// from where they ended, follow one another from the first to the last.
    pub proof fn lemma_follows_on(
        first_events: Seq<Event>,
        first: Seq<Hand<T>>,
        second_events: Seq<Event>,
        second: Seq<Hand<T>>,
        before: Seq<Child<T>>,
        between: Seq<Child<T>>,
        after: Seq<Child<T>>,
        target: Entity,
        start: Seq<Intent>,
        middle: Seq<Intent>,
        end: Seq<Intent>,
    )
        requires
            Self::follows(first_events, first, before, between, target, start, middle),
            Self::follows(second_events, second, between, after, target, middle, end),
            first_events.len() == first.len(),
        ensures
            Self::follows(
                first_events + second_events,
                first + second,
                before,
                after,
                target,
                start,
                end,
            ),
        decreases second.len(),
    {
        if second.len() == 0 {
            assert(first + second =~= first);
            assert(first_events + second_events =~= first_events);
        } else {
            Self::lemma_follows_on(
                first_events,
                first,
                second_events.drop_last(),
                second.drop_last(),
                before,
                between,
                after.update(second_events.last().child as int, second.last().child),
                target,
                start,
                middle,
                second.last().before,
            );
            assert((first + second).drop_last() =~= first + second.drop_last());
            assert((first_events + second_events).drop_last() =~= first_events
                + second_events.drop_last());
            assert((first + second).last() == second.last());
            assert((first_events + second_events).last() == second_events.last());
        }
    }

    /// Where a journal continues `origin` with no call added, the children
    /// and the buffer are as they were.
    pub proof fn lemma_continues_without(
        &self,
        origin: &Journal<T>,
        before: Seq<Child<T>>,
        after: Seq<Child<T>>,
        target: Entity,
        start: Seq<Intent>,
        end: Seq<Intent>,
    )
        requires
            self.continues(origin, before, after, target, start, end),
            self.events().len() == origin.events().len(),
        ensures
            after == before,
            end == start,
    {
        let events = self.events().skip(origin.events().len() as int);
        let hands = self.hands().skip(origin.hands().len() as int);
        assert(events.len() == 0);
        if hands.len() > 0 {
            assert(events.len() == hands.len());
        }
    }

    /// Calls that follow one another are as many as their hands.
    pub proof fn lemma_follows_count(
        events: Seq<Event>,
        hands: Seq<Hand<T>>,
        before: Seq<Child<T>>,
        after: Seq<Child<T>>,
        target: Entity,
        start: Seq<Intent>,
        end: Seq<Intent>,
    )
        requires
            Self::follows(events, hands, before, after, target, start, end),
        ensures
            events.len() == hands.len(),
    {
    }

    /// A journal that continues one that continues `origin` continues
    /// `origin`.
    pub proof fn lemma_continues_on(
        &self,
        between: &Journal<T>,
        origin: &Journal<T>,
        before: Seq<Child<T>>,
        halfway: Seq<Child<T>>,
        after: Seq<Child<T>>,
        target: Entity,
        start: Seq<Intent>,
        middle: Seq<Intent>,
        end: Seq<Intent>,
    )
        requires
            between.continues(origin, before, halfway, target, start, middle),
            self.continues(between, halfway, after, target, middle, end),
        ensures
            self.continues(origin, before, after, target, start, end),
    {
        let from = origin.hands().len() as int;
        let to = between.hands().len() as int;
        let efrom = origin.events().len() as int;
        let eto = between.events().len() as int;
        Self::lemma_follows_count(
            between.events().skip(efrom),
            between.hands().skip(from),
            before,
            halfway,
            target,
            start,
            middle,
        );
        assert(self.hands().take(from) =~= self.hands().take(to).take(from));
        assert(self.events().take(efrom) =~= self.events().take(eto).take(efrom));
        Self::lemma_follows_on(
            between.events().skip(efrom),
            between.hands().skip(from),
            self.events().skip(eto),
            self.hands().skip(to),
            before,
            halfway,
            after,
            target,
            start,
            middle,
            end,
        );
        assert(self.hands().skip(from) =~= between.hands().skip(from) + self.hands().skip(to)) by {
            assert(self.hands().take(to) == between.hands());
            assert forall|i: int| 0 <= i < to - from implies self.hands().skip(from)[i]
                == between.hands().skip(from)[i] by {
                assert(self.hands().take(to)[from + i] == between.hands()[from + i]);
            }
        }
        assert(self.events().skip(efrom) =~= between.events().skip(efrom) + self.events().skip(
            eto,
        )) by {
            assert(self.events().take(eto) == between.events());
            assert forall|i: int| 0 <= i < eto - efrom implies self.events().skip(efrom)[i]
                == between.events().skip(efrom)[i] by {
                assert(self.events().take(eto)[efrom + i] == between.events()[efrom + i]);
            }
        }
    }

    /// One more call continues a journal: it is made on the child at the
    /// place that its event names, and takes the buffer from where it was to
    /// where the call left it.
    pub proof fn lemma_continues_with(
        &self,
        next: &Journal<T>,
        origin: &Journal<T>,
        event: Event,
        hand: Hand<T>,
        before: Seq<Child<T>>,
        now: Seq<Child<T>>,
        start: Seq<Intent>,
    )
        requires
            self.continues(origin, before, now, hand.target, start, hand.before),
            event.child < now.len(),
            now[event.child as int] == hand.child,
            next.events() == self.events().push(event),
            next.hands() == self.hands().push(hand),
        ensures
            next.continues(
                origin,
                before,
                now.update(event.child as int, hand.left),
                hand.target,
                start,
                hand.after,
            ),
    {
        let from = origin.hands().len() as int;
        let efrom = origin.events().len() as int;
        Self::lemma_follows_count(
            self.events().skip(efrom),
            self.hands().skip(from),
            before,
            now,
            hand.target,
            start,
            hand.before,
        );
        assert(next.hands().take(from) =~= self.hands().take(from));
        assert(next.events().take(efrom) =~= self.events().take(efrom));
        assert(next.hands().skip(from).drop_last() =~= self.hands().skip(from));
        assert(next.events().skip(efrom).drop_last() =~= self.events().skip(efrom));
        assert(next.hands().skip(from).last() == hand);
        assert(next.events().skip(efrom).last() == event);
        assert(now.update(event.child as int, hand.left).update(event.child as int, hand.child)
            =~= now);
    }
}

/// An element that a parent owns, of whatever type.
///
/// The parent reaches the element through the three operations below and in
/// no other way. Each of them makes one call and writes it into the journal
/// of the parent, under the place that the parent gives the child.
#[verifier::reject_recursive_types(T)]
pub struct Child<T> {
    element: Box<dyn LevelPlanElement<T>>,
}

impl<T> Child<T> {
    /// The child that is `element`, boxed.
    pub closed spec fn holding<E: LevelPlanElement<T> + 'static>(element: E) -> Child<T> {
        Child { element: Box::new(element) }
    }

    /// Boxes `element` as a child.
    pub(crate) fn new(element: impl LevelPlanElement<T> + 'static) -> (child: Self)
        ensures
            child == Child::<T>::holding(element),
    {
        Child { element: Box::new(element) }
    }

    /// Steps the element, and writes the step with its answer.
    pub(crate) fn step(
        &mut self,
        place: Ghost<nat>,
        journal: &mut Journal<T>,
        level: Entity,
        commands: &mut Commands,
        context: &mut T,
    ) -> (running: bool)
        ensures
            final(journal).events() == old(journal).events().push(Event::step(place@, running)),
            final(journal).hands() == old(journal).hands().push(
                Hand {
                    child: *old(self),
                    left: *final(self),
                    target: level,
                    before: pending(*old(commands)),
                    after: pending(*final(commands)),
                },
            ),
            forall|origin: Journal<T>, before: Seq<Child<T>>, now: Seq<Child<T>>, start: Seq<Intent>|
                #[trigger] old(journal).continues(
                    &origin,
                    before,
                    now,
                    level,
                    start,
                    pending(*old(commands)),
                ) && place@ < now.len() && now[place@ as int] == *old(self)
                    ==> final(journal).continues(
                    &origin,
                    before,
                    now.update(place@ as int, *final(self)),
                    level,
                    start,
                    pending(*final(commands)),
                ),
            *final(context) == *old(context),
            extends(pending(*final(commands)), pending(*old(commands))),
    {
        let ghost before = pending(*commands);
        let running = self.element.step(level, commands, context);
        proof {
            let hand = Hand {
                child: *old(self),
                left: *self,
                target: level,
                before,
                after: pending(*commands),
            };
            let event = Event::step(place@, running);
            journal.events@ = journal.events@.push(event);
            journal.hands@ = journal.hands@.push(hand);
            assert forall|
                origin: Journal<T>,
                earlier: Seq<Child<T>>,
                now: Seq<Child<T>>,
                start: Seq<Intent>,
            | #[trigger]
                old(journal).continues(&origin, earlier, now, level, start, before) && place@
                    < now.len() && now[place@ as int] == *old(self) implies journal.continues(
                &origin,
                earlier,
                now.update(place@ as int, *self),
                level,
                start,
                pending(*commands),
            ) by {
                old(journal).lemma_continues_with(
                    journal,
                    &origin,
                    event,
                    hand,
                    earlier,
                    now,
                    start,
                );
            }
        }
        running
    }

    /// Activates the element, and writes the activation.
    pub(crate) fn activate(
        &mut self,
        place: Ghost<nat>,
        journal: &mut Journal<T>,
        level: Entity,
        commands: &mut Commands,
        context: &mut T,
    )
        ensures
            final(journal).events() == old(journal).events().push(Event::activate(place@)),
            final(journal).hands() == old(journal).hands().push(
                Hand {
                    child: *old(self),
                    left: *final(self),
                    target: level,
                    before: pending(*old(commands)),
                    after: pending(*final(commands)),
                },
            ),
            forall|origin: Journal<T>, before: Seq<Child<T>>, now: Seq<Child<T>>, start: Seq<Intent>|
                #[trigger] old(journal).continues(
                    &origin,
                    before,
                    now,
                    level,
                    start,
                    pending(*old(commands)),
                ) && place@ < now.len() && now[place@ as int] == *old(self)
                    ==> final(journal).continues(
                    &origin,
                    before,
                    now.update(place@ as int, *final(self)),
                    level,
                    start,
                    pending(*final(commands)),
                ),
            *final(context) == *old(context),
            extends(pending(*final(commands)), pending(*old(commands))),
    {
        let ghost before = pending(*commands);
        self.element.activate(level, commands, context);
        proof {
            let hand = Hand {
                child: *old(self),
                left: *self,
                target: level,
                before,
                after: pending(*commands),
            };
            let event = Event::activate(place@);
            journal.events@ = journal.events@.push(event);
            journal.hands@ = journal.hands@.push(hand);
            assert forall|
                origin: Journal<T>,
                earlier: Seq<Child<T>>,
                now: Seq<Child<T>>,
                start: Seq<Intent>,
            | #[trigger]
                old(journal).continues(&origin, earlier, now, level, start, before) && place@
                    < now.len() && now[place@ as int] == *old(self) implies journal.continues(
                &origin,
                earlier,
                now.update(place@ as int, *self),
                level,
                start,
                pending(*commands),
            ) by {
                old(journal).lemma_continues_with(
                    journal,
                    &origin,
                    event,
                    hand,
                    earlier,
                    now,
                    start,
                );
            }
        }
    }

    /// Deactivates the element, and writes the deactivation.
    pub(crate) fn deactivate(
        &mut self,
        place: Ghost<nat>,
        journal: &mut Journal<T>,
        level: Entity,
        commands: &mut Commands,
        context: &mut T,
    )
        ensures
            final(journal).events() == old(journal).events().push(Event::deactivate(place@)),
            final(journal).hands() == old(journal).hands().push(
                Hand {
                    child: *old(self),
                    left: *final(self),
                    target: level,
                    before: pending(*old(commands)),
                    after: pending(*final(commands)),
                },
            ),
            forall|origin: Journal<T>, before: Seq<Child<T>>, now: Seq<Child<T>>, start: Seq<Intent>|
                #[trigger] old(journal).continues(
                    &origin,
                    before,
                    now,
                    level,
                    start,
                    pending(*old(commands)),
                ) && place@ < now.len() && now[place@ as int] == *old(self)
                    ==> final(journal).continues(
                    &origin,
                    before,
                    now.update(place@ as int, *final(self)),
                    level,
                    start,
                    pending(*final(commands)),
                ),
            *final(context) == *old(context),
            extends(pending(*final(commands)), pending(*old(commands))),
    {
        let ghost before = pending(*commands);
        self.element.deactivate(level, commands, context);
        proof {
            let hand = Hand {
                child: *old(self),
                left: *self,
                target: level,
                before,
                after: pending(*commands),
            };
            let event = Event::deactivate(place@);
            journal.events@ = journal.events@.push(event);
            journal.hands@ = journal.hands@.push(hand);
            assert forall|
                origin: Journal<T>,
                earlier: Seq<Child<T>>,
                now: Seq<Child<T>>,
                start: Seq<Intent>,
            | #[trigger]
                old(journal).continues(&origin, earlier, now, level, start, before) && place@
                    < now.len() && now[place@ as int] == *old(self) implies journal.continues(
                &origin,
                earlier,
                now.update(place@ as int, *self),
                level,
                start,
                pending(*commands),
            ) by {
                old(journal).lemma_continues_with(
                    journal,
                    &origin,
                    event,
                    hand,
                    earlier,
                    now,
                    start,
                );
            }
        }
    }
}

/// The leaf that does nothing: it is always running and queues no entry. It
/// holds a place in a composite, or waits for a guard around it to end it.
pub struct Nop;

impl<T> LevelPlanElement<T> for Nop {

}

/// The leaf that keeps a component on the owner of the plan for as long as it
/// is active: activation queues the attachment of a clone of the component,
/// deactivation queues the detachment of the component of that type.
pub struct SetComponent<C> {
    component: C,
}

impl<C> SetComponent<C> {
    /// The component that this leaf attaches.
    pub closed spec fn component(&self) -> C {
        self.component
    }

    pub fn new(component: C) -> (leaf: Self)
        ensures
            leaf.component() == component,
    {
        Self { component }
    }
}

impl<T, C: Send + Sync + Clone + 'static> LevelPlanElement<T> for SetComponent<C> {
    fn step(&mut self, level: Entity, commands: &mut Commands, context: &mut T) -> (running: bool)
        ensures
            running,
            pending(*final(commands)) == pending(*old(commands)),
            pending(*final(commands)) == toggled(
                pending(*old(commands)),
                Call::Step { running },
                level,
            ),
            final(self).component() == old(self).component(),
    {
        proof {
            lemma_extends_refl(pending(*commands));
        }
        true
    }

    fn activate(&mut self, level: Entity, commands: &mut Commands, context: &mut T)
        ensures
            pending(*final(commands)) == pending(*old(commands)).push(Intent::Attach(level)),
            pending(*final(commands)) == toggled(pending(*old(commands)), Call::Activate, level),
            final(self).component() == old(self).component(),
    {
        proof {
            lemma_extends_push(pending(*commands), Intent::Attach(level));
        }
        attach(commands, level, self.component.clone());
    }

    fn deactivate(&mut self, level: Entity, commands: &mut Commands, context: &mut T)
        ensures
            pending(*final(commands)) == pending(*old(commands)).push(Intent::Detach(level)),
            pending(*final(commands)) == toggled(pending(*old(commands)), Call::Deactivate, level),
            final(self).component() == old(self).component(),
    {
        proof {
            lemma_extends_push(pending(*commands), Intent::Detach(level));
        }
        detach::<C>(commands, level);
    }
}

/// The buffer after one call on a `SetComponent` that found it as `before`:
/// an activation queues an attachment to `target`, a deactivation a
/// detachment from it, a step nothing.
pub open spec fn toggled(before: Seq<Intent>, call: Call, target: Entity) -> Seq<Intent> {
    match call {
        Call::Activate => before.push(Intent::Attach(target)),
        Call::Deactivate => before.push(Intent::Detach(target)),
        Call::Step { .. } => before,
    }
}

/// The buffer after the calls of `journal` on a `SetComponent`, one after the
/// other, where nothing waited in the buffer before the first.
pub open spec fn toggles(journal: Seq<Event>, target: Entity) -> Seq<Intent>
    decreases journal.len(),
{
    if journal.len() == 0 {
        Seq::empty()
    } else {
        toggled(toggles(journal.drop_last(), target), journal.last().call, target)
    }
}

/// Under a parent that follows the lifecycle, the entries of a `SetComponent`
/// alternate, attachment first: the component is never attached twice without
/// a detachment between, and once the leaf is inactive again every attachment
/// has its detachment behind it.
pub proof fn law_attachments_alternate(journal: Seq<Event>, target: Entity)
    requires
        lawful(journal),
    ensures
        forall|i: int|
            0 <= i < toggles(journal, target).len() ==> #[trigger] toggles(journal, target)[i] == (
            if i % 2 == 0 {
                Intent::Attach(target)
            } else {
                Intent::Detach(target)
            }),
        (active_child(journal) is None) == (toggles(journal, target).len() % 2 == 0),
    decreases journal.len(),
{
    if journal.len() > 0 {
        law_attachments_alternate(journal.drop_last(), target);
    }
}

} // verus!
