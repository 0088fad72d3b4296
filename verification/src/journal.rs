//! Journals: the lifecycle calls that a parent makes on its children, in the
//! order in which it makes them.
//!
//! A parent numbers its children from zero. Each call it makes on a child is
//! one `Event`. A journal is lawful when it follows the lifecycle: a child is
//! activated only while no child is active, and is stepped or deactivated
//! only while it is the active one.
use vstd::prelude::*;

verus! {

/// One lifecycle call.
pub enum Call {
    Activate,
    /// A step, with what the child answered: whether it is still running.
    Step { running: bool },
    Deactivate,
}

/// One call on one child.
pub struct Event {
    pub child: nat,
    pub call: Call,
}

impl Event {
    pub open spec fn activate(child: nat) -> Event {
        Event { child, call: Call::Activate }
    }

    pub open spec fn step(child: nat, running: bool) -> Event {
        Event { child, call: Call::Step { running } }
    }

    pub open spec fn deactivate(child: nat) -> Event {
        Event { child, call: Call::Deactivate }
    }
}

/// The child that the last activation or deactivation of `journal` left
/// active, if any.
pub open spec fn active_child(journal: Seq<Event>) -> Option<nat>
    decreases journal.len(),
{
    if journal.len() == 0 {
        None
    } else {
        match journal.last().call {
            Call::Activate => Some(journal.last().child),
            Call::Deactivate => None,
            Call::Step { .. } => active_child(journal.drop_last()),
        }
    }
}

/// Whether the lifecycle allows `event` after `journal`.
pub open spec fn permitted(journal: Seq<Event>, event: Event) -> bool {
    match event.call {
        Call::Activate => active_child(journal) is None,
        _ => active_child(journal) == Some(event.child),
    }
}

/// Every event of `journal` was permitted when it was made.
pub open spec fn lawful(journal: Seq<Event>) -> bool
    decreases journal.len(),
{
    journal.len() == 0 || (lawful(journal.drop_last()) && permitted(
        journal.drop_last(),
        journal.last(),
    ))
}

/// The activations and deactivations of `journal`, without its steps.
pub open spec fn lifecycle(journal: Seq<Event>) -> Seq<Event>
    decreases journal.len(),
{
    if journal.len() == 0 {
        Seq::empty()
    } else if journal.last().call is Step {
        lifecycle(journal.drop_last())
    } else {
        lifecycle(journal.drop_last()).push(journal.last())
    }
}

/// The lifecycle of `count` children that were visited in order, each
/// activated once and deactivated once before the next was activated.
pub open spec fn visits(count: nat) -> Seq<Event>
    decreases count,
{
    if count == 0 {
        Seq::empty()
    } else {
        let child = (count - 1) as nat;
        visits(child).push(Event::activate(child)).push(Event::deactivate(child))
    }
}

/// The number of activations in `journal`.
pub open spec fn activations(journal: Seq<Event>) -> nat
    decreases journal.len(),
{
    if journal.len() == 0 {
        0
    } else if journal.last().call is Activate {
        activations(journal.drop_last()) + 1
    } else {
        activations(journal.drop_last())
    }
}

/// What one more event does to a journal.
pub proof fn lemma_push(journal: Seq<Event>, event: Event)
    ensures
        lawful(journal.push(event)) == (lawful(journal) && permitted(journal, event)),
        activations(journal.push(event)) == if event.call is Activate {
            activations(journal) + 1
        } else {
            activations(journal)
        },
        active_child(journal.push(event)) == match event.call {
            Call::Activate => Some(event.child),
            Call::Deactivate => None,
            Call::Step { .. } => active_child(journal),
        },
        lifecycle(journal.push(event)) == if event.call is Step {
            lifecycle(journal)
        } else {
            lifecycle(journal).push(event)
        },
{
    assert(journal.push(event).drop_last() =~= journal);
    assert(journal.push(event).last() == event);
}

/// An event that is appended to a journal is appended to each of its tails.
pub proof fn lemma_push_skip(journal: Seq<Event>, event: Event, from: nat)
    requires
        from <= journal.len(),
    ensures
        journal.push(event).skip(from as int) == journal.skip(from as int).push(event),
{
    assert(journal.push(event).skip(from as int) =~= journal.skip(from as int).push(event));
}

/// Where each call stands in the lifecycle of children visited in order:
/// child `child` is activated at place `2 * child` and deactivated at the
/// next place, so after the child before it and before the child after it.
pub proof fn lemma_visits_places(count: nat, child: nat)
    requires
        child < count,
    ensures
        visits(count).len() == 2 * count,
        visits(count)[2 * (child as int)] == Event::activate(child),
        visits(count)[2 * (child as int) + 1] == Event::deactivate(child),
    decreases count,
{
    lemma_visits_len(count);
    if child + 1 < count {
        lemma_visits_places((count - 1) as nat, child);
    } else {
        lemma_visits_len((count - 1) as nat);
    }
}

/// Children visited in order leave two events each.
pub proof fn lemma_visits_len(count: nat)
    ensures
        visits(count).len() == 2 * count,
    decreases count,
{
    if count > 0 {
        lemma_visits_len((count - 1) as nat);
    }
}

/// A lawful journal that is not empty starts with an activation.
pub proof fn lemma_first_call_is_activation(journal: Seq<Event>)
    requires
        lawful(journal),
        journal.len() > 0,
    ensures
        journal[0].call is Activate,
        activations(journal) >= 1,
    decreases journal.len(),
{
    if journal.len() > 1 {
        lemma_first_call_is_activation(journal.drop_last());
    }
}

/// A lawful journal with one activation and an active child starts with the
/// activation of that child.
pub proof fn lemma_one_activation_is_first(journal: Seq<Event>, child: nat)
    requires
        lawful(journal),
        activations(journal) == 1,
        active_child(journal) == Some(child),
    ensures
        journal.len() > 0,
        journal[0] == Event::activate(child),
    decreases journal.len(),
{
    if journal.len() > 0 {
        if journal.last().call is Activate {
            if journal.len() > 1 {
                lemma_first_call_is_activation(journal.drop_last());
            }
        } else {
            lemma_one_activation_is_first(journal.drop_last(), child);
        }
    }
}

/// In a lawful journal no child is active when a child is activated: the
/// child that ran before it was deactivated first.
pub proof fn law_activation_finds_none_active(journal: Seq<Event>, at: int)
    requires
        lawful(journal),
        0 <= at < journal.len(),
        journal[at].call is Activate,
    ensures
        active_child(journal.take(at)) is None,
    decreases journal.len(),
{
    if at == journal.len() - 1 {
        assert(journal.take(at) =~= journal.drop_last());
    } else {
        law_activation_finds_none_active(journal.drop_last(), at);
        assert(journal.drop_last().take(at) =~= journal.take(at));
    }
}

/// In a lawful journal a child is stepped or deactivated only while it is the
/// active child, so only after its own activation.
pub proof fn law_calls_reach_the_active_child(journal: Seq<Event>, at: int)
    requires
        lawful(journal),
        0 <= at < journal.len(),
        !(journal[at].call is Activate),
    ensures
        active_child(journal.take(at)) == Some(journal[at].child),
    decreases journal.len(),
{
    if at == journal.len() - 1 {
        assert(journal.take(at) =~= journal.drop_last());
    } else {
        law_calls_reach_the_active_child(journal.drop_last(), at);
        assert(journal.drop_last().take(at) =~= journal.take(at));
    }
}

} // verus!
