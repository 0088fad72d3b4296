//! `Conditional` runs one of two branches, whichever its guard picks for the
//! tick.
use crate::buffer::{extends, lemma_extends_refl, lemma_extends_trans, pending};
use crate::element::{Child, Hand, Journal, LevelPlanElement};
use crate::guard::{Guard, Predicate};
use crate::journal::{active_child, lawful, lemma_push, Event};
use bevy::prelude::{Commands, Entity};
use vstd::prelude::*;

verus! {

/// What a `Conditional` is, seen from outside. In its journal the branch
/// taken while the guard holds is child `0`, the other branch child `1`.
pub struct ConditionalView {
    /// The first branch is active.
    pub if_active: bool,
    /// The second branch is active.
    pub else_active: bool,
    /// There is a second branch.
    pub has_else: bool,
    /// Every call that the node has made on its branches, oldest first.
    pub journal: Seq<Event>,
}

impl ConditionalView {
    /// The branch that the flags call active, if any.
    pub open spec fn active_branch(self) -> Option<nat> {
        if self.if_active {
            Some(0)
        } else if self.else_active {
            Some(1)
        } else {
            None
        }
    }

    /// The flags and the journal agree, and the journal follows the
    /// lifecycle: at most one branch is active, it is the branch that was
    /// activated last and not deactivated since, and a second branch is
    /// active only where there is one.
    pub open spec fn wf(self) -> bool {
        &&& !(self.if_active && self.else_active)
        &&& self.else_active ==> self.has_else
        &&& lawful(self.journal)
        &&& active_child(self.journal) == self.active_branch()
    }

    /// The journal once the branch that loses the guard, if it was active,
    /// has been deactivated.
    pub open spec fn after_leaving(self, holds: bool) -> Seq<Event> {
        if holds && self.else_active && self.has_else {
            self.journal.push(Event::deactivate(1))
        } else if !holds && self.if_active {
            self.journal.push(Event::deactivate(0))
        } else {
            self.journal
        }
    }

    /// The journal once the branch that wins the guard, if it was not
    /// active, has been activated after that.
    pub open spec fn after_entering(self, holds: bool) -> Seq<Event> {
        if holds && !self.if_active {
            self.after_leaving(holds).push(Event::activate(0))
        } else if !holds && self.has_else && !self.else_active {
            self.after_leaving(holds).push(Event::activate(1))
        } else {
            self.after_leaving(holds)
        }
    }

    /// The node after a step in which the guard answered `holds` and the
    /// branch that was stepped, if one was, answered `answer`. The branch
    /// that loses is deactivated first, then the branch that wins is
    /// activated, then it is stepped. Without a second branch, a guard that
    /// does not hold leaves nothing to step.
    pub open spec fn switched(self, holds: bool, answer: bool) -> ConditionalView {
        if holds {
            ConditionalView {
                if_active: true,
                else_active: false,
                journal: self.after_entering(true).push(Event::step(0, answer)),
                ..self
            }
        } else if self.has_else {
            ConditionalView {
                if_active: false,
                else_active: true,
                journal: self.after_entering(false).push(Event::step(1, answer)),
                ..self
            }
        } else {
            ConditionalView { if_active: false, journal: self.after_leaving(false), ..self }
        }
    }

    /// What the step answers: the answer of the branch that it stepped, and
    /// `false` where there was none to step.
    pub open spec fn reports(self, holds: bool, answer: bool) -> bool {
        (holds || self.has_else) && answer
    }

    /// The node after `deactivate`: whichever branch was active is
    /// deactivated.
    pub open spec fn deactivated(self) -> ConditionalView {
        let left = if self.if_active {
            self.journal.push(Event::deactivate(0))
        } else {
            self.journal
        };
        ConditionalView {
            if_active: false,
            else_active: false,
            journal: if self.else_active && self.has_else {
                left.push(Event::deactivate(1))
            } else {
                left
            },
            ..self
        }
    }

    /// A step keeps the node well formed, whatever the guard and the branch
    /// answer. So at every tick at most one branch is active, a switch
    /// deactivates the branch that loses before it activates the branch that
    /// wins, and a branch is stepped only after it was activated.
    pub proof fn law_switch_keeps_wf(self, holds: bool, answer: bool)
        requires
            self.wf(),
        ensures
            self.switched(holds, answer).wf(),
            holds || self.has_else ==> active_child(self.after_entering(holds)) == Some(
                if holds {
                    0nat
                } else {
                    1nat
                },
            ),
    {
        let left = self.after_leaving(holds);
        if holds {
            if self.else_active && self.has_else {
                lemma_push(self.journal, Event::deactivate(1));
            }
            if !self.if_active {
                lemma_push(left, Event::activate(0));
            }
            lemma_push(self.after_entering(true), Event::step(0, answer));
        } else {
            if self.if_active {
                lemma_push(self.journal, Event::deactivate(0));
            }
            if self.has_else {
                if !self.else_active {
                    lemma_push(left, Event::activate(1));
                }
                lemma_push(self.after_entering(false), Event::step(1, answer));
            }
        }
    }

    /// Deactivation keeps the node well formed and leaves no branch active.
    pub proof fn law_deactivation_leaves_none(self)
        requires
            self.wf(),
        ensures
            self.deactivated().wf(),
            active_child(self.deactivated().journal) is None,
    {
        if self.if_active {
            lemma_push(self.journal, Event::deactivate(0));
        }
        if self.else_active {
            lemma_push(self.journal, Event::deactivate(1));
        }
    }
}

/// A guard, a branch for the ticks on which the guard holds, and possibly a
/// branch for the ticks on which it does not. The node remembers which
/// branch is active. On each step it asks the guard, leaves the branch that
/// lost the guard if that one was active, enters the branch that won it if
/// that one was not, and steps it. Without a second branch, a guard that
/// does not hold ends the node.
#[verifier::reject_recursive_types(T)]
pub struct Conditional<T> {
    condition: Box<dyn Guard<T>>,
    if_branch: Child<T>,
    if_active: bool,
    else_branch: Option<Child<T>>,
    else_active: bool,
    journal: Journal<T>,
}

impl<T> View for Conditional<T> {
    type V = ConditionalView;

    closed spec fn view(&self) -> ConditionalView {
        ConditionalView {
            if_active: self.if_active,
            else_active: self.else_active,
            has_else: self.else_branch is Some,
            journal: self.journal.events(),
        }
    }
}

impl<T: 'static> Conditional<T> {
    /// A node with one branch. The guard must be callable on every snapshot.
    pub fn new(
        condition: impl Fn(&T) -> bool + Send + Sync + 'static,
        if_branch: impl LevelPlanElement<T> + 'static,
    ) -> (node: Self)
        requires
            forall|context: &T| call_requires(condition, (context,)),
            if_branch.ready(),
        ensures
            node@ == (ConditionalView {
                if_active: false,
                else_active: false,
                has_else: false,
                journal: Seq::empty(),
            }),
            node@.wf(),
            node.log().hands() == Seq::<Hand<T>>::empty(),
            node.if_branch() == Child::<T>::holding(if_branch),
            node.else_branch() == None::<Child<T>>,
            forall|context: &T, answer: bool|
                node.guard_says(context, answer) == call_ensures(condition, (context,), answer),
    {
        Self {
            condition: Box::new(Predicate::new(condition)),
            if_branch: Child::new(if_branch),
            if_active: false,
            else_branch: None,
            else_active: false,
            journal: Journal::new(),
        }
    }

    /// A node with two branches. The guard must be callable on every
    /// snapshot.
    pub fn if_else(
        condition: impl Fn(&T) -> bool + Send + Sync + 'static,
        if_branch: impl LevelPlanElement<T> + 'static,
        else_branch: impl LevelPlanElement<T> + 'static,
    ) -> (node: Self)
        requires
            forall|context: &T| call_requires(condition, (context,)),
            if_branch.ready(),
            else_branch.ready(),
        ensures
            node@ == (ConditionalView {
                if_active: false,
                else_active: false,
                has_else: true,
                journal: Seq::empty(),
            }),
            node@.wf(),
            node.log().hands() == Seq::<Hand<T>>::empty(),
            node.if_branch() == Child::<T>::holding(if_branch),
            node.else_branch() == Some(Child::<T>::holding(else_branch)),
            forall|context: &T, answer: bool|
                node.guard_says(context, answer) == call_ensures(condition, (context,), answer),
    {
        Self {
            condition: Box::new(Predicate::new(condition)),
            if_branch: Child::new(if_branch),
            if_active: false,
            else_branch: Some(Child::new(else_branch)),
            else_active: false,
            journal: Journal::new(),
        }
    }
}

impl<T> Conditional<T> {
    /// The branch for the ticks on which the guard holds.
    pub closed spec fn if_branch(&self) -> Child<T> {
        self.if_branch
    }

    /// The branch for the ticks on which the guard does not hold, if any.
    pub closed spec fn else_branch(&self) -> Option<Child<T>> {
        self.else_branch
    }

    /// The children: the first branch at place `0` and the second, if there
    /// is one, at place `1`.
    pub open spec fn children(&self) -> Seq<Child<T>> {
        match self.else_branch() {
            Some(second) => seq![self.if_branch(), second],
            None => seq![self.if_branch()],
        }
    }

    /// The journal: the calls of the view, with what each handed on.
    pub closed spec fn log(&self) -> Journal<T> {
        self.journal
    }

    /// The view says whether there is a second branch, and shows the calls
    /// of the journal.
    pub proof fn lemma_view(&self)
        ensures
            self@.has_else == (self.else_branch() is Some),
            self@.journal == self.log().events(),
    {
    }

    /// A step in which the guard answered `holds` has left alone the branch
    /// that it had no call for: the branch that lost the guard, where that
    /// one was not active.
    pub open spec fn spares(&self, before: &Self, holds: bool) -> bool {
        &&& holds && !(before@.else_active && before@.has_else) ==> self.else_branch()
            == before.else_branch()
        &&& !holds && !before@.if_active ==> self.if_branch() == before.if_branch()
    }

    /// Whether the guard may give `answer` on `context`.
    pub closed spec fn guard_says(&self, context: &T, answer: bool) -> bool {
        self.condition.says(context, answer)
    }

    /// One step, where `holds` is what the guard answered for this tick.
    pub fn step_when(
        &mut self,
        holds: bool,
        level: Entity,
        commands: &mut Commands,
        context: &mut T,
    ) -> (running: bool)
        ensures
            *final(context) == *old(context),
            extends(pending(*final(commands)), pending(*old(commands))),
            forall|snapshot: &T, answer: bool|
                final(self).guard_says(snapshot, answer) == old(self).guard_says(snapshot, answer),
            final(self)@ == old(self)@.switched(holds, running),
            running == old(self)@.reports(holds, running),
            final(self).spares(old(self), holds),
            final(self).log().continues(
                &old(self).log(),
                old(self).children(),
                final(self).children(),
                level,
                pending(*old(commands)),
                pending(*final(commands)),
            ),
    {
        let ghost before = pending(*commands);
        let ghost first = self.children();
        proof {
            lemma_extends_refl(before);
            self.journal.lemma_continues_itself(first, level, before);
        }
        if holds {
            if self.else_active {
                match &mut self.else_branch {
                    Some(else_branch) => {
                        else_branch.deactivate(
                            Ghost(1),
                            &mut self.journal,
                            level,
                            commands,
                            context,
                        );
                    },
                    None => {},
                }
                self.else_active = false;
            }
            let ghost left = pending(*commands);
            let ghost second = self.children();
            proof {
                if old(self).else_active && old(self).else_branch is Some {
                    assert(first.update(1, self.else_branch.unwrap()) =~= second);
                }
            }
            if !self.if_active {
                self.if_branch.activate(Ghost(0), &mut self.journal, level, commands, context);
                proof {
                    lemma_extends_trans(pending(*commands), left, before);
                }
                self.if_active = true;
            }
            let ghost entered = pending(*commands);
            let ghost third = self.children();
            proof {
                assert(second.update(0, self.if_branch) =~= third);
            }
            let running = self.if_branch.step(
                Ghost(0),
                &mut self.journal,
                level,
                commands,
                context,
            );
            proof {
                lemma_extends_trans(pending(*commands), entered, before);
                assert(third.update(0, self.if_branch) =~= self.children());
            }
            running
        } else {
            if self.if_active {
                self.if_branch.deactivate(Ghost(0), &mut self.journal, level, commands, context);
                self.if_active = false;
            }
            let ghost left = pending(*commands);
            let ghost second = self.children();
            proof {
                assert(first.update(0, self.if_branch) =~= second);
            }
            let running = match &mut self.else_branch {
                Some(else_branch) => {
                    if !self.else_active {
                        else_branch.activate(
                            Ghost(1),
                            &mut self.journal,
                            level,
                            commands,
                            context,
                        );
                        proof {
                            lemma_extends_trans(pending(*commands), left, before);
                        }
                        self.else_active = true;
                    }
                    let ghost entered = pending(*commands);
                    let running = else_branch.step(
                        Ghost(1),
                        &mut self.journal,
                        level,
                        commands,
                        context,
                    );
                    proof {
                        lemma_extends_trans(pending(*commands), entered, before);
                    }
                    running
                },
                None => false,
            };
            proof {
                if self.else_branch is Some {
                    let last = self.else_branch.unwrap();
                    assert(second.update(1, last) =~= self.children());
                    assert forall|mid: Child<T>| #[trigger] second.update(1, mid).update(1, last)
                        =~= self.children() by {}
                }
            }
            running
        }
    }
}

impl<T> LevelPlanElement<T> for Conditional<T> {
    /// Asks the guard, then steps as `step_when` says for its answer.
    fn step(&mut self, level: Entity, commands: &mut Commands, context: &mut T) -> (running: bool)
        ensures
            forall|snapshot: &T, answer: bool|
                final(self).guard_says(snapshot, answer) == old(self).guard_says(snapshot, answer),
            ({
                ||| old(self).guard_says(&*old(context), true) && final(self)@ == old(
                    self,
                )@.switched(true, running) && running == old(self)@.reports(true, running)
                    && final(self).spares(old(self), true)
                ||| old(self).guard_says(&*old(context), false) && final(self)@ == old(
                    self,
                )@.switched(false, running) && running == old(self)@.reports(false, running)
                    && final(self).spares(old(self), false)
            }),
            final(self).log().continues(
                &old(self).log(),
                old(self).children(),
                final(self).children(),
                level,
                pending(*old(commands)),
                pending(*final(commands)),
            ),
    {
        let holds = self.condition.test(context);
        self.step_when(holds, level, commands, context)
    }

    /// Activation by itself enters no branch: the first step does.
    fn activate(&mut self, level: Entity, commands: &mut Commands, context: &mut T)
        ensures
            forall|snapshot: &T, answer: bool|
                final(self).guard_says(snapshot, answer) == old(self).guard_says(snapshot, answer),
            final(self)@ == old(self)@,
            final(self).if_branch() == old(self).if_branch(),
            final(self).else_branch() == old(self).else_branch(),
            final(self).log() == old(self).log(),
            pending(*final(commands)) == pending(*old(commands)),
    {
        proof {
            lemma_extends_refl(pending(*commands));
        }
    }

    fn deactivate(&mut self, level: Entity, commands: &mut Commands, context: &mut T)
        ensures
            forall|snapshot: &T, answer: bool|
                final(self).guard_says(snapshot, answer) == old(self).guard_says(snapshot, answer),
            final(self)@ == old(self)@.deactivated(),
            !old(self)@.if_active ==> final(self).if_branch() == old(self).if_branch(),
            !(old(self)@.else_active && old(self)@.has_else) ==> final(self).else_branch() == old(
                self,
            ).else_branch(),
            final(self).log().continues(
                &old(self).log(),
                old(self).children(),
                final(self).children(),
                level,
                pending(*old(commands)),
                pending(*final(commands)),
            ),
    {
        let ghost before = pending(*commands);
        let ghost first = self.children();
        proof {
            lemma_extends_refl(before);
            self.journal.lemma_continues_itself(first, level, before);
        }
        if self.if_active {
            self.if_branch.deactivate(Ghost(0), &mut self.journal, level, commands, context);
            self.if_active = false;
        }
        let ghost left = pending(*commands);
        let ghost second = self.children();
        proof {
            assert(first.update(0, self.if_branch) =~= second);
        }
        if self.else_active {
            match &mut self.else_branch {
                Some(else_branch) => {
                    else_branch.deactivate(
                        Ghost(1),
                        &mut self.journal,
                        level,
                        commands,
                        context,
                    );
                    proof {
                        lemma_extends_trans(pending(*commands), left, before);
                    }
                },
                None => {},
            }
            self.else_active = false;
        }
        proof {
            if self.else_branch is Some {
                assert(second.update(1, self.else_branch.unwrap()) =~= self.children());
            }
        }
    }
}

} // verus!
