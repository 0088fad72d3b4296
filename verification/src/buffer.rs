//! The deferred mutation buffer, as far as plan elements use it.
//!
//! Elements never change the world. They queue entries in a `Commands`
//! buffer, and the driver commits the buffer once every plan has been
//! stepped. This module gives the buffer a model, the sequence of entries
//! that wait in it, and the few operations on it that the library performs.
use bevy::prelude::{Commands, Entity};
use vstd::prelude::*;

verus! {

/// bevy's `Entity`, the handle on an object of the world. The library takes
/// it from its caller and passes it on; it never looks inside.
#[verifier::external_type_specification]
#[verifier::external_body]
pub struct ExEntity(Entity);

/// bevy's `Commands`, the deferred mutation buffer. All that the library
/// knows of a buffer is what `pending` says of it.
#[verifier::external_type_specification]
#[verifier::external_body]
pub struct ExCommands(Commands);

/// What one entry of the buffer asks for once the buffer is committed.
pub enum Intent {
    /// Attach a component to the target.
    Attach(Entity),
    /// Detach the component of one type from the target.
    Detach(Entity),
    /// Destroy the target.
    Despawn(Entity),
    /// Anything else that an element may have queued, such as a spawn.
    Other,
}

/// The entries that wait in `commands`, oldest first. A buffer shares its
/// queue with its clones; the library never clones one, and the contracts
/// below speak of a buffer that is reached through one handle only.
pub uninterp spec fn pending(commands: Commands) -> Seq<Intent>;

/// `later` holds everything that `earlier` held, in the same order, and
/// possibly more behind it.
pub open spec fn extends(later: Seq<Intent>, earlier: Seq<Intent>) -> bool {
    earlier.is_prefix_of(later)
}

/// Extension is reflexive.
pub proof fn lemma_extends_refl(entries: Seq<Intent>)
    ensures
        extends(entries, entries),
{
    assert(entries.subrange(0, entries.len() as int) =~= entries);
}

/// Extension is transitive.
pub proof fn lemma_extends_trans(last: Seq<Intent>, middle: Seq<Intent>, first: Seq<Intent>)
    requires
        extends(last, middle),
        extends(middle, first),
    ensures
        extends(last, first),
{
    assert(last.subrange(0, first.len() as int) =~= middle.subrange(0, first.len() as int));
}

/// One more entry extends a buffer.
pub proof fn lemma_extends_push(entries: Seq<Intent>, entry: Intent)
    ensures
        extends(entries.push(entry), entries),
{
    assert(entries.push(entry).subrange(0, entries.len() as int) =~= entries);
}

/// `Commands::insert_one`: queues, behind the entries that wait already, one
/// entry that attaches `component` to `target`.
#[verifier::external_body]
pub(crate) fn attach<C: Send + Sync + 'static>(
    commands: &mut Commands,
    target: Entity,
    component: C,
)
    ensures
        pending(*final(commands)) == pending(*old(commands)).push(Intent::Attach(target)),
{
    commands.insert_one(target, component);
}

/// `Commands::remove_one`: queues, behind the entries that wait already, one
/// entry that detaches the component of type `C` from `target`.
#[verifier::external_body]
pub(crate) fn detach<C: Send + Sync + 'static>(commands: &mut Commands, target: Entity)
    ensures
        pending(*final(commands)) == pending(*old(commands)).push(Intent::Detach(target)),
{
    commands.remove_one::<C>(target);
}

/// `Commands::despawn`: queues, behind the entries that wait already, one
/// entry that destroys `target`.
#[verifier::external_body]
pub(crate) fn despawn(commands: &mut Commands, target: Entity)
    ensures
        pending(*final(commands)) == pending(*old(commands)).push(Intent::Despawn(target)),
{
    commands.despawn(target);
}

} // verus!
