//! Synchronization groups: the serialization domain of object sets.
//!
//! A group wraps one timeline semaphore created by its owning manager. All
//! objects of the sets bound to a group are ordered against that semaphore
//! as one unit. A group's identity is the pair of its semaphore handle and
//! its owning manager's id; equality compares exactly that pair, which
//! gives the stable total order needed when several groups must be acquired
//! together.
use vstd::prelude::*;

verus! {

/// A handle to one serialization domain, backed by a timeline semaphore.
#[derive(Clone, Copy, PartialEq, Eq, Structural, Debug)]
pub struct SynchronizationGroup {
    manager_uuid: u64,
    semaphore: u64,
}

impl SynchronizationGroup {
    /// The id of the manager that created this group.
    pub closed spec fn manager_id(self) -> u64 {
        self.manager_uuid
    }

    /// The device handle of the group's timeline semaphore.
    pub closed spec fn semaphore_id(self) -> u64 {
        self.semaphore
    }

    /// Only the manager builds groups, around a semaphore it created.
    pub(crate) fn new(manager_uuid: u64, semaphore: u64) -> (r: SynchronizationGroup)
        ensures
            r.manager_id() == manager_uuid,
            r.semaphore_id() == semaphore,
    {
        SynchronizationGroup { manager_uuid, semaphore }
    }

    /// The id of the owning manager, used to check that a group is only
    /// ever bound to sets of that manager.
    pub fn get_manager_uuid(&self) -> (r: u64)
        ensures
            r == self.manager_id(),
    {
        self.manager_uuid
    }

    /// The handle of the timeline semaphore backing this group.
    pub fn get_semaphore_handle(&self) -> (r: u64)
        ensures
            r == self.semaphore_id(),
    {
        self.semaphore
    }
}

/// A group is exactly its identity: two groups are equal if and only if
/// they name the same semaphore under the same manager. In particular every
/// group equals itself.
pub proof fn lemma_group_identity(a: SynchronizationGroup, b: SynchronizationGroup)
    ensures
        (a == b) <==> (a.manager_id() == b.manager_id() && a.semaphore_id() == b.semaphore_id()),
{
}

/// Groups whose semaphores differ are never equal, whatever their manager.
pub proof fn lemma_distinct_semaphores_distinct_groups(a: SynchronizationGroup, b: SynchronizationGroup)
    requires
        a.semaphore_id() != b.semaphore_id(),
    ensures
        a != b,
{
}

/// Two groups created one after the other are never equal: the earlier
/// group's semaphore lies below the handle counter from which the later
/// group's semaphore was drawn, as the manager's creation contract states.
pub proof fn lemma_groups_created_apart_are_distinct(
    a: SynchronizationGroup,
    b: SynchronizationGroup,
    counter: u64,
)
    requires
        a.semaphore_id() < counter,
        counter <= b.semaphore_id(),
    ensures
        a != b,
{
    lemma_distinct_semaphores_distinct_groups(a, b);
}

} // verus!
