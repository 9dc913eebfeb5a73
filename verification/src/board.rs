use vstd::prelude::*;

verus! {

/// What adding a job to a board did.
#[derive(Debug, Clone, Copy, PartialEq, Eq, Structural)]
pub enum JobAddState {
    /// The job was added to the board.
    Added,
    /// The job was already on the board, and was updated.
    Updated,
    /// The job was added, as a duplicate of one already on the board.
    Duplicated,
    /// The job was already on the board as it is, so nothing changed.
    Unchanged,
}

/// The jobs one side of a connection holds, sent to the other to bring the
/// two boards into step.
#[derive(Debug)]
pub struct SyncState<J> {
    jobs: Vec<J>,
}

impl<J> SyncState<J> {
    pub fn new(jobs: Vec<J>) -> (r: Self)
        ensures
            r.jobs_spec() == jobs@,
    {
        SyncState { jobs }
    }

    pub closed spec fn jobs_spec(&self) -> Seq<J> {
        self.jobs@
    }

    pub fn jobs(&self) -> (r: &Vec<J>)
        ensures
            r@ == self.jobs_spec(),
    {
        &self.jobs
    }
}

/// A reference to a piece of work handed to the portal.
#[derive(Debug)]
pub struct Handle {
    pub id: String,
}

} // verus!
