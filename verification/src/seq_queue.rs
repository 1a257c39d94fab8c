//! The completion state shared by the two ends of a sequential queue, and
//! the queue's errors.
//!
//! The sending side reports how it ended: success, an explicit error, or an
//! unknown error (a slot dropped without being filled).  The receiving side
//! reads the outcome once every item has been received.
use vstd::prelude::*;

verus! {

/// The sender reported no particular error, but did not succeed.
#[derive(Debug, Copy, Clone, PartialEq, Eq, Structural)]
pub struct UnknownError;

impl UnknownError {
    /// A human-readable description of the error.
    pub fn message(self) -> (s: &'static str)
        ensures
            s == "unspecified error in sender for sequential queue",
    {
        "unspecified error in sender for sequential queue"
    }
}

/// How the sending side of a queue ended: `None` while unknown, then
/// success, an unknown error (`Err(None)`) or an explicit error.
pub struct FinalSuccess<E> {
    state: Option<Result<(), Option<E>>>,
}

/// One report of how the sending side ended.
pub enum Completion<E> {
    Success,
    UnknownError,
    Error(E),
}

/// The state after a report.
pub open spec fn spec_record<E>(state: Option<Result<(), Option<E>>>, c: Completion<E>) -> Option<
    Result<(), Option<E>>,
> {
    match c {
        Completion::Success => if state is Some {
            state
        } else {
            Some(Ok(()))
        },
        Completion::UnknownError => if state matches Some(Err(Some(_))) {
            state
        } else {
            Some(Err(None))
        },
        Completion::Error(e) => if state matches Some(Err(Some(_))) {
            state
        } else {
            Some(Err(Some(e)))
        },
    }
}

/// The state after a sequence of reports, starting from nothing.
pub open spec fn spec_record_all<E>(reports: Seq<Completion<E>>) -> Option<Result<(), Option<E>>>
    decreases reports.len(),
{
    if reports.len() == 0 {
        None
    } else {
        spec_record(spec_record_all(reports.drop_last()), reports.last())
    }
}

/// The outcome a receiver sees after a sequence of reports: the first
/// explicit error if there is one, else an unknown error if one was
/// reported, else success if it was reported, else an unknown error.
pub open spec fn spec_outcome<E>(reports: Seq<Completion<E>>) -> Result<(), Option<E>> {
    if exists|i: int| 0 <= i < reports.len() && reports[i] is Error {
        let i = choose|i: int|
            0 <= i < reports.len() && reports[i] is Error && forall|j: int|
                0 <= j < i ==> !(reports[j] is Error);
        Err(Some(reports[i]->Error_0))
    } else if exists|i: int| 0 <= i < reports.len() && reports[i] is UnknownError {
        Err(None)
    } else if exists|i: int| 0 <= i < reports.len() && reports[i] is Success {
        Ok(())
    } else {
        Err(None)
    }
}

impl<E> View for FinalSuccess<E> {
    type V = Option<Result<(), Option<E>>>;

    closed spec fn view(&self) -> Self::V {
        self.state
    }
}

impl<E> FinalSuccess<E> {
    /// Nothing reported yet.
    pub fn new() -> (s: Self)
        ensures
            s@ is None,
    {
        FinalSuccess { state: None }
    }

    /// Reports success; ignored once anything was reported.
    pub fn make_success(&mut self)
        ensures
            final(self)@ == spec_record(old(self)@, Completion::Success),
    {
        if self.state.is_none() {
            self.state = Some(Ok(()));
        }
    }

    /// Reports an unknown error; ignored once an explicit error was reported.
    pub fn make_unknown_error(&mut self)
        ensures
            final(self)@ == spec_record(old(self)@, Completion::UnknownError),
    {
        let keep = match &self.state {
            Some(Err(Some(_))) => true,
            _ => false,
        };
        if !keep {
            self.state = Some(Err(None));
        }
    }

    /// Reports an explicit error; ignored once an explicit error was reported.
    pub fn make_error(&mut self, error: E)
        ensures
            final(self)@ == spec_record(old(self)@, Completion::Error(error)),
    {
        let keep = match &self.state {
            Some(Err(Some(_))) => true,
            _ => false,
        };
        if !keep {
            self.state = Some(Err(Some(error)));
        }
    }

    /// Takes the outcome: what was reported, or an unknown error if nothing was.
    pub fn get_result(&mut self) -> (r: Result<(), Option<E>>)
        ensures
            r == match old(self)@ {
                Some(x) => x,
                None => Err(None),
            },
            final(self)@ is None,
    {
        let mut state = None;
        std::mem::swap(&mut state, &mut self.state);
        match state {
            Some(x) => x,
            None => Err(None),
        }
    }
}

/// The outcome of a queue is decided by its reports: the first explicit
/// error wins, an unknown error overrides success, and with no report at
/// all the outcome is an unknown error.
pub proof fn lemma_outcome_of_reports<E>(reports: Seq<Completion<E>>)
    ensures
        match spec_record_all(reports) {
            Some(x) => x,
            None => Err(None),
        } == spec_outcome(reports),
    decreases reports.len(),
{
    if reports.len() > 0 {
        let init = reports.drop_last();
        lemma_outcome_of_reports(init);
        let n = reports.len() - 1;
        if exists|i: int| 0 <= i < init.len() && init[i] is Error {
            let i = choose|i: int|
                0 <= i < init.len() && init[i] is Error && forall|j: int|
                    0 <= j < i ==> !(init[j] is Error);
            lemma_first_error_exists(init);
            lemma_first_error_exists(reports);
            let k = choose|k: int|
                0 <= k < reports.len() && reports[k] is Error && forall|j: int|
                    0 <= j < k ==> !(reports[j] is Error);
            assert(reports[i] is Error);
            if k < i {
                assert(init[k] is Error);
            }
            if i < k {
                assert(reports[i] is Error);
            }
            assert(k == i);
        } else if reports.last() is Error {
            lemma_first_error_exists(reports);
            let k = choose|k: int|
                0 <= k < reports.len() && reports[k] is Error && forall|j: int|
                    0 <= j < k ==> !(reports[j] is Error);
            if k < n {
                assert(init[k] is Error);
            }
            assert(k == n);
            if exists|i: int| 0 <= i < init.len() && init[i] is UnknownError {
            } else if exists|i: int| 0 <= i < init.len() && init[i] is Success {
            } else {
            }
        } else {
            assert forall|i: int| 0 <= i < reports.len() implies !(reports[i] is Error) by {
                if i < n {
                    assert(init[i] == reports[i]);
                }
            }
            if reports.last() is UnknownError {
                assert(reports[n] is UnknownError);
            } else {
                if exists|i: int| 0 <= i < init.len() && init[i] is UnknownError {
                    let i = choose|i: int| 0 <= i < init.len() && init[i] is UnknownError;
                    assert(reports[i] is UnknownError);
                } else {
                    assert forall|i: int| 0 <= i < reports.len() implies !(reports[i] is UnknownError) by {
                        if i < n {
                            assert(init[i] == reports[i]);
                        }
                    }
                    if exists|i: int| 0 <= i < init.len() && init[i] is Success {
                        let i = choose|i: int| 0 <= i < init.len() && init[i] is Success;
                        assert(reports[i] is Success);
                    } else {
                        assert(reports[n] is Success);
                    }
                }
            }
        }
    }
}

/// If any report is an explicit error, there is a first one.
proof fn lemma_first_error_exists<E>(reports: Seq<Completion<E>>)
    requires
        exists|i: int| 0 <= i < reports.len() && reports[i] is Error,
    ensures
        exists|k: int|
            0 <= k < reports.len() && reports[k] is Error && forall|j: int|
                0 <= j < k ==> !(reports[j] is Error),
    decreases reports.len(),
{
    let init = reports.drop_last();
    if exists|i: int| 0 <= i < init.len() && init[i] is Error {
        lemma_first_error_exists(init);
        let k = choose|k: int|
            0 <= k < init.len() && init[k] is Error && forall|j: int|
                0 <= j < k ==> !(init[j] is Error);
        assert(reports[k] is Error);
        assert forall|j: int| 0 <= j < k implies !(reports[j] is Error) by {
            assert(init[j] == reports[j]);
        }
    } else {
        let n = reports.len() - 1;
        assert forall|j: int| 0 <= j < n implies !(reports[j] is Error) by {
            assert(init[j] == reports[j]);
        }
        let i = choose|i: int| 0 <= i < reports.len() && reports[i] is Error;
        if i < n {
            assert(init[i] is Error);
        }
        assert(reports[n] is Error);
    }
}

/// Why receiving from a sequential queue failed.
#[derive(Debug, Copy, Clone, PartialEq, Eq, Structural)]
pub enum RecvError {
    /// The queue is empty and the sender is gone.
    Finished,
    /// A slot was dropped without being filled.
    ItemRecvError,
}

impl RecvError {
    /// A human-readable description of the error.
    pub fn message(self) -> (s: &'static str)
        ensures
            s@ == match self {
                RecvError::Finished => "receiving on an empty and disconnected channel"@,
                RecvError::ItemRecvError => "item in sequential queue was dropped without completion"@,
            },
    {
        match self {
            RecvError::Finished => "receiving on an empty and disconnected channel",
            RecvError::ItemRecvError => "item in sequential queue was dropped without completion",
        }
    }
}

/// The receiver of a sequential queue has been dropped.
#[derive(Debug, Copy, Clone, PartialEq, Eq, Structural)]
pub struct SendError;

} // verus!
