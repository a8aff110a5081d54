//! Background jobs: when a job may be asked for its result.
//!
//! A job runs elsewhere and hands over one value. Whoever holds the job looks
//! into its channel from time to time. This module keeps the rules of that
//! exchange: a job that has handed over its value is finished, and a finished
//! job cannot be asked again.

use vstd::prelude::*;

verus! {

/// Why a job could not be asked for its result.
#[derive(Clone, Copy, Debug, PartialEq, Eq, Structural)]
pub enum JobPollError {
    /// The job has handed over its result already.
    Finished,
}

impl JobPollError {
    /// The error in words.
    pub fn message(&self) -> (text: String)
        ensures
            text@ == "Can't poll a finished job."@,
    {
        match self {
            JobPollError::Finished => "Can't poll a finished job.".to_owned(),
        }
    }
}

/// Whether a job has handed over its result.
#[derive(Clone, Copy, Debug, PartialEq, Eq, Structural)]
pub struct JobState {
    /// Whether the result has been handed over.
    pub finished: bool,
}

impl JobState {
    /// The state of a job that has just been started.
    pub fn new() -> (state: Self)
        ensures
            !state.finished,
    {
        JobState { finished: false }
    }

    /// Whether the job has handed over its result.
    pub fn finished(&self) -> (done: bool)
        ensures
            done == self.finished,
    {
        self.finished
    }

    /// Whether the job may be asked for its result: a finished job may not.
    pub fn begin_poll(&self) -> (allowed: Result<(), JobPollError>)
        ensures
            allowed == (if self.finished {
                Err::<(), JobPollError>(JobPollError::Finished)
            } else {
                Ok::<(), JobPollError>(())
            }),
    {
        if self.finished {
            Err(JobPollError::Finished)
        } else {
            Ok(())
        }
    }

    /// Takes what the job's channel held. With a value the job is finished
    /// from now on; without one it goes on running.
    pub fn end_poll<T>(&mut self, received: Option<T>) -> (result: Option<T>)
        requires
            !old(self).finished,
        ensures
            result == received,
            final(self).finished == received.is_some(),
    {
        if received.is_some() {
            self.finished = true;
        }
        received
    }
}

} // verus!
