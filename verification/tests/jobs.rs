use atlas_packer::job::{JobPollError, JobState};

#[test]
fn a_new_job_is_running() {
    let state = JobState::new();
    assert!(!state.finished());
    assert_eq!(state.begin_poll(), Ok(()));
}

#[test]
fn a_job_without_a_value_goes_on_running() {
    let mut state = JobState::new();
    assert_eq!(state.end_poll::<u8>(None), None);
    assert!(!state.finished());
    assert_eq!(state.begin_poll(), Ok(()));
}

#[test]
fn a_job_that_delivered_is_finished() {
    let mut state = JobState::new();
    assert_eq!(state.end_poll(Some(7)), Some(7));
    assert!(state.finished());
    assert_eq!(state.begin_poll(), Err(JobPollError::Finished));
}

#[test]
fn the_error_says_that_the_job_is_finished() {
    assert_eq!(JobPollError::Finished.message(), "Can't poll a finished job.");
}
