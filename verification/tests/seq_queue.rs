use applesauce::seq_queue::{FinalSuccess, RecvError, UnknownError};

#[test]
fn outcome_success() {
    let mut f: FinalSuccess<()> = FinalSuccess::new();
    f.make_success();
    assert_eq!(f.get_result(), Ok(()));
    // Taking the outcome leaves nothing reported.
    assert_eq!(f.get_result(), Err(None));
}

#[test]
fn outcome_without_report_is_unknown_error() {
    let mut f: FinalSuccess<()> = FinalSuccess::new();
    assert_eq!(f.get_result(), Err(None));
}

#[test]
fn dropped_slot_overrides_success() {
    let mut f: FinalSuccess<&str> = FinalSuccess::new();
    f.make_unknown_error();
    f.make_success();
    assert_eq!(f.get_result(), Err(None));
}

#[test]
fn first_explicit_error_wins() {
    let mut f: FinalSuccess<&str> = FinalSuccess::new();
    f.make_success();
    f.make_error("error");
    f.make_error("later");
    f.make_unknown_error();
    assert_eq!(f.get_result(), Err(Some("error")));
}

#[test]
fn queue_error_messages() {
    assert_eq!(RecvError::Finished.message(), "receiving on an empty and disconnected channel");
    assert_eq!(
        RecvError::ItemRecvError.message(),
        "item in sequential queue was dropped without completion"
    );
    assert_eq!(UnknownError.message(), "unspecified error in sender for sequential queue");
}
