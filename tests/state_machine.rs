use adr_core::status::{AdrState, State, Status, TransitionStatus};

const STATUSES: [Status; 8] = [
    Status::WIP,
    Status::DECIDED,
    Status::COMPLETED,
    Status::COMPLETES,
    Status::SUPERSEDED,
    Status::SUPERSEDES,
    Status::CANCELLED,
    Status::NONE,
];

const TRANSITIONS: [TransitionStatus; 7] = [
    TransitionStatus::DECIDED,
    TransitionStatus::COMPLETED,
    TransitionStatus::COMPLETES,
    TransitionStatus::SUPERSEDED,
    TransitionStatus::SUPERSEDES,
    TransitionStatus::CANCELLED,
    TransitionStatus::NONE,
];

#[test]
fn test_state_machine() {
    let mut state = AdrState::build(Status::WIP);
    assert_eq!(state, AdrState { status: Status::WIP });
    state.transition(TransitionStatus::COMPLETED);
    assert_eq!(state, AdrState { status: Status::WIP });
    state.transition(TransitionStatus::DECIDED);
    assert_eq!(state, AdrState { status: Status::DECIDED });
    state.transition(TransitionStatus::SUPERSEDED);
    assert_eq!(state, AdrState { status: Status::SUPERSEDED });
    state.transition(TransitionStatus::CANCELLED);
    assert_eq!(state, AdrState { status: Status::CANCELLED });
}

#[test]
fn test_state_machine_2() {
    let mut state = AdrState::build(Status::WIP);
    assert_eq!(state, AdrState { status: Status::WIP });
    state.transition(TransitionStatus::SUPERSEDED);
    assert_eq!(state, AdrState { status: Status::WIP });
    state.transition(TransitionStatus::DECIDED);
    assert_eq!(state, AdrState { status: Status::DECIDED });
    state.transition(TransitionStatus::COMPLETED);
    assert_eq!(state, AdrState { status: Status::COMPLETED });
    state.transition(TransitionStatus::SUPERSEDED);
    assert_eq!(state, AdrState { status: Status::SUPERSEDED });
    state.transition(TransitionStatus::CANCELLED);
    assert_eq!(state, AdrState { status: Status::CANCELLED });
}

#[test]
fn test_state_machine_wip_to_cancelled() {
    let mut state = AdrState::build(Status::WIP);
    assert_eq!(state, AdrState { status: Status::WIP });
    state.transition(TransitionStatus::CANCELLED);
    assert_eq!(state, AdrState { status: Status::CANCELLED });
}

#[test]
fn test_state_machine_decided_to_cancelled() {
    let mut state = AdrState::build(Status::DECIDED);
    assert_eq!(state, AdrState { status: Status::DECIDED });
    state.transition(TransitionStatus::CANCELLED);
    assert_eq!(state, AdrState { status: Status::CANCELLED });
}

#[test]
fn test_state_machine_decided_to_completes() {
    let mut state = AdrState::build(Status::DECIDED);
    assert_eq!(state, AdrState { status: Status::DECIDED });
    state.transition(TransitionStatus::COMPLETES);
    assert_eq!(state, AdrState { status: Status::COMPLETES });
}

#[test]
fn test_state_machine_decided_to_supersedes() {
    let mut state = AdrState::build(Status::DECIDED);
    assert_eq!(state, AdrState { status: Status::DECIDED });
    state.transition(TransitionStatus::SUPERSEDES);
    assert_eq!(state, AdrState { status: Status::SUPERSEDES });
}

#[test]
fn test_state_machine_decided_to_fail() {
    let mut state = AdrState::build(Status::DECIDED);
    assert_eq!(state, AdrState { status: Status::DECIDED });
    state.transition(TransitionStatus::NONE);
    assert_eq!(state, AdrState { status: Status::DECIDED });
}

#[test]
fn test_state_machine_completed_to_cancelled() {
    let mut state = AdrState::build(Status::COMPLETED);
    assert_eq!(state, AdrState { status: Status::COMPLETED });
    state.transition(TransitionStatus::CANCELLED);
    assert_eq!(state, AdrState { status: Status::CANCELLED });
}

#[test]
fn test_state_machine_superseded_to_fail() {
    let mut state = AdrState::build(Status::SUPERSEDED);
    assert_eq!(state, AdrState { status: Status::SUPERSEDED });
    state.transition(TransitionStatus::DECIDED);
    assert_eq!(state, AdrState { status: Status::SUPERSEDED });
}

#[test]
fn test_state_machine_cancelled_to_cancelled() {
    let mut state = AdrState::build(Status::CANCELLED);
    assert_eq!(state, AdrState { status: Status::CANCELLED });
    state.transition(TransitionStatus::DECIDED);
    assert_eq!(state, AdrState { status: Status::CANCELLED });
}

#[test]
fn test_transition_status_from_str() {
    assert_eq!(TransitionStatus::DECIDED, TransitionStatus::from_str(String::from("decided")));
    assert_eq!(TransitionStatus::COMPLETED, TransitionStatus::from_str(String::from("completed")));
    assert_eq!(TransitionStatus::COMPLETES, TransitionStatus::from_str(String::from("completes")));
    assert_eq!(
        TransitionStatus::SUPERSEDED,
        TransitionStatus::from_str(String::from("superseded"))
    );
    assert_eq!(
        TransitionStatus::SUPERSEDES,
        TransitionStatus::from_str(String::from("supersedes"))
    );
    assert_eq!(TransitionStatus::CANCELLED, TransitionStatus::from_str(String::from("cancelled")));
    assert_eq!(TransitionStatus::NONE, TransitionStatus::from_str(String::from("N/A")));
}

#[test]
fn test_transition_status_revert() {
    assert_eq!(TransitionStatus::COMPLETES, TransitionStatus::revert(TransitionStatus::COMPLETED));
    assert_eq!(TransitionStatus::COMPLETED, TransitionStatus::revert(TransitionStatus::COMPLETES));
    assert_eq!(TransitionStatus::SUPERSEDES, TransitionStatus::revert(TransitionStatus::SUPERSEDED));
    assert_eq!(TransitionStatus::SUPERSEDED, TransitionStatus::revert(TransitionStatus::SUPERSEDES));
}

fn listed(s: Status, t: TransitionStatus) -> Option<Status> {
    match (s, t) {
        (Status::WIP, TransitionStatus::DECIDED) => Some(Status::DECIDED),
        (Status::WIP, TransitionStatus::CANCELLED) => Some(Status::CANCELLED),
        (Status::DECIDED, TransitionStatus::COMPLETED) => Some(Status::COMPLETED),
        (Status::DECIDED, TransitionStatus::COMPLETES) => Some(Status::COMPLETES),
        (Status::DECIDED, TransitionStatus::CANCELLED) => Some(Status::CANCELLED),
        (Status::DECIDED, TransitionStatus::SUPERSEDED) => Some(Status::SUPERSEDED),
        (Status::DECIDED, TransitionStatus::SUPERSEDES) => Some(Status::SUPERSEDES),
        (Status::COMPLETED, TransitionStatus::SUPERSEDED) => Some(Status::SUPERSEDED),
        (Status::COMPLETED, TransitionStatus::CANCELLED) => Some(Status::CANCELLED),
        (Status::COMPLETES, TransitionStatus::CANCELLED) => Some(Status::CANCELLED),
        (Status::COMPLETES, TransitionStatus::SUPERSEDED) => Some(Status::SUPERSEDED),
        (Status::SUPERSEDED, TransitionStatus::CANCELLED) => Some(Status::CANCELLED),
        (Status::SUPERSEDES, TransitionStatus::CANCELLED) => Some(Status::CANCELLED),
        _ => None,
    }
}

#[test]
fn unlisted_pairs_are_refused_and_keep_the_status() {
    for s in STATUSES {
        for t in TRANSITIONS {
            let mut state = AdrState::build(s);
            let modified = state.transition(t);
            match listed(s, t) {
                Some(next) => {
                    assert!(modified);
                    assert_eq!(state.status, next);
                }
                None => {
                    assert!(!modified);
                    assert_eq!(state.status, s);
                }
            }
        }
    }
}

#[test]
fn revert_twice_is_identity() {
    for t in TRANSITIONS {
        assert_eq!(TransitionStatus::revert(TransitionStatus::revert(t)), t);
    }
    assert_eq!(TransitionStatus::revert(TransitionStatus::DECIDED), TransitionStatus::DECIDED);
    assert_eq!(TransitionStatus::revert(TransitionStatus::CANCELLED), TransitionStatus::CANCELLED);
}

#[test]
fn status_keywords_round_trip() {
    for s in STATUSES {
        let back = Status::from_str(String::from(s.as_str()));
        if s == Status::NONE {
            assert_eq!(back, Status::NONE);
        } else {
            assert_eq!(back, s);
        }
    }
    assert_eq!(Status::CANCELLED.as_str(), "obsoleted");
    assert_eq!(Status::from_str(String::from("cancelled")), Status::NONE);
    assert_eq!(TransitionStatus::CANCELLED.as_str(), "cancelled");
    assert_eq!(TransitionStatus::NONE.as_str(), "none");
    assert_eq!(Status::default(), Status::WIP);
}
