//! The lifecycle of a record: its persisted `Status`, the requested
//! `TransitionStatus`, and the state machine between them.

use vstd::prelude::*;

verus! {

/// A requested change of status.
#[derive(Debug, PartialEq, Eq, Structural, Copy, Clone)]
pub enum TransitionStatus {
    DECIDED,
    COMPLETED,
    COMPLETES,
    SUPERSEDED,
    SUPERSEDES,
    CANCELLED,
    NONE,
}

/// The persisted lifecycle state of a record.
#[derive(Debug, PartialEq, Eq, Structural, Copy, Clone)]
pub enum Status {
    WIP,
    DECIDED,
    COMPLETED,
    COMPLETES,
    SUPERSEDED,
    SUPERSEDES,
    CANCELLED,
    NONE,
}

/// The transition applied to the other record of a pair: the two sides of
/// a supersede or complete relationship swap, everything else maps to itself.
pub open spec fn reverted(t: TransitionStatus) -> TransitionStatus {
    match t {
        TransitionStatus::COMPLETED => TransitionStatus::COMPLETES,
        TransitionStatus::COMPLETES => TransitionStatus::COMPLETED,
        TransitionStatus::SUPERSEDED => TransitionStatus::SUPERSEDES,
        TransitionStatus::SUPERSEDES => TransitionStatus::SUPERSEDED,
        _ => t,
    }
}

/// The transition table: the status reached from `s` by `t`, or `None` when
/// the transition is not accepted.
pub open spec fn step(s: Status, t: TransitionStatus) -> Option<Status> {
    match (s, t) {
        (Status::WIP, TransitionStatus::DECIDED) => Some(Status::DECIDED),
        (Status::WIP, TransitionStatus::CANCELLED) => Some(Status::CANCELLED),
        (Status::DECIDED, TransitionStatus::COMPLETED) => Some(Status::COMPLETED),
        (Status::DECIDED, TransitionStatus::COMPLETES) => Some(Status::COMPLETES),
        (Status::DECIDED, TransitionStatus::CANCELLED) => Some(Status::CANCELLED),
        (Status::DECIDED, TransitionStatus::SUPERSEDED) => Some(Status::SUPERSEDED),
        (Status::DECIDED, TransitionStatus::SUPERSEDES) => Some(Status::SUPERSEDES),
        (Status::COMPLETED, TransitionStatus::SUPERSEDED) => Some(Status::SUPERSEDED),
        (Status::COMPLETED, TransitionStatus::CANCELLED) => Some(Status::CANCELLED),
        (Status::COMPLETES, TransitionStatus::CANCELLED) => Some(Status::CANCELLED),
        (Status::COMPLETES, TransitionStatus::SUPERSEDED) => Some(Status::SUPERSEDED),
        (Status::SUPERSEDED, TransitionStatus::CANCELLED) => Some(Status::CANCELLED),
        (Status::SUPERSEDES, TransitionStatus::CANCELLED) => Some(Status::CANCELLED),
        _ => None,
    }
}

/// The keyword under which a status is written in a record.
pub open spec fn keyword(s: Status) -> Seq<char> {
    match s {
        Status::WIP => "wip"@,
        Status::DECIDED => "decided"@,
        Status::COMPLETED => "completed"@,
        Status::COMPLETES => "completes"@,
        Status::SUPERSEDED => "superseded"@,
        Status::SUPERSEDES => "supersedes"@,
        Status::CANCELLED => "obsoleted"@,
        Status::NONE => "unknown"@,
    }
}

/// The status a keyword stands for; `Status::NONE` for any other text.
pub open spec fn status_of_keyword(k: Seq<char>) -> Status {
    if k == "wip"@ {
        Status::WIP
    } else if k == "decided"@ {
        Status::DECIDED
    } else if k == "completed"@ {
        Status::COMPLETED
    } else if k == "completes"@ {
        Status::COMPLETES
    } else if k == "superseded"@ {
        Status::SUPERSEDED
    } else if k == "supersedes"@ {
        Status::SUPERSEDES
    } else if k == "obsoleted"@ {
        Status::CANCELLED
    } else {
        Status::NONE
    }
}

/// The name of a transition.
pub open spec fn transition_name(t: TransitionStatus) -> Seq<char> {
    match t {
        TransitionStatus::DECIDED => "decided"@,
        TransitionStatus::COMPLETED => "completed"@,
        TransitionStatus::COMPLETES => "completes"@,
        TransitionStatus::SUPERSEDED => "superseded"@,
        TransitionStatus::SUPERSEDES => "supersedes"@,
        TransitionStatus::CANCELLED => "cancelled"@,
        TransitionStatus::NONE => "none"@,
    }
}

/// The transition a name stands for; `TransitionStatus::NONE` for any other text.
pub open spec fn transition_of_name(k: Seq<char>) -> TransitionStatus {
    if k == "decided"@ {
        TransitionStatus::DECIDED
    } else if k == "completed"@ {
        TransitionStatus::COMPLETED
    } else if k == "completes"@ {
        TransitionStatus::COMPLETES
    } else if k == "superseded"@ {
        TransitionStatus::SUPERSEDED
    } else if k == "supersedes"@ {
        TransitionStatus::SUPERSEDES
    } else if k == "cancelled"@ {
        TransitionStatus::CANCELLED
    } else {
        TransitionStatus::NONE
    }
}

/// Whether `s` holds exactly the text of the literal `k`.
fn same_text(s: &String, k: &str) -> (r: bool)
    ensures
        r == (s@ == k@),
{
    let t = String::from_str(k);
    *s == t
}

impl TransitionStatus {
    /// The transition applied to the other record of a pair.
    pub fn revert(transition: TransitionStatus) -> (r: TransitionStatus)
        ensures
            r == reverted(transition),
    {
        match transition {
            TransitionStatus::COMPLETED => TransitionStatus::COMPLETES,
            TransitionStatus::COMPLETES => TransitionStatus::COMPLETED,
            TransitionStatus::SUPERSEDED => TransitionStatus::SUPERSEDES,
            TransitionStatus::SUPERSEDES => TransitionStatus::SUPERSEDED,
            _ => transition,
        }
    }

    pub fn as_str(&self) -> (r: &'static str)
        ensures
            r@ == transition_name(*self),
    {
        match *self {
            TransitionStatus::DECIDED => "decided",
            TransitionStatus::COMPLETED => "completed",
            TransitionStatus::COMPLETES => "completes",
            TransitionStatus::SUPERSEDED => "superseded",
            TransitionStatus::SUPERSEDES => "supersedes",
            TransitionStatus::CANCELLED => "cancelled",
            TransitionStatus::NONE => "none",
        }
    }

    pub fn from_str(val: String) -> (r: TransitionStatus)
        ensures
            r == transition_of_name(val@),
    {
        if same_text(&val, "decided") {
            TransitionStatus::DECIDED
        } else if same_text(&val, "completed") {
            TransitionStatus::COMPLETED
        } else if same_text(&val, "completes") {
            TransitionStatus::COMPLETES
        } else if same_text(&val, "superseded") {
            TransitionStatus::SUPERSEDED
        } else if same_text(&val, "supersedes") {
            TransitionStatus::SUPERSEDES
        } else if same_text(&val, "cancelled") {
            TransitionStatus::CANCELLED
        } else {
            TransitionStatus::NONE
        }
    }
}

impl Default for Status {
    fn default() -> (r: Self)
        ensures
            r == Status::WIP,
    {
        Status::WIP
    }
}

impl Status {
    pub fn as_str(&self) -> (r: &'static str)
        ensures
            r@ == keyword(*self),
    {
        match *self {
            Status::WIP => "wip",
            Status::DECIDED => "decided",
            Status::COMPLETED => "completed",
            Status::COMPLETES => "completes",
            Status::SUPERSEDED => "superseded",
            Status::SUPERSEDES => "supersedes",
            Status::CANCELLED => "obsoleted",
            Status::NONE => "unknown",
        }
    }

    pub fn from_str(val: String) -> (r: Status)
        ensures
            r == status_of_keyword(val@),
    {
        if same_text(&val, "wip") {
            Status::WIP
        } else if same_text(&val, "decided") {
            Status::DECIDED
        } else if same_text(&val, "completed") {
            Status::COMPLETED
        } else if same_text(&val, "completes") {
            Status::COMPLETES
        } else if same_text(&val, "superseded") {
            Status::SUPERSEDED
        } else if same_text(&val, "supersedes") {
            Status::SUPERSEDES
        } else if same_text(&val, "obsoleted") {
            Status::CANCELLED
        } else {
            Status::NONE
        }
    }
}

/// A record's position in the lifecycle.
#[derive(Debug, PartialEq, Eq, Structural, Copy, Clone)]
pub struct AdrState {
    pub status: Status,
}

impl Default for AdrState {
    fn default() -> (r: Self)
        ensures
            r.status == Status::WIP,
    {
        AdrState { status: Status::WIP }
    }
}

/// A state machine over `Status`, driven by `TransitionStatus` requests.
pub trait State: Sized {
    spec fn current(&self) -> Status;

    /// Applies `transition`; reports whether it was accepted. A refused
    /// transition leaves the state as it was.
    fn transition(&mut self, transition: TransitionStatus) -> (r: bool)
        ensures
            r == step(old(self).current(), transition) is Some,
            r ==> final(self).current() == step(old(self).current(), transition)->0,
            !r ==> final(self).current() == old(self).current(),
    ;

    fn build(status: Status) -> (r: AdrState)
        ensures
            r.status == status,
    ;
}

impl State for AdrState {
    open spec fn current(&self) -> Status {
        self.status
    }

    fn transition(&mut self, transition: TransitionStatus) -> (r: bool) {
        let next = match (self.status, transition) {
            (Status::WIP, TransitionStatus::DECIDED) => Status::DECIDED,
            (Status::WIP, TransitionStatus::CANCELLED) => Status::CANCELLED,
            (Status::DECIDED, TransitionStatus::COMPLETED) => Status::COMPLETED,
            (Status::DECIDED, TransitionStatus::COMPLETES) => Status::COMPLETES,
            (Status::DECIDED, TransitionStatus::CANCELLED) => Status::CANCELLED,
            (Status::DECIDED, TransitionStatus::SUPERSEDED) => Status::SUPERSEDED,
            (Status::DECIDED, TransitionStatus::SUPERSEDES) => Status::SUPERSEDES,
            (Status::COMPLETED, TransitionStatus::SUPERSEDED) => Status::SUPERSEDED,
            (Status::COMPLETED, TransitionStatus::CANCELLED) => Status::CANCELLED,
            (Status::COMPLETES, TransitionStatus::CANCELLED) => Status::CANCELLED,
            (Status::COMPLETES, TransitionStatus::SUPERSEDED) => Status::SUPERSEDED,
            (Status::SUPERSEDED, TransitionStatus::CANCELLED) => Status::CANCELLED,
            (Status::SUPERSEDES, TransitionStatus::CANCELLED) => Status::CANCELLED,
            _ => {
                return false;
            },
        };
        self.status = next;
        true
    }

    fn build(status: Status) -> (r: AdrState) {
        AdrState { status }
    }
}

/// Reverting a transition twice gives the transition back.
pub proof fn lemma_revert_involution(t: TransitionStatus)
    ensures
        reverted(reverted(t)) == t,
{
}

/// A pair of status and transition that the lifecycle table does not list is
/// refused by `step`; by the contract of `State::transition`, applying it
/// then reports no change and keeps the status.
pub proof fn lemma_unlisted_pair_refused(state: AdrState, t: TransitionStatus)
    requires
        !(match (state.status, t) {
            (Status::WIP, TransitionStatus::DECIDED) | (Status::WIP, TransitionStatus::CANCELLED)
            | (Status::DECIDED, TransitionStatus::COMPLETED)
            | (Status::DECIDED, TransitionStatus::COMPLETES)
            | (Status::DECIDED, TransitionStatus::CANCELLED)
            | (Status::DECIDED, TransitionStatus::SUPERSEDED)
            | (Status::DECIDED, TransitionStatus::SUPERSEDES)
            | (Status::COMPLETED, TransitionStatus::SUPERSEDED)
            | (Status::COMPLETED, TransitionStatus::CANCELLED)
            | (Status::COMPLETES, TransitionStatus::CANCELLED)
            | (Status::COMPLETES, TransitionStatus::SUPERSEDED)
            | (Status::SUPERSEDED, TransitionStatus::CANCELLED)
            | (Status::SUPERSEDES, TransitionStatus::CANCELLED) => true,
            _ => false,
        }),
    ensures
        step(state.current(), t) is None,
{
}

/// `CANCELLED` and `NONE` accept no transition at all.
pub proof fn lemma_terminal_states(t: TransitionStatus)
    ensures
        step(Status::CANCELLED, t) is None,
        step(Status::NONE, t) is None,
{
}

/// A status keyword reads back as the status it was written for; the
/// keyword of `NONE` reads back as `NONE` too.
pub proof fn lemma_keyword_round_trip(s: Status)
    ensures
        status_of_keyword(keyword(s)) == s,
{
    lemma_keyword_letters(s);
    reveal_strlit("wip");
    reveal_strlit("decided");
    reveal_strlit("completed");
    reveal_strlit("completes");
    reveal_strlit("superseded");
    reveal_strlit("supersedes");
    reveal_strlit("obsoleted");
    reveal_strlit("unknown");
    assert("completed"@[8] != "completes"@[8]);
    assert("superseded"@[9] != "supersedes"@[9]);
    assert("obsoleted"@[0] != "completed"@[0]);
    assert("obsoleted"@[0] != "completes"@[0]);
    assert("unknown"@[0] != "decided"@[0]);
}

/// Every keyword is at least three lower-case ASCII letters.
pub proof fn lemma_keyword_letters(s: Status)
    ensures
        keyword(s).len() >= 3,
        forall|k: int| 0 <= k < keyword(s).len() ==> 'a' <= #[trigger] keyword(s)[k] <= 'z',
{
    reveal_strlit("wip");
    reveal_strlit("decided");
    reveal_strlit("completed");
    reveal_strlit("completes");
    reveal_strlit("superseded");
    reveal_strlit("supersedes");
    reveal_strlit("obsoleted");
    reveal_strlit("unknown");
}

} // verus!
