//! Transitions of one record, or of a pair of records that must both accept
//! their side before either changes.

use vstd::prelude::*;
use crate::adr::{Adr, token_is_read};
use crate::parse::status_of;
use crate::date::AdrDate;
use crate::status::{TransitionStatus, reverted, step};

verus! {

/// Works out a transition of `from`, and, when `by` is given, the reverted
/// transition of `by`, both dated `today`. The result is the records to
/// write: `None` unless every record involved accepts its transition (see
/// `Adr::update_status_on`), so that a refused side leaves both records as
/// they were. In a pair, each record
/// gets a reference to the other's file name after its new status token.
pub fn plan_transition(
    transition: TransitionStatus,
    from: Adr,
    by: Option<Adr>,
    today: AdrDate,
) -> (r: Option<(Adr, Option<Adr>)>)
    requires
        today.wf(),
    ensures
        r is Some <==> (step(from.status, transition) is Some && token_is_read(
            from.content@,
            from.status,
        ) && (by matches Some(b) ==> step(b.status, reverted(transition)) is Some
            && token_is_read(b.content@, b.status))),
        r matches Some((f, None)) ==> by is None && from.status_applied(
            f,
            step(from.status, transition)->0,
            today,
        ),
        r matches Some((f, Some(b2))) ==> by matches Some(b) && from.paired(
            f,
            step(from.status, transition)->0,
            today,
            b.file_name@,
        ) && b.paired(b2, step(b.status, reverted(transition))->0, today, from.file_name@),
        r matches Some((_, None)) <==> (r is Some && by is None),
        by matches Some(b) && step(b.status, reverted(transition)) is None ==> r is None,
        r matches Some((f, None)) ==> status_of(f.content@) == f.status,
{
    let mut from = from;
    if !from.update_status_on(transition, today) {
        return None;
    }
    match by {
        None => Some((from, None)),
        Some(b) => {
            let mut b = b;
            if !b.update_status_on(TransitionStatus::revert(transition), today) {
                return None;
            }
            from.add_reference(b.file_name.as_str());
            b.add_reference(from.file_name.as_str());
            Some((from, Some(b)))
        },
    }
}

} // verus!
