//! Follows the versions of one event queue as the chain cache shows them.
use vstd::prelude::*;

use crate::pubkey::{decoded_pubkey, InvalidPubkey, Pubkey};
use crate::table::TableKey;

verus! {

/// The event queue of the SOL-PERP market.
pub const SOL_PERP_EVENT_QUEUE: &'static str = "31cKs646dt1YkA3zPyxZ7rUAkxTBz279w4XEobFXcAKP";

/// An account, and the (slot, write version) of it that was seen last.
#[derive(Clone, Copy, Debug)]
pub struct EventQueueTrace {
    pub events_pk: Pubkey,
    pub last_version: (u64, u64),
}

/// The version that counts as seen after one more observation.
pub open spec fn seen_after(last: (u64, u64), version: Option<(u64, u64)>) -> (u64, u64) {
    match version {
        Some(seen) => seen,
        None => last,
    }
}

/// The version that is reported for an observation: the observed one, where it is
/// another than the last.
pub open spec fn report(last: (u64, u64), version: Option<(u64, u64)>) -> Option<(u64, u64)> {
    if version == Some(last) {
        None
    } else {
        version
    }
}

impl EventQueueTrace {
    /// A trace of the given account, of which version (0, 0) counts as seen.
    pub fn new(events_pk: Pubkey) -> (r: Self)
        ensures
            r.events_pk == events_pk,
            r.last_version == (0u64, 0u64),
    {
        EventQueueTrace { events_pk, last_version: (0, 0) }
    }

    /// A trace of the event queue of SOL-PERP.
    pub fn sol_perp() -> (r: Result<Self, InvalidPubkey>)
        ensures
            r is Ok <==> decoded_pubkey(SOL_PERP_EVENT_QUEUE@) is Some,
            r matches Ok(trace) ==> decoded_pubkey(SOL_PERP_EVENT_QUEUE@) == Some(
                trace.events_pk@,
            ) && trace.last_version == (0u64, 0u64),
            r is Ok <==> decoded_pubkey("31cKs646dt1YkA3zPyxZ7rUAkxTBz279w4XEobFXcAKP"@) is Some,
            r matches Ok(trace) ==> decoded_pubkey(
                "31cKs646dt1YkA3zPyxZ7rUAkxTBz279w4XEobFXcAKP"@,
            ) == Some(trace.events_pk@),
    {
        match Pubkey::parse(SOL_PERP_EVENT_QUEUE) {
            Ok(events_pk) => Ok(EventQueueTrace::new(events_pk)),
            Err(error) => Err(error),
        }
    }

    /// Whether a write is one of the account.
    pub fn concerns(&self, pk: &Pubkey) -> (r: bool)
        ensures
            r == (pk@ == self.events_pk@),
    {
        pk.same(&self.events_pk)
    }

    /// Takes in the version that the chain cache holds for the account, if it holds
    /// one; gives the version where it is another than the one before.
    pub fn observe(&mut self, version: Option<(u64, u64)>) -> (r: Option<(u64, u64)>)
        ensures
            final(self).events_pk == old(self).events_pk,
            r == report(old(self).last_version, version),
            final(self).last_version == seen_after(old(self).last_version, version),
            version matches Some(seen) ==> {
                &&& final(self).last_version == seen
                &&& r is Some <==> seen != old(self).last_version
                &&& r is Some ==> r == Some(seen)
            },
            version is None ==> r is None && final(self).last_version == old(self).last_version,
    {
        match version {
            Some((slot, write_version)) => {
                if slot == self.last_version.0 && write_version == self.last_version.1 {
                    None
                } else {
                    self.last_version = (slot, write_version);
                    Some((slot, write_version))
                }
            },
            None => None,
        }
    }
}

/// The version that counts as seen after the given observations.
pub open spec fn last_seen(start: (u64, u64), observed: Seq<Option<(u64, u64)>>) -> (u64, u64)
    decreases observed.len(),
{
    if observed.len() == 0 {
        start
    } else {
        seen_after(last_seen(start, observed.drop_last()), observed.last())
    }
}

/// The versions that are reported for the given observations.
pub open spec fn reported(
    start: (u64, u64),
    observed: Seq<Option<(u64, u64)>>,
) -> Seq<(u64, u64)>
    decreases observed.len(),
{
    if observed.len() == 0 {
        Seq::empty()
    } else {
        let before = reported(start, observed.drop_last());
        match report(last_seen(start, observed.drop_last()), observed.last()) {
            Some(version) => before.push(version),
            None => before,
        }
    }
}

/// Every observed version becomes the last one and is reported exactly where it is
/// another than the last; where nothing is observed, nothing changes.
pub proof fn law_every_change_is_reported(last: (u64, u64), seen: (u64, u64))
    ensures
        seen_after(last, Some(seen)) == seen,
        seen_after(last, None) == last,
        report(last, Some(seen)) is Some <==> seen != last,
        report(last, Some(seen)) is Some ==> report(last, Some(seen)) == Some(seen),
        report(last, None) is None,
{
}

/// The version that counts as seen is the last one that was observed, however far it is
/// from the others.
pub proof fn law_last_observation_counts(
    start: (u64, u64),
    observed: Seq<Option<(u64, u64)>>,
    i: int,
)
    requires
        0 <= i < observed.len(),
        forall|j: int| i < j < observed.len() ==> (#[trigger] observed[j]) is None,
    ensures
        observed[i] matches Some(seen) ==> last_seen(start, observed) == seen,
    decreases observed.len(),
{
    if i < observed.len() - 1 {
        let rest = observed.drop_last();
        assert forall|j: int| i < j < rest.len() implies (#[trigger] rest[j]) is None by {
            assert(rest[j] == observed[j]);
        }
        law_last_observation_counts(start, rest, i);
        assert(observed[observed.len() - 1] is None);
    }
}

/// Where nothing was observed, the version that the trace started with counts as seen,
/// and nothing is reported.
pub proof fn law_nothing_observed_changes_nothing(
    start: (u64, u64),
    observed: Seq<Option<(u64, u64)>>,
)
    requires
        forall|j: int| 0 <= j < observed.len() ==> (#[trigger] observed[j]) is None,
    ensures
        last_seen(start, observed) == start,
        reported(start, observed).len() == 0,
    decreases observed.len(),
{
    if observed.len() > 0 {
        let rest = observed.drop_last();
        assert forall|j: int| 0 <= j < rest.len() implies (#[trigger] rest[j]) is None by {
            assert(rest[j] == observed[j]);
        }
        law_nothing_observed_changes_nothing(start, rest);
        assert(observed[observed.len() - 1] is None);
    }
}

/// No observed version is left out of the reports: each one stands at their end once it
/// is observed, added there exactly where another one stood before.
pub proof fn law_no_change_is_missed(
    start: (u64, u64),
    observed: Seq<Option<(u64, u64)>>,
    i: int,
)
    requires
        0 <= i < observed.len(),
    ensures
        ({
            let before = reported(start, observed.take(i));
            let after = reported(start, observed.take(i + 1));
            match observed[i] {
                Some(seen) => {
                    &&& (seq![start] + after).last() == seen
                    &&& (seq![start] + before).last() == seen ==> after == before
                    &&& (seq![start] + before).last() != seen ==> after == before.push(seen)
                },
                None => after == before,
            }
        }),
{
    assert(observed.take(i + 1).drop_last() =~= observed.take(i));
    law_reports_are_changes(start, observed.take(i));
    law_reports_are_changes(start, observed.take(i + 1));
}

/// A version is never reported twice in a row, the first report is not the version
/// that the trace started with, and the last report is the version seen last.
pub proof fn law_reports_are_changes(start: (u64, u64), observed: Seq<Option<(u64, u64)>>)
    ensures
        ({
            let versions = seq![start] + reported(start, observed);
            &&& versions.last() == last_seen(start, observed)
            &&& forall|i: int, j: int|
                0 <= i && j == i + 1 && j < versions.len() ==> (#[trigger] versions[i]) != (
                #[trigger] versions[j])
        }),
    decreases observed.len(),
{
    if observed.len() > 0 {
        let rest = observed.drop_last();
        law_reports_are_changes(start, rest);
        let before = seq![start] + reported(start, rest);
        let after = seq![start] + reported(start, observed);
        if reported(start, observed) != reported(start, rest) {
            assert(after =~= before.push(observed.last()->0));
        } else {
            assert(after =~= before);
        }
    }
}

} // verus!
