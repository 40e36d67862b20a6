//! Balance report assembly: for one public key identity, pair each live
//! endpoint with the outcome of its account-metadata query, in endpoint
//! order.
//!
//! The remote call is the embedding program's job. An account that was not
//! found and a query that failed are by design the same absent outcome: an
//! unused key is the common, quiet case and is never surfaced as an error.

use vstd::prelude::*;

use crate::key::Key;

verus! {

/// The outcome of one (key, endpoint) account-metadata query.
pub enum QueryOutcome {
    /// The endpoint returned the account: its smallest-unit balance and the
    /// identity of its owner.
    Found { lamports: u64, owner: Key },
    /// The account was not found, or the query failed; the two are not
    /// distinguished.
    Absent,
}

/// One report line: which key, on which endpoint, with what outcome.
pub struct ReportEntry {
    /// The queried public key identity.
    pub key: Key,
    /// The endpoint that was asked.
    pub endpoint: String,
    /// What the endpoint answered.
    pub outcome: QueryOutcome,
}

/// Assembles the report for one key: one entry per live endpoint, in
/// endpoint order (never completion order), each carrying that endpoint's
/// own outcome. With zero live endpoints the report for the key is empty.
pub fn assemble_report(key: &Key, endpoints: &Vec<String>, outcomes: Vec<QueryOutcome>) -> (r: Vec<
    ReportEntry,
>)
    requires
        endpoints@.len() == outcomes@.len(),
    ensures
        r@.len() == endpoints@.len(),
        forall|i: int|
            0 <= i < r@.len() ==> r@[i].key@ == key@ && r@[i].endpoint@ == endpoints@[i]@
                && r@[i].outcome == outcomes@[i],
        endpoints@.len() == 0 ==> r@.len() == 0,
{
    let ghost all = outcomes@;
    let mut outcomes = outcomes;
    let mut r: Vec<ReportEntry> = Vec::new();
    let mut i: usize = 0;
    while i < endpoints.len()
        invariant
            i <= endpoints@.len(),
            endpoints@.len() == all.len(),
            outcomes@ == all.skip(i as int),
            r@.len() == i,
            forall|j: int|
                0 <= j < i ==> r@[j].key@ == key@ && r@[j].endpoint@ == endpoints@[j]@
                    && r@[j].outcome == all[j],
        decreases endpoints@.len() - i,
    {
        let outcome = outcomes.remove(0);
        assert(outcome == all[i as int]);
        let entry = ReportEntry {
            key: key.duplicate(),
            endpoint: endpoints[i].clone(),
            outcome,
        };
        r.push(entry);
        proof {
            assert(all.skip(i as int).remove(0) =~= all.skip(i + 1 as int));
        }
        i += 1;
    }
    r
}

} // verus!
