//! When an edited document gets checked.
//!
//! A check is a blocking pass over the user's module, and a keystroke invalidates the one in
//! flight anyway, so checking per character spends the whole budget on results nobody
//! reads. A changed document is therefore checked once typing pauses (`DEBOUNCE_MS`), but
//! never later than `MAX_DELAY_MS` after it first went dirty, so continuous typing cannot
//! postpone its diagnostics forever.
//!
//! The server's loop does the waiting and the I/O; these functions make its decisions.
//! Times are milliseconds on one monotonic clock.

use vstd::prelude::*;

verus! {

/// How long the server waits for typing to stop before checking.
pub const DEBOUNCE_MS: u64 = 150;

/// The longest a document may go unchecked while still being edited.
pub const MAX_DELAY_MS: u64 = 750;

/// A document that has changed and not yet been checked.
#[derive(Debug)]
pub struct Pending {
    pub uri: String,
    /// When it first went dirty: the anchor for `MAX_DELAY_MS`.
    pub first: u64,
    /// When it last changed: the anchor for `DEBOUNCE_MS`.
    pub last: u64,
}

/// `a + b`, or the largest time if that does not fit.
pub open spec fn sat_add(a: u64, b: u64) -> u64 {
    if a + b <= u64::MAX {
        (a + b) as u64
    } else {
        u64::MAX
    }
}

/// The moment a pending check should run: whichever of the two limits comes first.
pub open spec fn deadline_of(p: Pending) -> u64 {
    let quiet = sat_add(p.last, DEBOUNCE_MS);
    let cap = sat_add(p.first, MAX_DELAY_MS);
    if quiet < cap {
        quiet
    } else {
        cap
    }
}

impl Pending {
    pub fn deadline(&self) -> (d: u64)
        ensures
            d == deadline_of(*self),
    {
        let quiet = self.last.saturating_add(DEBOUNCE_MS);
        let cap = self.first.saturating_add(MAX_DELAY_MS);
        if quiet < cap {
            quiet
        } else {
            cap
        }
    }
}

/// How long to wait for the next message: without a pending check, for as long as it
/// takes (`None`); with one, until its deadline, and not at all once it has passed.
pub fn wait_for(pending: &Option<Pending>, now: u64) -> (w: Option<u64>)
    ensures
        match pending {
            None => w is None,
            Some(p) => w == Some(if deadline_of(*p) > now {
                (deadline_of(*p) - now) as u64
            } else {
                0u64
            }),
        },
{
    match pending {
        None => None,
        Some(p) => Some(p.deadline().saturating_sub(now)),
    }
}

/// A document changed at `now`. The same document still settling renews the debounce but
/// keeps when it first went dirty, so the cap still bounds the total wait. A different
/// document going dirty has the old one checked now (the second result) rather than
/// letting edits elsewhere postpone it.
pub fn on_change(pending: Option<Pending>, uri: String, now: u64) -> (r: (Pending, Option<Pending>))
    ensures
        match pending {
            Some(p) => if p.uri@ == uri@ {
                &&& r.0.uri@ == uri@
                &&& r.0.first == p.first
                &&& r.0.last == now
                &&& r.1 is None
            } else {
                &&& r.0.uri@ == uri@
                &&& r.0.first == now
                &&& r.0.last == now
                &&& r.1 == Some(p)
            },
            None => {
                &&& r.0.uri@ == uri@
                &&& r.0.first == now
                &&& r.0.last == now
                &&& r.1 is None
            },
        },
{
    match pending {
        Some(p) => {
            if p.uri.eq(&uri) {
                (Pending { uri: p.uri, first: p.first, last: now }, None)
            } else {
                (Pending { uri, first: now, last: now }, Some(p))
            }
        },
        None => (Pending { uri, first: now, last: now }, None),
    }
}

/// A document was closed: a check pending for it is dropped, since there is nothing to say
/// about a closed file; one pending for another document stays.
pub fn on_close(pending: Option<Pending>, uri: &String) -> (r: Option<Pending>)
    ensures
        match pending {
            Some(p) => if p.uri@ == uri@ {
                r is None
            } else {
                r == Some(p)
            },
            None => r is None,
        },
{
    match pending {
        Some(p) => {
            if p.uri.eq(uri) {
                None
            } else {
                Some(p)
            }
        },
        None => None,
    }
}

/// A pending check never runs later than `MAX_DELAY_MS` after its document first went
/// dirty, nor before it did.
pub proof fn lemma_deadline_bounds(p: Pending)
    requires
        p.first <= p.last,
    ensures
        deadline_of(p) <= sat_add(p.first, MAX_DELAY_MS),
        p.first <= deadline_of(p),
{
}

/// However many changes arrive for the document being settled, its check stays due no
/// later than `MAX_DELAY_MS` after the first of them.
pub proof fn lemma_typing_cannot_postpone(p: Pending, now: u64)
    requires
        p.first <= p.last,
        p.last <= now,
    ensures
        ({
            let q = Pending { uri: p.uri, first: p.first, last: now };
            &&& q.first <= q.last
            &&& deadline_of(q) <= sat_add(p.first, MAX_DELAY_MS)
        }),
{
}

} // verus!
