use std::collections::BTreeMap;
use vstd::prelude::*;

use crate::address::{contains, duplicate_all, views, Address};

verus! {

/// The body of one revision of an invitation.
///
/// Times are microseconds since the UNIX epoch.
#[derive(Debug, Clone)]
pub struct Invite {
    pub invitees: Vec<Address>,
    pub location: Option<String>,
    pub start_time: Option<i64>,
    pub end_time: Option<i64>,
    pub details: Option<BTreeMap<String, String>>,
}

/// An invitation body as contracts see it.
pub ghost struct InviteView {
    pub invitees: Seq<Seq<u8>>,
    pub location: Option<String>,
    pub start_time: Option<i64>,
    pub end_time: Option<i64>,
    pub details: Option<Map<String, String>>,
}

impl View for Invite {
    type V = InviteView;

    open spec fn view(&self) -> InviteView {
        InviteView {
            invitees: views(self.invitees@),
            location: self.location,
            start_time: self.start_time,
            end_time: self.end_time,
            details: match self.details {
                Some(d) => Some(d@),
                None => None,
            },
        }
    }
}

/// A fresh copy of the details.
fn duplicate_details(d: &Option<BTreeMap<String, String>>) -> (r: Option<BTreeMap<String, String>>)
    ensures
        r is Some <==> d is Some,
        d is Some ==> r.unwrap()@ == d.unwrap()@,
{
    match d {
        Some(m) => Some(m.clone()),
        None => None,
    }
}

/// A fresh copy of the location.
fn duplicate_text(t: &Option<String>) -> (r: Option<String>)
    ensures
        r == *t,
{
    match t {
        Some(s) => Some(s.clone()),
        None => None,
    }
}

impl Invite {
    /// A fresh copy of this body.
    pub fn duplicate(&self) -> (r: Invite)
        ensures
            r@ == self@,
    {
        Invite {
            invitees: duplicate_all(&self.invitees),
            location: duplicate_text(&self.location),
            start_time: self.start_time,
            end_time: self.end_time,
            details: duplicate_details(&self.details),
        }
    }
}

/// What a caller hands in to create an invitation, or to edit one; for an
/// edit, `creation_hash` names the invitation.
#[derive(Debug, Clone)]
pub struct InviteInput {
    pub invitees: Vec<Address>,
    pub location: Option<String>,
    pub start_time: Option<i64>,
    pub end_time: Option<i64>,
    pub details: Option<BTreeMap<String, String>>,
    pub creation_hash: Option<Address>,
}

impl InviteInput {
    /// The body that this input describes.
    pub open spec fn invite_view(&self) -> InviteView {
        InviteView {
            invitees: views(self.invitees@),
            location: self.location,
            start_time: self.start_time,
            end_time: self.end_time,
            details: match self.details {
                Some(d) => Some(d@),
                None => None,
            },
        }
    }

    /// The invitation body that this input describes.
    pub fn to_invite(self) -> (r: Invite)
        ensures
            r@ == self.invite_view(),
            r.invitees@ == self.invitees@,
            r.location == self.location,
            r.start_time == self.start_time,
            r.end_time == self.end_time,
            r.details == self.details,
    {
        Invite {
            invitees: self.invitees,
            location: self.location,
            start_time: self.start_time,
            end_time: self.end_time,
            details: self.details,
        }
    }
}

/// The read model of an invitation: a revision's body, the invitation's
/// stable creation hash, who wrote the revision and when, and the invitees
/// split by their response.
#[derive(Debug, Clone)]
pub struct InviteInfo {
    pub invitation: Invite,
    pub creation_hash: Address,
    pub timestamp: i64,
    pub author: Address,
    pub invitees_who_accepted: Vec<Address>,
    pub invitees_who_rejected: Vec<Address>,
    pub invitees_pending: Vec<Address>,
}

/// The read model as contracts see it.
pub ghost struct InviteInfoView {
    pub invitation: InviteView,
    pub creation_hash: Seq<u8>,
    pub timestamp: i64,
    pub author: Seq<u8>,
    pub accepted: Seq<Seq<u8>>,
    pub rejected: Seq<Seq<u8>>,
    pub pending: Seq<Seq<u8>>,
}

impl View for InviteInfo {
    type V = InviteInfoView;

    open spec fn view(&self) -> InviteInfoView {
        InviteInfoView {
            invitation: self.invitation@,
            creation_hash: self.creation_hash@,
            timestamp: self.timestamp,
            author: self.author@,
            accepted: views(self.invitees_who_accepted@),
            rejected: views(self.invitees_who_rejected@),
            pending: views(self.invitees_pending@),
        }
    }
}

/// Holds of an invitee who has neither accepted nor rejected.
pub open spec fn still_pending(
    accepted: Seq<Seq<u8>>,
    rejected: Seq<Seq<u8>>,
) -> spec_fn(Seq<u8>) -> bool {
    |x: Seq<u8>| !accepted.contains(x) && !rejected.contains(x)
}

/// The invitees, in their order, less those who accepted or rejected.
pub open spec fn pending_of(
    invitees: Seq<Seq<u8>>,
    accepted: Seq<Seq<u8>>,
    rejected: Seq<Seq<u8>>,
) -> Seq<Seq<u8>> {
    invitees.filter(still_pending(accepted, rejected))
}

/// The invitees that have not responded, in the order of `invitees`.
pub fn pending_invitees(
    invitees: &Vec<Address>,
    accepted: &Vec<Address>,
    rejected: &Vec<Address>,
) -> (r: Vec<Address>)
    ensures
        views(r@) == pending_of(views(invitees@), views(accepted@), views(rejected@)),
{
    let ghost acc = views(accepted@);
    let ghost rej = views(rejected@);
    let ghost all = views(invitees@);
    let mut out: Vec<Address> = Vec::new();
    let mut i: usize = 0;
    while i < invitees.len()
        invariant
            i <= invitees@.len(),
            all == views(invitees@),
            acc == views(accepted@),
            rej == views(rejected@),
            views(out@) == all.subrange(0, i as int).filter(still_pending(acc, rej)),
        decreases invitees@.len() - i,
    {
        let ghost before = out@;
        let x = &invitees[i];
        let keep = !contains(accepted, x) && !contains(rejected, x);
        proof {
            assert(all.subrange(0, i + 1) =~= all.subrange(0, i as int).push(x@));
            all.subrange(0, i as int).lemma_filter_push(x@, still_pending(acc, rej));
        }
        if keep {
            out.push(x.duplicate());
            assert(views(out@) =~= views(before).push(x@));
        }
        i = i + 1;
    }
    assert(all.subrange(0, invitees@.len() as int) =~= all);
    out
}

/// The read model of the body `invite` written by `author` at `timestamp`,
/// for the invitation whose creation hash is `creation_hash`, given who
/// accepted and who rejected it.
pub fn invite_info(
    invite: &Invite,
    creation_hash: &Address,
    timestamp: i64,
    author: &Address,
    accepted: Vec<Address>,
    rejected: Vec<Address>,
) -> (r: InviteInfo)
    ensures
        r@ == (InviteInfoView {
            invitation: invite@,
            creation_hash: creation_hash@,
            timestamp,
            author: author@,
            accepted: views(accepted@),
            rejected: views(rejected@),
            pending: pending_of(invite@.invitees, views(accepted@), views(rejected@)),
        }),
{
    let invitees_pending = pending_invitees(&invite.invitees, &accepted, &rejected);
    InviteInfo {
        invitation: invite.duplicate(),
        creation_hash: creation_hash.duplicate(),
        timestamp,
        author: author.duplicate(),
        invitees_who_accepted: accepted,
        invitees_who_rejected: rejected,
        invitees_pending,
    }
}

/// The members of `s`, as a set.
pub open spec fn members(s: Seq<Seq<u8>>) -> Set<Seq<u8>> {
    s.to_set()
}

/// The partition law of the read model: no pending invitee has accepted or
/// rejected, every pending agent is invited, and when every response comes
/// from an invitee, accepted, rejected and pending together make up exactly
/// the invitees.
pub proof fn lemma_partition(
    invitees: Seq<Seq<u8>>,
    accepted: Seq<Seq<u8>>,
    rejected: Seq<Seq<u8>>,
)
    ensures
        members(pending_of(invitees, accepted, rejected)).disjoint(members(accepted)),
        members(pending_of(invitees, accepted, rejected)).disjoint(members(rejected)),
        members(pending_of(invitees, accepted, rejected)).subset_of(members(invitees)),
        members(accepted).subset_of(members(invitees)) && members(rejected).subset_of(
            members(invitees),
        ) ==> members(accepted) + members(rejected) + members(
            pending_of(invitees, accepted, rejected),
        ) == members(invitees),
{
    broadcast use vstd::seq_lib::group_seq_properties;

    let p = still_pending(accepted, rejected);
    let pend = invitees.filter(p);
    assert forall|x: Seq<u8>| #[trigger] pend.contains(x) implies invitees.contains(x) && p(x) by {
        invitees.lemma_filter_contains_rev(p, x);
        let k = choose|k: int| 0 <= k < pend.len() && pend[k] == x;
        invitees.lemma_filter_pred(p, k);
    }
    assert(members(pend).disjoint(members(accepted)));
    assert(members(pend).disjoint(members(rejected)));
    if members(accepted).subset_of(members(invitees)) && members(rejected).subset_of(
        members(invitees),
    ) {
        assert forall|x: Seq<u8>| #[trigger] members(invitees).contains(x) implies (members(accepted)
            + members(rejected) + members(pend)).contains(x) by {
            if p(x) {
                let k = choose|k: int| 0 <= k < invitees.len() && invitees[k] == x;
                invitees.lemma_filter_contains(p, k);
            }
        }
        assert(members(accepted) + members(rejected) + members(pend) =~= members(invitees));
    }
}

} // verus!
