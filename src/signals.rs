use vstd::prelude::*;

use crate::address::{views, Address};
use crate::chain::creation_address;
use crate::engine::{get_invitation_info, get_invitation_update_info, info_details, info_of};
use crate::error::InviteError;
use crate::invite::{InviteInfo, InviteInfoView};
use crate::store::{has_record, index_of, LinkType, Status, Store, StoreView};

verus! {

/// What a committed write did, as far as notifications care.
#[derive(Debug, Clone)]
pub enum ActionContent {
    Create,
    Update,
    Delete,
    /// An edge was written from `base`; `tag` is its status, if it carries one.
    CreateLink { base: Address, link_type: LinkType, tag: Option<Status> },
    DeleteLink,
    Other,
}

/// A write that the store has committed: its hash, its author and what it did.
#[derive(Debug, Clone)]
pub struct CommittedAction {
    pub hash: Address,
    pub author: Address,
    pub content: ActionContent,
}

/// A notification about an invitation, with the write that caused it and the
/// invitation's read model.
#[derive(Debug, Clone)]
pub enum Signal {
    InvitationAccepted { action: CommittedAction, data: InviteInfo },
    InvitationReceived { action: CommittedAction, data: InviteInfo },
    InvitationRejected { action: CommittedAction, data: InviteInfo },
    InvitationUpdated { action: CommittedAction, data: InviteInfo },
}

impl Signal {
    /// The read model that the signal carries.
    pub open spec fn data_view(&self) -> InviteInfoView {
        match self {
            Signal::InvitationAccepted { data, .. } => data@,
            Signal::InvitationReceived { data, .. } => data@,
            Signal::InvitationRejected { data, .. } => data@,
            Signal::InvitationUpdated { data, .. } => data@,
        }
    }

    /// The hash of the write that the signal reports.
    pub open spec fn action_hash(&self) -> Seq<u8> {
        match self {
            Signal::InvitationAccepted { action, .. } => action.hash@,
            Signal::InvitationReceived { action, .. } => action.hash@,
            Signal::InvitationRejected { action, .. } => action.hash@,
            Signal::InvitationUpdated { action, .. } => action.hash@,
        }
    }
}

/// A signal and the agents it goes to.
#[derive(Debug, Clone)]
pub struct Notification {
    pub signal: Signal,
    pub recipients: Vec<Address>,
}

/// `agents` without `me`, in order.
pub open spec fn others(agents: Seq<Seq<u8>>, me: Seq<u8>) -> Seq<Seq<u8>> {
    agents.filter(|x: Seq<u8>| x != me)
}

/// `agents` without `me`, in order.
pub fn recipients_except(agents: &Vec<Address>, me: &Address) -> (r: Vec<Address>)
    ensures
        views(r@) == others(views(agents@), me@),
{
    let ghost all = views(agents@);
    let ghost p = |x: Seq<u8>| x != me@;
    let mut out: Vec<Address> = Vec::new();
    let mut i: usize = 0;
    while i < agents.len()
        invariant
            i <= agents@.len(),
            all == views(agents@),
            p == (|x: Seq<u8>| x != me@),
            views(out@) == all.subrange(0, i as int).filter(p),
        decreases agents@.len() - i,
    {
        let ghost before = out@;
        let x = &agents[i];
        proof {
            assert(all.subrange(0, i + 1) =~= all.subrange(0, i as int).push(x@));
            all.subrange(0, i as int).lemma_filter_push(x@, p);
        }
        if !x.same(me) {
            out.push(x.duplicate());
            assert(views(out@) =~= views(before).push(x@));
        }
        i = i + 1;
    }
    assert(all.subrange(0, agents@.len() as int) =~= all);
    out
}

/// A new invitation goes to every invitee but its author `me`.
pub fn invitation_received(me: &Address, action_data: CommittedAction, invite_detail: InviteInfo) -> (r:
    Notification)
    ensures
        r.signal is InvitationReceived,
        r.signal.data_view() == invite_detail@,
        r.signal.action_hash() == action_data.hash@,
        views(r.recipients@) == others(invite_detail@.invitation.invitees, me@),
{
    let recipients = recipients_except(&invite_detail.invitation.invitees, me);
    Notification {
        signal: Signal::InvitationReceived { action: action_data, data: invite_detail },
        recipients,
    }
}

/// An edit goes to every invitee but the editor `me`.
pub fn invitation_updated(me: &Address, action_data: CommittedAction, invite_detail: InviteInfo) -> (r:
    Notification)
    ensures
        r.signal is InvitationUpdated,
        r.signal.data_view() == invite_detail@,
        r.signal.action_hash() == action_data.hash@,
        views(r.recipients@) == others(invite_detail@.invitation.invitees, me@),
{
    let recipients = recipients_except(&invite_detail.invitation.invitees, me);
    Notification {
        signal: Signal::InvitationUpdated { action: action_data, data: invite_detail },
        recipients,
    }
}

/// An acceptance goes to the invitation's author only.
pub fn invitation_accepted(action_data: CommittedAction, invite_detail: InviteInfo) -> (r:
    Notification)
    ensures
        r.signal is InvitationAccepted,
        r.signal.data_view() == invite_detail@,
        r.signal.action_hash() == action_data.hash@,
        views(r.recipients@) == seq![invite_detail@.author],
{
    let recipients = vec![invite_detail.author.duplicate()];
    assert(views(recipients@) =~= seq![invite_detail@.author]);
    Notification {
        signal: Signal::InvitationAccepted { action: action_data, data: invite_detail },
        recipients,
    }
}

/// A rejection goes to the invitation's author only.
pub fn invitation_rejected(action_data: CommittedAction, invite_detail: InviteInfo) -> (r:
    Notification)
    ensures
        r.signal is InvitationRejected,
        r.signal.data_view() == invite_detail@,
        r.signal.action_hash() == action_data.hash@,
        views(r.recipients@) == seq![invite_detail@.author],
{
    let recipients = vec![invite_detail.author.duplicate()];
    assert(views(recipients@) =~= seq![invite_detail@.author]);
    Notification {
        signal: Signal::InvitationRejected { action: action_data, data: invite_detail },
        recipients,
    }
}

/// Which notification a committed write calls for, and the hash whose read
/// model it carries.
#[derive(Debug, Clone)]
pub enum Route {
    /// A new invitation, read at its own hash.
    Received(Address),
    /// An edit, read at its own hash with the chain's creation hash.
    Updated(Address),
    /// An acceptance of the invitation at this creation hash.
    Accepted(Address),
    /// A rejection of the invitation at this creation hash.
    Rejected(Address),
    /// No notification.
    Nothing,
}

/// Which notification the committed write `action` calls for.
pub fn route(action: &CommittedAction) -> (r: Route)
    ensures
        match action.content {
            ActionContent::Create => r matches Route::Received(h) && h@ == action.hash@,
            ActionContent::Update => r matches Route::Updated(h) && h@ == action.hash@,
            ActionContent::CreateLink { base, link_type, tag } => if link_type
                == LinkType::InviteToAgent && tag == Some(Status::Accepted) {
                r matches Route::Accepted(h) && h@ == base@
            } else if link_type == LinkType::InviteToAgent && tag == Some(Status::Rejected) {
                r matches Route::Rejected(h) && h@ == base@
            } else {
                r is Nothing
            },
            _ => r is Nothing,
        },
{
    match &action.content {
        ActionContent::Create => Route::Received(action.hash.duplicate()),
        ActionContent::Update => Route::Updated(action.hash.duplicate()),
        ActionContent::CreateLink { base, link_type, tag } => {
            if *link_type == LinkType::InviteToAgent {
                match tag {
                    Some(Status::Accepted) => Route::Accepted(base.duplicate()),
                    Some(Status::Rejected) => Route::Rejected(base.duplicate()),
                    _ => Route::Nothing,
                }
            } else {
                Route::Nothing
            }
        },
        _ => Route::Nothing,
    }
}

/// The read model that an edit at `h` is reported with.
pub open spec fn update_info_of(s: StoreView, h: Seq<u8>) -> InviteInfoView {
    info_details(
        s,
        s.records[index_of(s, h)].entry,
        s.records[index_of(s, h)],
        creation_address(s, s.records[index_of(s, h)]).unwrap(),
    )
}

/// What `signal_action` returns for the committed write `action` by `me` on
/// store `s`.
pub open spec fn signal_spec(
    s: StoreView,
    me: Seq<u8>,
    action: CommittedAction,
    r: Result<Option<Notification>, InviteError>,
) -> bool {
    let h = action.hash@;
    match action.content {
        ActionContent::Create => if has_record(s, h) {
            r matches Ok(Some(n)) && n.signal is InvitationReceived && n.signal.data_view()
                == info_of(s, h) && n.signal.action_hash() == h && views(n.recipients@)
                == others(info_of(s, h).invitation.invitees, me)
        } else {
            r matches Ok(None)
        },
        ActionContent::Update => if has_record(s, h) {
            r matches Ok(Some(n)) && n.signal is InvitationUpdated && n.signal.data_view()
                == update_info_of(s, h) && n.signal.action_hash() == h && views(
                n.recipients@,
            ) == others(update_info_of(s, h).invitation.invitees, me)
        } else {
            r matches Ok(None)
        },
        ActionContent::CreateLink { base, link_type, tag } => if link_type
            == LinkType::InviteToAgent && (tag == Some(Status::Accepted) || tag == Some(
            Status::Rejected,
        )) {
            if !has_record(s, base@) {
                r == Err::<Option<Notification>, InviteError>(InviteError::NotFound)
            } else if tag == Some(Status::Accepted) {
                r matches Ok(Some(n)) && n.signal is InvitationAccepted && n.signal.data_view()
                    == info_of(s, base@) && n.signal.action_hash() == h && views(n.recipients@)
                    == seq![info_of(s, base@).author]
            } else {
                r matches Ok(Some(n)) && n.signal is InvitationRejected && n.signal.data_view()
                    == info_of(s, base@) && n.signal.action_hash() == h && views(n.recipients@)
                    == seq![info_of(s, base@).author]
            }
        } else {
            r matches Ok(None)
        },
        _ => r matches Ok(None),
    }
}

/// Whether the committed write `action` calls for a notification.
pub open spec fn calls_for(s: StoreView, action: CommittedAction) -> bool {
    match action.content {
        ActionContent::Create => has_record(s, action.hash@),
        ActionContent::Update => has_record(s, action.hash@),
        ActionContent::CreateLink { base, link_type, tag } => link_type == LinkType::InviteToAgent
            && has_record(s, base@) && (tag == Some(Status::Accepted) || tag == Some(
            Status::Rejected,
        )),
        _ => false,
    }
}

/// The notification that the committed write `action` by `me` calls for,
/// if any; an error only where an acceptance or a rejection starts at no
/// invitation.
pub fn signal_action(store: &Store, me: &Address, action: CommittedAction) -> (r: Result<
    Option<Notification>,
    InviteError,
>)
    requires
        store.wf(),
    ensures
        signal_spec(store@, me@, action, r),
{
    match route(&action) {
        Route::Received(h) => match get_invitation_info(store, &h) {
            Ok(info) => Ok(Some(invitation_received(me, action, info))),
            Err(_) => Ok(None),
        },
        Route::Updated(h) => match get_invitation_update_info(store, &h) {
            Ok(info) => Ok(Some(invitation_updated(me, action, info))),
            Err(_) => Ok(None),
        },
        Route::Accepted(h) => {
            let info = get_invitation_info(store, &h)?;
            Ok(Some(invitation_accepted(action, info)))
        },
        Route::Rejected(h) => {
            let info = get_invitation_info(store, &h)?;
            Ok(Some(invitation_rejected(action, info)))
        },
        Route::Nothing => Ok(None),
    }
}

/// The notifications that the committed writes `committed_actions` by `me`
/// call for, in order. A write whose read model cannot be built is skipped:
/// the write itself stands.
pub fn post_commit(store: &Store, me: &Address, mut committed_actions: Vec<CommittedAction>) -> (r: Vec<
    Notification,
>)
    requires
        store.wf(),
    ensures
        r@.len() == committed_actions@.filter(|a: CommittedAction| calls_for(store@, a)).len(),
        forall|k: int|
            0 <= k < r@.len() ==> signal_spec(
                store@,
                me@,
                committed_actions@.filter(|a: CommittedAction| calls_for(store@, a))[k],
                Ok::<Option<Notification>, InviteError>(Some(#[trigger] r@[k])),
            ),
{
    let ghost p = |a: CommittedAction| calls_for(store@, a);
    let ghost all = committed_actions@;
    assert(all.len() == committed_actions.len());
    assert(all.subrange(0, all.len() as int) =~= all);
    let mut out: Vec<Notification> = Vec::new();
    let mut i: usize = 0;
    while committed_actions.len() > 0
        invariant
            store.wf(),
            i <= all.len(),
            all.len() <= usize::MAX,
            committed_actions@ == all.subrange(i as int, all.len() as int),
            p == (|a: CommittedAction| calls_for(store@, a)),
            out@.len() == all.subrange(0, i as int).filter(p).len(),
            forall|k: int|
                0 <= k < out@.len() ==> signal_spec(
                    store@,
                    me@,
                    all.subrange(0, i as int).filter(p)[k],
                    Ok::<Option<Notification>, InviteError>(Some(#[trigger] out@[k])),
                ),
        decreases committed_actions@.len(),
    {
        let ghost a = all[i as int];
        assert(committed_actions@[0] == a);
        let action = committed_actions.remove(0);
        proof {
            assert(all.subrange(0, i + 1) =~= all.subrange(0, i as int).push(a));
            all.subrange(0, i as int).lemma_filter_push(a, p);
        }
        match signal_action(store, me, action) {
            Ok(Some(n)) => {
                out.push(n);
            },
            _ => {},
        }
        i = i + 1;
        assert(committed_actions@ =~= all.subrange(i as int, all.len() as int));
    }
    assert(all.subrange(0, all.len() as int) =~= all);
    out
}
} // verus!
