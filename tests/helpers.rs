use std::collections::BTreeMap;

use invitations::address::{contains, duplicate_all, Address};
use invitations::engine::{
    commit_invitation, create_invitation, edges_ending_at, get_invitation_info_details,
    get_invite_info_from_links, record_response, seeding_edges,
};
use invitations::error::InviteError;
use invitations::invite::{invite_info, Invite, InviteInput};
use invitations::signals::{
    invitation_accepted, invitation_received, invitation_rejected, invitation_updated, route,
    ActionContent, CommittedAction, Route, Signal,
};
use invitations::chain::{creation_step, latest_step, Back, Found, Next};
use invitations::store::{Link, LinkType, Status, Store};

fn agent(n: u8) -> Address {
    Address::from_bytes(vec![0x84, 0x20, 0x24, n, 0, n])
}

fn bytes(list: &[Address]) -> Vec<Vec<u8>> {
    list.iter().map(|a| a.bytes.clone()).collect()
}

fn edge(n: u8, target: &Address, deleted: bool) -> Link {
    Link {
        address: agent(100 + n),
        author: agent(1),
        base: agent(1),
        target: target.clone(),
        link_type: LinkType::AgentToInvite,
        tag: Status::Pending,
        deleted,
    }
}

fn body(invitees: Vec<Address>) -> Invite {
    let mut details = BTreeMap::new();
    details.insert("dress".to_string(), "casual".to_string());
    Invite {
        invitees,
        location: Some("Park".to_string()),
        start_time: Some(5),
        end_time: Some(9),
        details: Some(details),
    }
}

fn action(content: ActionContent) -> CommittedAction {
    CommittedAction { hash: agent(50), author: agent(1), content }
}

#[test]
fn seeding_adds_an_inviter_edge_only_for_an_uninvited_author() {
    let (a, b, c) = (agent(1), agent(2), agent(3));
    let edges = seeding_edges(&a, &vec![b.clone(), c.clone()]);
    let got: Vec<(Vec<u8>, Status)> = edges.iter().map(|(x, s)| (x.bytes.clone(), *s)).collect();
    assert_eq!(
        got,
        vec![
            (b.bytes.clone(), Status::Pending),
            (c.bytes.clone(), Status::Pending),
            (a.bytes.clone(), Status::Inviter),
        ]
    );
    let edges = seeding_edges(&a, &vec![a.clone(), b.clone()]);
    assert_eq!(edges.len(), 2);
    assert!(edges.iter().all(|(_, s)| *s == Status::Pending));
    assert!(seeding_edges(&a, &vec![]).iter().map(|(x, _)| x.clone()).eq(vec![a.clone()]));
}

#[test]
fn edges_ending_at_picks_the_positions_of_the_target() {
    let (h, g) = (agent(40), agent(41));
    let targets = vec![h.clone(), g.clone(), h.clone(), agent(42), h.clone()];
    assert_eq!(edges_ending_at(&targets, &h), vec![0, 2, 4]);
    assert!(edges_ending_at(&targets, &agent(43)).is_empty());
    assert!(edges_ending_at(&vec![], &h).is_empty());
}

#[test]
fn routes_follow_the_notification_table() {
    let h = agent(40);
    assert!(matches!(route(&action(ActionContent::Create)), Route::Received(x) if x == agent(50)));
    assert!(matches!(route(&action(ActionContent::Update)), Route::Updated(x) if x == agent(50)));
    let accepted = ActionContent::CreateLink {
        base: h.clone(),
        link_type: LinkType::InviteToAgent,
        tag: Some(Status::Accepted),
    };
    assert!(matches!(route(&action(accepted)), Route::Accepted(x) if x == h));
    let rejected = ActionContent::CreateLink {
        base: h.clone(),
        link_type: LinkType::InviteToAgent,
        tag: Some(Status::Rejected),
    };
    assert!(matches!(route(&action(rejected)), Route::Rejected(x) if x == h));
    let pending = ActionContent::CreateLink {
        base: h.clone(),
        link_type: LinkType::AgentToInvite,
        tag: Some(Status::Accepted),
    };
    assert!(matches!(route(&action(pending)), Route::Nothing));
    let untagged = ActionContent::CreateLink {
        base: h.clone(),
        link_type: LinkType::InviteToAgent,
        tag: None,
    };
    assert!(matches!(route(&action(untagged)), Route::Nothing));
    assert!(matches!(route(&action(ActionContent::Delete)), Route::Nothing));
    assert!(matches!(route(&action(ActionContent::DeleteLink)), Route::Nothing));
    assert!(matches!(route(&action(ActionContent::Other)), Route::Nothing));
}

#[test]
fn tags_have_their_texts() {
    let texts: Vec<&str> = Status::all().iter().map(|s| s.tag()).collect();
    assert_eq!(texts, vec!["pending", "inviter", "accepted", "rejected", "committed"]);
}

#[test]
fn the_read_model_splits_the_invitees() {
    let (a, b, c, d) = (agent(1), agent(2), agent(3), agent(4));
    let inv = body(vec![b.clone(), c.clone(), d.clone()]);
    let info = invite_info(&inv, &agent(40), 77, &a, vec![c.clone()], vec![d.clone()]);
    assert_eq!(bytes(&info.invitees_pending), bytes(&[b.clone()]));
    assert_eq!(bytes(&info.invitees_who_accepted), bytes(&[c.clone()]));
    assert_eq!(bytes(&info.invitees_who_rejected), bytes(&[d.clone()]));
    assert_eq!(info.timestamp, 77);
    assert_eq!(info.author, a);
    assert_eq!(info.creation_hash, agent(40));
    assert_eq!(info.invitation.location.as_deref(), Some("Park"));
    assert_eq!(info.invitation.details.as_ref().unwrap().get("dress").map(String::as_str), Some("casual"));
}

#[test]
fn copies_keep_every_field() {
    let inv = body(vec![agent(2), agent(3)]);
    let copy = inv.duplicate();
    assert_eq!(bytes(&copy.invitees), bytes(&inv.invitees));
    assert_eq!(copy.location, inv.location);
    assert_eq!(copy.start_time, Some(5));
    assert_eq!(copy.end_time, Some(9));
    assert_eq!(copy.details, inv.details);
    assert_eq!(bytes(&duplicate_all(&inv.invitees)), bytes(&inv.invitees));
    assert!(contains(&inv.invitees, &agent(3)));
    assert!(!contains(&inv.invitees, &agent(4)));
    let input = InviteInput {
        invitees: vec![agent(2)],
        location: None,
        start_time: Some(1),
        end_time: None,
        details: None,
        creation_hash: Some(agent(40)),
    };
    let made = input.to_invite();
    assert_eq!(bytes(&made.invitees), bytes(&[agent(2)]));
    assert_eq!(made.start_time, Some(1));
}

#[test]
fn notifications_go_to_the_right_agents() {
    let (a, b, c) = (agent(1), agent(2), agent(3));
    let info = invite_info(&body(vec![a.clone(), b.clone(), c.clone()]), &agent(40), 1, &a, vec![], vec![]);
    let n = invitation_received(&a, action(ActionContent::Create), info.clone());
    assert!(matches!(n.signal, Signal::InvitationReceived { .. }));
    assert_eq!(bytes(&n.recipients), bytes(&[b.clone(), c.clone()]));
    let n = invitation_updated(&b, action(ActionContent::Update), info.clone());
    assert!(matches!(n.signal, Signal::InvitationUpdated { .. }));
    assert_eq!(bytes(&n.recipients), bytes(&[a.clone(), c.clone()]));
    let n = invitation_accepted(action(ActionContent::Other), info.clone());
    assert!(matches!(n.signal, Signal::InvitationAccepted { .. }));
    assert_eq!(bytes(&n.recipients), bytes(&[a.clone()]));
    let n = invitation_rejected(action(ActionContent::Other), info);
    assert!(matches!(n.signal, Signal::InvitationRejected { ref data, .. } if data.author == a));
    assert_eq!(bytes(&n.recipients), bytes(&[a.clone()]));
}

#[test]
fn infos_from_links_need_every_target() {
    let (a, b) = (agent(1), agent(2));
    let mut store = Store::new();
    let h = create_invitation(
        &mut store,
        &a,
        3,
        InviteInput {
            invitees: vec![b.clone()],
            location: None,
            start_time: None,
            end_time: None,
            details: None,
            creation_hash: None,
        },
    )
    .unwrap()
    .creation_hash;
    assert!(get_invite_info_from_links(&store, vec![]).unwrap().is_empty());
    let found = get_invite_info_from_links(&store, vec![edge(1, &h, false)]).unwrap();
    assert_eq!(found.len(), 1);
    assert_eq!(found[0].creation_hash, h);
    let missing = get_invite_info_from_links(&store, vec![edge(1, &h, false), edge(2, &agent(60), false)]);
    assert_eq!(missing.unwrap_err(), InviteError::NotFound);
    let record = store.get(&h).unwrap();
    let details = get_invitation_info_details(&store, &record.entry, record, &h).unwrap();
    assert_eq!(bytes(&details.invitees_pending), bytes(&[b.clone()]));
}

#[test]
fn committing_replaces_pending_by_committed() {
    let (a, b) = (agent(1), agent(2));
    let mut store = Store::new();
    let h = create_invitation(
        &mut store,
        &a,
        3,
        InviteInput {
            invitees: vec![b.clone()],
            location: None,
            start_time: None,
            end_time: None,
            details: None,
            creation_hash: None,
        },
    )
    .unwrap()
    .creation_hash;
    let committed = commit_invitation(&mut store, &b, &h).unwrap();
    assert!(store.get_links(&b, LinkType::AgentToInvite, Some(Status::Pending)).is_empty());
    let mine = store.get_links(&b, LinkType::AgentToInvite, None);
    assert_eq!(mine.len(), 1);
    assert_eq!(mine[0].address, committed);
    assert_eq!(mine[0].tag, Status::Committed);
    assert_eq!(commit_invitation(&mut store, &b, &agent(61)), Err(InviteError::NotFound));
    let r = record_response(&mut store, &b, &h, Status::Rejected);
    assert!(r.is_ok());
    assert_eq!(store.get_links(&h, LinkType::InviteToAgent, Some(Status::Rejected)).len(), 1);
}

#[test]
fn the_latest_walk_follows_the_last_edit_once() {
    let (h, e1, e2) = (agent(40), agent(41), agent(42));
    assert!(matches!(latest_step(true, &Found::Missing, &vec![]), Next::Fail(InviteError::NotFound)));
    assert!(matches!(latest_step(false, &Found::Missing, &vec![h.clone()]), Next::Fail(InviteError::Malformed)));
    assert!(matches!(latest_step(true, &Found::EntryOnly, &vec![]), Next::Fail(InviteError::Malformed)));
    assert!(matches!(latest_step(true, &Found::Revision { updates: vec![] }, &vec![h.clone()]), Next::Stop));
    let found = Found::Revision { updates: vec![e1.clone(), e2.clone()] };
    assert!(matches!(latest_step(true, &found, &vec![h.clone()]), Next::Follow(x) if x == e2));
    assert!(matches!(
        latest_step(false, &found, &vec![h.clone(), e2.clone()]),
        Next::Fail(InviteError::Malformed)
    ));
}

#[test]
fn the_creation_walk_goes_back_to_the_creation() {
    let (h, e1) = (agent(40), agent(41));
    assert!(matches!(creation_step(&Back::Create, &h), Next::Done(x) if x == h));
    assert!(matches!(creation_step(&Back::Update { original: h.clone() }, &e1), Next::Follow(x) if x == h));
    assert!(matches!(creation_step(&Back::Other, &e1), Next::Fail(InviteError::Malformed)));
}
