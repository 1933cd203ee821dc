use invitations::address::Address;
use invitations::chain::{get_creation_action_hash, get_latest_record};
use invitations::engine::{
    accept_invitation, clear_invitation, create_invitation, get_all_my_invitations,
    get_invitation_info, get_invitation_update_info, get_my_pending_invitations,
    reject_invitation, update_invitation,
};
use invitations::error::InviteError;
use invitations::invite::InviteInput;
use invitations::signals::{post_commit, signal_action, ActionContent, CommittedAction, Signal};
use invitations::store::{ActionKind, LinkType, Status, Store};

fn agent(n: u8) -> Address {
    Address::from_bytes(vec![0x84, 0x20, 0x24, n, n, n])
}

fn input(invitees: Vec<Address>, creation_hash: Option<Address>) -> InviteInput {
    InviteInput {
        invitees,
        location: Some("Cafe".to_string()),
        start_time: Some(1_000),
        end_time: Some(2_000),
        details: None,
        creation_hash,
    }
}

fn bytes(list: &[Address]) -> Vec<Vec<u8>> {
    list.iter().map(|a| a.bytes.clone()).collect()
}

fn setup() -> (Store, Address, Address, Address, Address) {
    let store = Store::new();
    (store, agent(1), agent(2), agent(3), agent(4))
}

#[test]
fn creation_leaves_everyone_pending() {
    let (mut store, a, b, c, _) = setup();
    let info = create_invitation(&mut store, &a, 10, input(vec![b.clone(), c.clone()], None)).unwrap();
    assert_eq!(bytes(&info.invitees_pending), bytes(&[b.clone(), c.clone()]));
    assert!(info.invitees_who_accepted.is_empty());
    assert!(info.invitees_who_rejected.is_empty());
    assert_eq!(info.author, a);
    assert_eq!(info.timestamp, 10);
    for who in [&b, &c] {
        let mine = get_my_pending_invitations(&store, who).unwrap();
        assert_eq!(mine.len(), 1);
        assert_eq!(mine[0].creation_hash, info.creation_hash);
        assert_eq!(bytes(&mine[0].invitees_pending), bytes(&[b.clone(), c.clone()]));
        assert!(mine[0].invitees_who_accepted.is_empty());
        assert!(mine[0].invitees_who_rejected.is_empty());
    }
}

#[test]
fn inviter_who_is_not_invited_gets_an_inviter_edge() {
    let (mut store, a, b, c, _) = setup();
    let info = create_invitation(&mut store, &a, 10, input(vec![b.clone(), c.clone()], None)).unwrap();
    assert_eq!(store.links.len(), 3);
    assert_eq!(store.links[2].tag, Status::Inviter);
    assert_eq!(store.links[2].base, a);
    assert!(get_my_pending_invitations(&store, &a).unwrap().is_empty());
    let all = get_all_my_invitations(&store, &a).unwrap();
    assert_eq!(all.len(), 1);
    assert_eq!(all[0].creation_hash, info.creation_hash);
}

#[test]
fn inviter_who_is_invited_gets_no_inviter_edge() {
    let (mut store, a, b, _, _) = setup();
    create_invitation(&mut store, &a, 10, input(vec![a.clone(), b.clone()], None)).unwrap();
    assert_eq!(store.links.len(), 2);
    assert!(store.links.iter().all(|l| l.tag == Status::Pending));
}

#[test]
fn nobody_has_pending_invitations_on_an_empty_store() {
    let (store, a, _, _, _) = setup();
    assert!(get_my_pending_invitations(&store, &a).unwrap().is_empty());
    assert!(get_all_my_invitations(&store, &a).unwrap().is_empty());
}

#[test]
fn responding_through_an_edit_anchors_on_the_creation_hash() {
    let (mut store, a, b, c, _) = setup();
    let h = create_invitation(&mut store, &a, 10, input(vec![b.clone(), c.clone()], None))
        .unwrap()
        .creation_hash;
    let edit = update_invitation(&mut store, &a, 20, input(vec![b.clone(), c.clone()], Some(h.clone())))
        .unwrap();
    let before = store.links.len();
    accept_invitation(&mut store, &b, &edit).unwrap();
    assert_eq!(store.links[before].base, h);
    assert_eq!(store.links[before].link_type, LinkType::InviteToAgent);
    assert!(store.get_links(&edit, LinkType::InviteToAgent, None).is_empty());
    let info = get_invitation_info(&store, &h).unwrap();
    assert_eq!(bytes(&info.invitees_who_accepted), bytes(&[b.clone()]));
}

#[test]
fn a_changed_response_replaces_the_earlier_one() {
    let (mut store, a, b, c, _) = setup();
    let h = create_invitation(&mut store, &a, 10, input(vec![b.clone(), c.clone()], None))
        .unwrap()
        .creation_hash;
    accept_invitation(&mut store, &b, &h).unwrap();
    accept_invitation(&mut store, &b, &h).unwrap();
    let info = get_invitation_info(&store, &h).unwrap();
    assert_eq!(bytes(&info.invitees_who_accepted), bytes(&[b.clone()]));
    reject_invitation(&mut store, &b, &h).unwrap();
    let info = get_invitation_info(&store, &h).unwrap();
    assert!(info.invitees_who_accepted.is_empty());
    assert_eq!(bytes(&info.invitees_who_rejected), bytes(&[b.clone()]));
    assert_eq!(bytes(&info.invitees_pending), bytes(&[c.clone()]));
}

#[test]
fn only_acceptances_and_rejections_are_resolved_for_notification() {
    let (store, a, _, _, _) = setup();
    for tag in [None, Some(Status::Pending), Some(Status::Inviter), Some(Status::Committed)] {
        let edge = CommittedAction {
            hash: agent(6),
            author: a.clone(),
            content: ActionContent::CreateLink {
                base: agent(7),
                link_type: LinkType::InviteToAgent,
                tag,
            },
        };
        assert!(signal_action(&store, &a, edge).unwrap().is_none());
    }
}

#[test]
fn acceptance_moves_the_invitee_and_notifies_the_author() {
    let (mut store, a, b, c, _) = setup();
    let h = create_invitation(&mut store, &a, 10, input(vec![b.clone(), c.clone()], None))
        .unwrap()
        .creation_hash;
    let before = store.links.len();
    let committed = accept_invitation(&mut store, &b, &h).unwrap();
    let info = get_invitation_info(&store, &h).unwrap();
    assert_eq!(bytes(&info.invitees_who_accepted), bytes(&[b.clone()]));
    assert_eq!(bytes(&info.invitees_pending), bytes(&[c.clone()]));
    assert!(info.invitees_who_rejected.is_empty());
    assert_eq!(store.links[before + 1].address, committed);
    let response = CommittedAction {
        hash: store.links[before].address.clone(),
        author: b.clone(),
        content: ActionContent::CreateLink {
            base: h.clone(),
            link_type: LinkType::InviteToAgent,
            tag: Some(Status::Accepted),
        },
    };
    let sent = post_commit(&store, &b, vec![response]);
    assert_eq!(sent.len(), 1);
    assert!(matches!(sent[0].signal, Signal::InvitationAccepted { .. }));
    assert_eq!(bytes(&sent[0].recipients), bytes(&[a.clone()]));
    assert!(!sent[0].recipients.contains(&c));
}

#[test]
fn acceptance_migrates_the_pending_edge() {
    let (mut store, a, b, c, _) = setup();
    let h = create_invitation(&mut store, &a, 10, input(vec![b.clone(), c.clone()], None))
        .unwrap()
        .creation_hash;
    accept_invitation(&mut store, &b, &h).unwrap();
    let pending = store.get_links(&b, LinkType::AgentToInvite, Some(Status::Pending));
    assert!(pending.iter().all(|l| l.target != h));
    let committed = store.get_links(&b, LinkType::AgentToInvite, Some(Status::Committed));
    assert_eq!(committed.len(), 1);
    assert_eq!(committed[0].target, h);
    assert!(get_my_pending_invitations(&store, &b).unwrap().is_empty());
    let still = get_my_pending_invitations(&store, &c).unwrap();
    assert_eq!(still.len(), 1);
}

#[test]
fn rejection_notifies_the_author_only() {
    let (mut store, a, b, c, _) = setup();
    let h = create_invitation(&mut store, &a, 10, input(vec![b.clone(), c.clone()], None))
        .unwrap()
        .creation_hash;
    let before = store.links.len();
    reject_invitation(&mut store, &c, &h).unwrap();
    let info = get_invitation_info(&store, &h).unwrap();
    assert_eq!(bytes(&info.invitees_who_rejected), bytes(&[c.clone()]));
    assert_eq!(bytes(&info.invitees_pending), bytes(&[b.clone()]));
    let response = CommittedAction {
        hash: store.links[before].address.clone(),
        author: c.clone(),
        content: ActionContent::CreateLink {
            base: h.clone(),
            link_type: LinkType::InviteToAgent,
            tag: Some(Status::Rejected),
        },
    };
    let n = signal_action(&store, &c, response).unwrap().unwrap();
    assert!(matches!(n.signal, Signal::InvitationRejected { .. }));
    assert_eq!(bytes(&n.recipients), bytes(&[a.clone()]));
}

#[test]
fn responses_from_strangers_and_to_unknown_invitations_fail() {
    let (mut store, a, b, c, d) = setup();
    let h = create_invitation(&mut store, &a, 10, input(vec![b.clone(), c.clone()], None))
        .unwrap()
        .creation_hash;
    let links = store.links.len();
    assert_eq!(accept_invitation(&mut store, &d, &h), Err(InviteError::InvalidResponder));
    assert_eq!(reject_invitation(&mut store, &d, &h), Err(InviteError::InvalidResponder));
    assert_eq!(accept_invitation(&mut store, &b, &agent(9)), Err(InviteError::NotFound));
    assert_eq!(store.links.len(), links);
}

#[test]
fn the_author_edits_and_everyone_else_hears_of_it() {
    let (mut store, a, b, c, d) = setup();
    let h = create_invitation(&mut store, &a, 10, input(vec![b.clone(), c.clone()], None))
        .unwrap()
        .creation_hash;
    let edit = update_invitation(
        &mut store,
        &a,
        20,
        input(vec![b.clone(), c.clone(), d.clone(), a.clone()], Some(h.clone())),
    )
    .unwrap();
    let latest = get_latest_record(&store, &h).unwrap();
    assert_eq!(latest.address, edit);
    let update = CommittedAction {
        hash: edit.clone(),
        author: a.clone(),
        content: ActionContent::Update,
    };
    let n = signal_action(&store, &a, update).unwrap().unwrap();
    assert!(matches!(n.signal, Signal::InvitationUpdated { .. }));
    assert_eq!(bytes(&n.recipients), bytes(&[b.clone(), c.clone(), d.clone()]));
    let info = get_invitation_update_info(&store, &edit).unwrap();
    assert_eq!(info.creation_hash, h);
    assert_eq!(info.timestamp, 20);
    assert_eq!(bytes(&info.invitation.invitees), bytes(&[b.clone(), c.clone(), d.clone(), a.clone()]));
}

#[test]
fn a_stranger_cannot_edit() {
    let (mut store, a, b, c, d) = setup();
    let h = create_invitation(&mut store, &a, 10, input(vec![b.clone(), c.clone()], None))
        .unwrap()
        .creation_hash;
    update_invitation(&mut store, &a, 20, input(vec![b.clone(), c.clone(), d.clone()], Some(h.clone())))
        .unwrap();
    let records = store.records.len();
    let refused = update_invitation(&mut store, &d, 30, input(vec![d.clone()], Some(h.clone())));
    assert_eq!(refused, Err(InviteError::AuthorizationError));
    let refused = update_invitation(&mut store, &b, 30, input(vec![b.clone()], Some(h.clone())));
    assert_eq!(refused, Err(InviteError::AuthorizationError));
    assert_eq!(store.records.len(), records);
}

#[test]
fn edits_need_an_existing_invitation() {
    let (mut store, a, b, _, _) = setup();
    assert_eq!(
        update_invitation(&mut store, &a, 20, input(vec![b.clone()], None)),
        Err(InviteError::NotFound)
    );
    assert_eq!(
        update_invitation(&mut store, &a, 20, input(vec![b.clone()], Some(agent(7)))),
        Err(InviteError::NotFound)
    );
    assert!(store.records.is_empty());
}

#[test]
fn clearing_hides_the_invitation_from_the_agent_only() {
    let (mut store, a, b, c, _) = setup();
    let h = create_invitation(&mut store, &a, 10, input(vec![b.clone(), c.clone()], None))
        .unwrap()
        .creation_hash;
    accept_invitation(&mut store, &b, &h).unwrap();
    let before = get_invitation_info(&store, &h).unwrap();
    clear_invitation(&mut store, &c, &h).unwrap();
    assert!(get_my_pending_invitations(&store, &c).unwrap().is_empty());
    assert!(get_all_my_invitations(&store, &c).unwrap().is_empty());
    let after = get_invitation_info(&store, &h).unwrap();
    assert_eq!(bytes(&after.invitation.invitees), bytes(&[b.clone(), c.clone()]));
    assert_eq!(bytes(&after.invitees_who_accepted), bytes(&[b.clone()]));
    assert_eq!(format!("{:?}", before), format!("{:?}", after));
    let b_all = get_all_my_invitations(&store, &b).unwrap();
    assert_eq!(b_all.len(), 1);
}

#[test]
fn reading_twice_gives_the_same_read_model() {
    let (mut store, a, b, c, _) = setup();
    let h = create_invitation(&mut store, &a, 10, input(vec![b.clone(), c.clone()], None))
        .unwrap()
        .creation_hash;
    reject_invitation(&mut store, &b, &h).unwrap();
    let first = get_invitation_info(&store, &h).unwrap();
    let second = get_invitation_info(&store, &h).unwrap();
    assert_eq!(format!("{:?}", first), format!("{:?}", second));
    assert_eq!(get_invitation_info(&store, &agent(8)).unwrap_err(), InviteError::NotFound);
}

#[test]
fn chains_resolve_forward_and_back() {
    let (mut store, a, b, _, _) = setup();
    let h = create_invitation(&mut store, &a, 10, input(vec![b.clone()], None)).unwrap().creation_hash;
    let e1 = update_invitation(&mut store, &a, 20, input(vec![b.clone()], Some(h.clone()))).unwrap();
    let e2 = update_invitation(&mut store, &a, 30, input(vec![b.clone()], Some(e1.clone()))).unwrap();
    let e3 = update_invitation(&mut store, &a, 40, input(vec![b.clone()], Some(h.clone()))).unwrap();
    for start in [&h, &e1, &e2, &e3] {
        assert_eq!(get_latest_record(&store, start).unwrap().address, e3);
    }
    let last = get_latest_record(&store, &h).unwrap();
    match &last.kind {
        ActionKind::Update { original } => assert_eq!(original, &e2),
        ActionKind::Create => panic!("the latest revision is an edit"),
    }
    assert_eq!(get_creation_action_hash(&store, last).unwrap(), h);
    let first = get_latest_record(&store, &agent(5));
    assert_eq!(first.unwrap_err(), InviteError::NotFound);
}

#[test]
fn creation_is_reported_to_the_invitees_but_the_author() {
    let (mut store, a, b, c, _) = setup();
    let info = create_invitation(&mut store, &a, 10, input(vec![a.clone(), b.clone(), c.clone()], None))
        .unwrap();
    let created = CommittedAction {
        hash: info.creation_hash.clone(),
        author: a.clone(),
        content: ActionContent::Create,
    };
    let edge = CommittedAction {
        hash: store.links[0].address.clone(),
        author: a.clone(),
        content: ActionContent::CreateLink {
            base: b.clone(),
            link_type: LinkType::AgentToInvite,
            tag: Some(Status::Pending),
        },
    };
    let gone = CommittedAction { hash: agent(6), author: a.clone(), content: ActionContent::Create };
    let sent = post_commit(&store, &a, vec![edge, created, gone]);
    assert_eq!(sent.len(), 1);
    assert!(matches!(sent[0].signal, Signal::InvitationReceived { .. }));
    assert_eq!(bytes(&sent[0].recipients), bytes(&[b.clone(), c.clone()]));
}

#[test]
fn a_response_to_nothing_is_an_error_and_deletions_are_silent() {
    let (store, a, _, _, _) = setup();
    let stray = CommittedAction {
        hash: agent(6),
        author: a.clone(),
        content: ActionContent::CreateLink {
            base: agent(7),
            link_type: LinkType::InviteToAgent,
            tag: Some(Status::Accepted),
        },
    };
    assert_eq!(signal_action(&store, &a, stray).unwrap_err(), InviteError::NotFound);
    let deleted = CommittedAction { hash: agent(6), author: a.clone(), content: ActionContent::DeleteLink };
    assert!(signal_action(&store, &a, deleted).unwrap().is_none());
}
