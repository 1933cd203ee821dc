use invitations::address::Address;
use invitations::error::InviteError;
use invitations::invite::{pending_invitees, Invite};
use invitations::signals::recipients_except;
use invitations::store::{LinkType, Status, Store};
use invitations::validation::{
    validate_create_invite, validate_create_link_agent_to_invite,
    validate_create_link_agent_to_invites, validate_create_link_invite_to_agent,
    validate_create_link_invite_to_members, validate_delete_invite,
    validate_delete_link_agent_to_invite, validate_delete_link_agent_to_invites,
    validate_delete_link_invite_to_agent, validate_delete_link_invite_to_members,
    validate_update_invite, ValidateCallbackResult,
};

fn agent(n: u8) -> Address {
    Address::from_bytes(vec![0x84, 0x20, 0x24, n])
}

fn bytes(list: &[Address]) -> Vec<Vec<u8>> {
    list.iter().map(|a| a.bytes.clone()).collect()
}

fn invite(invitees: Vec<Address>) -> Invite {
    Invite { invitees, location: None, start_time: None, end_time: None, details: None }
}

fn valid(r: &ValidateCallbackResult) -> bool {
    matches!(r, ValidateCallbackResult::Valid)
}

#[test]
fn pending_keeps_order_and_drops_responders() {
    let (a, b, c, d) = (agent(1), agent(2), agent(3), agent(4));
    let pending = pending_invitees(
        &vec![d.clone(), a.clone(), c.clone(), b.clone()],
        &vec![a.clone()],
        &vec![b.clone()],
    );
    assert_eq!(bytes(&pending), bytes(&[d.clone(), c.clone()]));
    assert!(pending_invitees(&vec![], &vec![a.clone()], &vec![]).is_empty());
    let all = pending_invitees(&vec![a.clone(), b.clone()], &vec![], &vec![]);
    assert_eq!(bytes(&all), bytes(&[a.clone(), b.clone()]));
}

#[test]
fn the_three_groups_partition_the_invitees() {
    let (a, b, c) = (agent(1), agent(2), agent(3));
    let invitees = vec![a.clone(), b.clone(), c.clone()];
    let accepted = vec![b.clone()];
    let rejected = vec![c.clone()];
    let pending = pending_invitees(&invitees, &accepted, &rejected);
    let mut union: Vec<Vec<u8>> = bytes(&accepted);
    union.extend(bytes(&rejected));
    union.extend(bytes(&pending));
    union.sort();
    let mut expected = bytes(&invitees);
    expected.sort();
    assert_eq!(union, expected);
    assert!(pending.iter().all(|p| !accepted.contains(p) && !rejected.contains(p)));
}

#[test]
fn recipients_leave_out_the_sender() {
    let (a, b, c) = (agent(1), agent(2), agent(3));
    let r = recipients_except(&vec![a.clone(), b.clone(), a.clone(), c.clone()], &a);
    assert_eq!(bytes(&r), bytes(&[b.clone(), c.clone()]));
}

#[test]
fn addresses_compare_and_copy_by_bytes() {
    let a = agent(1);
    assert!(a.same(&agent(1)));
    assert!(!a.same(&agent(2)));
    assert!(!a.same(&Address::from_bytes(vec![0x84, 0x20])));
    assert_eq!(a.duplicate().bytes, a.bytes);
}

#[test]
fn validation_rules() {
    let (a, b) = (agent(1), agent(2));
    let inv = invite(vec![b.clone()]);
    assert!(valid(&validate_create_invite(&inv)));
    assert!(valid(&validate_delete_invite()));
    assert!(valid(&validate_update_invite(&a, &a)));
    assert!(!valid(&validate_update_invite(&a, &b)));
    assert!(valid(&validate_create_link_agent_to_invite(Some(&inv)).unwrap()));
    assert!(matches!(validate_create_link_agent_to_invite(None), Err(InviteError::NotFound)));
    assert!(valid(&validate_create_link_invite_to_agent(Some(&inv), &b).unwrap()));
    assert!(!valid(&validate_create_link_invite_to_agent(Some(&inv), &a).unwrap()));
    assert!(matches!(validate_create_link_invite_to_agent(None, &b), Err(InviteError::NotFound)));
    assert!(valid(&validate_create_link_invite_to_members(Some(&inv)).unwrap()));
    assert!(matches!(validate_create_link_invite_to_members(None), Err(InviteError::NotFound)));
    assert!(valid(&validate_create_link_agent_to_invites(Some(&inv)).unwrap()));
    assert!(matches!(validate_create_link_agent_to_invites(None), Err(InviteError::NotFound)));
    assert!(valid(&validate_delete_link_agent_to_invite(&a, &a)));
    assert!(valid(&validate_delete_link_invite_to_agent(&b, &b)));
    match validate_delete_link_agent_to_invite(&a, &b) {
        ValidateCallbackResult::Invalid(m) => {
            assert_eq!(m, "Only the agent an edge belongs to can delete it")
        }
        ValidateCallbackResult::Valid => panic!("another agent's edge"),
    }
    assert!(!valid(&validate_delete_link_invite_to_agent(&a, &b)));
    match validate_update_invite(&a, &b) {
        ValidateCallbackResult::Invalid(m) => {
            assert_eq!(m, "Only the author of the invitation can make updates")
        }
        ValidateCallbackResult::Valid => panic!("a stranger's edit"),
    }
    match validate_create_link_invite_to_agent(Some(&inv), &a).unwrap() {
        ValidateCallbackResult::Invalid(m) => assert_eq!(m, "only invitees can respond to invites"),
        ValidateCallbackResult::Valid => panic!("a stranger's response"),
    }
    assert!(valid(&validate_delete_link_invite_to_members()));
    assert!(valid(&validate_delete_link_agent_to_invites()));
}

#[test]
fn store_addresses_are_distinct_and_edges_are_validated() {
    let (a, b) = (agent(1), agent(2));
    let mut store = Store::new();
    let h1 = store.create_entry(&a, 1, invite(vec![b.clone()]));
    let h2 = store.create_entry(&a, 2, invite(vec![b.clone()]));
    assert_ne!(h1, h2);
    assert_eq!(h1.bytes, vec![0x84, 0x29, 0x24, 0, 0, 0, 0, 0, 0, 0, 0]);
    assert_eq!(h2.bytes, vec![0x84, 0x29, 0x24, 1, 0, 0, 0, 0, 0, 0, 0]);
    assert_eq!(store.get(&h2).unwrap().timestamp, 2);
    assert!(store.get(&agent(9)).is_none());
    assert_eq!(
        store.create_link(&a, &a, &agent(9), LinkType::AgentToInvite, Status::Pending),
        Err(InviteError::NotFound)
    );
    assert_eq!(
        store.create_link(&a, &h1, &a, LinkType::InviteToAgent, Status::Accepted),
        Err(InviteError::InvalidResponder)
    );
    let l = store.create_link(&b, &h1, &b, LinkType::InviteToAgent, Status::Accepted).unwrap();
    assert_eq!(l.bytes, vec![0x84, 0x2a, 0x24, 0, 0, 0, 0, 0, 0, 0, 0]);
    assert_eq!(store.get_links(&h1, LinkType::InviteToAgent, None).len(), 1);
    assert_eq!(store.get_links(&h1, LinkType::InviteToAgent, Some(Status::Rejected)).len(), 0);
    assert_eq!(store.delete_link(&a, &l), Err(InviteError::AuthorizationError));
    assert_eq!(store.get_links(&h1, LinkType::InviteToAgent, None).len(), 1);
    store.delete_link(&b, &l).unwrap();
    assert!(store.get_links(&h1, LinkType::InviteToAgent, None).is_empty());
    assert_eq!(store.delete_link(&b, &agent(9)), Err(InviteError::NotFound));
    assert_eq!(store.update_entry(&b, 3, &h1, invite(vec![])), Err(InviteError::AuthorizationError));
    assert_eq!(store.update_entry(&a, 3, &agent(9), invite(vec![])), Err(InviteError::NotFound));
    assert_eq!(store.last_update(0), None);
    store.update_entry(&a, 3, &h1, invite(vec![])).unwrap();
    assert_eq!(store.last_update(0), Some(2));
}
