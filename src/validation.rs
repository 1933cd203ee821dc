use vstd::prelude::*;

use crate::address::{contains, views, Address};
use crate::error::InviteError;
use crate::invite::Invite;

verus! {

/// The verdict of a validation rule.
#[derive(Debug, Clone)]
pub enum ValidateCallbackResult {
    Valid,
    Invalid(String),
}

/// Any well-formed invitation may be created.
pub fn validate_create_invite(_invite: &Invite) -> (r: ValidateCallbackResult)
    ensures
        r is Valid,
{
    ValidateCallbackResult::Valid
}

/// Only the author of the revision being edited may edit it.
pub fn validate_update_invite(
    original_author: &Address,
    update_author: &Address,
) -> (r: ValidateCallbackResult)
    ensures
        original_author@ == update_author@ ==> r is Valid,
        original_author@ != update_author@ ==> (r matches ValidateCallbackResult::Invalid(m)
            && m@ == "Only the author of the invitation can make updates"@),
{
    if original_author.same(update_author) {
        ValidateCallbackResult::Valid
    } else {
        ValidateCallbackResult::Invalid(
            "Only the author of the invitation can make updates".to_owned(),
        )
    }
}

/// Invitations may be deleted.
pub fn validate_delete_invite() -> (r: ValidateCallbackResult)
    ensures
        r is Valid,
{
    ValidateCallbackResult::Valid
}

/// An edge from an agent to an invitation must point at an invitation:
/// `target` is the invitation that its target resolves to, if any.
pub fn validate_create_link_agent_to_invite(target: Option<&Invite>) -> (r: Result<
    ValidateCallbackResult,
    InviteError,
>)
    ensures
        target is None ==> r == Err::<ValidateCallbackResult, InviteError>(InviteError::NotFound),
        target is Some ==> r is Ok && r->Ok_0 is Valid,
{
    match target {
        Some(_) => Ok(ValidateCallbackResult::Valid),
        None => Err(InviteError::NotFound),
    }
}

/// An edge from an agent to an invitation belongs to that agent (its base),
/// and only that agent may delete it.
pub fn validate_delete_link_agent_to_invite(deleter: &Address, base: &Address) -> (r:
    ValidateCallbackResult)
    ensures
        deleter@ == base@ ==> r is Valid,
        deleter@ != base@ ==> (r matches ValidateCallbackResult::Invalid(m) && m@
            == "Only the agent an edge belongs to can delete it"@),
{
    if deleter.same(base) {
        ValidateCallbackResult::Valid
    } else {
        ValidateCallbackResult::Invalid("Only the agent an edge belongs to can delete it".to_owned())
    }
}

/// A response edge must start at an invitation (`base` is the invitation
/// that its base resolves to, if any) and be written by one of its invitees.
pub fn validate_create_link_invite_to_agent(base: Option<&Invite>, author: &Address) -> (r: Result<
    ValidateCallbackResult,
    InviteError,
>)
    ensures
        base is None ==> r == Err::<ValidateCallbackResult, InviteError>(InviteError::NotFound),
        base is Some && views(base.unwrap().invitees@).contains(author@) ==> r is Ok && r->Ok_0 is Valid,
        base is Some && !views(base.unwrap().invitees@).contains(author@) ==> (r matches Ok(
            ValidateCallbackResult::Invalid(m),
        ) && m@ == "only invitees can respond to invites"@),
{
    match base {
        Some(invite) => {
            if !contains(&invite.invitees, author) {
                Ok(ValidateCallbackResult::Invalid("only invitees can respond to invites".to_owned()))
            } else {
                Ok(ValidateCallbackResult::Valid)
            }
        },
        None => Err(InviteError::NotFound),
    }
}

/// A response edge belongs to the responder (its target), and only the
/// responder may delete it.
pub fn validate_delete_link_invite_to_agent(deleter: &Address, target: &Address) -> (r:
    ValidateCallbackResult)
    ensures
        deleter@ == target@ ==> r is Valid,
        deleter@ != target@ ==> (r matches ValidateCallbackResult::Invalid(m) && m@
            == "Only the agent an edge belongs to can delete it"@),
{
    if deleter.same(target) {
        ValidateCallbackResult::Valid
    } else {
        ValidateCallbackResult::Invalid("Only the agent an edge belongs to can delete it".to_owned())
    }
}

/// A membership edge must start at an invitation.
pub fn validate_create_link_invite_to_members(base: Option<&Invite>) -> (r: Result<
    ValidateCallbackResult,
    InviteError,
>)
    ensures
        base is None ==> r == Err::<ValidateCallbackResult, InviteError>(InviteError::NotFound),
        base is Some ==> r is Ok && r->Ok_0 is Valid,
{
    match base {
        Some(_) => Ok(ValidateCallbackResult::Valid),
        None => Err(InviteError::NotFound),
    }
}

/// Membership edges may be deleted.
pub fn validate_delete_link_invite_to_members() -> (r: ValidateCallbackResult)
    ensures
        r is Valid,
{
    ValidateCallbackResult::Valid
}

/// An edge from an agent to an invitation entry must point at an invitation.
pub fn validate_create_link_agent_to_invites(target: Option<&Invite>) -> (r: Result<
    ValidateCallbackResult,
    InviteError,
>)
    ensures
        target is None ==> r == Err::<ValidateCallbackResult, InviteError>(InviteError::NotFound),
        target is Some ==> r is Ok && r->Ok_0 is Valid,
{
    match target {
        Some(_) => Ok(ValidateCallbackResult::Valid),
        None => Err(InviteError::NotFound),
    }
}

/// Edges from an agent to an invitation entry may be deleted.
pub fn validate_delete_link_agent_to_invites() -> (r: ValidateCallbackResult)
    ensures
        r is Valid,
{
    ValidateCallbackResult::Valid
}

} // verus!
