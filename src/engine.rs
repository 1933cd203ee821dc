use vstd::prelude::*;

use crate::address::{views, Address};
use crate::chain::{
    creation_address, get_creation_action_hash, get_latest_record, lemma_creation, lemma_latest,
    lemma_latest_after_update, lemma_prefix,
};
use crate::store::{creation_of, depth, latest, lemma_original};
use crate::error::InviteError;
use crate::invite::{invite_info, pending_of, Invite, InviteInfo, InviteInfoView, InviteView};
use crate::store::{
    has_record, index_of, live_links, Link, LinkType, LinkView, RecordView, Status, Store,
    StoreView,
};
use crate::store::{link_address, record_address, Record};
use crate::invite::InviteInput;
use crate::address::contains;
use crate::filters::{lemma_filter_keep_all, lemma_filter_keep_none, lemma_filter_same};
use crate::store::{link_selected, lemma_record_address_injective, marked, new_link, store_wf};

verus! {

/// Where each edge points.
pub open spec fn targets(ls: Seq<LinkView>) -> Seq<Seq<u8>> {
    ls.map_values(|l: LinkView| l.target)
}

/// The agents with a live response edge tagged `tag` on the invitation
/// whose creation hash is `first`.
pub open spec fn responders(s: StoreView, first: Seq<u8>, tag: Status) -> Seq<Seq<u8>> {
    targets(live_links(s, first, LinkType::InviteToAgent, Some(tag)))
}

/// The read model built from the body `invite`, the revision `record` and the
/// creation hash `first`.
pub open spec fn info_details(
    s: StoreView,
    invite: InviteView,
    record: RecordView,
    first: Seq<u8>,
) -> InviteInfoView {
    InviteInfoView {
        invitation: invite,
        creation_hash: first,
        timestamp: record.timestamp,
        author: record.author,
        accepted: responders(s, first, Status::Accepted),
        rejected: responders(s, first, Status::Rejected),
        pending: pending_of(
            invite.invitees,
            responders(s, first, Status::Accepted),
            responders(s, first, Status::Rejected),
        ),
    }
}

/// The read model of the revision at `h`, taking `h` as the creation hash.
pub open spec fn info_of(s: StoreView, h: Seq<u8>) -> InviteInfoView {
    info_details(s, s.records[index_of(s, h)].entry, s.records[index_of(s, h)], h)
}

/// Where each of `links` points, in order.
fn link_targets(links: &Vec<Link>) -> (r: Vec<Address>)
    ensures
        views(r@) == targets(links@.map_values(|l: Link| l@)),
{
    let mut out: Vec<Address> = Vec::new();
    let mut i: usize = 0;
    while i < links.len()
        invariant
            i <= links@.len(),
            out@.len() == i,
            forall|k: int| 0 <= k < i ==> #[trigger] out@[k]@ == links@[k].target@,
        decreases links@.len() - i,
    {
        out.push(links[i].target.duplicate());
        i = i + 1;
    }
    assert(views(out@) =~= targets(links@.map_values(|l: Link| l@)));
    out
}

/// The read model of `invite` as written in `invite_record`, with the
/// responses recorded on `first_action_hash`.
pub fn get_invitation_info_details(
    store: &Store,
    invite: &Invite,
    invite_record: &Record,
    first_action_hash: &Address,
) -> (r: Result<InviteInfo, InviteError>)
    ensures
        r is Ok,
        r.unwrap()@ == info_details(store@, invite@, invite_record@, first_action_hash@),
{
    let accepted = store.get_links(first_action_hash, LinkType::InviteToAgent, Some(Status::Accepted));
    let invitees_who_accepted = link_targets(&accepted);
    let rejected = store.get_links(first_action_hash, LinkType::InviteToAgent, Some(Status::Rejected));
    let invitees_who_rejected = link_targets(&rejected);
    Ok(
        invite_info(
            invite,
            first_action_hash,
            invite_record.timestamp,
            &invite_record.author,
            invitees_who_accepted,
            invitees_who_rejected,
        ),
    )
}

/// The read model of the revision at `original_action_hash`, which is taken
/// to be the invitation's creation hash.
pub fn get_invitation_info(store: &Store, original_action_hash: &Address) -> (r: Result<
    InviteInfo,
    InviteError,
>)
    requires
        store.wf(),
    ensures
        !has_record(store@, original_action_hash@) ==> r == Err::<InviteInfo, InviteError>(
            InviteError::NotFound,
        ),
        has_record(store@, original_action_hash@) ==> r is Ok && r.unwrap()@ == info_of(
            store@,
            original_action_hash@,
        ),
{
    let record = match store.get(original_action_hash) {
        Some(record) => record,
        None => return Err(InviteError::NotFound),
    };
    get_invitation_info_details(store, &record.entry, record, original_action_hash)
}

/// The read model of the revision at `update_action_hash`, with the
/// responses recorded on the creation hash of its chain.
pub fn get_invitation_update_info(store: &Store, update_action_hash: &Address) -> (r: Result<
    InviteInfo,
    InviteError,
>)
    requires
        store.wf(),
    ensures
        !has_record(store@, update_action_hash@) ==> r == Err::<InviteInfo, InviteError>(
            InviteError::NotFound,
        ),
        has_record(store@, update_action_hash@) ==> r is Ok && creation_address(
            store@,
            store@.records[index_of(store@, update_action_hash@)],
        ) is Some && r.unwrap()@ == info_details(
            store@,
            store@.records[index_of(store@, update_action_hash@)].entry,
            store@.records[index_of(store@, update_action_hash@)],
            creation_address(store@, store@.records[index_of(store@, update_action_hash@)]).unwrap(),
        ),
{
    let record = match store.get(update_action_hash) {
        Some(record) => record,
        None => return Err(InviteError::NotFound),
    };
    proof {
        let i = index_of(store@, update_action_hash@);
        if let Some(a) = store@.records[i].original {
            lemma_original(store@, i);
        }
    }
    let creation_action_hash = get_creation_action_hash(store, record)?;
    get_invitation_info_details(store, &record.entry, record, &creation_action_hash)
}


/// The positions, below `n`, at which `t` stands in `ts`, in order.
pub open spec fn positions_of(ts: Seq<Seq<u8>>, t: Seq<u8>, n: int) -> Seq<int>
    decreases n,
{
    if n <= 0 {
        Seq::empty()
    } else if ts[n - 1] == t {
        positions_of(ts, t, n - 1).push(n - 1)
    } else {
        positions_of(ts, t, n - 1)
    }
}

/// The positions of the edges among those with targets `targets` that end
/// at `target`, in order.
pub fn edges_ending_at(targets: &Vec<Address>, target: &Address) -> (r: Vec<usize>)
    ensures
        r@.map_values(|i: usize| i as int) == positions_of(
            views(targets@),
            target@,
            targets@.len() as int,
        ),
{
    let mut out: Vec<usize> = Vec::new();
    let mut i: usize = 0;
    while i < targets.len()
        invariant
            i <= targets@.len(),
            out@.map_values(|i: usize| i as int) == positions_of(views(targets@), target@, i as int),
        decreases targets@.len() - i,
    {
        let ghost before = out@;
        assert(views(targets@)[i as int] == targets@[i as int]@);
        if targets[i].same(target) {
            out.push(i);
            assert(out@.map_values(|i: usize| i as int) =~= before.map_values(|i: usize| i as int).push(
                i as int,
            ));
        }
        i = i + 1;
    }
    out
}

/// The read models of the invitations at `hashes`.
pub open spec fn infos_of(s: StoreView, hashes: Seq<Seq<u8>>) -> Seq<InviteInfoView> {
    hashes.map_values(|h: Seq<u8>| info_of(s, h))
}

/// The views of a sequence of read models.
pub open spec fn info_views(v: Seq<InviteInfo>) -> Seq<InviteInfoView> {
    v.map_values(|i: InviteInfo| i@)
}

/// The views of a sequence of edges.
pub open spec fn link_views(v: Seq<Link>) -> Seq<LinkView> {
    v.map_values(|l: Link| l@)
}

/// The read models of the invitations that `links` point at, in order.
pub fn get_invite_info_from_links(store: &Store, links: Vec<Link>) -> (r: Result<
    Vec<InviteInfo>,
    InviteError,
>)
    requires
        store.wf(),
    ensures
        (forall|i: int| 0 <= i < links@.len() ==> has_record(store@, #[trigger] links@[i].target@))
            ==> r is Ok && info_views(r.unwrap()@) == infos_of(store@, targets(link_views(links@))),
        (exists|i: int| 0 <= i < links@.len() && !has_record(store@, #[trigger] links@[i].target@))
            ==> r == Err::<Vec<InviteInfo>, InviteError>(InviteError::NotFound),
{
    let mut invitations: Vec<InviteInfo> = Vec::new();
    let mut i: usize = 0;
    while i < links.len()
        invariant
            store.wf(),
            i <= links@.len(),
            invitations@.len() == i,
            forall|k: int| 0 <= k < i ==> has_record(store@, #[trigger] links@[k].target@),
            forall|k: int|
                0 <= k < i ==> #[trigger] invitations@[k]@ == info_of(store@, links@[k].target@),
        decreases links@.len() - i,
    {
        let info = get_invitation_info(store, &links[i].target)?;
        invitations.push(info);
        i = i + 1;
    }
    assert(info_views(invitations@) =~= infos_of(store@, targets(link_views(links@))));
    Ok(invitations)
}

/// The invitations that `me` has not responded to yet; empty when there
/// are none.
pub fn get_my_pending_invitations(store: &Store, me: &Address) -> (r: Result<
    Vec<InviteInfo>,
    InviteError,
>)
    requires
        store.wf(),
    ensures
        r is Ok,
        info_views(r.unwrap()@) == infos_of(
            store@,
            targets(live_links(store@, me@, LinkType::AgentToInvite, Some(Status::Pending))),
        ),
{
    let links = store.get_links(me, LinkType::AgentToInvite, Some(Status::Pending));
    proof {
        lemma_agent_links_resolve(store@, me@, Some(Status::Pending), link_views(links@));
        assert forall|i: int| 0 <= i < links@.len() implies has_record(
            store@,
            #[trigger] links@[i].target@,
        ) by {
            assert(link_views(links@).len() == links@.len());
            assert(link_views(links@)[i] == links@[i]@);
            assert(has_record(store@, link_views(links@)[i].target));
        }
    }
    get_invite_info_from_links(store, links)
}

/// Every invitation that `me` has an edge to, whatever its tag; empty when
/// there are none.
pub fn get_all_my_invitations(store: &Store, me: &Address) -> (r: Result<
    Vec<InviteInfo>,
    InviteError,
>)
    requires
        store.wf(),
    ensures
        r is Ok,
        info_views(r.unwrap()@) == infos_of(
            store@,
            targets(live_links(store@, me@, LinkType::AgentToInvite, None)),
        ),
{
    let links = store.get_links(me, LinkType::AgentToInvite, None);
    proof {
        lemma_agent_links_resolve(store@, me@, None, link_views(links@));
        assert forall|i: int| 0 <= i < links@.len() implies has_record(
            store@,
            #[trigger] links@[i].target@,
        ) by {
            assert(link_views(links@).len() == links@.len());
            assert(link_views(links@)[i] == links@[i]@);
            assert(has_record(store@, link_views(links@)[i].target));
        }
    }
    get_invite_info_from_links(store, links)
}

/// An agent's live edges all point at revisions.
proof fn lemma_agent_links_resolve(
    s: StoreView,
    agent: Seq<u8>,
    tag: Option<Status>,
    found: Seq<LinkView>,
)
    requires
        store_wf(s),
        found == live_links(s, agent, LinkType::AgentToInvite, tag),
    ensures
        forall|i: int| 0 <= i < found.len() ==> has_record(s, #[trigger] found[i].target),
{
    let p = link_selected(agent, LinkType::AgentToInvite, tag);
    assert forall|i: int| 0 <= i < found.len() implies has_record(s, #[trigger] found[i].target) by {
        s.links.lemma_filter_pred(p, i);
        assert(s.links.filter(p).contains(found[i]));
        s.links.lemma_filter_contains_rev(p, found[i]);
        let k = choose|k: int| 0 <= k < s.links.len() && s.links[k] == found[i];
        assert(s.links[k].link_type == LinkType::AgentToInvite);
    }
}

/// The edge from `base` to `target` written by `author` at position `k` of the log.
pub open spec fn link_at(
    k: int,
    author: Seq<u8>,
    base: Seq<u8>,
    target: Seq<u8>,
    link_type: LinkType,
    tag: Status,
) -> LinkView {
    LinkView {
        address: link_address(k),
        author,
        base,
        target,
        link_type,
        tag,
        deleted: false,
    }
}

/// The edges that creating the invitation at `h` writes from position
/// `start` on: one `Pending` edge from each invitee, then an `Inviter` edge
/// from the author unless the author is invited.
pub open spec fn seeded_links(
    start: int,
    me: Seq<u8>,
    invitees: Seq<Seq<u8>>,
    h: Seq<u8>,
) -> Seq<LinkView> {
    let pending = Seq::new(
        invitees.len(),
        |k: int| link_at(start + k, me, invitees[k], h, LinkType::AgentToInvite, Status::Pending),
    );
    if invitees.contains(me) {
        pending
    } else {
        pending.push(
            link_at(
                start + invitees.len(),
                me,
                me,
                h,
                LinkType::AgentToInvite,
                Status::Inviter,
            ),
        )
    }
}

/// The `Pending` edges that seeding writes from position `start` on, one
/// from each invitee to `h`.
pub open spec fn pending_links(
    start: int,
    me: Seq<u8>,
    invitees: Seq<Seq<u8>>,
    h: Seq<u8>,
) -> Seq<LinkView> {
    Seq::new(
        invitees.len(),
        |k: int| link_at(start + k, me, invitees[k], h, LinkType::AgentToInvite, Status::Pending),
    )
}

/// The agents whose edges creating an invitation seeds, with their tags:
/// each invitee `Pending`, then the author `me` as `Inviter` unless invited.
pub open spec fn seeding(me: Seq<u8>, invitees: Seq<Seq<u8>>) -> Seq<(Seq<u8>, Status)> {
    let pending = invitees.map_values(|a: Seq<u8>| (a, Status::Pending));
    if invitees.contains(me) {
        pending
    } else {
        pending.push((me, Status::Inviter))
    }
}

/// The edges that creating an invitation authored by `me` seeds: where each
/// starts, and its tag.
pub fn seeding_edges(me: &Address, invitees: &Vec<Address>) -> (r: Vec<(Address, Status)>)
    ensures
        r@.map_values(|e: (Address, Status)| (e.0@, e.1)) == seeding(me@, views(invitees@)),
{
    let mut out: Vec<(Address, Status)> = Vec::new();
    let mut i: usize = 0;
    while i < invitees.len()
        invariant
            i <= invitees@.len(),
            out@.len() == i,
            forall|k: int|
                0 <= k < i ==> (#[trigger] out@[k]).0@ == invitees@[k]@ && out@[k].1
                    == Status::Pending,
        decreases invitees@.len() - i,
    {
        out.push((invitees[i].duplicate(), Status::Pending));
        i = i + 1;
    }
    let ghost pending = out@;
    if !contains(invitees, me) {
        out.push((me.duplicate(), Status::Inviter));
    }
    assert(pending.map_values(|e: (Address, Status)| (e.0@, e.1)) =~= views(invitees@).map_values(
        |a: Seq<u8>| (a, Status::Pending),
    ));
    assert(out@.map_values(|e: (Address, Status)| (e.0@, e.1)) =~= seeding(me@, views(invitees@)));
    out
}

/// Writes one `Pending` edge from each invitee to the invitation at
/// `action_hash`.
pub fn seed_pending(store: &mut Store, me: &Address, invitees: &Vec<Address>, action_hash: &Address)
    requires
        old(store).wf(),
        has_record(old(store)@, action_hash@),
        old(store)@.links.len() + invitees@.len() < usize::MAX,
    ensures
        final(store).wf(),
        final(store)@.records == old(store)@.records,
        final(store)@.links == old(store)@.links + pending_links(
            old(store)@.links.len() as int,
            me@,
            views(invitees@),
            action_hash@,
        ),
{
    let ghost s0 = store@;
    let ghost n0 = s0.links.len() as int;
    let ghost inv = views(invitees@);
    let ghost h = action_hash@;
    let mut i: usize = 0;
    while i < invitees.len()
        invariant
            store.wf(),
            i <= invitees@.len(),
            inv == views(invitees@),
            h == action_hash@,
            store@.records == s0.records,
            has_record(s0, h),
            n0 == s0.links.len(),
            store@.links.len() == n0 + i,
            n0 + inv.len() < usize::MAX,
            store@.links == s0.links + pending_links(n0, me@, inv, h).subrange(0, i as int),
        decreases invitees@.len() - i,
    {
        assert(inv[i as int] == invitees@[i as int]@);
        let ghost before = store@;
        let _written = store.create_link(
            me,
            &invitees[i],
            action_hash,
            LinkType::AgentToInvite,
            Status::Pending,
        );
        assert(store@.links =~= s0.links + pending_links(n0, me@, inv, h).subrange(
            0,
            i + 1,
        ));
        i = i + 1;
    }
    assert(pending_links(n0, me@, inv, h).subrange(0, i as int) =~= pending_links(n0, me@, inv, h));
}

/// Writes a new invitation authored by `me` at time `now`, seeds its edges,
/// and returns its read model.
pub fn create_invitation(store: &mut Store, me: &Address, now: i64, input: InviteInput) -> (r:
    Result<InviteInfo, InviteError>)
    requires
        old(store).wf(),
        old(store)@.records.len() < usize::MAX,
        old(store)@.links.len() + input.invitees@.len() + 1 < usize::MAX,
    ensures
        final(store).wf(),
        r is Ok,
        final(store)@.records == old(store)@.records.push(
            RecordView {
                address: record_address(old(store)@.records.len() as int),
                author: me@,
                timestamp: now,
                original: None,
                entry: input.invite_view(),
            },
        ),
        final(store)@.links == old(store)@.links + seeded_links(
            old(store)@.links.len() as int,
            me@,
            views(input.invitees@),
            record_address(old(store)@.records.len() as int),
        ),
        r.unwrap()@ == info_of(final(store)@, record_address(old(store)@.records.len() as int)),
        r.unwrap()@.accepted.len() == 0,
        r.unwrap()@.rejected.len() == 0,
        r.unwrap()@.pending == views(input.invitees@),
{
    let ghost s0 = store@;
    let ghost inv = views(input.invitees@);
    let invitees = crate::address::duplicate_all(&input.invitees);
    let inviter_is_invited = contains(&invitees, me);
    let invitation = input.to_invite();
    let action_hash = store.create_entry(me, now, invitation);
    let ghost s1 = store@;
    let ghost n0 = s0.links.len() as int;
    let ghost h = action_hash@;
    assert(s1.records[s0.records.len() as int].address == h);
    assert(store@.records[s0.records.len() as int].address == h);
    seed_pending(store, me, &invitees, &action_hash);
    let ghost s2 = store@;
    assert(store@.records[s0.records.len() as int].address == h);
    assert(has_record(store@, action_hash@));
    if !inviter_is_invited {
        store.create_link(me, me, &action_hash, LinkType::AgentToInvite, Status::Inviter)?;
        assert(store@.links == s2.links.push(
            link_at(n0 + inv.len(), me@, me@, h, LinkType::AgentToInvite, Status::Inviter),
        ));
    }
    proof {
        let s = store@;
        assert(s.links =~= s0.links + seeded_links(n0, me@, inv, h));
        assert forall|k: int|
            0 <= k < s.links.len() && s.links[k].link_type == LinkType::InviteToAgent
                implies #[trigger] s.links[k].base != record_address(s0.records.len() as int) by {
            if k < n0 {
                assert(s0.links[k] == s.links[k]);
                assert(has_record(s0, s0.links[k].base));
                let j = choose|j: int| 0 <= j < s0.records.len() && s0.records[j].address == s0.links[k].base;
                assert(s0.records[j].address == record_address(j));
                if s.links[k].base == record_address(s0.records.len() as int) {
                    lemma_record_address_injective(j, s0.records.len() as int);
                }
            }
        }
        lemma_fresh_invitation(s, s0.records.len() as int);
    }
    get_invitation_info(store, &action_hash)
}

/// A revision that no response edge starts at has no responders, and all
/// its invitees are pending.
proof fn lemma_fresh_invitation(s: StoreView, n: int)
    requires
        store_wf(s),
        0 <= n < s.records.len(),
        forall|k: int|
            0 <= k < s.links.len() && s.links[k].link_type == LinkType::InviteToAgent
                ==> #[trigger] s.links[k].base != record_address(n),
    ensures
        info_of(s, record_address(n)).accepted.len() == 0,
        info_of(s, record_address(n)).rejected.len() == 0,
        info_of(s, record_address(n)).pending == s.records[n].entry.invitees,
        index_of(s, record_address(n)) == n,
{
    let h = record_address(n);
    assert(s.records[n].address == h);
    let j = index_of(s, h);
    assert(s.records[j].address == record_address(j));
    lemma_record_address_injective(n, j);
    let pa = link_selected(h, LinkType::InviteToAgent, Some(Status::Accepted));
    let pr = link_selected(h, LinkType::InviteToAgent, Some(Status::Rejected));
    assert forall|k: int| 0 <= k < s.links.len() implies !pa(#[trigger] s.links[k]) && !pr(
        s.links[k],
    ) by {
        if s.links[k].link_type == LinkType::InviteToAgent {
            assert(s.links[k].base != h);
        }
    }
    lemma_filter_keep_none(s.links, pa);
    lemma_filter_keep_none(s.links, pr);
    let acc = responders(s, h, Status::Accepted);
    let rej = responders(s, h, Status::Rejected);
    assert(acc =~= Seq::<Seq<u8>>::empty());
    assert(rej =~= Seq::<Seq<u8>>::empty());
    lemma_filter_keep_all(s.records[n].entry.invitees, crate::invite::still_pending(acc, rej));
}

/// Selects the live edges from `agent` to `target` with tag `tag`, where one
/// is given.
pub open spec fn clearing(agent: Seq<u8>, target: Seq<u8>, tag: Option<Status>) -> spec_fn(
    LinkView,
) -> bool {
    |l: LinkView| link_selected(agent, LinkType::AgentToInvite, tag)(l) && l.target == target
}

/// The edge log after deleting the edges that `clearing` selects.
pub open spec fn cleared(
    links: Seq<LinkView>,
    agent: Seq<u8>,
    target: Seq<u8>,
    tag: Option<Status>,
) -> Seq<LinkView> {
    links.map_values(
        |l: LinkView|
            if clearing(agent, target, tag)(l) {
                marked(l)
            } else {
                l
            },
    )
}

/// Deletes every live edge from `agent` to `target` tagged `tag`, or with
/// any tag where none is given.
fn delete_edges(store: &mut Store, agent: &Address, target: &Address, tag: Option<Status>)
    requires
        old(store).wf(),
    ensures
        final(store).wf(),
        final(store)@.records == old(store)@.records,
        final(store)@.links == cleared(old(store)@.links, agent@, target@, tag),
{
    let ghost s0 = store@;
    let ghost p = clearing(agent@, target@, tag);
    let mut i: usize = 0;
    while i < store.links.len()
        invariant
            store.wf(),
            p == clearing(agent@, target@, tag),
            i <= store@.links.len(),
            store@.links.len() == s0.links.len(),
            store@.records == s0.records,
            forall|k: int|
                0 <= k < i ==> #[trigger] store@.links[k] == (if p(s0.links[k]) {
                    marked(s0.links[k])
                } else {
                    s0.links[k]
                }),
            forall|k: int| i <= k < store@.links.len() ==> #[trigger] store@.links[k] == s0.links[k],
        decreases store@.links.len() - i,
    {
        assert(store@.links[i as int] == store.links@[i as int]@);
        let hit = {
            let l = &store.links[i];
            !l.deleted && l.base.same(agent) && l.link_type == LinkType::AgentToInvite
                && match tag {
                Some(t) => l.tag == t,
                None => true,
            } && l.target.same(target)
        };
        if hit {
            let a = store.links[i].address.duplicate();
            let ghost before = store@;
            let deleted = store.delete_link(agent, &a);
            assert(store@.links == before.links.update(i as int, marked(before.links[i as int])));
        }
        i = i + 1;
    }
    assert(store@.links =~= cleared(s0.links, agent@, target@, tag));
}

/// Moves `me`'s own edge to the invitation at `original_action_hash` from
/// `Pending` to `Committed`: deletes the pending edges, then writes the
/// committed one, whose address is returned.
pub fn commit_invitation(store: &mut Store, me: &Address, original_action_hash: &Address) -> (r:
    Result<Address, InviteError>)
    requires
        old(store).wf(),
        old(store)@.links.len() < usize::MAX,
    ensures
        final(store).wf(),
        !has_record(old(store)@, original_action_hash@) ==> r == Err::<Address, InviteError>(
            InviteError::NotFound,
        ),
        has_record(old(store)@, original_action_hash@) ==> r is Ok,
        final(store)@.records == old(store)@.records,
        r is Ok ==> r.unwrap()@ == link_address(old(store)@.links.len() as int)
            && final(store)@.links == cleared(
            old(store)@.links,
            me@,
            original_action_hash@,
            Some(Status::Pending),
        ).push(
            link_at(
                old(store)@.links.len() as int,
                me@,
                me@,
                original_action_hash@,
                LinkType::AgentToInvite,
                Status::Committed,
            ),
        ),
{
    delete_edges(store, me, original_action_hash, Some(Status::Pending));
    store.create_link(
        me,
        me,
        original_action_hash,
        LinkType::AgentToInvite,
        Status::Committed,
    )
}

/// Selects `me`'s live responses to the invitation whose creation hash is `c`.
pub open spec fn withdrawing(c: Seq<u8>, me: Seq<u8>) -> spec_fn(LinkView) -> bool {
    |l: LinkView| link_selected(c, LinkType::InviteToAgent, None)(l) && l.target == me
}

/// The edge log after deleting `me`'s responses to the invitation `c`.
pub open spec fn withdrawn(links: Seq<LinkView>, c: Seq<u8>, me: Seq<u8>) -> Seq<LinkView> {
    links.map_values(
        |l: LinkView|
            if withdrawing(c, me)(l) {
                marked(l)
            } else {
                l
            },
    )
}

/// Deletes every live response of `me` to the invitation `c`.
fn delete_responses(store: &mut Store, me: &Address, c: &Address)
    requires
        old(store).wf(),
    ensures
        final(store).wf(),
        final(store)@.records == old(store)@.records,
        final(store)@.links == withdrawn(old(store)@.links, c@, me@),
{
    let ghost s0 = store@;
    let ghost p = withdrawing(c@, me@);
    let mut i: usize = 0;
    while i < store.links.len()
        invariant
            store.wf(),
            p == withdrawing(c@, me@),
            i <= store@.links.len(),
            store@.links.len() == s0.links.len(),
            store@.records == s0.records,
            forall|k: int|
                0 <= k < i ==> #[trigger] store@.links[k] == (if p(s0.links[k]) {
                    marked(s0.links[k])
                } else {
                    s0.links[k]
                }),
            forall|k: int| i <= k < store@.links.len() ==> #[trigger] store@.links[k] == s0.links[k],
        decreases store@.links.len() - i,
    {
        assert(store@.links[i as int] == store.links@[i as int]@);
        let hit = {
            let l = &store.links[i];
            !l.deleted && l.base.same(c) && l.link_type == LinkType::InviteToAgent
                && l.target.same(me)
        };
        if hit {
            let a = store.links[i].address.duplicate();
            let ghost before = store@;
            let deleted = store.delete_link(me, &a);
            assert(store@.links == before.links.update(i as int, marked(before.links[i as int])));
        }
        i = i + 1;
    }
    assert(store@.links =~= withdrawn(s0.links, c@, me@));
}

/// The creation hash of the chain that the revision at `h` belongs to.
pub open spec fn creation_hash_of(s: StoreView, h: Seq<u8>) -> Seq<u8> {
    record_address(creation_of(s, index_of(s, h)))
}

/// Selects the agents other than `me`.
pub open spec fn is_not(me: Seq<u8>) -> spec_fn(Seq<u8>) -> bool {
    |x: Seq<u8>| x != me
}

/// `agents` without `me`, in order.
pub open spec fn without(agents: Seq<Seq<u8>>, me: Seq<u8>) -> Seq<Seq<u8>> {
    agents.filter(is_not(me))
}

/// The edge log after `me` responds with `status` to the invitation whose
/// creation hash is `c`: `me`'s earlier responses deleted, the new response,
/// `me`'s pending edges deleted, and the committed edge.
pub open spec fn responded(s: StoreView, me: Seq<u8>, c: Seq<u8>, status: Status) -> Seq<LinkView> {
    cleared(
        withdrawn(s.links, c, me).push(
            link_at(s.links.len() as int, me, c, me, LinkType::InviteToAgent, status),
        ),
        me,
        c,
        Some(Status::Pending),
    ).push(
        link_at(s.links.len() as int + 1, me, me, c, LinkType::AgentToInvite, Status::Committed),
    )
}

/// Whether `me` may respond to the invitation that the revision at `h`
/// belongs to: `h` must be a revision, and `me` one of the invitees of the
/// invitation's first revision.
pub open spec fn response_error(s: StoreView, me: Seq<u8>, h: Seq<u8>) -> Option<InviteError> {
    if !has_record(s, h) {
        Some(InviteError::NotFound)
    } else if !s.records[creation_of(s, index_of(s, h))].entry.invitees.contains(me) {
        Some(InviteError::InvalidResponder)
    } else {
        None
    }
}

/// What responding with `status` through the revision at `h` does: the
/// store is untouched on an error; otherwise the response is anchored on the
/// creation hash `c`, replaces `me`'s earlier responses, `me`'s pending edge
/// migrates to committed, and `me` is listed under `status` only.
pub open spec fn response_outcome(
    s0: StoreView,
    s: StoreView,
    me: Seq<u8>,
    h: Seq<u8>,
    status: Status,
    r: Result<Address, InviteError>,
) -> bool {
    match response_error(s0, me, h) {
        Some(e) => r == Err::<Address, InviteError>(e) && s == s0,
        None => {
            let c = creation_hash_of(s0, h);
            &&& r matches Ok(a) && a@ == link_address(s0.links.len() as int + 1)
            &&& s.records == s0.records
            &&& s.links == responded(s0, me, c, status)
            &&& s.links[s0.links.len() as int] == link_at(
                s0.links.len() as int,
                me,
                c,
                me,
                LinkType::InviteToAgent,
                status,
            )
            &&& forall|k: int|
                0 <= k < s.links.len() && link_selected(
                    me,
                    LinkType::AgentToInvite,
                    Some(Status::Pending),
                )(#[trigger] s.links[k]) ==> s.links[k].target != c
            &&& forall|t: Status|
                #[trigger] responders(s, c, t) == if t == status {
                    without(responders(s0, c, t), me).push(me)
                } else {
                    without(responders(s0, c, t), me)
                }
        },
    }
}

/// Records `me`'s response `status` to the invitation that the revision at
/// `original_action_hash` belongs to, anchored on its creation hash; `me`'s
/// earlier responses are deleted first, and `me`'s own edge migrates from
/// `Pending` to `Committed`.
pub fn record_response(
    store: &mut Store,
    me: &Address,
    original_action_hash: &Address,
    status: Status,
) -> (r: Result<Address, InviteError>)
    requires
        old(store).wf(),
        old(store)@.links.len() + 2 < usize::MAX,
    ensures
        final(store).wf(),
        response_outcome(old(store)@, final(store)@, me@, original_action_hash@, status, r),
{
    let ghost s0 = store@;
    let k = match store.find_record(original_action_hash) {
        Some(k) => k,
        None => return Err(InviteError::NotFound),
    };
    proof {
        lemma_creation_address(s0, k as int);
        lemma_creation(s0, k as int);
    }
    assert(s0.records[k as int] == store.records@[k as int]@);
    let creation = get_creation_action_hash(store, &store.records[k])?;
    let ghost ck = creation_of(s0, k as int);
    let ci = match store.find_record(&creation) {
        Some(j) => j,
        None => return Err(InviteError::NotFound),
    };
    proof {
        assert(s0.records[ck].address == record_address(ck));
        assert(s0.records[ci as int].address == record_address(ci as int));
        lemma_record_address_injective(ci as int, ck);
    }
    assert(s0.records[ci as int] == store.records@[ci as int]@);
    if !contains(&store.records[ci].entry.invitees, me) {
        return Err(InviteError::InvalidResponder);
    }
    delete_responses(store, me, &creation);
    let ghost s1 = store@;
    assert(s1.records[ci as int] == s0.records[ci as int]);
    assert(has_record(s1, creation@));
    proof {
        let j = index_of(s1, creation@);
        assert(s1.records[j].address == record_address(j));
        lemma_record_address_injective(j, ck);
    }
    store.create_link(me, &creation, me, LinkType::InviteToAgent, status)?;
    let ghost s2 = store@;
    assert(has_record(s2, creation@)) by {
        assert(s2.records[ci as int] == s0.records[ci as int]);
    }
    let committed = commit_invitation(store, me, &creation);
    proof {
        let s = store@;
        let c = creation@;
        assert(c == creation_hash_of(s0, original_action_hash@));
        assert(s.links =~= responded(s0, me@, c, status));
        assert(s.links[s0.links.len() as int] == s2.links[s0.links.len() as int]);
        assert forall|t: Status| #[trigger] responders(s, c, t) == if t == status {
            without(responders(s0, c, t), me@).push(me@)
        } else {
            without(responders(s0, c, t), me@)
        } by {
            lemma_response_recorded(s0, s1, s2, s, me@, c, status, t);
        }
        assert forall|j: int|
            0 <= j < s.links.len() && link_selected(
                me@,
                LinkType::AgentToInvite,
                Some(Status::Pending),
            )(#[trigger] s.links[j]) implies s.links[j].target != c by {
            if j < s2.links.len() {
                assert(s.links[j] == (if clearing(me@, c, Some(Status::Pending))(s2.links[j]) {
                    marked(s2.links[j])
                } else {
                    s2.links[j]
                }));
            }
        }
    }
    committed
}

/// The first revision of a stored revision's chain stands at the address
/// minted for its position.
proof fn lemma_creation_address(s: StoreView, k: int)
    requires
        store_wf(s),
        0 <= k < s.records.len(),
    ensures
        creation_address(s, s.records[k]) == Some(record_address(creation_of(s, k))),
{
    if let Some(a) = s.records[k].original {
        lemma_original(s, k);
    } else {
        assert(s.records[k].address == record_address(k));
    }
}

/// `me` accepts the invitation that the revision at `original_action_hash`
/// belongs to.
pub fn accept_invitation(store: &mut Store, me: &Address, original_action_hash: &Address) -> (r:
    Result<Address, InviteError>)
    requires
        old(store).wf(),
        old(store)@.links.len() + 2 < usize::MAX,
    ensures
        final(store).wf(),
        response_outcome(
            old(store)@,
            final(store)@,
            me@,
            original_action_hash@,
            Status::Accepted,
            r,
        ),
{
    record_response(store, me, original_action_hash, Status::Accepted)
}

/// `me` rejects the invitation that the revision at `original_action_hash`
/// belongs to.
pub fn reject_invitation(store: &mut Store, me: &Address, original_action_hash: &Address) -> (r:
    Result<Address, InviteError>)
    requires
        old(store).wf(),
        old(store)@.links.len() + 2 < usize::MAX,
    ensures
        final(store).wf(),
        response_outcome(
            old(store)@,
            final(store)@,
            me@,
            original_action_hash@,
            Status::Rejected,
            r,
        ),
{
    record_response(store, me, original_action_hash, Status::Rejected)
}

/// `me` dismisses the invitation at `original_action_hash`: every live edge
/// from `me` to it is deleted, whatever its tag. Nobody else's edges, and no
/// response, change.
pub fn clear_invitation(store: &mut Store, me: &Address, original_action_hash: &Address) -> (r:
    Result<(), InviteError>)
    requires
        old(store).wf(),
    ensures
        final(store).wf(),
        r is Ok,
        final(store)@.records == old(store)@.records,
        final(store)@.links == cleared(old(store)@.links, me@, original_action_hash@, None),
        forall|h: Seq<u8>| #[trigger] info_of(final(store)@, h) == info_of(old(store)@, h),
        forall|k: int|
            0 <= k < final(store)@.links.len() && link_selected(me@, LinkType::AgentToInvite, None)(
                #[trigger] final(store)@.links[k],
            ) ==> final(store)@.links[k].target != original_action_hash@,
{
    let ghost s0 = store@;
    delete_edges(store, me, original_action_hash, None);
    proof {
        let s = store@;
        assert forall|h: Seq<u8>| #[trigger] info_of(s, h) == info_of(s0, h) by {
            lemma_responses_kept(s0, s, me@, original_action_hash@, h, Status::Accepted);
            lemma_responses_kept(s0, s, me@, original_action_hash@, h, Status::Rejected);
        }
        assert forall|k: int|
            0 <= k < s.links.len() && link_selected(me@, LinkType::AgentToInvite, None)(
                #[trigger] s.links[k],
            ) implies s.links[k].target != original_action_hash@ by {
            assert(s.links[k] == (if clearing(me@, original_action_hash@, None)(s0.links[k]) {
                marked(s0.links[k])
            } else {
                s0.links[k]
            }));
        }
    }
    Ok(())
}

/// Writes an edit of the invitation named by `invitation.creation_hash`,
/// authored by `me` at time `now`, on top of the chain's latest revision.
/// Only the author of the invitation may edit it.
pub fn update_invitation(store: &mut Store, me: &Address, now: i64, invitation: InviteInput) -> (r:
    Result<Address, InviteError>)
    requires
        old(store).wf(),
        old(store)@.records.len() < usize::MAX,
    ensures
        final(store).wf(),
        r is Err ==> final(store)@ == old(store)@,
        invitation.creation_hash is None ==> r == Err::<Address, InviteError>(InviteError::NotFound),
        invitation.creation_hash matches Some(h) ==> {
            let s = old(store)@;
            let k = index_of(s, h@);
            &&& !has_record(s, h@) ==> r == Err::<Address, InviteError>(InviteError::NotFound)
            &&& has_record(s, h@) && s.records[creation_of(s, k)].author != me@ ==> r == Err::<
                Address,
                InviteError,
            >(InviteError::AuthorizationError)
            &&& has_record(s, h@) && s.records[creation_of(s, k)].author == me@ ==> {
                &&& r is Ok
                &&& r.unwrap()@ == record_address(s.records.len() as int)
                &&& final(store)@.records == s.records.push(
                    RecordView {
                        address: record_address(s.records.len() as int),
                        author: me@,
                        timestamp: now,
                        original: Some(record_address(latest(s, k))),
                        entry: invitation.invite_view(),
                    },
                )
                &&& final(store)@.links == s.links
                &&& latest(final(store)@, k) == s.records.len()
                &&& creation_of(final(store)@, s.records.len() as int) == creation_of(s, k)
                &&& depth(final(store)@, s.records.len() as int) == depth(s, latest(s, k)) + 1
            }
        },
{
    let hash = match &invitation.creation_hash {
        Some(hash) => hash.duplicate(),
        None => return Err(InviteError::NotFound),
    };
    let last_invite_record = get_latest_record(store, &hash)?;
    let last_address = last_invite_record.address.duplicate();
    let ghost s0 = store@;
    let ghost k = index_of(s0, hash@);
    let ghost l = latest(s0, k);
    proof {
        lemma_latest(s0, k);
        lemma_creation(s0, k);
        assert(s0.records[l].address == record_address(l));
        let j = index_of(s0, last_address@);
        assert(s0.records[j].address == record_address(j));
        lemma_record_address_injective(j, l);
    }
    let updated_invite = invitation.to_invite();
    let update_hash = store.update_entry(me, now, &last_address, updated_invite);
    proof {
        if update_hash is Ok {
            let s2 = store@;
            let n = s0.records.len() as int;
            assert forall|j: int| 0 <= j < n implies s2.records[j] == s0.records[j] by {
                assert(s2.records[j] == s0.records.push(s2.records[n])[j]);
            }
            lemma_latest_after_update(s0, s2, k);
            lemma_prefix(s0, s2, l);
            lemma_original(s2, n);
            lemma_record_address_injective(index_of(s2, record_address(l)), l);
        }
    }
    update_hash
}

/// Deleting an agent's own edges leaves every response in place.
proof fn lemma_responses_kept(
    s0: StoreView,
    s: StoreView,
    agent: Seq<u8>,
    target: Seq<u8>,
    h: Seq<u8>,
    tag: Status,
)
    requires
        s.links == cleared(s0.links, agent, target, None),
    ensures
        responders(s, h, tag) == responders(s0, h, tag),
{
    let p = link_selected(h, LinkType::InviteToAgent, Some(tag));
    assert forall|i: int| 0 <= i < s.links.len() implies p(#[trigger] s.links[i]) == p(s0.links[i])
        && (p(s.links[i]) ==> s.links[i] == s0.links[i]) by {
        assert(s.links[i] == (if clearing(agent, target, None)(s0.links[i]) {
            marked(s0.links[i])
        } else {
            s0.links[i]
        }));
    }
    lemma_filter_same(s.links, s0.links, p);
}

/// Deleting `me`'s responses removes `me` from every list of responders and
/// changes nothing else in them.
proof fn lemma_withdrawn(ls: Seq<LinkView>, c: Seq<u8>, me: Seq<u8>, t: Status)
    ensures
        targets(withdrawn(ls, c, me).filter(link_selected(c, LinkType::InviteToAgent, Some(t))))
            == without(targets(ls.filter(link_selected(c, LinkType::InviteToAgent, Some(t)))), me),
    decreases ls.len(),
{
    let p = link_selected(c, LinkType::InviteToAgent, Some(t));
    if ls.len() == 0 {
        reveal(Seq::filter);
        assert(withdrawn(ls, c, me) =~= ls);
        assert(targets(ls.filter(p)) =~= Seq::<Seq<u8>>::empty());
    } else {
        let init = ls.drop_last();
        let l = ls.last();
        lemma_withdrawn(init, c, me, t);
        let w = if withdrawing(c, me)(l) {
            marked(l)
        } else {
            l
        };
        assert(withdrawn(ls, c, me) =~= withdrawn(init, c, me).push(w));
        assert(ls =~= init.push(l));
        withdrawn(init, c, me).lemma_filter_push(w, p);
        init.lemma_filter_push(l, p);
        let before = targets(init.filter(p));
        before.lemma_filter_push(l.target, is_not(me));
        assert(targets(init.filter(p).push(l)) =~= before.push(l.target));
        assert(targets(withdrawn(init, c, me).filter(p).push(w)) =~= targets(
            withdrawn(init, c, me).filter(p),
        ).push(w.target));
    }
}

/// Recording a response lists the responder under its tag only, once.
proof fn lemma_response_recorded(
    s0: StoreView,
    s1: StoreView,
    s2: StoreView,
    s: StoreView,
    me: Seq<u8>,
    c: Seq<u8>,
    status: Status,
    t: Status,
)
    requires
        s1.links == withdrawn(s0.links, c, me),
        s2.links == s1.links.push(
            link_at(s0.links.len() as int, me, c, me, LinkType::InviteToAgent, status),
        ),
        s.links == cleared(s2.links, me, c, Some(Status::Pending)).push(
            link_at(s2.links.len() as int, me, me, c, LinkType::AgentToInvite, Status::Committed),
        ),
    ensures
        responders(s, c, t) == if t == status {
            without(responders(s0, c, t), me).push(me)
        } else {
            without(responders(s0, c, t), me)
        },
{
    let p = link_selected(c, LinkType::InviteToAgent, Some(t));
    let mid = cleared(s2.links, me, c, Some(Status::Pending));
    let resp = link_at(s0.links.len() as int, me, c, me, LinkType::InviteToAgent, status);
    let committed = link_at(
        s2.links.len() as int,
        me,
        me,
        c,
        LinkType::AgentToInvite,
        Status::Committed,
    );
    assert forall|i: int| 0 <= i < mid.len() implies p(#[trigger] mid[i]) == p(s2.links[i]) && (p(
        mid[i],
    ) ==> mid[i] == s2.links[i]) by {
        assert(mid[i] == (if clearing(me, c, Some(Status::Pending))(s2.links[i]) {
            marked(s2.links[i])
        } else {
            s2.links[i]
        }));
    }
    lemma_filter_same(mid, s2.links, p);
    mid.lemma_filter_push(committed, p);
    s1.links.lemma_filter_push(resp, p);
    lemma_withdrawn(s0.links, c, me, t);
    assert(targets(s1.links.filter(p).push(resp)) =~= targets(s1.links.filter(p)).push(me));
}
} // verus!
