use vstd::prelude::*;

use crate::address::{contains, views, Address};
use crate::error::InviteError;
use crate::store::{
    creation_of, depth, has_record, index_of, is_update_of, last_update, last_update_before,
    latest, lemma_last_update_before, lemma_original, lemma_record_address_injective,
    lemma_update_is_later, record_address, store_wf, ActionKind, Record, RecordView, Store,
    StoreView,
};

verus! {

/// Following last edits from a revision never goes back, stays in the same
/// chain, reaches a revision by the same author, and never ends closer to the
/// chain's first revision than it started.
pub proof fn lemma_latest(s: StoreView, i: int)
    requires
        store_wf(s),
        0 <= i < s.records.len(),
    ensures
        i <= latest(s, i) < s.records.len(),
        last_update(s, latest(s, i)) is None,
        creation_of(s, latest(s, i)) == creation_of(s, i),
        s.records[latest(s, i)].author == s.records[i].author,
        depth(s, latest(s, i)) >= depth(s, i),
    decreases s.records.len() - i,
{
    lemma_last_update_before(s, i, s.records.len() as int);
    if let Some(j) = last_update(s, i) {
        lemma_update_is_later(s, i, j);
        lemma_original(s, j);
        lemma_latest(s, j);
    }
}

/// The first revision of a chain is a creation, written by the author of
/// every revision of the chain.
pub proof fn lemma_creation(s: StoreView, i: int)
    requires
        store_wf(s),
        0 <= i < s.records.len(),
    ensures
        0 <= creation_of(s, i) <= i,
        s.records[creation_of(s, i)].original is None,
        s.records[creation_of(s, i)].author == s.records[i].author,
        depth(s, creation_of(s, i)) == 0,
    decreases i,
{
    if let Some(a) = s.records[i].original {
        lemma_original(s, i);
        lemma_creation(s, index_of(s, a));
    }
}

/// The resolution law of update chains: for any revision `h`, the latest
/// revision reached from the first revision of its chain lies at least as
/// deep in the chain as that first revision, is a revision of the same chain,
/// and lies at least as deep as `h` itself.
pub proof fn lemma_resolution_monotone(s: StoreView, h: int)
    requires
        store_wf(s),
        0 <= h < s.records.len(),
    ensures
        depth(s, latest(s, creation_of(s, h))) >= depth(s, creation_of(s, h)),
        creation_of(s, latest(s, creation_of(s, h))) == creation_of(s, h),
        depth(s, latest(s, h)) >= depth(s, h),
{
    lemma_creation(s, h);
    lemma_latest(s, creation_of(s, h));
    lemma_latest(s, h);
}

/// No revision of `s` was edited twice.
pub open spec fn unforked(s: StoreView) -> bool {
    forall|i: int, j1: int, j2: int|
        0 <= i < s.records.len() && 0 <= j1 < s.records.len() && 0 <= j2 < s.records.len()
            && #[trigger] is_update_of(s, j1, i) && #[trigger] is_update_of(s, j2, i) ==> j1 == j2
}

/// On a chain without forks, resolving the latest revision from the chain's
/// first revision reaches the same revision as resolving it from any
/// revision `h` of the chain, and so lies at least as deep as `h`.
pub proof fn lemma_unforked_resolution(s: StoreView, h: int)
    requires
        store_wf(s),
        unforked(s),
        0 <= h < s.records.len(),
    ensures
        latest(s, creation_of(s, h)) == latest(s, h),
        depth(s, latest(s, creation_of(s, h))) >= depth(s, h),
    decreases h,
{
    lemma_latest(s, h);
    if let Some(a) = s.records[h].original {
        lemma_original(s, h);
        let j = index_of(s, a);
        lemma_unforked_resolution(s, j);
        assert(s.records[j].address == record_address(j));
        assert(is_update_of(s, h, j));
        lemma_last_update_before(s, j, s.records.len() as int);
        let k = last_update(s, j).unwrap();
        assert(is_update_of(s, k, j));
        assert(k == h);
        assert(latest(s, j) == latest(s, h));
    }
}

/// Appending a revision changes nothing about the chains of the revisions
/// that were there before.
pub proof fn lemma_prefix(s: StoreView, s2: StoreView, i: int)
    requires
        store_wf(s),
        store_wf(s2),
        s.records.len() <= s2.records.len(),
        forall|j: int| 0 <= j < s.records.len() ==> s2.records[j] == s.records[j],
        0 <= i < s.records.len(),
    ensures
        creation_of(s2, i) == creation_of(s, i),
        depth(s2, i) == depth(s, i),
    decreases i,
{
    if let Some(a) = s.records[i].original {
        assert(s2.records[i] == s.records[i]);
        lemma_original(s, i);
        lemma_original(s2, i);
        lemma_record_address_injective(index_of(s, a), index_of(s2, a));
        lemma_prefix(s, s2, index_of(s, a));
    } else {
        assert(s2.records[i] == s.records[i]);
    }
}

/// The last edit below `m` does not change when revisions are appended.
proof fn lemma_last_update_prefix(s: StoreView, s2: StoreView, i: int, m: int)
    requires
        s.records.len() <= s2.records.len(),
        forall|j: int| 0 <= j < s.records.len() ==> s2.records[j] == s.records[j],
        0 <= i < s.records.len(),
        0 <= m <= s.records.len(),
    ensures
        last_update_before(s2, i, m) == last_update_before(s, i, m),
    decreases m,
{
    if m > 0 {
        assert(s2.records[m - 1] == s.records[m - 1]);
        assert(s2.records[i] == s.records[i]);
        lemma_last_update_prefix(s, s2, i, m - 1);
    }
}

/// After an edit of the latest revision of a chain is appended, following
/// last edits from any revision of that chain leads to the new revision.
pub proof fn lemma_latest_after_update(s: StoreView, s2: StoreView, i: int)
    requires
        store_wf(s),
        store_wf(s2),
        s2.records.len() == s.records.len() + 1,
        forall|j: int| 0 <= j < s.records.len() ==> s2.records[j] == s.records[j],
        0 <= i < s.records.len(),
        s2.records[s.records.len() as int].original == Some(record_address(latest(s, i))),
    ensures
        latest(s2, i) == s.records.len(),
    decreases s.records.len() - i,
{
    let n = s.records.len() as int;
    lemma_latest(s, i);
    lemma_last_update_prefix(s, s2, i, n);
    assert(s2.records[i] == s.records[i]);
    assert(s.records[i].address == record_address(i));
    lemma_last_update_before(s, i, n);
    // nothing edits the new revision
    assert forall|k: int| 0 <= k < n + 1 implies !is_update_of(s2, k, n) by {
        assert(s2.records[n].address == record_address(n));
        if is_update_of(s2, k, n) {
            lemma_original(s2, k);
            lemma_record_address_injective(index_of(s2, s2.records[k].original.unwrap()), n);
        }
    }
    lemma_last_update_before(s2, n, n + 1);
    assert(last_update(s2, n) is None);
    assert(latest(s2, n) == n);
    match last_update(s, i) {
        Some(j) => {
            lemma_update_is_later(s, i, j);
            lemma_latest(s, j);
            if is_update_of(s2, n, i) {
                lemma_record_address_injective(latest(s, i), i);
            }
            assert(!is_update_of(s2, n, i));
            assert(last_update_before(s2, i, n + 1) == last_update_before(s2, i, n));
            assert(last_update(s2, i) == Some(j));
            lemma_latest_after_update(s, s2, j);
            assert(latest(s2, i) == latest(s2, j));
        },
        None => {
            assert(is_update_of(s2, n, i));
            assert(last_update(s2, i) == Some(n));
            assert(latest(s2, i) == latest(s2, n));
        },
    }
}

/// The newest revision of the invitation that `hash` belongs to, found by
/// following the last edit of each revision.
pub fn get_latest_record<'a>(store: &'a Store, hash: &Address) -> (r: Result<&'a Record, InviteError>)
    requires
        store.wf(),
    ensures
        !has_record(store@, hash@) ==> r == Err::<&Record, InviteError>(InviteError::NotFound),
        has_record(store@, hash@) ==> r is Ok && r.unwrap()@ == store@.records[latest(
            store@,
            index_of(store@, hash@),
        )],
{
    let mut k = match store.find_record(hash) {
        Some(k) => k,
        None => return Err(InviteError::NotFound),
    };
    let ghost k0 = k as int;
    loop
        invariant
            store.wf(),
            k < store@.records.len(),
            has_record(store@, hash@),
            k0 == index_of(store@, hash@),
            latest(store@, k as int) == latest(store@, k0),
        decreases store@.records.len() - k,
    {
        match store.last_update(k) {
            Some(j) => {
                proof {
                    lemma_last_update_before(store@, k as int, store@.records.len() as int);
                    lemma_update_is_later(store@, k as int, j as int);
                }
                k = j;
            },
            None => {
                assert(store@.records[k as int] == store.records@[k as int]@);
                return Ok(&store.records[k]);
            },
        }
    }
}

/// The address at which the first revision of `record`'s chain stands.
pub open spec fn creation_address(s: StoreView, record: RecordView) -> Option<Seq<u8>> {
    match record.original {
        None => Some(record.address),
        Some(a) => if has_record(s, a) {
            Some(record_address(creation_of(s, index_of(s, a))))
        } else {
            None
        },
    }
}

/// The creation hash of the chain that `invite_record` belongs to, found by
/// following each edit back to what it edits.
pub fn get_creation_action_hash(store: &Store, invite_record: &Record) -> (r: Result<
    Address,
    InviteError,
>)
    requires
        store.wf(),
    ensures
        creation_address(store@, invite_record@) matches Some(a) ==> r is Ok && r.unwrap()@ == a,
        creation_address(store@, invite_record@) is None ==> r == Err::<Address, InviteError>(
            InviteError::NotFound,
        ),
{
    let first = match &invite_record.kind {
        ActionKind::Create => return Ok(invite_record.address.duplicate()),
        ActionKind::Update { original } => original,
    };
    let mut k = match store.find_record(first) {
        Some(k) => k,
        None => return Err(InviteError::NotFound),
    };
    let ghost k0 = k as int;
    loop
        invariant
            store.wf(),
            k < store@.records.len(),
            0 <= k0 < store@.records.len(),
            invite_record@.original == Some(first@),
            has_record(store@, first@),
            k0 == index_of(store@, first@),
            creation_of(store@, k as int) == creation_of(store@, k0),
        decreases k,
    {
        assert(store@.records[k as int] == store.records@[k as int]@);
        match &store.records[k].kind {
            ActionKind::Create => {
                assert(store@.records[k as int].address == record_address(k as int));
                return Ok(store.records[k].address.duplicate());
            },
            ActionKind::Update { original } => {
                proof {
                    lemma_original(store@, k as int);
                }
                k = match store.find_record(original) {
                    Some(j) => j,
                    None => return Err(InviteError::NotFound),
                };
            },
        }
    }
}


/// What looking up a revision's details found.
#[derive(Debug, Clone)]
pub enum Found {
    /// Nothing at that hash.
    Missing,
    /// An entry rather than a revision.
    EntryOnly,
    /// A revision, with the hashes of the edits of it in the order the store
    /// lists them.
    Revision { updates: Vec<Address> },
}

/// What a revision is, for walking back to its chain's first revision.
#[derive(Debug, Clone)]
pub enum Back {
    Create,
    Update { original: Address },
    /// Any other kind of write.
    Other,
}

/// The next move of a walk along an update chain.
#[derive(Debug, Clone)]
pub enum Next {
    /// Look up this hash next.
    Follow(Address),
    /// The revision just looked up is the one sought.
    Stop,
    /// The walk ends at this hash.
    Done(Address),
    /// The walk fails.
    Fail(InviteError),
}

/// One step of the walk to the latest revision: `found` is what the lookup
/// of the current hash gave, `first` whether it was the walk's first lookup,
/// `visited` the hashes looked up so far. The last edit is followed unless it
/// was already visited, which only an inconsistent chain allows.
pub fn latest_step(first: bool, found: &Found, visited: &Vec<Address>) -> (r: Next)
    ensures
        found is Missing ==> (r matches Next::Fail(e) && e == (if first {
            InviteError::NotFound
        } else {
            InviteError::Malformed
        })),
        found is EntryOnly ==> (r matches Next::Fail(e) && e == InviteError::Malformed),
        found matches Found::Revision { updates } ==> {
            &&& updates@.len() == 0 ==> r is Stop
            &&& updates@.len() > 0 && views(visited@).contains(updates@.last()@) ==> (r matches Next::Fail(e)
                && e == InviteError::Malformed)
            &&& updates@.len() > 0 && !views(visited@).contains(updates@.last()@) ==> (r matches Next::Follow(a)
                && a@ == updates@.last()@)
        },
{
    match found {
        Found::Missing => if first {
            Next::Fail(InviteError::NotFound)
        } else {
            Next::Fail(InviteError::Malformed)
        },
        Found::EntryOnly => Next::Fail(InviteError::Malformed),
        Found::Revision { updates } => {
            if updates.len() == 0 {
                Next::Stop
            } else {
                let last = &updates[updates.len() - 1];
                if contains(visited, last) {
                    Next::Fail(InviteError::Malformed)
                } else {
                    Next::Follow(last.duplicate())
                }
            }
        },
    }
}

/// One step of the walk back to a chain's first revision, from the revision
/// `action` at `address`: a creation ends the walk, an edit leads to what it
/// edits, anything else is an inconsistent chain.
pub fn creation_step(action: &Back, address: &Address) -> (r: Next)
    ensures
        action is Create ==> (r matches Next::Done(a) && a@ == address@),
        action matches Back::Update { original } ==> (r matches Next::Follow(a) && a@
            == original@),
        action is Other ==> (r matches Next::Fail(e) && e == InviteError::Malformed),
{
    match action {
        Back::Create => Next::Done(address.duplicate()),
        Back::Update { original } => Next::Follow(original.duplicate()),
        Back::Other => Next::Fail(InviteError::Malformed),
    }
}
} // verus!
