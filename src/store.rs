use vstd::prelude::*;

use crate::address::{views, Address};
use crate::error::InviteError;
use crate::invite::{Invite, InviteView};
use crate::validation::{
    validate_create_link_agent_to_invite, validate_create_link_invite_to_agent,
    validate_delete_link_agent_to_invite, validate_delete_link_invite_to_agent,
    validate_update_invite, ValidateCallbackResult,
};

verus! {

/// The status carried by the tag of an edge between an agent and an invitation.
#[derive(Debug, Clone, Copy, PartialEq, Eq, Structural)]
pub enum Status {
    Pending,
    Inviter,
    Accepted,
    Rejected,
    Committed,
}

/// The text of the tag that carries each status.
pub open spec fn tag_text(s: Status) -> Seq<char> {
    match s {
        Status::Pending => "pending"@,
        Status::Inviter => "inviter"@,
        Status::Accepted => "accepted"@,
        Status::Rejected => "rejected"@,
        Status::Committed => "committed"@,
    }
}

impl Status {
    /// The text of the tag that carries this status.
    pub fn tag(&self) -> (r: &'static str)
        ensures
            r@ == tag_text(*self),
    {
        match self {
            Status::Pending => "pending",
            Status::Inviter => "inviter",
            Status::Accepted => "accepted",
            Status::Rejected => "rejected",
            Status::Committed => "committed",
        }
    }

    /// Every status, in the order of the tags' declaration.
    pub fn all() -> (r: Vec<Status>)
        ensures
            r@ == seq![
                Status::Pending,
                Status::Inviter,
                Status::Accepted,
                Status::Rejected,
                Status::Committed,
            ],
    {
        let r = vec![
            Status::Pending,
            Status::Inviter,
            Status::Accepted,
            Status::Rejected,
            Status::Committed,
        ];
        assert(r@ =~= seq![
            Status::Pending,
            Status::Inviter,
            Status::Accepted,
            Status::Rejected,
            Status::Committed,
        ]);
        r
    }
}

/// The two kinds of edges: from an agent to an invitation (the agent's own
/// list), and from an invitation to an agent (a response).
#[derive(Debug, Clone, Copy, PartialEq, Eq, Structural)]
pub enum LinkType {
    AgentToInvite,
    InviteToAgent,
}

/// How a revision came to be: as the first write of an invitation, or as an
/// edit of the revision at `original`.
#[derive(Debug, Clone)]
pub enum ActionKind {
    Create,
    Update { original: Address },
}

/// One immutable revision of an invitation.
#[derive(Debug, Clone)]
pub struct Record {
    pub address: Address,
    pub author: Address,
    pub timestamp: i64,
    pub kind: ActionKind,
    pub entry: Invite,
}

/// A revision as contracts see it.
pub ghost struct RecordView {
    pub address: Seq<u8>,
    pub author: Seq<u8>,
    pub timestamp: i64,
    pub original: Option<Seq<u8>>,
    pub entry: InviteView,
}

impl View for Record {
    type V = RecordView;

    open spec fn view(&self) -> RecordView {
        RecordView {
            address: self.address@,
            author: self.author@,
            timestamp: self.timestamp,
            original: match self.kind {
                ActionKind::Create => None,
                ActionKind::Update { original } => Some(original@),
            },
            entry: self.entry@,
        }
    }
}

/// One tagged edge; a deleted edge stays in the log, marked.
#[derive(Debug, Clone)]
pub struct Link {
    pub address: Address,
    pub author: Address,
    pub base: Address,
    pub target: Address,
    pub link_type: LinkType,
    pub tag: Status,
    pub deleted: bool,
}

/// An edge as contracts see it.
pub ghost struct LinkView {
    pub address: Seq<u8>,
    pub author: Seq<u8>,
    pub base: Seq<u8>,
    pub target: Seq<u8>,
    pub link_type: LinkType,
    pub tag: Status,
    pub deleted: bool,
}

impl View for Link {
    type V = LinkView;

    open spec fn view(&self) -> LinkView {
        LinkView {
            address: self.address@,
            author: self.author@,
            base: self.base@,
            target: self.target@,
            link_type: self.link_type,
            tag: self.tag,
            deleted: self.deleted,
        }
    }
}

/// An in-memory append-only store of invitation revisions and edges, with
/// the semantics of the shared store the engine runs on: writes are
/// validated, revisions are never changed, edges are only marked deleted.
///
/// Its addresses are synthetic: a kind byte between two fixed bytes, then the
/// position of the write in its log, little-endian.
pub struct Store {
    pub records: Vec<Record>,
    pub links: Vec<Link>,
}

/// A store as contracts see it: its revisions and its edge log.
pub ghost struct StoreView {
    pub records: Seq<RecordView>,
    pub links: Seq<LinkView>,
}

impl View for Store {
    type V = StoreView;

    open spec fn view(&self) -> StoreView {
        StoreView {
            records: self.records@.map_values(|r: Record| r@),
            links: self.links@.map_values(|l: Link| l@),
        }
    }
}

/// Byte `k` of `n`, least significant first.
pub open spec fn byte_of(n: u64, k: u64) -> u8 {
    ((n >> (8 * k)) & 0xff) as u8
}

/// The address of the `n`th write of kind `kind`.
pub open spec fn minted(kind: u8, n: u64) -> Seq<u8> {
    seq![
        0x84u8,
        kind,
        0x24u8,
        byte_of(n, 0),
        byte_of(n, 1),
        byte_of(n, 2),
        byte_of(n, 3),
        byte_of(n, 4),
        byte_of(n, 5),
        byte_of(n, 6),
        byte_of(n, 7),
    ]
}

/// The kind byte of a revision's address.
pub const RECORD_KIND: u8 = 0x29;

/// The kind byte of an edge's address.
pub const LINK_KIND: u8 = 0x2a;

/// The address of the revision at position `i`.
pub open spec fn record_address(i: int) -> Seq<u8> {
    minted(RECORD_KIND, i as u64)
}

/// The address of the edge at position `i`.
pub open spec fn link_address(i: int) -> Seq<u8> {
    minted(LINK_KIND, i as u64)
}

/// Distinct writes get distinct addresses.
pub proof fn lemma_minted_injective(k1: u8, a: u64, k2: u8, b: u64)
    requires
        minted(k1, a) == minted(k2, b),
    ensures
        k1 == k2,
        a == b,
{
    assert(minted(k1, a)[1] == minted(k2, b)[1]);
    assert(minted(k1, a)[3] == minted(k2, b)[3]);
    assert(minted(k1, a)[4] == minted(k2, b)[4]);
    assert(minted(k1, a)[5] == minted(k2, b)[5]);
    assert(minted(k1, a)[6] == minted(k2, b)[6]);
    assert(minted(k1, a)[7] == minted(k2, b)[7]);
    assert(minted(k1, a)[8] == minted(k2, b)[8]);
    assert(minted(k1, a)[9] == minted(k2, b)[9]);
    assert(minted(k1, a)[10] == minted(k2, b)[10]);
    assert(a == b) by (bit_vector)
        requires
            ((a >> 0) & 0xff) as u8 == ((b >> 0) & 0xff) as u8,
            ((a >> 8) & 0xff) as u8 == ((b >> 8) & 0xff) as u8,
            ((a >> 16) & 0xff) as u8 == ((b >> 16) & 0xff) as u8,
            ((a >> 24) & 0xff) as u8 == ((b >> 24) & 0xff) as u8,
            ((a >> 32) & 0xff) as u8 == ((b >> 32) & 0xff) as u8,
            ((a >> 40) & 0xff) as u8 == ((b >> 40) & 0xff) as u8,
            ((a >> 48) & 0xff) as u8 == ((b >> 48) & 0xff) as u8,
            ((a >> 56) & 0xff) as u8 == ((b >> 56) & 0xff) as u8,
    ;
}

/// Distinct positions give distinct revision addresses.
pub proof fn lemma_record_address_injective(i: int, j: int)
    requires
        0 <= i <= u64::MAX,
        0 <= j <= u64::MAX,
        record_address(i) == record_address(j),
    ensures
        i == j,
{
    lemma_minted_injective(RECORD_KIND, i as u64, RECORD_KIND, j as u64);
}

/// Distinct positions give distinct edge addresses.
pub proof fn lemma_link_address_injective(i: int, j: int)
    requires
        0 <= i <= u64::MAX,
        0 <= j <= u64::MAX,
        link_address(i) == link_address(j),
    ensures
        i == j,
{
    lemma_minted_injective(LINK_KIND, i as u64, LINK_KIND, j as u64);
}

/// The address of the `n`th write of kind `kind`.
fn mint(kind: u8, n: u64) -> (r: Address)
    ensures
        r@ == minted(kind, n),
{
    let mut bytes: Vec<u8> = Vec::with_capacity(11);
    bytes.push(0x84);
    bytes.push(kind);
    bytes.push(0x24);
    bytes.push(((n >> 0) & 0xff) as u8);
    bytes.push(((n >> 8) & 0xff) as u8);
    bytes.push(((n >> 16) & 0xff) as u8);
    bytes.push(((n >> 24) & 0xff) as u8);
    bytes.push(((n >> 32) & 0xff) as u8);
    bytes.push(((n >> 40) & 0xff) as u8);
    bytes.push(((n >> 48) & 0xff) as u8);
    bytes.push(((n >> 56) & 0xff) as u8);
    assert(bytes@ =~= minted(kind, n));
    Address { bytes }
}

/// Whether some revision of `s` has address `a`.
pub open spec fn has_record(s: StoreView, a: Seq<u8>) -> bool {
    exists|i: int| 0 <= i < s.records.len() && s.records[i].address == a
}

/// The position of the revision with address `a` among `records`.
pub open spec fn index_in(records: Seq<RecordView>, a: Seq<u8>) -> int {
    choose|i: int| 0 <= i < records.len() && records[i].address == a
}

/// The position of the revision with address `a`.
pub open spec fn index_of(s: StoreView, a: Seq<u8>) -> int {
    index_in(s.records, a)
}

/// The well-formedness of a store: addresses are those minted for each
/// position, an edit points at an earlier revision by the same author, a
/// response edge starts at a revision and an agent's edge ends at one.
pub open spec fn store_wf(s: StoreView) -> bool {
    &&& s.records.len() <= u64::MAX
    &&& s.links.len() <= u64::MAX
    &&& forall|i: int| 0 <= i < s.records.len() ==> #[trigger] s.records[i].address == record_address(i)
    &&& forall|i: int| 0 <= i < s.links.len() ==> #[trigger] s.links[i].address == link_address(i)
    &&& forall|i: int|
        0 <= i < s.records.len() && (#[trigger] s.records[i]).original is Some ==> exists|j: int|
            0 <= j < i && s.records[i].original == Some(record_address(j)) && s.records[j].author
                == s.records[i].author
    &&& forall|i: int|
        0 <= i < s.links.len() && (#[trigger] s.links[i]).link_type == LinkType::InviteToAgent
            ==> has_record(s, s.links[i].base)
    &&& forall|i: int|
        0 <= i < s.links.len() && (#[trigger] s.links[i]).link_type == LinkType::AgentToInvite
            ==> has_record(s, s.links[i].target)
}

impl Store {
    /// The store is well formed.
    pub open spec fn wf(&self) -> bool {
        store_wf(self@)
    }

    /// An empty store.
    pub fn new() -> (r: Store)
        ensures
            r.wf(),
            r@.records.len() == 0,
            r@.links.len() == 0,
    {
        let r = Store { records: Vec::new(), links: Vec::new() };
        assert(r@.records =~= Seq::<RecordView>::empty());
        assert(r@.links =~= Seq::<LinkView>::empty());
        r
    }

    /// The position of the revision with address `a`.
    pub fn find_record(&self, a: &Address) -> (r: Option<usize>)
        requires
            self.wf(),
        ensures
            r is None <==> !has_record(self@, a@),
            r is Some ==> r.unwrap() < self@.records.len() && r.unwrap() == index_of(self@, a@)
                && self@.records[r.unwrap() as int].address == a@,
    {
        let mut i: usize = 0;
        while i < self.records.len()
            invariant
                self.wf(),
                i <= self@.records.len(),
                self@.records.len() == self.records@.len(),
                forall|k: int| 0 <= k < i ==> self@.records[k].address != a@,
            decreases self.records@.len() - i,
        {
            assert(self@.records[i as int] == self.records@[i as int]@);
            if self.records[i].address.same(a) {
                proof {
                    let j = index_of(self@, a@);
                    assert(has_record(self@, a@));
                    assert(self@.records[j].address == record_address(j));
                    assert(self@.records[i as int].address == record_address(i as int));
                    lemma_record_address_injective(i as int, j);
                }
                return Some(i);
            }
            i = i + 1;
        }
        None
    }

    /// The revision with address `a`, if there is one.
    pub fn get(&self, a: &Address) -> (r: Option<&Record>)
        requires
            self.wf(),
        ensures
            r is None <==> !has_record(self@, a@),
            r is Some ==> r.unwrap()@ == self@.records[index_of(self@, a@)],
    {
        match self.find_record(a) {
            Some(i) => Some(&self.records[i]),
            None => None,
        }
    }
}


impl Link {
    /// A fresh copy of this edge.
    pub fn duplicate(&self) -> (r: Link)
        ensures
            r@ == self@,
    {
        Link {
            address: self.address.duplicate(),
            author: self.author.duplicate(),
            base: self.base.duplicate(),
            target: self.target.duplicate(),
            link_type: self.link_type,
            tag: self.tag,
            deleted: self.deleted,
        }
    }
}

/// Whether revision `j` is an edit of revision `i`.
pub open spec fn is_update_of(s: StoreView, j: int, i: int) -> bool {
    s.records[j].original == Some(s.records[i].address)
}

/// The last edit of revision `i` among the first `n` revisions.
pub open spec fn last_update_before(s: StoreView, i: int, n: int) -> Option<int>
    decreases n,
{
    if n <= 0 {
        None
    } else if is_update_of(s, n - 1, i) {
        Some(n - 1)
    } else {
        last_update_before(s, i, n - 1)
    }
}

/// The last edit of revision `i`, if it was edited.
pub open spec fn last_update(s: StoreView, i: int) -> Option<int> {
    last_update_before(s, i, s.records.len() as int)
}

/// The revision reached from revision `i` by following last edits until a
/// revision that nobody edited.
pub open spec fn latest(s: StoreView, i: int) -> int
    decreases s.records.len() - i,
{
    if 0 <= i < s.records.len() {
        match last_update(s, i) {
            Some(j) => if i < j < s.records.len() {
                latest(s, j)
            } else {
                i
            },
            None => i,
        }
    } else {
        i
    }
}

/// The first revision of the chain that revision `i` belongs to.
pub open spec fn creation_of(s: StoreView, i: int) -> int
    decreases i,
{
    if 0 <= i < s.records.len() {
        match s.records[i].original {
            Some(a) => {
                let j = index_of(s, a);
                if 0 <= j < i {
                    creation_of(s, j)
                } else {
                    i
                }
            },
            None => i,
        }
    } else {
        i
    }
}

/// The number of edits between the first revision of the chain and revision `i`.
pub open spec fn depth(s: StoreView, i: int) -> nat
    decreases i,
{
    if 0 <= i < s.records.len() {
        match s.records[i].original {
            Some(a) => {
                let j = index_of(s, a);
                if 0 <= j < i {
                    depth(s, j) + 1
                } else {
                    0
                }
            },
            None => 0,
        }
    } else {
        0
    }
}

/// In a well-formed store, an edit comes after what it edits, and the
/// position of what it edits is found by its address.
pub proof fn lemma_original(s: StoreView, i: int)
    requires
        store_wf(s),
        0 <= i < s.records.len(),
        s.records[i].original is Some,
    ensures
        has_record(s, s.records[i].original.unwrap()),
        0 <= index_of(s, s.records[i].original.unwrap()) < i,
        s.records[i].original.unwrap() == record_address(index_of(s, s.records[i].original.unwrap())),
        s.records[index_of(s, s.records[i].original.unwrap())].author == s.records[i].author,
{
    let a = s.records[i].original.unwrap();
    let j = choose|j: int|
        0 <= j < i && s.records[i].original == Some(record_address(j)) && s.records[j].author
            == s.records[i].author;
    assert(s.records[j].address == record_address(j));
    let k = index_of(s, a);
    assert(s.records[k].address == record_address(k));
    lemma_record_address_injective(j, k);
}

/// An edit comes after what it edits.
pub proof fn lemma_update_is_later(s: StoreView, i: int, j: int)
    requires
        store_wf(s),
        0 <= i < s.records.len(),
        0 <= j < s.records.len(),
        is_update_of(s, j, i),
    ensures
        i < j,
        index_of(s, s.records[j].original.unwrap()) == i,
{
    lemma_original(s, j);
    let k = index_of(s, s.records[j].original.unwrap());
    assert(s.records[i].address == record_address(i));
    lemma_record_address_injective(i, k);
}

/// `last_update_before` finds the last edit of `i` below `n`.
pub proof fn lemma_last_update_before(s: StoreView, i: int, n: int)
    requires
        0 <= n <= s.records.len(),
    ensures
        last_update_before(s, i, n) matches Some(j) ==> 0 <= j < n && is_update_of(s, j, i)
            && forall|k: int| j < k < n ==> !is_update_of(s, k, i),
        last_update_before(s, i, n) is None ==> forall|k: int|
            0 <= k < n ==> !is_update_of(s, k, i),
    decreases n,
{
    if n > 0 {
        lemma_last_update_before(s, i, n - 1);
    }
}

impl Store {
    /// The position of the last edit of the revision at position `i`.
    pub fn last_update(&self, i: usize) -> (r: Option<usize>)
        requires
            i < self@.records.len(),
        ensures
            r matches Some(j) ==> last_update(self@, i as int) == Some(j as int),
            r is None ==> last_update(self@, i as int) is None,
    {
        let n = self.records.len();
        let mut k: usize = n;
        assert(self@.records[i as int] == self.records@[i as int]@);
        while k > 0
            invariant
                k <= n,
                n == self@.records.len(),
                n == self.records@.len(),
                i < n,
                self@.records[i as int] == self.records@[i as int]@,
                last_update_before(self@, i as int, n as int) == last_update_before(
                    self@,
                    i as int,
                    k as int,
                ),
            decreases k,
        {
            let j = k - 1;
            assert(self@.records[j as int] == self.records@[j as int]@);
            let hit = match &self.records[j].kind {
                ActionKind::Update { original } => original.same(&self.records[i].address),
                ActionKind::Create => false,
            };
            if hit {
                return Some(j);
            }
            k = j;
        }
        None
    }

    /// Appends the first revision of a new invitation.
    pub fn create_entry(&mut self, author: &Address, now: i64, entry: Invite) -> (r: Address)
        requires
            old(self).wf(),
            old(self)@.records.len() < usize::MAX,
        ensures
            final(self).wf(),
            r@ == record_address(old(self)@.records.len() as int),
            final(self)@.records == old(self)@.records.push(
                RecordView {
                    address: r@,
                    author: author@,
                    timestamp: now,
                    original: None,
                    entry: entry@,
                },
            ),
            final(self)@.links == old(self)@.links,
    {
        let address = mint(RECORD_KIND, self.records.len() as u64);
        let record = Record {
            address: address.duplicate(),
            author: author.duplicate(),
            timestamp: now,
            kind: ActionKind::Create,
            entry,
        };
        let ghost s0 = self@;
        self.records.push(record);
        assert(self@.records =~= s0.records.push(record@));
        assert(self@.links =~= s0.links);
        proof {
            self.lemma_push_keeps_records(s0);
        }
        address
    }

    proof fn lemma_push_keeps_records(&self, s0: StoreView)
        requires
            store_wf(s0),
            self@.links == s0.links,
            self@.records.len() == s0.records.len() + 1,
            self@.records.len() <= u64::MAX,
            forall|i: int| 0 <= i < s0.records.len() ==> self@.records[i] == s0.records[i],
            self@.records.last().address == record_address(s0.records.len() as int),
            self@.records.last().original matches Some(a) ==> exists|j: int|
                0 <= j < s0.records.len() && a == record_address(j) && s0.records[j].author
                    == self@.records.last().author,
        ensures
            store_wf(self@),
    {
        let s = self@;
        let n = s0.records.len() as int;
        assert forall|i: int| 0 <= i < s.records.len() implies #[trigger] s.records[i].address
            == record_address(i) by {
            if i < n {
                assert(s0.records[i].address == record_address(i));
            }
        }
        assert forall|i: int|
            0 <= i < s.records.len() && (#[trigger] s.records[i]).original is Some implies exists|
                j: int,
            |
                0 <= j < i && s.records[i].original == Some(record_address(j))
                    && s.records[j].author == s.records[i].author by {
            if i < n {
                assert(s0.records[i] == s.records[i]);
                let j = choose|j: int|
                    0 <= j < i && s0.records[i].original == Some(record_address(j))
                        && s0.records[j].author == s0.records[i].author;
                assert(s.records[j] == s0.records[j]);
            } else {
                let j = choose|j: int|
                    0 <= j < n && s.records.last().original == Some(record_address(j))
                        && s0.records[j].author == s.records.last().author;
                assert(s.records[j] == s0.records[j]);
            }
        }
        assert forall|i: int|
            0 <= i < s.links.len() && (#[trigger] s.links[i]).link_type == LinkType::InviteToAgent
                implies has_record(s, s.links[i].base) by {
            assert(s0.links[i] == s.links[i]);
            assert(has_record(s0, s0.links[i].base));
            let k = choose|k: int|
                0 <= k < s0.records.len() && s0.records[k].address == s0.links[i].base;
            assert(s.records[k] == s0.records[k]);
        }
        assert forall|i: int|
            0 <= i < s.links.len() && (#[trigger] s.links[i]).link_type == LinkType::AgentToInvite
                implies has_record(s, s.links[i].target) by {
            assert(s0.links[i] == s.links[i]);
            assert(has_record(s0, s0.links[i].target));
            let k = choose|k: int|
                0 <= k < s0.records.len() && s0.records[k].address == s0.links[i].target;
            assert(s.records[k] == s0.records[k]);
        }
    }

    /// Appends an edit of the revision at `original`, written by `author`.
    pub fn update_entry(&mut self, author: &Address, now: i64, original: &Address, entry: Invite) -> (r:
        Result<Address, InviteError>)
        requires
            old(self).wf(),
            old(self)@.records.len() < usize::MAX,
        ensures
            final(self).wf(),
            !has_record(old(self)@, original@) ==> r == Err::<Address, InviteError>(
                InviteError::NotFound,
            ),
            has_record(old(self)@, original@) && old(self)@.records[index_of(
                old(self)@,
                original@,
            )].author != author@ ==> r == Err::<Address, InviteError>(
                InviteError::AuthorizationError,
            ),
            r is Err ==> final(self)@ == old(self)@,
            has_record(old(self)@, original@) && old(self)@.records[index_of(
                old(self)@,
                original@,
            )].author == author@ ==> r is Ok,
            r matches Ok(a) ==> a@ == record_address(old(self)@.records.len() as int)
                && final(self)@.records == old(self)@.records.push(
                RecordView {
                    address: a@,
                    author: author@,
                    timestamp: now,
                    original: Some(original@),
                    entry: entry@,
                },
            ) && final(self)@.links == old(self)@.links,
    {
        let k = match self.find_record(original) {
            Some(k) => k,
            None => return Err(InviteError::NotFound),
        };
        assert(self@.records[k as int] == self.records@[k as int]@);
        match validate_update_invite(&self.records[k].author, author) {
            ValidateCallbackResult::Valid => {},
            ValidateCallbackResult::Invalid(_) => return Err(InviteError::AuthorizationError),
        }
        let address = mint(RECORD_KIND, self.records.len() as u64);
        let record = Record {
            address: address.duplicate(),
            author: author.duplicate(),
            timestamp: now,
            kind: ActionKind::Update { original: original.duplicate() },
            entry,
        };
        let ghost s0 = self@;
        self.records.push(record);
        assert(self@.records =~= s0.records.push(record@));
        assert(self@.links =~= s0.links);
        proof {
            assert(s0.records[k as int].address == record_address(k as int));
            self.lemma_push_keeps_records(s0);
        }
        Ok(address)
    }
}

/// Selects the live edges of type `link_type` from `base`, with tag `tag`
/// where one is given.
pub open spec fn link_selected(base: Seq<u8>, link_type: LinkType, tag: Option<Status>) -> spec_fn(
    LinkView,
) -> bool {
    |l: LinkView|
        !l.deleted && l.base == base && l.link_type == link_type && match tag {
            Some(t) => l.tag == t,
            None => true,
        }
}

/// The live edges of type `link_type` from `base`, in the order they were written.
pub open spec fn live_links(
    s: StoreView,
    base: Seq<u8>,
    link_type: LinkType,
    tag: Option<Status>,
) -> Seq<LinkView> {
    s.links.filter(link_selected(base, link_type, tag))
}

/// The agent an edge belongs to: the base of an agent's edge, the target of
/// a response.
pub open spec fn owner(l: LinkView) -> Seq<u8> {
    match l.link_type {
        LinkType::AgentToInvite => l.base,
        LinkType::InviteToAgent => l.target,
    }
}

/// The same edge, marked deleted.
pub open spec fn marked(l: LinkView) -> LinkView {
    LinkView { deleted: true, ..l }
}

/// The edge written at the end of the log by `author`.
pub open spec fn new_link(
    s: StoreView,
    author: Seq<u8>,
    base: Seq<u8>,
    target: Seq<u8>,
    link_type: LinkType,
    tag: Status,
) -> LinkView {
    LinkView {
        address: link_address(s.links.len() as int),
        author,
        base,
        target,
        link_type,
        tag,
        deleted: false,
    }
}

/// Whether `author` may write an edge of type `link_type` from `base` to
/// `target`: an agent's edge must point at a revision, and a response must
/// start at a revision and come from one of its invitees.
pub open spec fn link_error(
    s: StoreView,
    author: Seq<u8>,
    base: Seq<u8>,
    target: Seq<u8>,
    link_type: LinkType,
) -> Option<InviteError> {
    match link_type {
        LinkType::AgentToInvite => if has_record(s, target) {
            None
        } else {
            Some(InviteError::NotFound)
        },
        LinkType::InviteToAgent => if !has_record(s, base) {
            Some(InviteError::NotFound)
        } else if !s.records[index_of(s, base)].entry.invitees.contains(author) {
            Some(InviteError::InvalidResponder)
        } else {
            None
        },
    }
}

impl Store {
    /// Appends an edge written by `author`, once validation admits it.
    pub fn create_link(
        &mut self,
        author: &Address,
        base: &Address,
        target: &Address,
        link_type: LinkType,
        tag: Status,
    ) -> (r: Result<Address, InviteError>)
        requires
            old(self).wf(),
            old(self)@.links.len() < usize::MAX,
        ensures
            final(self).wf(),
            final(self)@.records == old(self)@.records,
            link_error(old(self)@, author@, base@, target@, link_type) matches Some(e) ==> r
                == Err::<Address, InviteError>(e) && final(self)@ == old(self)@,
            link_error(old(self)@, author@, base@, target@, link_type) is None ==> r is Ok,
            r matches Ok(a) ==> a@ == link_address(old(self)@.links.len() as int)
                && final(self)@.links == old(self)@.links.push(
                new_link(old(self)@, author@, base@, target@, link_type, tag),
            ),
    {
        let verdict = match link_type {
            LinkType::AgentToInvite => {
                let found = match self.get(target) {
                    Some(rec) => Some(&rec.entry),
                    None => None,
                };
                validate_create_link_agent_to_invite(found)
            },
            LinkType::InviteToAgent => {
                let found = match self.get(base) {
                    Some(rec) => Some(&rec.entry),
                    None => None,
                };
                validate_create_link_invite_to_agent(found, author)
            },
        };
        match verdict {
            Ok(ValidateCallbackResult::Valid) => {},
            Ok(ValidateCallbackResult::Invalid(_)) => return Err(InviteError::InvalidResponder),
            Err(e) => return Err(e),
        }
        let address = mint(LINK_KIND, self.links.len() as u64);
        let link = Link {
            address: address.duplicate(),
            author: author.duplicate(),
            base: base.duplicate(),
            target: target.duplicate(),
            link_type,
            tag,
            deleted: false,
        };
        let ghost s0 = self@;
        self.links.push(link);
        proof {
            let s = self@;
            assert(s.links =~= s0.links.push(link@));
            assert(s.records =~= s0.records);
            assert forall|i: int| 0 <= i < s.links.len() implies #[trigger] s.links[i].address
                == link_address(i) by {
                if i < s0.links.len() {
                    assert(s0.links[i].address == link_address(i));
                }
            }
            assert forall|i: int|
                0 <= i < s.links.len() && (#[trigger] s.links[i]).link_type
                    == LinkType::InviteToAgent implies has_record(s, s.links[i].base) by {
                if i < s0.links.len() {
                    assert(s0.links[i] == s.links[i]);
                }
            }
            assert forall|i: int|
                0 <= i < s.links.len() && (#[trigger] s.links[i]).link_type
                    == LinkType::AgentToInvite implies has_record(s, s.links[i].target) by {
                if i < s0.links.len() {
                    assert(s0.links[i] == s.links[i]);
                }
            }
        }
        Ok(address)
    }

    /// The live edges of type `link_type` from `base`, with tag `tag` where
    /// one is given, in the order they were written.
    pub fn get_links(&self, base: &Address, link_type: LinkType, tag: Option<Status>) -> (r: Vec<
        Link,
    >)
        ensures
            r@.map_values(|l: Link| l@) == live_links(self@, base@, link_type, tag),
    {
        let ghost pred = link_selected(base@, link_type, tag);
        let ghost all = self@.links;
        let mut out: Vec<Link> = Vec::new();
        let mut i: usize = 0;
        while i < self.links.len()
            invariant
                i <= self.links@.len(),
                all == self@.links,
                all.len() == self.links@.len(),
                pred == link_selected(base@, link_type, tag),
                out@.map_values(|l: Link| l@) == all.subrange(0, i as int).filter(pred),
            decreases self.links@.len() - i,
        {
            let ghost before = out@;
            let l = &self.links[i];
            assert(all[i as int] == l@);
            let keep = !l.deleted && l.base.same(base) && l.link_type == link_type && match tag {
                Some(t) => l.tag == t,
                None => true,
            };
            proof {
                assert(all.subrange(0, i + 1) =~= all.subrange(0, i as int).push(l@));
                all.subrange(0, i as int).lemma_filter_push(l@, pred);
            }
            if keep {
                out.push(l.duplicate());
                assert(out@.map_values(|l: Link| l@) =~= before.map_values(|l: Link| l@).push(
                    l@,
                ));
            }
            i = i + 1;
        }
        assert(all.subrange(0, self.links@.len() as int) =~= all);
        out
    }

    /// The position of the edge with address `a`.
    pub fn find_link(&self, a: &Address) -> (r: Option<usize>)
        requires
            self.wf(),
        ensures
            r is None ==> forall|k: int| 0 <= k < self@.links.len() ==> self@.links[k].address != a@,
            r matches Some(k) ==> k < self@.links.len() && self@.links[k as int].address == a@
                && a@ == link_address(k as int),
    {
        let mut i: usize = 0;
        while i < self.links.len()
            invariant
                self.wf(),
                i <= self@.links.len(),
                self@.links.len() == self.links@.len(),
                forall|k: int| 0 <= k < i ==> self@.links[k].address != a@,
            decreases self.links@.len() - i,
        {
            assert(self@.links[i as int] == self.links@[i as int]@);
            if self.links[i].address.same(a) {
                assert(self@.links[i as int].address == link_address(i as int));
                return Some(i);
            }
            i = i + 1;
        }
        None
    }

    /// Marks the edge with address `a` deleted, once validation admits it:
    /// only the agent the edge belongs to may delete it.
    pub fn delete_link(&mut self, deleter: &Address, a: &Address) -> (r: Result<(), InviteError>)
        requires
            old(self).wf(),
        ensures
            final(self).wf(),
            final(self)@.records == old(self)@.records,
            (forall|k: int|
                0 <= k < old(self)@.links.len() ==> old(self)@.links[k].address != a@) ==> r
                == Err::<(), InviteError>(InviteError::NotFound) && final(self)@ == old(self)@,
            forall|k: int|
                0 <= k < old(self)@.links.len() && old(self)@.links[k].address == a@ && owner(
                    old(self)@.links[k],
                ) != deleter@ ==> r == Err::<(), InviteError>(InviteError::AuthorizationError)
                    && final(self)@ == old(self)@,
            forall|k: int|
                0 <= k < old(self)@.links.len() && old(self)@.links[k].address == a@ && owner(
                    old(self)@.links[k],
                ) == deleter@ ==> r is Ok && final(self)@.links == old(self)@.links.update(
                    k,
                    marked(old(self)@.links[k]),
                ),
    {
        let k = match self.find_link(a) {
            Some(k) => k,
            None => return Err(InviteError::NotFound),
        };
        let ghost s0 = self@;
        proof {
            assert forall|j: int|
                0 <= j < s0.links.len() && s0.links[j].address == a@ implies j == k by {
                assert(s0.links[j].address == link_address(j));
                lemma_link_address_injective(j, k as int);
            }
        }
        assert(s0.links[k as int] == self.links@[k as int]@);
        let verdict = match self.links[k].link_type {
            LinkType::AgentToInvite => validate_delete_link_agent_to_invite(
                deleter,
                &self.links[k].base,
            ),
            LinkType::InviteToAgent => validate_delete_link_invite_to_agent(
                deleter,
                &self.links[k].target,
            ),
        };
        match verdict {
            ValidateCallbackResult::Valid => {},
            ValidateCallbackResult::Invalid(_) => return Err(InviteError::AuthorizationError),
        }
        let mut l = self.links[k].duplicate();
        l.deleted = true;
        self.links.set(k, l);
        proof {
            let s = self@;
            assert(s.links =~= s0.links.update(k as int, marked(s0.links[k as int])));
            assert(s.records =~= s0.records);
            assert forall|i: int| 0 <= i < s.links.len() implies #[trigger] s.links[i].address
                == link_address(i) by {
                assert(s0.links[i].address == link_address(i));
            }
            assert forall|i: int|
                0 <= i < s.links.len() && (#[trigger] s.links[i]).link_type
                    == LinkType::InviteToAgent implies has_record(s, s.links[i].base) by {
                assert(s0.links[i].link_type == s.links[i].link_type);
                assert(s0.links[i].base == s.links[i].base);
            }
            assert forall|i: int|
                0 <= i < s.links.len() && (#[trigger] s.links[i]).link_type
                    == LinkType::AgentToInvite implies has_record(s, s.links[i].target) by {
                assert(s0.links[i].link_type == s.links[i].link_type);
                assert(s0.links[i].target == s.links[i].target);
            }
        }
        Ok(())
    }
}

} // verus!
