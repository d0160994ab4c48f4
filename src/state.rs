use std::collections::HashMap;

use vstd::prelude::*;

verus! {

broadcast use vstd::std_specs::hash::group_hash_axioms;

pub type TokenID = u64;

pub type ApprovalID = u64;

pub type TransferID = u64;

pub type Subaccount = [u8; 32];

/// Largest number of bytes an identity may hold.
pub const MAX_PRINCIPAL_LEN: usize = 29;

/// An identity on the host: a byte string of at most 29 bytes.
#[derive(Clone, Copy, Debug)]
pub struct Principal {
    len: u8,
    bytes: [u8; 29],
}

impl View for Principal {
    type V = Seq<u8>;

    closed spec fn view(&self) -> Seq<u8> {
        self.bytes@.subrange(0, if self.len <= 29 { self.len as int } else { 29 })
    }
}

impl Principal {
    pub fn from_slice(s: &[u8]) -> (p: Principal)
        requires
            s@.len() <= MAX_PRINCIPAL_LEN,
        ensures
            p@ == s@,
    {
        let mut bytes: [u8; 29] = [0u8; 29];
        let mut i: usize = 0;
        while i < s.len()
            invariant
                s@.len() <= 29,
                i <= s@.len(),
                bytes@.len() == 29,
                forall|k: int| 0 <= k < i ==> bytes@[k] == s@[k],
            decreases s@.len() - i,
        {
            bytes[i] = s[i];
            i = i + 1;
        }
        let p = Principal { len: s.len() as u8, bytes };
        assert(p@ =~= s@);
        p
    }

    /// The identity that unauthenticated callers carry.
    pub fn anonymous() -> (p: Principal)
        ensures
            p@ == seq![4u8],
    {
        let mut bytes: [u8; 29] = [0u8; 29];
        bytes[0] = 4;
        let p = Principal { len: 1, bytes };
        assert(p@ =~= seq![4u8]);
        p
    }

    fn used_len(&self) -> (n: usize)
        ensures
            n == self@.len(),
            n <= 29,
    {
        if self.len <= 29 {
            self.len as usize
        } else {
            29
        }
    }

    pub fn as_slice(&self) -> (r: Vec<u8>)
        ensures
            r@ == self@,
    {
        let mut r: Vec<u8> = Vec::new();
        let n = self.used_len();
        let mut i: usize = 0;
        while i < n
            invariant
                n == self@.len(),
                n <= 29,
                i <= n,
                r@ == self@.subrange(0, i as int),
            decreases n - i,
        {
            r.push(self.bytes[i]);
            i = i + 1;
            assert(r@ =~= self@.subrange(0, i as int));
        }
        assert(r@ =~= self@);
        r
    }

    pub fn is_anonymous(&self) -> (r: bool)
        ensures
            r == (self@ == seq![4u8]),
    {
        *self == Principal::anonymous()
    }
}

impl PartialEq for Principal {
    fn eq(&self, o: &Principal) -> (r: bool) {
        let n = self.used_len();
        if n != o.used_len() {
            return false;
        }
        let mut i: usize = 0;
        while i < n
            invariant
                n == self@.len() == o@.len(),
                n <= 29,
                i <= n,
                forall|k: int| 0 <= k < i ==> self@[k] == o@[k],
            decreases n - i,
        {
            if self.bytes[i] != o.bytes[i] {
                assert(self@[i as int] != o@[i as int]);
                return false;
            }
            i = i + 1;
        }
        assert(self@ =~= o@);
        true
    }
}

impl vstd::std_specs::cmp::PartialEqSpecImpl for Principal {
    open spec fn obeys_eq_spec() -> bool {
        true
    }

    open spec fn eq_spec(&self, o: &Principal) -> bool {
        self@ == o@
    }
}

/// The sub-identifier that stands for "none given": 32 zero bytes.
pub open spec fn zero_subaccount() -> Seq<u8> {
    Seq::new(32, |_i: int| 0u8)
}

fn subaccounts_equal(a: &Subaccount, b: &Subaccount) -> (r: bool)
    ensures
        r == (a@ == b@),
{
    let mut i: usize = 0;
    while i < 32
        invariant
            i <= 32,
            forall|k: int| 0 <= k < i ==> a@[k] == b@[k],
        decreases 32 - i,
    {
        if a[i] != b[i] {
            return false;
        }
        i = i + 1;
    }
    assert(a@ =~= b@);
    true
}

/// The all-zero sub-identifier as a value.
pub open spec fn zero_array() -> Subaccount {
    vstd::array::spec_array_fill_for_copy_type::<u8, 32>(0u8)
}

/// The canonical form of `a`: the sub-identifier filled in with zeros when absent.
pub open spec fn canonical(a: Account) -> Account {
    Account {
        owner: a.owner,
        subaccount: Some(
            match a.subaccount {
                Some(s) => s,
                None => zero_array(),
            },
        ),
    }
}

/// The canonical form has the same view and is canonical.
pub proof fn lemma_canonical(a: Account)
    ensures
        canonical(a)@ == a@,
        canonical(a).is_canonical(),
        canonical(a).owner == a.owner,
        canonical(canonical(a)) == canonical(a),
{
    assert(zero_array()@ =~= zero_subaccount());
}

/// An identity together with an optional 32-byte sub-identifier.
#[derive(Clone, Copy, Debug)]
pub struct Account {
    pub owner: Principal,
    pub subaccount: Option<Subaccount>,
}

impl View for Account {
    /// The identity's bytes and the canonical sub-identifier.
    type V = (Seq<u8>, Seq<u8>);

    open spec fn view(&self) -> (Seq<u8>, Seq<u8>) {
        (self.owner@, self.sub_view())
    }
}

impl Account {
    /// The sub-identifier with an absent one read as all zeros.
    pub open spec fn sub_view(&self) -> Seq<u8> {
        match self.subaccount {
            Some(s) => s@,
            None => zero_subaccount(),
        }
    }

    /// Canonical accounts carry their sub-identifier explicitly.
    pub open spec fn is_canonical(&self) -> bool {
        self.subaccount is Some
    }

    pub fn new(owner: Principal, subaccount: Option<Subaccount>) -> (r: Account)
        ensures
            r.owner == owner,
            r.subaccount == subaccount,
    {
        Account { owner, subaccount }
    }

    pub fn from_owner(owner: Principal) -> (r: Account)
        ensures
            r@ == (owner@, zero_subaccount()),
            r.is_canonical(),
            r == canonical((Account { owner, subaccount: None })),
    {
        Account { owner, subaccount: None }.to_canonical()
    }

    /// The same account with the sub-identifier filled in (zeros when absent).
    pub fn to_canonical(&self) -> (r: Account)
        ensures
            r@ == self@,
            r.owner == self.owner,
            r.is_canonical(),
            r == canonical(*self),
    {
        let sub: Subaccount = match self.subaccount {
            Some(s) => s,
            None => [0u8; 32],
        };
        assert(self.subaccount is None ==> sub == zero_array());
        proof {
            lemma_canonical(*self);
        }
        Account { owner: self.owner, subaccount: Some(sub) }
    }
}

impl Default for Account {
    fn default() -> (r: Account)
        ensures
            r@ == (Seq::<u8>::empty(), zero_subaccount()),
            r.is_canonical(),
    {
        let owner = Principal { len: 0, bytes: [0u8; 29] };
        assert(owner@ =~= Seq::<u8>::empty());
        let z: Subaccount = [0u8; 32];
        assert(z@ =~= zero_subaccount());
        Account { owner, subaccount: Some(z) }
    }
}

impl PartialEq for Account {
    /// Accounts compare by their canonical forms.
    fn eq(&self, o: &Account) -> (r: bool) {
        let a = self.to_canonical();
        let b = o.to_canonical();
        match (a.subaccount, b.subaccount) {
            (Some(x), Some(y)) => a.owner == b.owner && subaccounts_equal(&x, &y),
            _ => false,
        }
    }
}

impl vstd::std_specs::cmp::PartialEqSpecImpl for Account {
    open spec fn obeys_eq_spec() -> bool {
        true
    }

    open spec fn eq_spec(&self, o: &Account) -> bool {
        self@ == o@
    }
}

/// Whether `x` occurs in `v`.
pub fn contains_id(v: &Vec<TokenID>, x: TokenID) -> (r: bool)
    ensures
        r == v@.contains(x),
{
    let mut i: usize = 0;
    while i < v.len()
        invariant
            i <= v@.len(),
            forall|k: int| 0 <= k < i ==> v@[k] != x,
        decreases v@.len() - i,
    {
        if v[i] == x {
            assert(v@[i as int] == x);
            return true;
        }
        i = i + 1;
    }
    false
}

/// Whether every element of `a` occurs in `b`.
fn all_contained(a: &Vec<TokenID>, b: &Vec<TokenID>) -> (r: bool)
    ensures
        r == (forall|k: int| 0 <= k < a@.len() ==> b@.contains(#[trigger] a@[k])),
{
    let mut i: usize = 0;
    while i < a.len()
        invariant
            i <= a@.len(),
            forall|k: int| 0 <= k < i ==> b@.contains(#[trigger] a@[k]),
        decreases a@.len() - i,
    {
        if !contains_id(b, a[i]) {
            return false;
        }
        i = i + 1;
    }
    true
}

/// Whether two lists of item ids name the same set of items.
pub fn same_id_set(a: &Vec<TokenID>, b: &Vec<TokenID>) -> (r: bool)
    ensures
        r == (a@.to_set() == b@.to_set()),
{
    let ab = all_contained(a, b);
    let ba = all_contained(b, a);
    if ab && ba {
        assert forall|x: TokenID| a@.contains(x) <==> b@.contains(x) by {
            if a@.contains(x) {
                let k = choose|k: int| 0 <= k < a@.len() && a@[k] == x;
                assert(b@.contains(a@[k]));
            }
            if b@.contains(x) {
                let k = choose|k: int| 0 <= k < b@.len() && b@[k] == x;
                assert(a@.contains(b@[k]));
            }
        }
        assert(a@.to_set() =~= b@.to_set());
        true
    } else {
        proof {
            if !ab {
                let k = choose|k: int| 0 <= k < a@.len() && !b@.contains(#[trigger] a@[k]);
                assert(a@.to_set().contains(a@[k]));
            } else {
                let k = choose|k: int| 0 <= k < b@.len() && !a@.contains(#[trigger] b@[k]);
                assert(b@.to_set().contains(b@[k]));
            }
        }
        false
    }
}

/// Whether two byte strings are equal.
pub fn bytes_equal(a: &Vec<u8>, b: &Vec<u8>) -> (r: bool)
    ensures
        r == (a@ == b@),
{
    if a.len() != b.len() {
        return false;
    }
    let mut i: usize = 0;
    while i < a.len()
        invariant
            a@.len() == b@.len(),
            i <= a@.len(),
            forall|k: int| 0 <= k < i ==> a@[k] == b@[k],
        decreases a@.len() - i,
    {
        if a[i] != b[i] {
            assert(a@[i as int] != b@[i as int]);
            return false;
        }
        i = i + 1;
    }
    assert(a@ =~= b@);
    true
}

/// A memo as plain bytes.
pub open spec fn memo_view(m: Option<Vec<u8>>) -> Option<Seq<u8>> {
    match m {
        Some(v) => Some(v@),
        None => None,
    }
}

fn memos_equal(a: &Option<Vec<u8>>, b: &Option<Vec<u8>>) -> (r: bool)
    ensures
        r == (memo_view(*a) == memo_view(*b)),
{
    match (a, b) {
        (Some(x), Some(y)) => bytes_equal(x, y),
        (None, None) => true,
        _ => false,
    }
}

/// Two transfers are the same request when all their fields agree: accounts
/// in canonical form, item ids as sets.
pub open spec fn same_request(a: Transfer, b: Transfer) -> bool {
    &&& a.created_at == b.created_at
    &&& a.from@ == b.from@
    &&& a.to@ == b.to@
    &&& a.token_ids@.to_set() == b.token_ids@.to_set()
    &&& memo_view(a.memo) == memo_view(b.memo)
}

/// An item of the collection.
#[derive(Clone, Debug)]
pub struct Token {
    pub id: TokenID,
    pub name: String,
    pub image: Vec<u8>,
    pub owner: Account,
}

/// A delegation from `from` to `to`, possibly limited to some items, to one
/// sub-identifier of `from`, and in time.
#[derive(Clone, Debug)]
pub struct Approval {
    pub from: Principal,
    pub from_subaccount: Option<Subaccount>,
    pub to: Principal,
    pub token_ids: Option<Vec<TokenID>>,
    pub expires_at: Option<u64>,
    pub memo: Option<Vec<u8>>,
}

/// A committed transfer. Its item ids are read as a set.
#[derive(Clone, Debug)]
pub struct Transfer {
    pub from: Account,
    pub to: Account,
    pub token_ids: Vec<TokenID>,
    pub memo: Option<Vec<u8>>,
    pub created_at: u64,
}

impl Default for Transfer {
    fn default() -> (r: Transfer)
        ensures
            r.from@ == (Seq::<u8>::empty(), zero_subaccount()),
            r.from.is_canonical(),
            r.to@ == (Seq::<u8>::empty(), zero_subaccount()),
            r.to.is_canonical(),
            r.token_ids@ == Seq::<TokenID>::empty(),
            r.memo is None,
            r.created_at == 0,
    {
        Transfer {
            from: Account::default(),
            to: Account::default(),
            token_ids: Vec::new(),
            memo: None,
            created_at: 0,
        }
    }
}

/// Transfer records older than this many nanoseconds are pruned (24 hours).
pub const TX_DEDUPLICATION_WINDOW: u64 = 86_400_000_000_000;

/// The aggregate: items, approvals with their index by owner, the transfer
/// log, the id counters and the configuration.
#[derive(Debug)]
pub struct Collection {
    pub name: String,
    pub symbol: String,
    pub royalties: u16,
    pub royalty_recipient: Account,
    pub description: Option<String>,
    pub image: Option<Vec<u8>>,
    pub supply_cap: Option<usize>,
    pub authority: Option<Principal>,
    pub tokens: HashMap<TokenID, Token>,
    pub approval_id_seq: ApprovalID,
    pub approvals: HashMap<ApprovalID, Approval>,
    /// For each identity that has live approvals, their ids in increasing order.
    pub approvals_by_principal: Vec<(Principal, Vec<ApprovalID>)>,
    pub transfer_id_seq: TransferID,
    /// Transfer records with their ids, ordered by (creation time, id).
    pub transfers: Vec<(TransferID, Transfer)>,
}

impl Default for Collection {
    /// An empty, unconfigured collection.
    fn default() -> (r: Collection)
        ensures
            r.wf(),
            r.tokens@ == Map::<TokenID, Token>::empty(),
            r.approvals@ == Map::<ApprovalID, Approval>::empty(),
            r.approvals_by_principal@ == Seq::<(Principal, Vec<ApprovalID>)>::empty(),
            r.transfers@ == Seq::<(TransferID, Transfer)>::empty(),
            r.approval_id_seq == 0,
            r.transfer_id_seq == 0,
            r.supply_cap is None,
            r.authority is None,
            r.royalties == 0,
            r.name@ == Seq::<char>::empty(),
            r.symbol@ == Seq::<char>::empty(),
            r.description is None,
            r.image is None,
    {
        Collection {
            name: String::new(),
            symbol: String::new(),
            royalties: 0,
            royalty_recipient: Account::default(),
            description: None,
            image: None,
            supply_cap: None,
            authority: None,
            tokens: HashMap::new(),
            approval_id_seq: 0,
            approvals: HashMap::new(),
            approvals_by_principal: Vec::new(),
            transfer_id_seq: 0,
            transfers: Vec::new(),
        }
    }
}

/// Whether two collections have the same configuration and descriptive fields.
pub open spec fn same_config(c1: Collection, c2: Collection) -> bool {
    &&& c1.name == c2.name
    &&& c1.symbol == c2.symbol
    &&& c1.royalties == c2.royalties
    &&& c1.royalty_recipient == c2.royalty_recipient
    &&& c1.description == c2.description
    &&& c1.image == c2.image
    &&& c1.supply_cap == c2.supply_cap
    &&& c1.authority == c2.authority
}

/// Whether `c2` is `c1` swept at time `now`: the log keeps exactly its
/// suffix inside the retention window, the approvals that expired before
/// `now` are gone together with their ids in the index, and nothing else
/// differs.
pub open spec fn swept(c1: Collection, c2: Collection, now: u64) -> bool {
    let log = c1.transfers@;
    &&& exists|k: int|
        0 <= k <= log.len() && c2.transfers@ == log.subrange(k, log.len() as int) && (forall|i: int|
            0 <= i < k ==> !retained(#[trigger] log[i].1, now)) && (forall|i: int|
            k <= i < log.len() ==> retained(#[trigger] log[i].1, now))
    &&& forall|id: ApprovalID| #[trigger]
        c2.approvals@.contains_key(id) <==> c1.approvals@.contains_key(id) && !expired(
            c1.approvals@[id],
            now,
        )
    &&& forall|id: ApprovalID| #[trigger]
        c2.approvals@.contains_key(id) ==> c2.approvals@[id] == c1.approvals@[id]
    &&& forall|p: Seq<u8>| #[trigger]
        c2.ids_of(p) == c1.ids_of(p).filter(live_at(c1.approvals@, now))
    &&& c2.tokens@ == c1.tokens@
    &&& c2.approval_id_seq == c1.approval_id_seq
    &&& c2.transfer_id_seq == c1.transfer_id_seq
    &&& same_config(c1, c2)
}

/// Whether entry `a` comes strictly before entry `b` in the transfer log.
pub open spec fn log_before(a: (TransferID, Transfer), b: (TransferID, Transfer)) -> bool {
    a.1.created_at < b.1.created_at || (a.1.created_at == b.1.created_at && a.0 < b.0)
}

/// Whether an approval has run out at time `now`.
pub open spec fn expired(a: Approval, now: u64) -> bool {
    match a.expires_at {
        Some(e) => e < now,
        None => false,
    }
}

/// Whether approval `a` lets `delegate` move item `token_id` out of `from` at time `now`.
pub open spec fn approval_permits(
    a: Approval,
    from: Account,
    delegate: Seq<u8>,
    token_id: TokenID,
    now: u64,
) -> bool {
    &&& a.to@ == delegate
    &&& match a.token_ids {
        Some(ids) => ids@.contains(token_id),
        None => true,
    }
    &&& !expired(a, now)
    &&& match a.from_subaccount {
        Some(s) => s@ == from.sub_view(),
        None => true,
    }
}

/// Whether a transfer record is still inside the retention window at time `now`.
pub open spec fn retained(t: Transfer, now: u64) -> bool {
    t.created_at as int >= now as int - TX_DEDUPLICATION_WINDOW as int
}

/// The approvals of `m` that are still live at time `now`, as a predicate on ids.
pub open spec fn live_at(m: Map<ApprovalID, Approval>, now: u64) -> spec_fn(ApprovalID) -> bool {
    |id: ApprovalID| !expired(m[id], now)
}

fn is_expired(a: &Approval, now: u64) -> (r: bool)
    ensures
        r == expired(*a, now),
{
    match a.expires_at {
        Some(e) => e < now,
        None => false,
    }
}

impl Collection {
    pub open spec fn tokens_wf(&self) -> bool {
        forall|id: TokenID| #[trigger]
            self.tokens@.contains_key(id) ==> self.tokens@[id].id == id
                && self.tokens@[id].owner.is_canonical()
    }

    pub open spec fn index(&self) -> Seq<(Principal, Vec<ApprovalID>)> {
        self.approvals_by_principal@
    }

    pub open spec fn approvals_wf(&self) -> bool {
        let ix = self.index();
        let m = self.approvals@;
        &&& forall|i: int, j: int|
            0 <= i < j < ix.len() ==> #[trigger] ix[i].0@ != #[trigger] ix[j].0@
        &&& forall|i: int| 0 <= i < ix.len() ==> (#[trigger] ix[i]).1@.len() > 0
        &&& forall|i: int, j: int, k: int|
            0 <= i < ix.len() && 0 <= j < k < ix[i].1@.len() ==> #[trigger] ix[i].1@[j]
                < #[trigger] ix[i].1@[k]
        &&& forall|i: int, j: int|
            0 <= i < ix.len() && 0 <= j < ix[i].1@.len() ==> {
                let id = #[trigger] ix[i].1@[j];
                m.contains_key(id) && m[id].from@ == ix[i].0@
            }
        &&& forall|id: ApprovalID| #[trigger]
            m.contains_key(id) ==> exists|i: int, j: int|
                0 <= i < ix.len() && 0 <= j < ix[i].1@.len() && #[trigger] ix[i].1@[j] == id
        &&& forall|id: ApprovalID| #[trigger] m.contains_key(id) ==> id < self.approval_id_seq
    }

    pub open spec fn transfers_wf(&self) -> bool {
        let t = self.transfers@;
        &&& forall|i: int, j: int|
            0 <= i < j < t.len() ==> log_before(#[trigger] t[i], #[trigger] t[j])
        &&& forall|i: int| 0 <= i < t.len() ==> (#[trigger] t[i]).0 < self.transfer_id_seq
        &&& forall|i: int|
            0 <= i < t.len() ==> (#[trigger] t[i]).1.from.is_canonical()
                && t[i].1.to.is_canonical()
    }

    /// The invariant of the aggregate.
    pub open spec fn wf(&self) -> bool {
        &&& self.tokens_wf()
        &&& self.approvals_wf()
        &&& self.transfers_wf()
    }

    /// The approval ids indexed under identity `p`, oldest first.
    pub open spec fn ids_of(&self, p: Seq<u8>) -> Seq<ApprovalID> {
        let ix = self.index();
        if exists|i: int| 0 <= i < ix.len() && (#[trigger] ix[i]).0@ == p {
            let i = choose|i: int| 0 <= i < ix.len() && (#[trigger] ix[i]).0@ == p;
            ix[i].1@
        } else {
            Seq::empty()
        }
    }

    /// Where identity `p` stands in the approval index, if anywhere.
    fn index_position(&self, p: &Principal) -> (r: Option<usize>)
        ensures
            match r {
                Some(i) => i < self.index().len() && self.index()[i as int].0@ == p@,
                None => forall|i: int|
                    0 <= i < self.index().len() ==> (#[trigger] self.index()[i]).0@ != p@,
            },
    {
        let mut i: usize = 0;
        while i < self.approvals_by_principal.len()
            invariant
                i <= self.index().len(),
                forall|k: int| 0 <= k < i ==> (#[trigger] self.index()[k]).0@ != p@,
            decreases self.index().len() - i,
        {
            if self.approvals_by_principal[i].0 == *p {
                return Some(i);
            }
            i = i + 1;
        }
        None
    }

    /// Records an approval under the next approval id and indexes it under its grantor.
    pub fn add_approval(&mut self, approval: Approval) -> (r: ApprovalID)
        requires
            old(self).wf(),
            old(self).approval_id_seq < u64::MAX,
        ensures
            final(self).wf(),
            r == old(self).approval_id_seq,
            final(self).approval_id_seq == old(self).approval_id_seq + 1,
            final(self).approvals@ == old(self).approvals@.insert(r, approval),
            forall|p: Seq<u8>|
                #[trigger] final(self).ids_of(p) == if p == approval.from@ {
                    old(self).ids_of(p).push(r)
                } else {
                    old(self).ids_of(p)
                },
            final(self).tokens@ == old(self).tokens@,
            final(self).transfers@ == old(self).transfers@,
            final(self).transfer_id_seq == old(self).transfer_id_seq,
            same_config(*old(self), *final(self)),
    {
        let id = self.approval_id_seq;
        self.approval_id_seq = id + 1;
        let from = approval.from;
        self.approvals.insert(id, approval);
        let ghost old_ix = old(self).index();
        match self.index_position(&from) {
            Some(i) => {
                let (p, mut ids) = self.approvals_by_principal.remove(i);
                ids.push(id);
                self.approvals_by_principal.insert(i, (p, ids));
                proof {
                    let ix = self.index();
                    assert(ix =~= old_ix.update(i as int, (p, ids)));
                    assert forall|a: int, b: int, k: int|
                        0 <= a < ix.len() && 0 <= b < k < ix[a].1@.len() implies #[trigger] ix[a].1@[b]
                        < #[trigger] ix[a].1@[k] by {
                        if a == i && k == ix[a].1@.len() - 1 {
                            assert(old(self).approvals@.contains_key(old_ix[a].1@[b]));
                        }
                    }
                    assert forall|id2: ApprovalID| #[trigger]
                        self.approvals@.contains_key(id2) implies exists|a: int, b: int|
                        0 <= a < ix.len() && 0 <= b < ix[a].1@.len() && #[trigger] ix[a].1@[b]
                            == id2 by {
                        if id2 == id {
                            assert(ix[i as int].1@[ix[i as int].1@.len() - 1] == id2);
                        } else {
                            let (a, b) = choose|a: int, b: int|
                                0 <= a < old_ix.len() && 0 <= b < old_ix[a].1@.len()
                                    && #[trigger] old_ix[a].1@[b] == id2;
                            assert(ix[a].1@[b] == id2);
                        }
                    }
                    assert forall|q: Seq<u8>| #[trigger]
                        self.ids_of(q) == if q == from@ {
                            old(self).ids_of(q).push(id)
                        } else {
                            old(self).ids_of(q)
                        } by {
                        if q == from@ {
                            lemma_ids_of_at(*old(self), i as int);
                            lemma_ids_of_at(*self, i as int);
                            assert(ids@ =~= old_ix[i as int].1@.push(id));
                        } else {
                            lemma_ids_of_same(*old(self), *self, q);
                        }
                    }
                }
            },
            None => {
                assert(self.index() == old_ix);
                assert(forall|k: int| 0 <= k < old_ix.len() ==> (#[trigger] old_ix[k]).0@ != from@);
                let ids = vec![id];
                self.approvals_by_principal.push((from, ids));
                proof {
                    let ix = self.index();
                    let n = old_ix.len() as int;
                    assert(ix =~= old_ix.push((from, ids)));
                    assert forall|a: int, b: int|
                        0 <= a < b < ix.len() implies #[trigger] ix[a].0@ != #[trigger] ix[b].0@ by {
                        if b == n {
                            assert(old_ix[a].0@ != from@);
                        } else {
                            assert(old_ix[a].0@ != old_ix[b].0@);
                        }
                    }
                    assert forall|id2: ApprovalID| #[trigger]
                        self.approvals@.contains_key(id2) implies exists|a: int, b: int|
                        0 <= a < ix.len() && 0 <= b < ix[a].1@.len() && #[trigger] ix[a].1@[b]
                            == id2 by {
                        if id2 == id {
                            assert(ix[n].1@[0] == id2);
                        } else {
                            let (a, b) = choose|a: int, b: int|
                                0 <= a < old_ix.len() && 0 <= b < old_ix[a].1@.len()
                                    && #[trigger] old_ix[a].1@[b] == id2;
                            assert(ix[a].1@[b] == id2);
                        }
                    }
                    assert forall|q: Seq<u8>| #[trigger]
                        self.ids_of(q) == if q == from@ {
                            old(self).ids_of(q).push(id)
                        } else {
                            old(self).ids_of(q)
                        } by {
                        if q == from@ {
                            lemma_ids_of_absent(*old(self), q);
                            lemma_ids_of_at(*self, n);
                            assert(ids@ =~= Seq::<ApprovalID>::empty().push(id));
                        } else {
                            lemma_ids_of_same(*old(self), *self, q);
                        }
                    }
                }
            },
        }
        id
    }

    /// The approval that lets `delegate` move item `token_id` out of `from` at
    /// time `now`. Only the oldest approval that `from`'s identity granted is
    /// considered: when it does not fit, there is none.
    pub open spec fn usable_approval(
        &self,
        from: Account,
        delegate: Seq<u8>,
        token_id: TokenID,
        now: u64,
    ) -> Option<ApprovalID> {
        let ids = self.ids_of(from.owner@);
        if ids.len() > 0 && self.approvals@.contains_key(ids[0]) && approval_permits(
            self.approvals@[ids[0]],
            from,
            delegate,
            token_id,
            now,
        ) {
            Some(ids[0])
        } else {
            None
        }
    }

    pub fn find_approval_for_delegate(
        &self,
        from_acc: &Account,
        delegate: &Principal,
        token_id: TokenID,
        now: u64,
    ) -> (r: Option<ApprovalID>)
        requires
            self.wf(),
        ensures
            r == self.usable_approval(*from_acc, delegate@, token_id, now),
    {
        let i = match self.index_position(&from_acc.owner) {
            Some(i) => i,
            None => {
                proof {
                    lemma_ids_of_absent(*self, from_acc.owner@);
                }
                return None;
            },
        };
        proof {
            lemma_ids_of_at(*self, i as int);
        }
        let ids = &self.approvals_by_principal[i].1;
        if ids.len() == 0 {
            return None;
        }
        let approval_id = ids[0];
        let approval = match self.approvals.get(&approval_id) {
            Some(a) => a,
            None => {
                return None;
            },
        };
        if !(approval.to == *delegate) {
            // not the right delegate
            return None;
        }
        match &approval.token_ids {
            Some(allowed) => {
                if !contains_id(allowed, token_id) {
                    // approval is for other items
                    return None;
                }
            },
            None => {},
        }
        match approval.expires_at {
            Some(e) => {
                if e < now {
                    // approval has expired
                    return None;
                }
            },
            None => {},
        }
        match approval.from_subaccount {
            Some(s) => {
                let acc = from_acc.to_canonical();
                match acc.subaccount {
                    Some(own) => {
                        if !subaccounts_equal(&own, &s) {
                            // approval is for another sub-identifier
                            return None;
                        }
                    },
                    None => {
                        return None;
                    },
                }
            },
            None => {},
        }
        Some(approval_id)
    }

    /// The id of the earliest logged transfer that is the same request as `t`.
    pub open spec fn duplicate_of(&self, t: Transfer) -> Option<TransferID> {
        let log = self.transfers@;
        if exists|i: int| 0 <= i < log.len() && same_request(#[trigger] log[i].1, t) {
            let i = choose|i: int|
                0 <= i < log.len() && same_request(#[trigger] log[i].1, t) && forall|j: int|
                    0 <= j < i ==> !same_request(#[trigger] log[j].1, t);
            Some(log[i].0)
        } else {
            None
        }
    }

    /// Appends a transfer record under the next transfer id, keeping the log
    /// ordered by (creation time, id).
    pub fn add_transfer(&mut self, transfer: Transfer) -> (r: TransferID)
        requires
            old(self).wf(),
            old(self).transfer_id_seq < u64::MAX,
            transfer.from.is_canonical(),
            transfer.to.is_canonical(),
        ensures
            final(self).wf(),
            r == old(self).transfer_id_seq,
            final(self).transfer_id_seq == old(self).transfer_id_seq + 1,
            exists|k: int|
                0 <= k <= old(self).transfers@.len() && final(self).transfers@
                    == old(self).transfers@.insert(k, (r, transfer)),
            final(self).tokens@ == old(self).tokens@,
            final(self).approvals@ == old(self).approvals@,
            final(self).approvals_by_principal@ == old(self).approvals_by_principal@,
            final(self).approval_id_seq == old(self).approval_id_seq,
            same_config(*old(self), *final(self)),
    {
        let created_at = transfer.created_at;
        let id = self.transfer_id_seq;
        self.transfer_id_seq = id + 1;
        let mut pos: usize = self.transfers.len();
        while pos > 0 && self.transfers[pos - 1].1.created_at > created_at
            invariant
                pos <= self.transfers@.len(),
                self.transfers@ == old(self).transfers@,
                forall|k: int|
                    pos <= k < self.transfers@.len() ==> (#[trigger] self.transfers@[k]).1.created_at
                        > created_at,
            decreases pos,
        {
            pos = pos - 1;
        }
        let ghost old_log = self.transfers@;
        let entry = (id, transfer);
        self.transfers.insert(pos, entry);
        proof {
            let log = self.transfers@;
            assert(log == old_log.insert(pos as int, entry));
            assert forall|k: int| 0 <= k < pos implies (#[trigger] old_log[k]).1.created_at
                <= created_at by {
                if k < pos - 1 {
                    assert(log_before(old_log[k], old_log[pos - 1]));
                }
            }
            assert forall|i: int, j: int|
                0 <= i < j < log.len() implies log_before(#[trigger] log[i], #[trigger] log[j]) by {
                if j < pos {
                    assert(log_before(old_log[i], old_log[j]));
                } else if j == pos {
                    assert(old_log[i].0 < id);
                } else if i < pos {
                    assert(log_before(old_log[i], old_log[j - 1]));
                } else if i == pos {
                } else {
                    assert(log_before(old_log[i - 1], old_log[j - 1]));
                }
            }
        }
        id
    }

    pub fn find_duplicate_transfer(&self, t: &Transfer) -> (r: Option<TransferID>)
        ensures
            r == self.duplicate_of(*t),
    {
        let mut i: usize = 0;
        while i < self.transfers.len()
            invariant
                i <= self.transfers@.len(),
                forall|j: int| 0 <= j < i ==> !same_request(#[trigger] self.transfers@[j].1, *t),
            decreases self.transfers@.len() - i,
        {
            let e = &self.transfers[i].1;
            // transfers are only equal if all fields are equal
            if e.created_at == t.created_at && e.from == t.from && e.to == t.to && same_id_set(
                &e.token_ids,
                &t.token_ids,
            ) && memos_equal(&e.memo, &t.memo) {
                proof {
                    let log = self.transfers@;
                    assert(same_request(log[i as int].1, *t));
                    let k = choose|k: int|
                        0 <= k < log.len() && same_request(#[trigger] log[k].1, *t) && forall|j: int|
                            0 <= j < k ==> !same_request(#[trigger] log[j].1, *t);
                    if k < i {
                    } else if k > i {
                        assert(!same_request(log[i as int].1, *t));
                    }
                }
                return Some(self.transfers[i].0);
            }
            i = i + 1;
        }
        None
    }

    fn purge_approvals(&mut self, now: u64)
        requires
            old(self).wf(),
        ensures
            final(self).wf(),
            forall|id: ApprovalID| #[trigger]
                final(self).approvals@.contains_key(id) <==> old(self).approvals@.contains_key(id)
                    && !expired(old(self).approvals@[id], now),
            forall|id: ApprovalID| #[trigger]
                final(self).approvals@.contains_key(id) ==> final(self).approvals@[id]
                    == old(self).approvals@[id],
            forall|p: Seq<u8>| #[trigger]
                final(self).ids_of(p) == old(self).ids_of(p).filter(
                    live_at(old(self).approvals@, now),
                ),
            final(self).tokens@ == old(self).tokens@,
            final(self).transfers@ == old(self).transfers@,
            final(self).approval_id_seq == old(self).approval_id_seq,
            final(self).transfer_id_seq == old(self).transfer_id_seq,
            same_config(*old(self), *final(self)),
    {
        let mut oix: Vec<(Principal, Vec<ApprovalID>)> = Vec::new();
        std::mem::swap(&mut oix, &mut self.approvals_by_principal);
        let ghost m0 = old(self).approvals@;
        let ghost pred = live_at(m0, now);
        let mut new_ix: Vec<(Principal, Vec<ApprovalID>)> = Vec::new();
        let ghost mut origin: Seq<int> = Seq::empty();
        let mut i: usize = 0;
        while i < oix.len()
            invariant
                oix@ == old(self).index(),
                old(self).approvals_wf(),
                m0 == old(self).approvals@,
                pred == live_at(m0, now),
                self.tokens@ == old(self).tokens@,
                self.transfers@ == old(self).transfers@,
                self.approval_id_seq == old(self).approval_id_seq,
                self.transfer_id_seq == old(self).transfer_id_seq,
                same_config(*old(self), *self),
                i <= oix@.len(),
                forall|id: ApprovalID| #[trigger]
                    self.approvals@.contains_key(id) ==> m0.contains_key(id)
                        && self.approvals@[id] == m0[id],
                forall|a: int, j: int|
                    0 <= a < i && 0 <= j < oix@[a].1@.len() ==> (self.approvals@.contains_key(
                        #[trigger] oix@[a].1@[j],
                    ) <==> pred(oix@[a].1@[j])),
                forall|a: int, j: int|
                    i <= a < oix@.len() && 0 <= j < oix@[a].1@.len()
                        ==> self.approvals@.contains_key(#[trigger] oix@[a].1@[j]),
                origin.len() == new_ix@.len(),
                forall|b: int|
                    0 <= b < origin.len() ==> 0 <= #[trigger] origin[b] < i && new_ix@[b].0
                        == oix@[origin[b]].0 && new_ix@[b].1@ == oix@[origin[b]].1@.filter(pred)
                        && new_ix@[b].1@.len() > 0,
                forall|b1: int, b2: int|
                    0 <= b1 < b2 < origin.len() ==> #[trigger] origin[b1] < #[trigger] origin[b2],
                forall|a: int|
                    0 <= a < i && (#[trigger] oix@[a].1@.filter(pred)).len() > 0 ==> exists|b: int|
                        0 <= b < origin.len() && #[trigger] origin[b] == a,
                forall|b: int, j: int, k: int|
                    0 <= b < new_ix@.len() && 0 <= j < k < new_ix@[b].1@.len()
                        ==> #[trigger] new_ix@[b].1@[j] < #[trigger] new_ix@[b].1@[k],
                forall|b: int, t: int|
                    0 <= b < new_ix@.len() && 0 <= t < new_ix@[b].1@.len() ==> oix@[origin[b]].1@.contains(
                        #[trigger] new_ix@[b].1@[t],
                    ) && pred(new_ix@[b].1@[t]),
            decreases oix@.len() - i,
        {
            let entry = &oix[i];
            let ghost ids = entry.1@;
            let mut kept: Vec<ApprovalID> = Vec::new();
            let mut j: usize = 0;
            #[verifier::loop_isolation(false)]
            while j < entry.1.len()
                invariant
                    oix@ == old(self).index(),
                    old(self).approvals_wf(),
                    m0 == old(self).approvals@,
                    pred == live_at(m0, now),
                    self.tokens@ == old(self).tokens@,
                    self.transfers@ == old(self).transfers@,
                    self.approval_id_seq == old(self).approval_id_seq,
                    self.transfer_id_seq == old(self).transfer_id_seq,
                    same_config(*old(self), *self),
                    i < oix@.len(),
                    *entry == oix@[i as int],
                    ids == entry.1@,
                    j <= ids.len(),
                    forall|id: ApprovalID| #[trigger]
                        self.approvals@.contains_key(id) ==> m0.contains_key(id)
                            && self.approvals@[id] == m0[id],
                    forall|a: int, k: int|
                        0 <= a < i && 0 <= k < oix@[a].1@.len() ==> (self.approvals@.contains_key(
                            #[trigger] oix@[a].1@[k],
                        ) <==> pred(oix@[a].1@[k])),
                    forall|a: int, k: int|
                        i < a < oix@.len() && 0 <= k < oix@[a].1@.len()
                            ==> self.approvals@.contains_key(#[trigger] oix@[a].1@[k]),
                    forall|k: int|
                        0 <= k < j ==> (self.approvals@.contains_key(#[trigger] ids[k]) <==> pred(
                            ids[k],
                        )),
                    forall|k: int|
                        j <= k < ids.len() ==> self.approvals@.contains_key(#[trigger] ids[k]),
                    kept@ == ids.subrange(0, j as int).filter(pred),
                    forall|s: int, t: int|
                        0 <= s < t < kept@.len() ==> #[trigger] kept@[s] < #[trigger] kept@[t],
                    forall|t: int|
                        0 <= t < kept@.len() ==> ids.subrange(0, j as int).contains(
                            #[trigger] kept@[t],
                        ) && pred(kept@[t]),
                decreases ids.len() - j,
            {
                let id = entry.1[j];
                proof {
                    assert(ids.subrange(0, j + 1) =~= ids.subrange(0, j as int).push(id));
                    ids.subrange(0, j as int).lemma_filter_push(id, pred);
                    // ids of other entries, and other ids of this entry, differ from `id`
                    assert forall|a: int, k: int|
                        0 <= a < oix@.len() && 0 <= k < oix@[a].1@.len() && (a != i || k != j)
                            implies #[trigger] oix@[a].1@[k] != id by {
                        if a != i {
                            assert(m0[oix@[a].1@[k]].from@ == oix@[a].0@);
                            assert(m0[oix@[i as int].1@[j as int]].from@ == oix@[i as int].0@);
                        } else if k < j {
                            assert(oix@[a].1@[k] < oix@[a].1@[j as int]);
                        } else {
                            assert(oix@[a].1@[j as int] < oix@[a].1@[k]);
                        }
                    }
                    assert forall|t: int| 0 <= t < kept@.len() implies #[trigger] kept@[t] < id by {
                        let k = choose|k: int|
                            0 <= k < j && #[trigger] ids.subrange(0, j as int)[k] == kept@[t];
                        assert(oix@[i as int].1@[k] < oix@[i as int].1@[j as int]);
                    }
                }
                let drop = match self.approvals.get(&id) {
                    Some(a) => is_expired(a, now),
                    None => true,
                };
                let ghost old_kept = kept@;
                if drop {
                    self.approvals.remove(&id);
                } else {
                    kept.push(id);
                    proof {
                        assert(ids[j as int] == kept@[kept@.len() - 1]);
                    }
                }
                proof {
                    let s1 = ids.subrange(0, j + 1);
                    assert forall|t: int| 0 <= t < kept@.len() implies s1.contains(
                        #[trigger] kept@[t],
                    ) && pred(kept@[t]) by {
                        if t < old_kept.len() {
                            assert(old_kept[t] == kept@[t]);
                            let k = choose|k: int|
                                0 <= k < j && #[trigger] ids.subrange(0, j as int)[k] == old_kept[t];
                            assert(s1[k] == kept@[t]);
                        } else {
                            assert(s1[j as int] == kept@[t]);
                        }
                    }
                }
                j = j + 1;
            }
            proof {
                assert(ids.subrange(0, ids.len() as int) =~= ids);
            }
            let ghost kept_v = kept@;
            let ghost prev_ix = new_ix@;
            let ghost prev_origin = origin;
            if kept.len() > 0 {
                new_ix.push((entry.0, kept));
                proof {
                    origin = origin.push(i as int);
                    let last = prev_ix.len() as int;
                    assert(new_ix@[last].1@ == kept_v);
                    assert forall|b: int, t: int|
                        0 <= b < new_ix@.len() && 0 <= t < new_ix@[b].1@.len() implies oix@[origin[b]].1@.contains(
                            #[trigger] new_ix@[b].1@[t],
                        ) && pred(new_ix@[b].1@[t]) by {
                        if b == last {
                            assert(ids.subrange(0, j as int) =~= ids);
                            assert(kept_v.contains(kept_v[t]));
                        } else {
                            assert(new_ix@[b] == prev_ix[b]);
                            assert(origin[b] == prev_origin[b]);
                        }
                    }
                    assert forall|a: int|
                        0 <= a < i + 1 && (#[trigger] oix@[a].1@.filter(pred)).len() > 0 implies exists|b: int|
                            0 <= b < origin.len() && #[trigger] origin[b] == a by {
                        if a == i {
                            assert(origin[last] == a);
                        } else {
                            let b = choose|b: int| 0 <= b < prev_origin.len() && #[trigger] prev_origin[b] == a;
                            assert(origin[b] == a);
                        }
                    }
                }
            } else {
                proof {
                    assert(oix@[i as int].1@.filter(pred).len() == 0);
                }
            }
            i = i + 1;
        }
        self.approvals_by_principal = new_ix;
        proof {
            let ix = self.index();
            let oixs = old(self).index();
            assert forall|a: int, b: int|
                0 <= a < b < ix.len() implies #[trigger] ix[a].0@ != #[trigger] ix[b].0@ by {
                assert(origin[a] < origin[b]);
                assert(oixs[origin[a]].0@ != oixs[origin[b]].0@);
            }
            assert forall|b: int, j: int|
                0 <= b < ix.len() && 0 <= j < ix[b].1@.len() implies {
                    let id = #[trigger] ix[b].1@[j];
                    self.approvals@.contains_key(id) && self.approvals@[id].from@ == ix[b].0@
                } by {
                assert(oixs[origin[b]].1@.contains(ix[b].1@[j]));
                let k = choose|k: int|
                    0 <= k < oixs[origin[b]].1@.len() && #[trigger] oixs[origin[b]].1@[k]
                        == ix[b].1@[j];
                assert(self.approvals@.contains_key(oixs[origin[b]].1@[k]));
            }
            assert forall|id: ApprovalID| #[trigger]
                self.approvals@.contains_key(id) <==> m0.contains_key(id) && !expired(m0[id], now) by {
                if m0.contains_key(id) {
                    let (a, k) = choose|a: int, k: int|
                        0 <= a < oixs.len() && 0 <= k < oixs[a].1@.len() && #[trigger] oixs[a].1@[k]
                            == id;
                    assert(self.approvals@.contains_key(oixs[a].1@[k]) <==> pred(oixs[a].1@[k]));
                }
            }
            assert forall|id: ApprovalID| #[trigger]
                self.approvals@.contains_key(id) implies exists|b: int, j: int|
                0 <= b < ix.len() && 0 <= j < ix[b].1@.len() && #[trigger] ix[b].1@[j] == id by {
                let (a, k) = choose|a: int, k: int|
                    0 <= a < oixs.len() && 0 <= k < oixs[a].1@.len() && #[trigger] oixs[a].1@[k]
                        == id;
                assert(self.approvals@.contains_key(oixs[a].1@[k]) <==> pred(oixs[a].1@[k]));
                oixs[a].1@.lemma_filter_contains(pred, k);
                let b = choose|b: int| 0 <= b < origin.len() && #[trigger] origin[b] == a;
                let t = choose|t: int| 0 <= t < ix[b].1@.len() && ix[b].1@[t] == id;
                assert(ix[b].1@[t] == id);
            }
            assert forall|id: ApprovalID| #[trigger]
                self.approvals@.contains_key(id) implies id < self.approval_id_seq by {
                assert(m0.contains_key(id));
            }
            assert forall|b: int| 0 <= b < ix.len() implies (#[trigger] ix[b]).1@.len() > 0 by {
                assert(0 <= origin[b]);
            }
            assert(self.approvals_wf());
            assert forall|p: Seq<u8>| #[trigger]
                self.ids_of(p) == old(self).ids_of(p).filter(pred) by {
                if exists|a: int| 0 <= a < oixs.len() && (#[trigger] oixs[a]).0@ == p {
                    let a = choose|a: int| 0 <= a < oixs.len() && (#[trigger] oixs[a]).0@ == p;
                    lemma_ids_of_at(*old(self), a);
                    if oixs[a].1@.filter(pred).len() > 0 {
                        let b = choose|b: int| 0 <= b < origin.len() && #[trigger] origin[b] == a;
                        lemma_ids_of_at(*self, b);
                    } else {
                        assert forall|b: int| 0 <= b < ix.len() implies (#[trigger] ix[b]).0@ != p by {
                            if ix[b].0@ == p {
                                if origin[b] != a {
                                    if origin[b] < a {
                                        assert(oixs[origin[b]].0@ != oixs[a].0@);
                                    } else {
                                        assert(oixs[a].0@ != oixs[origin[b]].0@);
                                    }
                                }
                            }
                        }
                        lemma_ids_of_absent(*self, p);
                    }
                } else {
                    assert forall|b: int| 0 <= b < ix.len() implies (#[trigger] ix[b]).0@ != p by {
                        assert(oixs[origin[b]].0@ != p);
                    }
                    lemma_ids_of_absent(*self, p);
                    lemma_ids_of_absent(*old(self), p);
                    reveal(Seq::filter);
                }
            }
        }
    }

    fn purge_transfers(&mut self, now: u64)
        requires
            old(self).wf(),
        ensures
            final(self).wf(),
            exists|k: int|
                0 <= k <= old(self).transfers@.len() && final(self).transfers@ == old(
                    self,
                ).transfers@.subrange(k, old(self).transfers@.len() as int) && (forall|i: int|
                    0 <= i < k ==> !retained(#[trigger] old(self).transfers@[i].1, now)) && (forall|
                    i: int,
                |
                    k <= i < old(self).transfers@.len() ==> retained(
                        #[trigger] old(self).transfers@[i].1,
                        now,
                    )),
            final(self).tokens@ == old(self).tokens@,
            final(self).approvals@ == old(self).approvals@,
            final(self).approvals_by_principal@ == old(self).approvals_by_principal@,
            final(self).approval_id_seq == old(self).approval_id_seq,
            final(self).transfer_id_seq == old(self).transfer_id_seq,
            same_config(*old(self), *final(self)),
    {
        let mut k: usize = 0;
        if now >= TX_DEDUPLICATION_WINDOW {
            let split = now - TX_DEDUPLICATION_WINDOW;
            while k < self.transfers.len() && self.transfers[k].1.created_at < split
                invariant
                    split == now - TX_DEDUPLICATION_WINDOW,
                    k <= self.transfers@.len(),
                    forall|i: int| 0 <= i < k ==> !retained(#[trigger] self.transfers@[i].1, now),
                decreases self.transfers@.len() - k,
            {
                k = k + 1;
            }
        }
        let ghost log = self.transfers@;
        proof {
            assert forall|i: int| k <= i < log.len() implies retained(#[trigger] log[i].1, now) by {
                if i > k {
                    assert(log_before(log[k as int], log[i]));
                }
            }
        }
        let kept = self.transfers.split_off(k);
        self.transfers = kept;
    }

    /// Prunes transfer records older than the retention window before `now`
    /// and approvals that expired before `now`, and drops their ids from the index.
    pub fn gc(&mut self, now: u64)
        requires
            old(self).wf(),
        ensures
            final(self).wf(),
            swept(*old(self), *final(self), now),
            forall|i: int|
                0 <= i < old(self).transfers@.len() && retained(#[trigger] old(self).transfers@[i].1, now)
                    ==> final(self).transfers@.contains(old(self).transfers@[i]),
            forall|id: ApprovalID|
                #[trigger] old(self).approvals@.contains_key(id) && expired(old(self).approvals@[id], now)
                    ==> !final(self).approvals@.contains_key(id),
    {
        self.purge_transfers(now);
        let ghost log = self.transfers@;
        proof {
            let old_log = old(self).transfers@;
            let k = choose|k: int|
                0 <= k <= old_log.len() && log == old_log.subrange(k, old_log.len() as int) && (forall|i: int|
                    0 <= i < k ==> !retained(#[trigger] old_log[i].1, now)) && (forall|i: int|
                    k <= i < old_log.len() ==> retained(#[trigger] old_log[i].1, now));
            assert forall|i: int|
                0 <= i < old_log.len() && retained(#[trigger] old_log[i].1, now) implies log.contains(
                old_log[i],
            ) by {
                assert(log[i - k] == old_log[i]);
            }
        }
        self.purge_approvals(now);
    }

    /// Whether the log holds a transfer created at `created_at` under id `id`.
    pub fn has_transfer(&self, created_at: u64, id: TransferID) -> (r: bool)
        ensures
            r == exists|i: int|
                0 <= i < self.transfers@.len() && #[trigger] self.transfers@[i].0 == id
                    && self.transfers@[i].1.created_at == created_at,
    {
        let mut i: usize = 0;
        while i < self.transfers.len()
            invariant
                i <= self.transfers@.len(),
                forall|k: int|
                    0 <= k < i ==> !(#[trigger] self.transfers@[k].0 == id
                        && self.transfers@[k].1.created_at == created_at),
            decreases self.transfers@.len() - i,
        {
            if self.transfers[i].0 == id && self.transfers[i].1.created_at == created_at {
                return true;
            }
            i = i + 1;
        }
        false
    }

    /// The ids of the live approvals granted by `p`, oldest first.
    pub fn approvals_of(&self, p: &Principal) -> (r: Vec<ApprovalID>)
        requires
            self.wf(),
        ensures
            r@ == self.ids_of(p@),
    {
        match self.index_position(p) {
            Some(i) => {
                proof {
                    lemma_ids_of_at(*self, i as int);
                }
                let ids = &self.approvals_by_principal[i].1;
                let mut r: Vec<ApprovalID> = Vec::new();
                let mut k: usize = 0;
                while k < ids.len()
                    invariant
                        k <= ids@.len(),
                        r@ == ids@.subrange(0, k as int),
                    decreases ids@.len() - k,
                {
                    r.push(ids[k]);
                    k = k + 1;
                    assert(r@ =~= ids@.subrange(0, k as int));
                }
                assert(ids@.subrange(0, ids@.len() as int) =~= ids@);
                r
            },
            None => {
                proof {
                    lemma_ids_of_absent(*self, p@);
                }
                Vec::new()
            },
        }
    }

    /// Stores an item; its owner is stored in canonical form.
    pub fn add_token(&mut self, token: Token)
        requires
            old(self).wf(),
        ensures
            final(self).wf(),
            final(self).tokens@.dom() == old(self).tokens@.dom().insert(token.id),
            forall|id: TokenID|
                id != token.id && #[trigger] old(self).tokens@.contains_key(id)
                    ==> final(self).tokens@[id] == old(self).tokens@[id],
            final(self).tokens@[token.id].id == token.id,
            final(self).tokens@[token.id].name == token.name,
            final(self).tokens@[token.id].image == token.image,
            final(self).tokens@[token.id].owner@ == token.owner@,
            final(self).tokens@[token.id].owner.is_canonical(),
            final(self).approvals@ == old(self).approvals@,
            final(self).approvals_by_principal@ == old(self).approvals_by_principal@,
            final(self).transfers@ == old(self).transfers@,
            final(self).approval_id_seq == old(self).approval_id_seq,
            final(self).transfer_id_seq == old(self).transfer_id_seq,
            same_config(*old(self), *final(self)),
    {
        let owner = token.owner.to_canonical();
        let id = token.id;
        let stored = Token { id, name: token.name, image: token.image, owner };
        self.tokens.insert(id, stored);
    }
}

/// With identities unique in the index, the ids under the identity at
/// position `i` are that entry's list.
pub proof fn lemma_ids_of_at(c: Collection, i: int)
    requires
        0 <= i < c.index().len(),
        forall|a: int, b: int|
            0 <= a < b < c.index().len() ==> #[trigger] c.index()[a].0@ != #[trigger] c.index()[b].0@,
    ensures
        c.ids_of(c.index()[i].0@) == c.index()[i].1@,
{
    let ix = c.index();
    let p = ix[i].0@;
    assert(ix[i].0@ == p);
    let j = choose|j: int| 0 <= j < ix.len() && (#[trigger] ix[j]).0@ == p;
    if j < i {
        assert(ix[j].0@ != ix[i].0@);
    } else if i < j {
        assert(ix[i].0@ != ix[j].0@);
    }
}

/// An identity absent from the index has no ids.
pub proof fn lemma_ids_of_absent(c: Collection, p: Seq<u8>)
    requires
        forall|i: int| 0 <= i < c.index().len() ==> (#[trigger] c.index()[i]).0@ != p,
    ensures
        c.ids_of(p) == Seq::<ApprovalID>::empty(),
{
}

/// Two indexes that agree on every entry for `p`, and have no other entry for
/// it, give `p` the same ids.
pub proof fn lemma_ids_of_same(c: Collection, d: Collection, p: Seq<u8>)
    requires
        forall|a: int, b: int|
            0 <= a < b < c.index().len() ==> #[trigger] c.index()[a].0@ != #[trigger] c.index()[b].0@,
        forall|a: int, b: int|
            0 <= a < b < d.index().len() ==> #[trigger] d.index()[a].0@ != #[trigger] d.index()[b].0@,
        forall|i: int|
            0 <= i < c.index().len() && (#[trigger] c.index()[i]).0@ == p ==> i < d.index().len()
                && d.index()[i].0@ == p && d.index()[i].1@ == c.index()[i].1@,
        forall|i: int|
            0 <= i < d.index().len() && (#[trigger] d.index()[i]).0@ == p ==> i < c.index().len()
                && c.index()[i].0@ == p,
    ensures
        d.ids_of(p) == c.ids_of(p),
{
    if exists|i: int| 0 <= i < c.index().len() && (#[trigger] c.index()[i]).0@ == p {
        let i = choose|i: int| 0 <= i < c.index().len() && (#[trigger] c.index()[i]).0@ == p;
        lemma_ids_of_at(c, i);
        lemma_ids_of_at(d, i);
    } else {
        assert forall|i: int| 0 <= i < d.index().len() implies (#[trigger] d.index()[i]).0@ != p by {
            if d.index()[i].0@ == p {
                assert(c.index()[i].0@ == p);
            }
        }
    }
}

/// Filtering by `f` and then by `g` is filtering by `h` when, on every
/// element, `h` holds exactly when both `f` and `g` do.
pub proof fn lemma_filter_twice<A>(s: Seq<A>, f: spec_fn(A) -> bool, g: spec_fn(A) -> bool, h: spec_fn(A) -> bool)
    requires
        forall|i: int| 0 <= i < s.len() ==> (f(#[trigger] s[i]) && g(s[i])) == h(s[i]),
    ensures
        s.filter(f).filter(g) == s.filter(h),
    decreases s.len(),
{
    if s.len() > 0 {
        let t = s.drop_last();
        let x = s.last();
        assert(s == t.push(x));
        assert forall|i: int| 0 <= i < t.len() implies (f(#[trigger] t[i]) && g(t[i])) == h(t[i]) by {
            assert(t[i] == s[i]);
        }
        lemma_filter_twice(t, f, g, h);
        t.lemma_filter_push(x, f);
        t.lemma_filter_push(x, h);
        if f(x) {
            t.filter(f).lemma_filter_push(x, g);
        }
    } else {
        reveal(Seq::filter);
    }
}

/// Sweeping at `n1` and then at a later `n2` leaves what a single sweep at
/// `n2` leaves; with `n1 == n2`, a second sweep at the same time changes nothing.
pub proof fn lemma_sweep_monotone(
    c0: Collection,
    c1: Collection,
    c2: Collection,
    c3: Collection,
    n1: u64,
    n2: u64,
)
    requires
        c0.wf(),
        n1 <= n2,
        swept(c0, c1, n1),
        swept(c1, c2, n2),
        swept(c0, c3, n2),
    ensures
        c2.transfers@ == c3.transfers@,
        c2.approvals@ == c3.approvals@,
        forall|p: Seq<u8>| #[trigger] c2.ids_of(p) == c3.ids_of(p),
        c2.tokens@ == c3.tokens@,
        c2.approval_id_seq == c3.approval_id_seq,
        c2.transfer_id_seq == c3.transfer_id_seq,
        same_config(c2, c3),
{
    let l0 = c0.transfers@;
    let l1 = c1.transfers@;
    let k1 = choose|k: int|
        0 <= k <= l0.len() && l1 == l0.subrange(k, l0.len() as int) && (forall|i: int|
            0 <= i < k ==> !retained(#[trigger] l0[i].1, n1)) && (forall|i: int|
            k <= i < l0.len() ==> retained(#[trigger] l0[i].1, n1));
    let k2 = choose|k: int|
        0 <= k <= l1.len() && c2.transfers@ == l1.subrange(k, l1.len() as int) && (forall|i: int|
            0 <= i < k ==> !retained(#[trigger] l1[i].1, n2)) && (forall|i: int|
            k <= i < l1.len() ==> retained(#[trigger] l1[i].1, n2));
    let k3 = choose|k: int|
        0 <= k <= l0.len() && c3.transfers@ == l0.subrange(k, l0.len() as int) && (forall|i: int|
            0 <= i < k ==> !retained(#[trigger] l0[i].1, n2)) && (forall|i: int|
            k <= i < l0.len() ==> retained(#[trigger] l0[i].1, n2));
    let k = k1 + k2;
    assert forall|i: int| 0 <= i < k implies !retained(#[trigger] l0[i].1, n2) by {
        if i >= k1 {
            assert(l1[i - k1] == l0[i]);
        }
    }
    assert forall|i: int| k <= i < l0.len() implies retained(#[trigger] l0[i].1, n2) by {
        assert(l1[i - k1] == l0[i]);
    }
    if k < k3 {
        assert(retained(l0[k].1, n2));
    } else if k3 < k {
        assert(retained(l0[k3].1, n2));
    }
    assert(c2.transfers@ =~= c3.transfers@);
    assert(c2.approvals@ =~= c3.approvals@);
    assert forall|p: Seq<u8>| #[trigger] c2.ids_of(p) == c3.ids_of(p) by {
        let s = c0.ids_of(p);
        let f = live_at(c0.approvals@, n1);
        let g = live_at(c1.approvals@, n2);
        let h = live_at(c0.approvals@, n2);
        let ix = c0.index();
        if exists|i: int| 0 <= i < ix.len() && (#[trigger] ix[i]).0@ == p {
            let i = choose|i: int| 0 <= i < ix.len() && (#[trigger] ix[i]).0@ == p;
            lemma_ids_of_at(c0, i);
            assert forall|j: int| 0 <= j < s.len() implies (f(#[trigger] s[j]) && g(s[j])) == h(s[j]) by {
                assert(s[j] == ix[i].1@[j]);
                let x = s[j];
                assert(c0.approvals@.contains_key(x));
                assert(c1.approvals@.contains_key(x) == !expired(c0.approvals@[x], n1));
                if c1.approvals@.contains_key(x) {
                    assert(c1.approvals@[x] == c0.approvals@[x]);
                }
            }
        } else {
            lemma_ids_of_absent(c0, p);
        }
        lemma_filter_twice(s, f, g, h);
    }
}

} // verus!
