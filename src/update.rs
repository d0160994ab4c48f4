//! The ledger engine: minting, approving and transferring items.
use crate::codec::{base64_decoded, decode_payload};
use crate::state::{
    approval_permits, canonical, contains_id, lemma_canonical, same_config, same_request, Account,
    Approval, ApprovalID, Collection, Principal, Subaccount, Token, TokenID, Transfer, TransferID,
};

use vstd::prelude::*;

verus! {

broadcast use vstd::std_specs::hash::group_hash_axioms;

/// Arguments of a mint.
#[derive(Debug)]
pub struct MintTokenArgs {
    /// item id
    pub id: TokenID,
    /// item name
    pub name: String,
    /// base64 encoded (unpadded) item image
    pub image: String,
    /// the new item's owner
    pub owner: Account,
}

/// Why a mint was refused.
#[derive(Clone, Copy, Debug, PartialEq, Eq, Structural)]
pub enum MintError {
    /// No authority is configured, so nobody may mint.
    AuthorityNotSet,
    /// The caller is not the configured authority.
    Unauthorized,
    /// The collection already holds as many items as its supply cap allows.
    CapacityExceeded,
    /// An item with this id already exists.
    DuplicateId,
    /// The image is not valid base64 text.
    InvalidPayload,
}

impl MintError {
    /// A human-readable description.
    pub fn message(&self) -> (r: String) {
        match self {
            MintError::AuthorityNotSet => "can't mint because authority is not set".to_string(),
            MintError::Unauthorized => "caller is not authority".to_string(),
            MintError::CapacityExceeded => "supply cap reached".to_string(),
            MintError::DuplicateId => "token with this ID already exists".to_string(),
            MintError::InvalidPayload => "failed to decode base64 image".to_string(),
        }
    }
}

/// Whether the collection is full.
pub open spec fn at_capacity(c: Collection) -> bool {
    match c.supply_cap {
        Some(cap) => c.tokens@.len() >= cap,
        None => false,
    }
}

/// The refusal, if any, of a mint of item `id` by `caller`, given whether its
/// image decoded. The checks come in this order.
pub open spec fn mint_refusal(c: Collection, caller: Seq<u8>, id: TokenID, decoded: bool) -> Option<
    MintError,
> {
    match c.authority {
        None => Some(MintError::AuthorityNotSet),
        Some(a) => if a@ != caller {
            Some(MintError::Unauthorized)
        } else if at_capacity(c) {
            Some(MintError::CapacityExceeded)
        } else if c.tokens@.contains_key(id) {
            Some(MintError::DuplicateId)
        } else if !decoded {
            Some(MintError::InvalidPayload)
        } else {
            None
        },
    }
}

/// Whether `c2` is `c1` with item `id` added, named `name`, holding `image`
/// and owned by `owner` in canonical form; nothing else differs.
pub open spec fn minted(
    c1: Collection,
    c2: Collection,
    id: TokenID,
    name: String,
    image: Seq<u8>,
    owner: Account,
) -> bool {
    &&& c2.tokens@.dom() == c1.tokens@.dom().insert(id)
    &&& forall|t: TokenID|
        t != id && #[trigger] c1.tokens@.contains_key(t) ==> c2.tokens@[t] == c1.tokens@[t]
    &&& c2.tokens@[id].id == id
    &&& c2.tokens@[id].name == name
    &&& c2.tokens@[id].image@ == image
    &&& c2.tokens@[id].owner@ == owner@
    &&& c2.tokens@[id].owner.is_canonical()
    &&& c2.approvals@ == c1.approvals@
    &&& c2.approvals_by_principal@ == c1.approvals_by_principal@
    &&& c2.transfers@ == c1.transfers@
    &&& c2.approval_id_seq == c1.approval_id_seq
    &&& c2.transfer_id_seq == c1.transfer_id_seq
    &&& same_config(c1, c2)
}

/// Mints item `id` with an already decoded image (`None` when decoding failed).
pub fn mint_with_image(
    c: &mut Collection,
    caller: &Principal,
    id: TokenID,
    name: String,
    image: Option<Vec<u8>>,
    owner: Account,
) -> (r: Result<TokenID, MintError>)
    requires
        old(c).wf(),
    ensures
        final(c).wf(),
        match mint_refusal(*old(c), caller@, id, image is Some) {
            Some(e) => r == Err::<TokenID, MintError>(e) && *final(c) == *old(c),
            None => r == Ok::<TokenID, MintError>(id) && minted(
                *old(c),
                *final(c),
                id,
                name,
                image->0@,
                owner,
            ),
        },
{
    let authority = match c.authority {
        Some(a) => a,
        None => {
            return Err(MintError::AuthorityNotSet);
        },
    };
    if !(authority == *caller) {
        return Err(MintError::Unauthorized);
    }
    match c.supply_cap {
        Some(cap) => {
            if c.tokens.len() >= cap {
                return Err(MintError::CapacityExceeded);
            }
        },
        None => {},
    }
    if c.tokens.contains_key(&id) {
        return Err(MintError::DuplicateId);
    }
    let image = match image {
        Some(v) => v,
        None => {
            return Err(MintError::InvalidPayload);
        },
    };
    c.add_token(Token { id, name, image, owner });
    Ok(id)
}

/// Mints an item: the caller must be the configured authority, the collection
/// must be below its supply cap, the id must be new and the image valid base64.
pub fn mint_token(c: &mut Collection, caller: &Principal, args: MintTokenArgs) -> (r: Result<
    TokenID,
    MintError,
>)
    requires
        old(c).wf(),
    ensures
        final(c).wf(),
        match mint_refusal(*old(c), caller@, args.id, base64_decoded(args.image@) is Some) {
            Some(e) => r == Err::<TokenID, MintError>(e) && *final(c) == *old(c),
            None => r == Ok::<TokenID, MintError>(args.id) && minted(
                *old(c),
                *final(c),
                args.id,
                args.name,
                base64_decoded(args.image@)->0,
                args.owner,
            ),
        },
{
    let image = decode_payload(args.image.as_str());
    mint_with_image(c, caller, args.id, args.name, image, args.owner)
}

/// How far, in nanoseconds, a client's clock may lag behind the ledger's (2 minutes).
pub const PERMITTED_TIME_DRIFT: u64 = 120_000_000_000;

/// Whether a request stamped `created_at` is too old at time `now`.
pub open spec fn too_old(now: u64, created_at: u64) -> bool {
    now as int > created_at as int + PERMITTED_TIME_DRIFT as int
}

/// Whether a request stamped `created_at` lies in the future at time `now`.
pub open spec fn in_future(now: u64, created_at: u64) -> bool {
    now as int + PERMITTED_TIME_DRIFT < created_at as int
}

fn is_too_old(now: u64, created_at: u64) -> (r: bool)
    ensures
        r == too_old(now, created_at),
{
    now > created_at && now - created_at > PERMITTED_TIME_DRIFT
}

fn is_in_future(now: u64, created_at: u64) -> (r: bool)
    ensures
        r == in_future(now, created_at),
{
    created_at > now && created_at - now > PERMITTED_TIME_DRIFT
}

/// Arguments of an approval.
#[derive(Debug)]
pub struct ApproveArgs {
    pub from_subaccount: Option<Subaccount>,
    pub to: Principal,
    pub token_ids: Option<Vec<TokenID>>,
    pub expires_at: Option<u64>,
    pub memo: Option<Vec<u8>>,
    pub created_at: Option<u64>,
}

/// Why an approval was refused.
#[derive(Debug)]
pub enum AppprovalError {
    /// The caller does not own these items.
    Unauthorized(Vec<TokenID>),
    TooOld,
    TemporarilyUnavailable,
    /// Code 3: anonymous callers may not approve.
    GenericError { error_code: u64, message: String },
}

/// Whether item `id` exists and belongs to identity `p`.
pub open spec fn owned_by(c: Collection, p: Seq<u8>, id: TokenID) -> bool {
    c.tokens@.contains_key(id) && c.tokens@[id].owner.owner@ == p
}

/// Whether some id of `ids` is not an item of `p`.
pub open spec fn some_unowned(c: Collection, p: Seq<u8>, ids: Seq<TokenID>) -> bool {
    exists|k: int| 0 <= k < ids.len() && !owned_by(c, p, #[trigger] ids[k])
}

/// Whether `r` lists, each once, the ids of `ids` that are not items of `p`.
pub open spec fn lists_unowned(c: Collection, p: Seq<u8>, ids: Seq<TokenID>, r: Seq<TokenID>) -> bool {
    &&& r.no_duplicates()
    &&& forall|x: TokenID| r.contains(x) <==> ids.contains(x) && !owned_by(c, p, x)
}

/// The ids in `ids` that are not items of `caller`, each once, in the order
/// of their first occurrence.
fn unowned_ids(c: &Collection, caller: &Principal, ids: &Vec<TokenID>) -> (r: Vec<TokenID>)
    ensures
        lists_unowned(*c, caller@, ids@, r@),
        r@.len() > 0 <==> some_unowned(*c, caller@, ids@),
{
    let mut r: Vec<TokenID> = Vec::new();
    let mut i: usize = 0;
    while i < ids.len()
        invariant
            i <= ids@.len(),
            lists_unowned(*c, caller@, ids@.subrange(0, i as int), r@),
        decreases ids@.len() - i,
    {
        let id = ids[i];
        let owned = match c.tokens.get(&id) {
            Some(t) => t.owner.owner == *caller,
            None => false,
        };
        let ghost before = r@;
        if !owned && !contains_id(&r, id) {
            r.push(id);
        }
        proof {
            let s0 = ids@.subrange(0, i as int);
            let s1 = ids@.subrange(0, i + 1);
            assert(s1 =~= s0.push(id));
            assert(s1[i as int] == id);
            assert forall|x: TokenID| r@.contains(x) <==> s1.contains(x) && !owned_by(*c, caller@, x) by {
                if x != id {
                    if s1.contains(x) {
                        let k = choose|k: int| 0 <= k < s1.len() && s1[k] == x;
                        assert(s0[k] == x);
                    }
                    if s0.contains(x) {
                        let k = choose|k: int| 0 <= k < s0.len() && s0[k] == x;
                        assert(s1[k] == x);
                    }
                    if r@.contains(x) {
                        let k = choose|k: int| 0 <= k < r@.len() && r@[k] == x;
                        assert(before[k] == x);
                    }
                    if before.contains(x) {
                        let k = choose|k: int| 0 <= k < before.len() && before[k] == x;
                        assert(r@[k] == x);
                    }
                } else if r@.len() > before.len() {
                    assert(r@[r@.len() - 1] == x);
                }
            }
        }
        i = i + 1;
    }
    proof {
        assert(ids@.subrange(0, ids@.len() as int) =~= ids@);
        if some_unowned(*c, caller@, ids@) {
            let k = choose|k: int| 0 <= k < ids@.len() && !owned_by(*c, caller@, #[trigger] ids@[k]);
            assert(r@.contains(ids@[k]));
        }
        if r@.len() > 0 {
            assert(r@.contains(r@[0]));
            let k = choose|k: int| 0 <= k < ids@.len() && ids@[k] == r@[0];
            assert(!owned_by(*c, caller@, ids@[k]));
        }
    }
    r
}

/// Grants `args.to` the right to transfer the caller's items, possibly only
/// some of them, from one sub-identifier, or until some time.
pub fn icrc7_approve(c: &mut Collection, caller: &Principal, now: u64, args: ApproveArgs) -> (r:
    Result<ApprovalID, AppprovalError>)
    requires
        old(c).wf(),
        old(c).approval_id_seq < u64::MAX,
    ensures
        final(c).wf(),
        caller@ == seq![4u8] ==> (r matches Err(AppprovalError::GenericError { error_code, .. })
            && error_code == 3) && *final(c) == *old(c),
        caller@ != seq![4u8] && args.token_ids is Some && some_unowned(
            *old(c),
            caller@,
            args.token_ids->0@,
        ) ==> (r matches Err(AppprovalError::Unauthorized(ids)) && lists_unowned(
            *old(c),
            caller@,
            args.token_ids->0@,
            ids@,
        )) && *final(c) == *old(c),
        caller@ != seq![4u8] && !(args.token_ids is Some && some_unowned(
            *old(c),
            caller@,
            args.token_ids->0@,
        )) && args.created_at is Some && too_old(now, args.created_at->0) ==> (r matches Err(
            AppprovalError::TooOld,
        )) && *final(c) == *old(c),
        caller@ != seq![4u8] && !(args.token_ids is Some && some_unowned(
            *old(c),
            caller@,
            args.token_ids->0@,
        )) && !(args.created_at is Some && too_old(now, args.created_at->0)) ==> {
            &&& r == Ok::<ApprovalID, AppprovalError>(old(c).approval_id_seq)
            &&& final(c).approval_id_seq == old(c).approval_id_seq + 1
            &&& final(c).approvals@ == old(c).approvals@.insert(
                old(c).approval_id_seq,
                (Approval {
                    from: *caller,
                    from_subaccount: args.from_subaccount,
                    to: args.to,
                    token_ids: args.token_ids,
                    expires_at: args.expires_at,
                    memo: args.memo,
                }),
            )
            &&& forall|p: Seq<u8>| #[trigger]
                final(c).ids_of(p) == if p == caller@ {
                    old(c).ids_of(p).push(old(c).approval_id_seq)
                } else {
                    old(c).ids_of(p)
                }
            &&& final(c).tokens@ == old(c).tokens@
            &&& final(c).transfers@ == old(c).transfers@
            &&& final(c).transfer_id_seq == old(c).transfer_id_seq
            &&& same_config(*old(c), *final(c))
        },
{
    if caller.is_anonymous() {
        return Err(
            AppprovalError::GenericError {
                error_code: 3,
                message: "anonymous calls are not supported".to_string(),
            },
        );
    }
    // check that the caller owns all the items they want to approve

    match &args.token_ids {
        Some(ids) => {
            let unauthorized = unowned_ids(c, caller, ids);
            if unauthorized.len() > 0 {
                return Err(AppprovalError::Unauthorized(unauthorized));
            }
        },
        None => {},
    }
    match args.created_at {
        Some(created_at) => {
            if is_too_old(now, created_at) {
                return Err(AppprovalError::TooOld);
            }
        },
        None => {},
    }
    let approval = Approval {
        from: *caller,
        from_subaccount: args.from_subaccount,
        to: args.to,
        token_ids: args.token_ids,
        expires_at: args.expires_at,
        memo: args.memo,
    };
    let id = c.add_approval(approval);
    Ok(id)
}

/// Arguments of a transfer. The item ids are read as a set.
#[derive(Debug)]
pub struct TransferArgs {
    /// The account the items leave; the caller's default account when absent.
    pub from: Option<Account>,
    pub to: Account,
    pub token_ids: Vec<TokenID>,
    pub memo: Option<Vec<u8>>,
    pub created_at_time: Option<u64>,
    /// All or nothing when set or absent; item by item when `Some(false)`.
    pub is_atomic: Option<bool>,
}

/// Why a transfer was refused.
#[derive(Debug)]
pub enum TransferError {
    Unauthorized { token_ids: Vec<TokenID> },
    TooOld,
    CreatedInFuture { ledger_time: u64 },
    Duplicate { duplicate_of: TransferID },
    TemporarilyUnavailable,
    /// Code 1: no such item; code 2: transfer to the sending account;
    /// code 4: no item ids given.
    GenericError { error_code: u64, message: String },
}

/// Why a single item of a transfer cannot move.
#[derive(Clone, Copy, Debug, PartialEq, Eq, Structural)]
pub enum ItemFault {
    NotFound,
    Unauthorized,
}

/// What keeps item `id` from moving at the request of `caller` at time
/// `now`: it must exist, and a caller other than its owner's identity needs
/// an approval from that owner that is usable for the item and for the
/// owner's sub-identifier.
pub open spec fn item_fault(c: Collection, caller: Seq<u8>, now: u64, id: TokenID) -> Option<
    ItemFault,
> {
    if !c.tokens@.contains_key(id) {
        Some(ItemFault::NotFound)
    } else if c.tokens@[id].owner.owner@ != caller && c.usable_approval(
        c.tokens@[id].owner,
        caller,
        id,
        now,
    ) is None {
        Some(ItemFault::Unauthorized)
    } else {
        None
    }
}

/// Whether error `e` reports fault `f` of item `id`.
pub open spec fn reports(e: TransferError, id: TokenID, f: ItemFault) -> bool {
    match f {
        ItemFault::NotFound => e matches TransferError::GenericError { error_code, .. } && error_code == 1,
        ItemFault::Unauthorized => e matches TransferError::Unauthorized { token_ids }
            && token_ids@ == seq![id],
    }
}

/// The predicate "can move" on item ids.
pub open spec fn movable(c: Collection, caller: Seq<u8>, now: u64) -> spec_fn(TokenID) -> bool {
    |id: TokenID| item_fault(c, caller, now, id) is None
}

/// Whether `e` reports the first faulty item of `ids`.
pub open spec fn first_fault(
    c: Collection,
    caller: Seq<u8>,
    now: u64,
    ids: Seq<TokenID>,
    e: TransferError,
) -> bool {
    exists|k: int|
        0 <= k < ids.len() && #[trigger] item_fault(c, caller, now, ids[k]) is Some && reports(
            e,
            ids[k],
            item_fault(c, caller, now, ids[k])->0,
        ) && forall|j: int| 0 <= j < k ==> #[trigger] item_fault(c, caller, now, ids[j]) is None
}

fn check_item(
    c: &Collection,
    caller: &Principal,
    now: u64,
    id: TokenID,
) -> (r: Result<(), TransferError>)
    requires
        c.wf(),
    ensures
        match item_fault(*c, caller@, now, id) {
            None => r is Ok,
            Some(f) => r matches Err(e) && reports(e, id, f),
        },
{
    let token = match c.tokens.get(&id) {
        Some(t) => t,
        None => {
            return Err(
                TransferError::GenericError {
                    error_code: 1,
                    message: "token does not exist".to_string(),
                },
            );
        },
    };
    if !(token.owner.owner == *caller) {
        // a delegate, or someone moving another identity's item
        if c.find_approval_for_delegate(&token.owner, caller, id, now).is_none() {
            let mut token_ids: Vec<TokenID> = Vec::new();
            token_ids.push(id);
            assert(token_ids@ =~= seq![id]);
            return Err(TransferError::Unauthorized { token_ids });
        }
    }
    Ok(())
}

/// The dry pass: which of `ids` can move, and the error of the first that cannot.
fn validate_items(
    c: &Collection,
    caller: &Principal,
    now: u64,
    ids: &Vec<TokenID>,
) -> (r: (Vec<TokenID>, Option<TransferError>))
    requires
        c.wf(),
    ensures
        r.0@ == ids@.filter(movable(*c, caller@, now)),
        match r.1 {
            None => forall|k: int|
                0 <= k < ids@.len() ==> #[trigger] item_fault(*c, caller@, now, ids@[k]) is None,
            Some(e) => first_fault(*c, caller@, now, ids@, e),
        },
{
    let ghost pred = movable(*c, caller@, now);
    let mut ok: Vec<TokenID> = Vec::new();
    let mut first: Option<TransferError> = None;
    let mut i: usize = 0;
    while i < ids.len()
        invariant
            c.wf(),
            pred == movable(*c, caller@, now),
            i <= ids@.len(),
            ok@ == ids@.subrange(0, i as int).filter(pred),
            match first {
                None => forall|k: int|
                    0 <= k < i ==> #[trigger] item_fault(*c, caller@, now, ids@[k]) is None,
                Some(e) => first_fault(*c, caller@, now, ids@, e),
            },
        decreases ids@.len() - i,
    {
        let id = ids[i];
        proof {
            assert(ids@.subrange(0, i + 1) =~= ids@.subrange(0, i as int).push(id));
            ids@.subrange(0, i as int).lemma_filter_push(id, pred);
        }
        match check_item(c, caller, now, id) {
            Ok(()) => {
                ok.push(id);
            },
            Err(e) => {
                if first.is_none() {
                    proof {
                        assert(item_fault(*c, caller@, now, ids@[i as int]) is Some);
                    }
                    first = Some(e);
                }
            },
        }
        i = i + 1;
    }
    assert(ids@.subrange(0, ids@.len() as int) =~= ids@);
    (ok, first)
}

/// Item `t` with its owner replaced by `to`.
pub open spec fn moved_token(t: Token, to: Account) -> Token {
    Token { id: t.id, name: t.name, image: t.image, owner: to }
}

/// The commit pass: gives every item of `ids` to `to`.
fn move_items(c: &mut Collection, ids: &Vec<TokenID>, to: &Account)
    requires
        old(c).wf(),
        to.is_canonical(),
        forall|k: int| 0 <= k < ids@.len() ==> old(c).tokens@.contains_key(#[trigger] ids@[k]),
    ensures
        final(c).wf(),
        final(c).tokens@.dom() == old(c).tokens@.dom(),
        forall|t: TokenID| #[trigger]
            old(c).tokens@.contains_key(t) ==> final(c).tokens@[t] == if ids@.contains(t) {
                moved_token(old(c).tokens@[t], *to)
            } else {
                old(c).tokens@[t]
            },
        final(c).approvals@ == old(c).approvals@,
        final(c).approvals_by_principal@ == old(c).approvals_by_principal@,
        final(c).transfers@ == old(c).transfers@,
        final(c).approval_id_seq == old(c).approval_id_seq,
        final(c).transfer_id_seq == old(c).transfer_id_seq,
        same_config(*old(c), *final(c)),
{
    let mut i: usize = 0;
    while i < ids.len()
        invariant
            c.wf(),
            to.is_canonical(),
            i <= ids@.len(),
            forall|k: int| 0 <= k < ids@.len() ==> old(c).tokens@.contains_key(#[trigger] ids@[k]),
            c.tokens@.dom() == old(c).tokens@.dom(),
            forall|t: TokenID| #[trigger]
                old(c).tokens@.contains_key(t) ==> c.tokens@[t] == if ids@.subrange(0, i as int).contains(t) {
                    moved_token(old(c).tokens@[t], *to)
                } else {
                    old(c).tokens@[t]
                },
            c.approvals@ == old(c).approvals@,
            c.approvals_by_principal@ == old(c).approvals_by_principal@,
            c.transfers@ == old(c).transfers@,
            c.approval_id_seq == old(c).approval_id_seq,
            c.transfer_id_seq == old(c).transfer_id_seq,
            same_config(*old(c), *c),
        decreases ids@.len() - i,
    {
        let id = ids[i];
        proof {
            assert(ids@.subrange(0, i + 1) =~= ids@.subrange(0, i as int).push(id));
            assert(old(c).tokens@.contains_key(ids@[i as int]));
        }
        let ghost before = c.tokens@;
        match c.tokens.remove(&id) {
            Some(t) => {
                c.tokens.insert(id, Token { id: t.id, name: t.name, image: t.image, owner: *to });
            },
            None => {},
        }
        proof {
            assert(c.tokens@ =~= before.insert(id, moved_token(before[id], *to)));
            assert forall|t: TokenID| #[trigger]
                old(c).tokens@.contains_key(t) implies c.tokens@[t] == if ids@.subrange(
                0,
                i + 1,
            ).contains(t) {
                moved_token(old(c).tokens@[t], *to)
            } else {
                old(c).tokens@[t]
            } by {
                if t != id {
                    if ids@.subrange(0, i + 1).contains(t) {
                        let k = choose|k: int| 0 <= k < i + 1 && #[trigger] ids@.subrange(0, i + 1)[k] == t;
                        assert(ids@.subrange(0, i as int)[k] == t);
                    }
                } else {
                    assert(ids@.subrange(0, i + 1)[i as int] == t);
                }
            }
        }
        i = i + 1;
    }
    assert(ids@.subrange(0, ids@.len() as int) =~= ids@);
}

/// The account a transfer takes items from, before canonicalization.
pub open spec fn requested_from(args: TransferArgs, caller: Principal) -> Account {
    match args.from {
        Some(a) => a,
        None => Account { owner: caller, subaccount: None },
    }
}

/// Whether a transfer runs all or nothing.
pub open spec fn runs_atomically(args: TransferArgs) -> bool {
    args.is_atomic != Some(false)
}

/// Whether a request sends to the account it sends from (compared canonically).
pub open spec fn to_self(args: TransferArgs, caller: Principal) -> bool {
    requested_from(args, caller)@ == args.to@
}

/// The record that a transfer request is logged as: accounts canonical, and
/// stamped with its creation time, or `now` when it has none.
pub open spec fn transfer_record(args: TransferArgs, caller: Principal, now: u64) -> Transfer {
    Transfer {
        from: canonical(requested_from(args, caller)),
        to: canonical(args.to),
        token_ids: args.token_ids,
        memo: args.memo,
        created_at: match args.created_at_time {
            Some(t) => t,
            None => now,
        },
    }
}

/// Whether the request passes the checks that come before duplicate
/// detection: some item ids, and a creation time within the permitted drift.
pub open spec fn admissible(args: TransferArgs, now: u64) -> bool {
    &&& args.token_ids@.len() > 0
    &&& match args.created_at_time {
        Some(t) => !too_old(now, t) && !in_future(now, t),
        None => true,
    }
}

/// Whether some item of `ids` cannot move.
pub open spec fn any_fault(c: Collection, caller: Seq<u8>, now: u64, ids: Seq<TokenID>) -> bool {
    exists|k: int| 0 <= k < ids.len() && #[trigger] item_fault(c, caller, now, ids[k]) is Some
}

/// Whether `c2` is `c1` after committing transfer `id`: exactly the requested
/// items without fault now belong to the canonical `to`, the record is in the
/// log, and nothing else differs.
pub open spec fn committed(
    c1: Collection,
    c2: Collection,
    caller: Principal,
    now: u64,
    args: TransferArgs,
    id: TransferID,
) -> bool {
    &&& c2.tokens@.dom() == c1.tokens@.dom()
    &&& forall|t: TokenID| #[trigger]
        c1.tokens@.contains_key(t) ==> c2.tokens@[t] == if args.token_ids@.contains(t) && item_fault(
            c1,
            caller@,
            now,
            t,
        ) is None {
            moved_token(c1.tokens@[t], canonical(args.to))
        } else {
            c1.tokens@[t]
        }
    &&& exists|k: int|
        0 <= k <= c1.transfers@.len() && c2.transfers@ == c1.transfers@.insert(
            k,
            (id, transfer_record(args, caller, now)),
        )
    &&& c2.transfer_id_seq == c1.transfer_id_seq + 1
    &&& c2.approvals@ == c1.approvals@
    &&& c2.approvals_by_principal@ == c1.approvals_by_principal@
    &&& c2.approval_id_seq == c1.approval_id_seq
    &&& same_config(c1, c2)
}

/// The logged transfer that the request repeats, if any.
pub open spec fn repeats(c: Collection, caller: Principal, now: u64, args: TransferArgs) -> Option<
    TransferID,
> {
    c.duplicate_of(transfer_record(args, caller, now))
}

/// Whether the request passes every check that is not about a single item:
/// it is admissible, repeats no logged transfer and does not send to itself.
pub open spec fn well_formed_request(
    c: Collection,
    caller: Principal,
    now: u64,
    args: TransferArgs,
) -> bool {
    admissible(args, now) && repeats(c, caller, now, args) is None && !to_self(args, caller)
}

/// Moves the requested items to `args.to`. Requests with no items, stamped
/// outside the permitted drift from `now`, that repeat a logged request, or
/// that send to the account they send from, are refused. In atomic mode any
/// faulty item refuses the whole request with the first fault; otherwise the
/// faulty items are skipped. A request that goes through is logged under the
/// next transfer id, which it returns.
pub fn icrc7_transfer(c: &mut Collection, caller: &Principal, now: u64, args: TransferArgs) -> (r:
    Result<TransferID, TransferError>)
    requires
        old(c).wf(),
        old(c).transfer_id_seq < u64::MAX,
    ensures
        final(c).wf(),
        args.token_ids@.len() == 0 ==> (r matches Err(TransferError::GenericError { error_code, .. })
            && error_code == 4) && *final(c) == *old(c),
        args.token_ids@.len() > 0 && args.created_at_time is Some && too_old(now, args.created_at_time->0)
            ==> (r matches Err(TransferError::TooOld)) && *final(c) == *old(c),
        args.token_ids@.len() > 0 && args.created_at_time is Some && !too_old(now, args.created_at_time->0)
            && in_future(now, args.created_at_time->0) ==> (r matches Err(
            TransferError::CreatedInFuture { ledger_time },
        ) && ledger_time == now) && *final(c) == *old(c),
        admissible(args, now) && repeats(*old(c), *caller, now, args) is Some ==> (r matches Err(
            TransferError::Duplicate { duplicate_of },
        ) && repeats(*old(c), *caller, now, args) == Some(duplicate_of)) && *final(c) == *old(c),
        admissible(args, now) && repeats(*old(c), *caller, now, args) is None && to_self(args, *caller)
            ==> (r matches Err(TransferError::GenericError { error_code, .. }) && error_code == 2)
            && *final(c) == *old(c),
        well_formed_request(*old(c), *caller, now, args) && runs_atomically(args) && any_fault(
            *old(c),
            caller@,
            now,
            args.token_ids@,
        ) ==> (r matches Err(e) && first_fault(*old(c), caller@, now, args.token_ids@, e)) && *final(c)
            == *old(c),
        well_formed_request(*old(c), *caller, now, args) && !(runs_atomically(args) && any_fault(
            *old(c),
            caller@,
            now,
            args.token_ids@,
        )) ==> r == Ok::<TransferID, TransferError>(old(c).transfer_id_seq) && committed(
            *old(c),
            *final(c),
            *caller,
            now,
            args,
            old(c).transfer_id_seq,
        ),
{
    let ghost c0 = *old(c);
    let ghost args0 = args;
    if args.token_ids.len() == 0 {
        return Err(
            TransferError::GenericError {
                error_code: 4,
                message: "token_ids must not be empty".to_string(),
            },
        );
    }
    match args.created_at_time {
        Some(created_at) => {
            if is_too_old(now, created_at) {
                return Err(TransferError::TooOld);
            }
            if is_in_future(now, created_at) {
                return Err(TransferError::CreatedInFuture { ledger_time: now });
            }
        },
        None => {},
    }
    let from = match args.from {
        Some(a) => a.to_canonical(),
        None => Account::from_owner(*caller),
    };
    let to = args.to.to_canonical();
    let created_at = match args.created_at_time {
        Some(t) => t,
        None => now,
    };
    let atomic = match args.is_atomic {
        Some(b) => b,
        None => true,
    };
    let transfer = Transfer {
        from,
        to,
        token_ids: args.token_ids,
        memo: args.memo,
        created_at,
    };
    assert(transfer == transfer_record(args0, *caller, now));
    match c.find_duplicate_transfer(&transfer) {
        Some(id) => {
            return Err(TransferError::Duplicate { duplicate_of: id });
        },
        None => {},
    }
    proof {
        lemma_canonical(requested_from(args0, *caller));
        lemma_canonical(args0.to);
    }
    // sending to the sending account is refused whatever the batch mode
    if from == to {
        return Err(
            TransferError::GenericError { error_code: 2, message: "can't transfer to self".to_string() },
        );
    }
    // nothing is mutated before every precondition has been checked
    let (ready, first) = validate_items(c, caller, now, &transfer.token_ids);
    if atomic {
        match first {
            Some(e) => {
                return Err(e);
            },
            None => {},
        }
    }
    proof {
        if atomic && any_fault(c0, caller@, now, args0.token_ids@) {
            let ids = args0.token_ids@;
            let k = choose|k: int| 0 <= k < ids.len() && #[trigger] item_fault(c0, caller@, now, ids[k]) is Some;
            assert(item_fault(c0, caller@, now, ids[k]) is Some);
        }
        assert forall|k: int| 0 <= k < ready@.len() implies c.tokens@.contains_key(#[trigger] ready@[k]) by {
            args0.token_ids@.lemma_filter_pred(movable(c0, caller@, now), k);
        }
    }
    move_items(c, &ready, &to);
    proof {
        let pred = movable(c0, caller@, now);
        assert forall|t: TokenID|
            ready@.contains(t) <==> args0.token_ids@.contains(t) && item_fault(c0, caller@, now, t)
                is None by {
            if ready@.contains(t) {
                args0.token_ids@.lemma_filter_contains_rev(pred, t);
                let k = choose|k: int| 0 <= k < ready@.len() && ready@[k] == t;
                args0.token_ids@.lemma_filter_pred(pred, k);
            }
            if args0.token_ids@.contains(t) && item_fault(c0, caller@, now, t) is None {
                let k = choose|k: int| 0 <= k < args0.token_ids@.len() && args0.token_ids@[k] == t;
                args0.token_ids@.lemma_filter_contains(pred, k);
            }
        }
    }
    let id = c.add_transfer(transfer);
    Ok(id)
}

/// A committed transfer request that carries its creation time is recognised
/// as a duplicate of the committed one by any later request, from any caller
/// and at any time, that is the same request: the same canonical accounts,
/// item set, memo and creation time. This holds while the record stays in the
/// log, that is until a sweep drops it.
pub proof fn lemma_transfer_idempotent(
    c0: Collection,
    c1: Collection,
    caller: Principal,
    now: u64,
    args: TransferArgs,
    id: TransferID,
    caller2: Principal,
    later: u64,
    args2: TransferArgs,
)
    requires
        c0.wf(),
        args.created_at_time is Some,
        repeats(c0, caller, now, args) is None,
        committed(c0, c1, caller, now, args, id),
        same_request(transfer_record(args, caller, now), transfer_record(args2, caller2, later)),
    ensures
        repeats(c1, caller2, later, args2) == Some(id),
{
    let rec = transfer_record(args, caller, now);
    let rec2 = transfer_record(args2, caller2, later);
    let log0 = c0.transfers@;
    let log1 = c1.transfers@;
    let k = choose|k: int| 0 <= k <= log0.len() && log1 == log0.insert(k, (id, rec));
    assert(same_request(log1[k].1, rec2));
    assert forall|i: int| 0 <= i < log1.len() && i != k implies !same_request(
        #[trigger] log1[i].1,
        rec2,
    ) by {
        if i < k {
            assert(log1[i] == log0[i]);
            assert(!same_request(log0[i].1, rec));
        } else {
            assert(log1[i] == log0[i - 1]);
            assert(!same_request(log0[i - 1].1, rec));
        }
    }
    let j = choose|j: int|
        0 <= j < log1.len() && same_request(#[trigger] log1[j].1, rec2) && forall|m: int|
            0 <= m < j ==> !same_request(#[trigger] log1[m].1, rec2);
    assert(j == k);
}

/// An existing item can move at the request of `caller` exactly when `caller`
/// is the identity that owns it, or the oldest live approval that the owner's
/// identity granted names `caller` as delegate, covers the item, has not
/// expired and fits the owner's sub-identifier. Such an approval was granted
/// by the owner's identity.
pub proof fn lemma_authorization(c: Collection, caller: Principal, now: u64, id: TokenID)
    requires
        c.wf(),
        c.tokens@.contains_key(id),
    ensures
        ({
            let o = c.tokens@[id].owner;
            let ids = c.ids_of(o.owner@);
            &&& item_fault(c, caller@, now, id) is None <==> (o.owner@ == caller@ || (ids.len() > 0
                && approval_permits(c.approvals@[ids[0]], o, caller@, id, now)))
            &&& ids.len() > 0 ==> c.approvals@.contains_key(ids[0]) && c.approvals@[ids[0]].from@
                == o.owner@
        }),
{
    let ix = c.index();
    let p = c.tokens@[id].owner.owner@;
    if exists|i: int| 0 <= i < ix.len() && (#[trigger] ix[i]).0@ == p {
        let i = choose|i: int| 0 <= i < ix.len() && (#[trigger] ix[i]).0@ == p;
        crate::state::lemma_ids_of_at(c, i);
        assert(ix[i].1@[0] == c.ids_of(p)[0]);
    }
}

} // verus!
