//! Core of a non-fungible-token ledger: ownership of uniquely identified items,
//! delegated transfer rights, validated transfers with duplicate detection, and
//! time-windowed pruning of the transfer log and of expired approvals.
pub mod codec;
pub mod state;
pub mod update;

use crate::codec::{base64_decoded, decode_payload, to_uppercase, upper_of};
use crate::state::{zero_subaccount, Account, Collection, Principal, TokenID};

pub use crate::update::{
    icrc7_approve, icrc7_transfer, mint_token, mint_with_image, AppprovalError, ApproveArgs,
    MintError, MintTokenArgs, TransferArgs, TransferError, PERMITTED_TIME_DRIFT,
};

use vstd::prelude::*;
use vstd::std_specs::iter::IteratorSpec;

verus! {

broadcast use vstd::std_specs::hash::group_hash_axioms;

/// Largest royalty, in basis points.
pub const MAX_ROYALTIES: u16 = 10000;

/// Configuration a collection starts from.
#[derive(Debug)]
pub struct InitArgs {
    /// collection name
    pub name: String,
    /// collection symbol
    pub symbol: String,
    /// collection description
    pub description: Option<String>,
    /// royalties in basis points
    pub royalties: u16,
    /// royalties recipient
    pub royalty_recipient: Account,
    /// base64 encoded (unpadded) collection image
    pub image: Option<String>,
    /// supply cap on items in this collection
    pub supply_cap: Option<usize>,
    /// the identity that is able to mint new items in this collection
    pub authority: Principal,
}

/// Why a configuration was refused.
#[derive(Clone, Copy, Debug, PartialEq, Eq, Structural)]
pub enum InitError {
    /// Royalties above 10000 basis points.
    RoyaltiesOutOfRange,
    /// A supply cap of zero.
    ZeroSupplyCap,
    /// The image is not valid base64 text.
    InvalidImage,
}

impl InitError {
    /// A human-readable description.
    pub fn message(&self) -> (r: String) {
        match self {
            InitError::RoyaltiesOutOfRange => "royalties must be between 0 and 10000".to_string(),
            InitError::ZeroSupplyCap => "supply cap must be greater than 0".to_string(),
            InitError::InvalidImage => "decode base64 image".to_string(),
        }
    }
}

/// Whether `c` is a fresh collection with the given configuration: no items,
/// approvals or transfers, and both id counters at zero.
pub open spec fn configured_as(
    c: Collection,
    name: String,
    symbol: Seq<char>,
    description: Option<String>,
    royalties: u16,
    royalty_recipient: Account,
    image: Option<Seq<u8>>,
    supply_cap: Option<usize>,
    authority: Principal,
) -> bool {
    &&& c.wf()
    &&& c.name == name
    &&& c.symbol@ == symbol
    &&& c.description == description
    &&& c.royalties == royalties
    &&& c.royalty_recipient == royalty_recipient
    &&& match (c.image, image) {
        (Some(a), Some(b)) => a@ == b,
        (None, None) => true,
        _ => false,
    }
    &&& c.supply_cap == supply_cap
    &&& c.authority == Some(authority)
    &&& c.tokens@.len() == 0
    &&& c.approvals@.len() == 0
    &&& c.approvals_by_principal@.len() == 0
    &&& c.transfers@.len() == 0
    &&& c.approval_id_seq == 0
    &&& c.transfer_id_seq == 0
}

/// A fresh collection from a configuration whose symbol is already upper-cased
/// and whose image is already decoded.
pub fn configured(
    name: String,
    symbol: String,
    description: Option<String>,
    royalties: u16,
    royalty_recipient: Account,
    image: Option<Vec<u8>>,
    supply_cap: Option<usize>,
    authority: Principal,
) -> (r: Result<Collection, InitError>)
    ensures
        royalties > MAX_ROYALTIES ==> r == Err::<Collection, InitError>(InitError::RoyaltiesOutOfRange),
        royalties <= MAX_ROYALTIES && supply_cap == Some(0usize) ==> r == Err::<Collection, InitError>(
            InitError::ZeroSupplyCap,
        ),
        royalties <= MAX_ROYALTIES && supply_cap != Some(0usize) ==> (r matches Ok(c) && configured_as(
            c,
            name,
            symbol@,
            description,
            royalties,
            royalty_recipient,
            match image {
                Some(v) => Some(v@),
                None => None,
            },
            supply_cap,
            authority,
        )),
{
    if royalties > MAX_ROYALTIES {
        return Err(InitError::RoyaltiesOutOfRange);
    }
    match supply_cap {
        Some(cap) => {
            if cap == 0 {
                return Err(InitError::ZeroSupplyCap);
            }
        },
        None => {},
    }
    let mut c = Collection::default();
    c.name = name;
    c.symbol = symbol;
    c.royalties = royalties;
    c.royalty_recipient = royalty_recipient;
    c.description = description;
    c.image = image;
    c.supply_cap = supply_cap;
    c.authority = Some(authority);
    Ok(c)
}

/// Configures `c` afresh from `args`, replacing what it held. Royalties above
/// 10000 basis points, a zero supply cap, or an image that is not valid base64
/// text are refused, and `c` is then left as it was.
pub fn init(c: &mut Collection, args: InitArgs) -> (r: Result<(), InitError>)
    ensures
        args.royalties > MAX_ROYALTIES ==> r == Err::<(), InitError>(InitError::RoyaltiesOutOfRange)
            && *final(c) == *old(c),
        args.royalties <= MAX_ROYALTIES && args.supply_cap == Some(0usize) ==> r == Err::<(), InitError>(
            InitError::ZeroSupplyCap,
        ) && *final(c) == *old(c),
        args.royalties <= MAX_ROYALTIES && args.supply_cap != Some(0usize) && args.image is Some
            && base64_decoded(args.image->0@) is None ==> r == Err::<(), InitError>(InitError::InvalidImage)
            && *final(c) == *old(c),
        args.royalties <= MAX_ROYALTIES && args.supply_cap != Some(0usize) && (args.image is None
            || base64_decoded(args.image->0@) is Some) ==> r == Ok::<(), InitError>(()) && configured_as(
            *final(c),
            args.name,
            upper_of(args.symbol@),
            args.description,
            args.royalties,
            args.royalty_recipient,
            match args.image {
                Some(s) => base64_decoded(s@),
                None => None,
            },
            args.supply_cap,
            args.authority,
        ),
{
    if args.royalties > MAX_ROYALTIES {
        return Err(InitError::RoyaltiesOutOfRange);
    }
    if args.supply_cap == Some(0usize) {
        return Err(InitError::ZeroSupplyCap);
    }
    let image = match &args.image {
        Some(s) => match decode_payload(s.as_str()) {
            Some(v) => Some(v),
            None => {
                return Err(InitError::InvalidImage);
            },
        },
        None => None,
    };
    let symbol = to_uppercase(args.symbol.as_str());
    match configured(
        args.name,
        symbol,
        args.description,
        args.royalties,
        args.royalty_recipient,
        image,
        args.supply_cap,
        args.authority,
    ) {
        Ok(fresh) => {
            *c = fresh;
            Ok(())
        },
        Err(e) => Err(e),
    }
}

/// The ids of all items, each once, in no particular order.
fn all_token_ids(c: &Collection) -> (r: Vec<TokenID>)
    ensures
        r@.to_set() == c.tokens@.dom(),
        r@.no_duplicates(),
{
    let mut r: Vec<TokenID> = Vec::new();
    let keys = c.tokens.keys();
    let ghost all = keys.remaining();
    assert(all.unref().to_set() == c.tokens@.dom());
    assert(all.no_duplicates());
    for k in it: keys
        invariant
            it.seq() == all,
            r@ == it.seq().unref().subrange(0, it.index() as int),
    {
        r.push(*k);
        assert(r@ =~= it.seq().unref().subrange(0, it.index() as int + 1));
    }
    assert(r@ =~= all.unref());
    r
}

/// The ids of the items that `owner` holds.
pub open spec fn owned_ids(c: Collection, owner: Account) -> Set<TokenID> {
    Set::new(|id: TokenID| c.tokens@.contains_key(id) && c.tokens@[id].owner@ == owner@)
}

/// The items that `owner` holds, each once, in no particular order.
pub fn icrc7_tokens_of(c: &Collection, owner: Account) -> (r: Vec<TokenID>)
    ensures
        r@.to_set() == owned_ids(*c, owner),
        r@.no_duplicates(),
{
    let ids = all_token_ids(c);
    let mut r: Vec<TokenID> = Vec::new();
    let mut i: usize = 0;
    while i < ids.len()
        invariant
            ids@.to_set() == c.tokens@.dom(),
            ids@.no_duplicates(),
            i <= ids@.len(),
            r@.no_duplicates(),
            forall|t: int| 0 <= t < r@.len() ==> ids@.subrange(0, i as int).contains(#[trigger] r@[t]),
            forall|id: TokenID|
                r@.contains(id) <==> ids@.subrange(0, i as int).contains(id) && owned_ids(
                    *c,
                    owner,
                ).contains(id),
        decreases ids@.len() - i,
    {
        let id = ids[i];
        proof {
            assert(ids@.subrange(0, i + 1) =~= ids@.subrange(0, i as int).push(id));
            assert(ids@.to_set().contains(id));
            assert(!ids@.subrange(0, i as int).contains(id)) by {
                if ids@.subrange(0, i as int).contains(id) {
                    let k = choose|k: int| 0 <= k < i && #[trigger] ids@.subrange(0, i as int)[k] == id;
                    assert(ids@[k] == ids@[i as int]);
                }
            }
        }
        let holds = match c.tokens.get(&id) {
            Some(t) => t.owner == owner,
            None => false,
        };
        let ghost r_before = r@;
        if holds {
            r.push(id);
        }
        proof {
            assert(holds == owned_ids(*c, owner).contains(id));
            assert forall|x: TokenID|
                r@.contains(x) <==> ids@.subrange(0, i + 1).contains(x) && owned_ids(*c, owner).contains(x) by {
                if x == id {
                    if holds {
                        assert(r@[r@.len() - 1] == x);
                    }
                    assert(ids@.subrange(0, i + 1)[i as int] == x);
                } else {
                    if r@.contains(x) {
                        let t = choose|t: int| 0 <= t < r@.len() && r@[t] == x;
                        assert(r_before[t] == x);
                    }
                    if r_before.contains(x) {
                        let t = choose|t: int| 0 <= t < r_before.len() && r_before[t] == x;
                        assert(r@[t] == x);
                    }
                    if ids@.subrange(0, i + 1).contains(x) {
                        let k = choose|k: int| 0 <= k < i + 1 && #[trigger] ids@.subrange(0, i + 1)[k] == x;
                        assert(ids@.subrange(0, i as int)[k] == x);
                    }
                    if ids@.subrange(0, i as int).contains(x) {
                        let k = choose|k: int| 0 <= k < i && #[trigger] ids@.subrange(0, i as int)[k] == x;
                        assert(ids@.subrange(0, i + 1)[k] == x);
                    }
                }
            }
            assert forall|t: int| 0 <= t < r@.len() implies ids@.subrange(0, i + 1).contains(
                #[trigger] r@[t],
            ) by {
                if r@[t] != id {
                    let k = choose|k: int| 0 <= k < i && #[trigger] ids@.subrange(0, i as int)[k] == r@[t];
                    assert(ids@.subrange(0, i + 1)[k] == r@[t]);
                } else {
                    assert(ids@.subrange(0, i + 1)[i as int] == r@[t]);
                }
            }
        }
        i = i + 1;
    }
    proof {
        assert(ids@.subrange(0, ids@.len() as int) =~= ids@);
        assert(r@.to_set() =~= owned_ids(*c, owner));
    }
    r
}

/// How many items `owner` holds.
pub fn icrc7_balance_of(c: &Collection, owner: Account) -> (r: u64)
    ensures
        r == owned_ids(*c, owner).len(),
{
    let ids = icrc7_tokens_of(c, owner);
    proof {
        ids@.unique_seq_to_set();
    }
    ids.len() as u64
}

/// The owner of item `id`, if it exists.
pub fn icrc7_owner_of(c: &Collection, id: TokenID) -> (r: Option<Account>)
    ensures
        r == if c.tokens@.contains_key(id) {
            Some(c.tokens@[id].owner)
        } else {
            None
        },
{
    match c.tokens.get(&id) {
        Some(t) => Some(t.owner),
        None => None,
    }
}

/// How many items exist.
pub fn icrc7_total_supply(c: &Collection) -> (r: u64)
    ensures
        r == c.tokens@.len(),
{
    c.tokens.len() as u64
}

/// The supply cap, if one is set.
pub fn icrc7_supply_cap(c: &Collection) -> (r: Option<u64>)
    ensures
        r == match c.supply_cap {
            Some(n) => Some(n as u64),
            None => None::<u64>,
        },
{
    match c.supply_cap {
        Some(n) => Some(n as u64),
        None => None,
    }
}

/// An item's public description.
#[derive(Debug, PartialEq, Eq)]
pub struct TokenMetadata {
    pub icrc7_id: TokenID,
    pub icrc7_name: String,
    pub icrc7_image: Vec<u8>,
}

fn copy_bytes(v: &Vec<u8>) -> (r: Vec<u8>)
    ensures
        r@ == v@,
{
    let mut r: Vec<u8> = Vec::new();
    let mut i: usize = 0;
    while i < v.len()
        invariant
            i <= v@.len(),
            r@ == v@.subrange(0, i as int),
        decreases v@.len() - i,
    {
        r.push(v[i]);
        i = i + 1;
        assert(r@ =~= v@.subrange(0, i as int));
    }
    assert(v@.subrange(0, v@.len() as int) =~= v@);
    r
}

/// The description of item `id`, if it exists.
pub fn icrc7_metadata(c: &Collection, id: TokenID) -> (r: Option<TokenMetadata>)
    ensures
        match r {
            Some(m) => c.tokens@.contains_key(id) && m.icrc7_id == id && m.icrc7_name@
                == c.tokens@[id].name@ && m.icrc7_image@ == c.tokens@[id].image@,
            None => !c.tokens@.contains_key(id),
        },
{
    match c.tokens.get(&id) {
        Some(t) => Some(
            TokenMetadata { icrc7_id: id, icrc7_name: t.name.clone(), icrc7_image: copy_bytes(&t.image) },
        ),
        None => None,
    }
}

/// The collection's public description; fields left out of the request hold
/// their default values.
#[derive(Debug, PartialEq)]
pub struct CollectionMetadata {
    pub icrc7_name: String,
    pub icrc7_symbol: String,
    pub icrc7_royalties: u16,
    pub icrc7_royalty_recipient: Account,
    pub icrc7_description: Option<String>,
    pub icrc7_image: Option<Vec<u8>>,
    pub icrc7_total_supply: u64,
    pub icrc7_supply_cap: Option<u64>,
}

/// Whether field `name` is asked for: an empty request asks for all fields.
pub open spec fn requested(fields: Seq<String>, name: Seq<char>) -> bool {
    fields.len() == 0 || exists|i: int| 0 <= i < fields.len() && (#[trigger] fields[i])@ == name
}

fn maybe_field(field: &str, fields: &Vec<String>) -> (r: bool)
    ensures
        r == requested(fields@, field@),
{
    if fields.len() == 0 {
        return true;
    }
    let name = field.to_owned();
    let mut i: usize = 0;
    while i < fields.len()
        invariant
            name@ == field@,
            i <= fields@.len(),
            forall|k: int| 0 <= k < i ==> (#[trigger] fields@[k])@ != field@,
        decreases fields@.len() - i,
    {
        if fields[i] == name {
            return true;
        }
        i = i + 1;
    }
    false
}

/// The collection's description, restricted to the `incl` fields when that is not empty.
pub fn icrc7_collection_metadata(c: &Collection, incl: &Vec<String>) -> (r: CollectionMetadata)
    ensures
        r.icrc7_name@ == if requested(incl@, "icrc7_name"@) { c.name@ } else { Seq::<char>::empty() },
        r.icrc7_symbol@ == if requested(incl@, "icrc7_symbol"@) { c.symbol@ } else { Seq::<char>::empty() },
        r.icrc7_royalties == if requested(incl@, "icrc7_royalties"@) { c.royalties } else { 0 },
        r.icrc7_total_supply == if requested(incl@, "icrc7_total_supply"@) { c.tokens@.len() } else { 0 },
        requested(incl@, "icrc7_description"@) ==> r.icrc7_description == c.description,
        !requested(incl@, "icrc7_description"@) ==> r.icrc7_description is None,
        requested(incl@, "icrc7_royalty_recipient"@) ==> r.icrc7_royalty_recipient == c.royalty_recipient,
        !requested(incl@, "icrc7_royalty_recipient"@) ==> r.icrc7_royalty_recipient@ == (
            Seq::<u8>::empty(),
            zero_subaccount(),
        ) && r.icrc7_royalty_recipient.is_canonical(),
        requested(incl@, "icrc7_image"@) ==> match (r.icrc7_image, c.image) {
            (Some(a), Some(b)) => a@ == b@,
            (None, None) => true,
            _ => false,
        },
        !requested(incl@, "icrc7_image"@) ==> r.icrc7_image is None,
        r.icrc7_supply_cap == if requested(incl@, "icrc7_supply_cap"@) {
            match c.supply_cap {
                Some(n) => Some(n as u64),
                None => None::<u64>,
            }
        } else {
            None
        },
{
    let name = if maybe_field("icrc7_name", incl) { c.name.clone() } else { String::new() };
    let symbol = if maybe_field("icrc7_symbol", incl) { c.symbol.clone() } else { String::new() };
    let royalties = if maybe_field("icrc7_royalties", incl) { c.royalties } else { 0 };
    let recipient = if maybe_field("icrc7_royalty_recipient", incl) {
        c.royalty_recipient
    } else {
        Account::default()
    };
    let description = if maybe_field("icrc7_description", incl) {
        match &c.description {
            Some(d) => Some(d.clone()),
            None => None,
        }
    } else {
        None
    };
    let image = if maybe_field("icrc7_image", incl) {
        match &c.image {
            Some(v) => Some(copy_bytes(v)),
            None => None,
        }
    } else {
        None
    };
    let total = if maybe_field("icrc7_total_supply", incl) { icrc7_total_supply(c) } else { 0 };
    let cap = if maybe_field("icrc7_supply_cap", incl) { icrc7_supply_cap(c) } else { None };
    CollectionMetadata {
        icrc7_name: name,
        icrc7_symbol: symbol,
        icrc7_royalties: royalties,
        icrc7_royalty_recipient: recipient,
        icrc7_description: description,
        icrc7_image: image,
        icrc7_total_supply: total,
        icrc7_supply_cap: cap,
    }
}

/// A standard the ledger follows.
#[derive(Debug)]
pub struct Standard {
    pub name: String,
    pub url: String,
}

/// The standards the ledger follows: ICRC-7.
pub fn icrc7_supported_standards() -> (r: Vec<Standard>)
    ensures
        r@.len() == 1,
        r@[0].name@ == "ICRC-7"@,
        r@[0].url@ == "https://github.com/dfinity/ICRC/ICRCs/ICRC-7"@,
{
    let mut r: Vec<Standard> = Vec::new();
    r.push(
        Standard {
            name: "ICRC-7".to_owned(),
            url: "https://github.com/dfinity/ICRC/ICRCs/ICRC-7".to_owned(),
        },
    );
    r
}

} // verus!
