use icrc7::state::{Account, Collection, Principal};
use icrc7::{
    icrc7_approve, icrc7_balance_of, icrc7_collection_metadata, icrc7_metadata, icrc7_owner_of,
    icrc7_supply_cap, icrc7_supported_standards, icrc7_tokens_of, icrc7_total_supply,
    icrc7_transfer, init, mint_token, mint_with_image, AppprovalError, ApproveArgs, InitArgs,
    InitError, MintError, MintTokenArgs, TokenMetadata, TransferArgs, TransferError,
};

const NOW: u64 = 3600000000000; // 1 hour in nanoseconds
const MINUTE: u64 = 60_000_000_000;

fn p() -> Principal {
    Principal::from_slice(&[0x1])
}

fn q() -> Principal {
    Principal::from_slice(&[0x3, 0x3, 0x3])
}

fn d() -> Principal {
    Principal::from_slice(&[0x2, 0x2])
}

fn authority() -> Principal {
    Principal::from_slice(&[0xaa])
}

fn init_args(supply_cap: Option<usize>) -> InitArgs {
    InitArgs {
        name: "test collection".to_owned(),
        symbol: "test".to_owned(),
        description: Some("blah".to_owned()),
        royalties: 1000,
        royalty_recipient: Account::default(),
        image: None,
        supply_cap,
        authority: authority(),
    }
}

fn collection(supply_cap: Option<usize>) -> Collection {
    let mut c = Collection::default();
    init(&mut c, init_args(supply_cap)).expect("configuration is valid");
    c
}

fn mint(c: &mut Collection, id: u64, owner: Account) -> Result<u64, MintError> {
    mint_token(
        c,
        &authority(),
        MintTokenArgs { id, name: format!("NFT-{}", id), image: "QUFBQQ".to_owned(), owner },
    )
}

fn transfer_args(ids: Vec<u64>, to: Account) -> TransferArgs {
    TransferArgs {
        from: None,
        to,
        token_ids: ids,
        memo: None,
        created_at_time: None,
        is_atomic: None,
    }
}

fn approve_args(to: Principal) -> ApproveArgs {
    ApproveArgs {
        from_subaccount: None,
        to,
        token_ids: None,
        expires_at: None,
        memo: None,
        created_at: None,
    }
}

#[test]
fn mint_then_transfer_then_repeat_is_duplicate() {
    let mut c = collection(None);
    mint(&mut c, 1, Account::new(p(), None)).unwrap();
    let mut args = transfer_args(vec![1], Account::from_owner(q()));
    args.created_at_time = Some(NOW);
    let again = TransferArgs { token_ids: vec![1], to: Account::from_owner(q()), ..transfer_args(vec![], Account::from_owner(q())) };
    let again = TransferArgs { created_at_time: Some(NOW), ..again };
    assert!(matches!(icrc7_transfer(&mut c, &p(), NOW, args), Ok(0)));
    match icrc7_transfer(&mut c, &p(), NOW + 1, again) {
        Err(TransferError::Duplicate { duplicate_of }) => assert_eq!(duplicate_of, 0),
        other => panic!("unexpected response: {:?}", other),
    }
}

#[test]
fn delegate_with_unrestricted_approval_can_transfer() {
    let mut c = collection(None);
    mint(&mut c, 1, Account::from_owner(p())).unwrap();
    let approval = icrc7_approve(&mut c, &p(), NOW, approve_args(d()));
    assert!(matches!(approval, Ok(0)));
    let mut args = transfer_args(vec![1], Account::from_owner(q()));
    args.from = Some(Account::from_owner(p()));
    assert!(matches!(icrc7_transfer(&mut c, &d(), NOW, args), Ok(0)));
    assert_eq!(icrc7_owner_of(&c, 1), Some(Account::from_owner(q())));
}

#[test]
fn second_mint_beyond_supply_cap_is_refused() {
    let mut c = collection(Some(1));
    assert_eq!(mint(&mut c, 1, Account::default()), Ok(1));
    assert_eq!(mint(&mut c, 2, Account::default()), Err(MintError::CapacityExceeded));
    assert_eq!(icrc7_total_supply(&c), 1);
}

#[test]
fn atomic_batch_with_a_missing_item_moves_nothing() {
    let mut c = collection(None);
    let owner = Account::from_owner(p());
    mint(&mut c, 1, owner).unwrap();
    let r = icrc7_transfer(&mut c, &p(), NOW, transfer_args(vec![1, 2], Account::from_owner(q())));
    assert!(matches!(r, Err(TransferError::GenericError { error_code: 1, .. })));
    assert_eq!(icrc7_owner_of(&c, 1), Some(owner));
    assert!(c.transfers.is_empty());
}

#[test]
fn non_atomic_batch_moves_only_the_valid_items() {
    let mut c = collection(None);
    let owner = Account::from_owner(p());
    let other = Account::from_owner(d());
    mint(&mut c, 1, owner).unwrap();
    mint(&mut c, 3, other).unwrap();
    let mut args = transfer_args(vec![1, 2, 3], Account::from_owner(q()));
    args.is_atomic = Some(false);
    assert!(matches!(icrc7_transfer(&mut c, &p(), NOW, args), Ok(0)));
    assert_eq!(icrc7_owner_of(&c, 1), Some(Account::from_owner(q())));
    assert_eq!(icrc7_owner_of(&c, 3), Some(other));
    assert_eq!(icrc7_owner_of(&c, 2), None);
    // the log keeps the requested set
    assert_eq!(c.transfers[0].1.token_ids, vec![1, 2, 3]);
}

#[test]
fn transfer_to_self_is_refused_in_both_modes() {
    let mut c = collection(None);
    let owner = Account::from_owner(p());
    mint(&mut c, 1, owner).unwrap();
    let r = icrc7_transfer(&mut c, &p(), NOW, transfer_args(vec![1], Account::new(p(), None)));
    assert!(matches!(r, Err(TransferError::GenericError { error_code: 2, .. })));
    let mut args = transfer_args(vec![1], owner);
    args.is_atomic = Some(false);
    let r = icrc7_transfer(&mut c, &p(), NOW, args);
    assert!(matches!(r, Err(TransferError::GenericError { error_code: 2, .. })));
    let mut args = transfer_args(vec![1], Account::new(p(), None));
    args.from = Some(Account::new(p(), Some([0; 32])));
    args.is_atomic = Some(true);
    let r = icrc7_transfer(&mut c, &p(), NOW, args);
    assert!(matches!(r, Err(TransferError::GenericError { error_code: 2, .. })));
    assert_eq!(icrc7_owner_of(&c, 1), Some(owner));
    assert!(c.transfers.is_empty());
}

#[test]
fn approval_from_another_identity_does_not_cover_an_item() {
    let mut c = collection(None);
    let other_owner = Account::from_owner(Principal::from_slice(&[0x44]));
    mint(&mut c, 1, Account::from_owner(p())).unwrap();
    mint(&mut c, 2, other_owner).unwrap();
    icrc7_approve(&mut c, &p(), NOW, approve_args(d())).unwrap();
    for atomic in [None, Some(false)] {
        let mut args = transfer_args(vec![2], Account::from_owner(q()));
        args.from = Some(Account::from_owner(p()));
        args.is_atomic = atomic;
        let r = icrc7_transfer(&mut c, &d(), NOW, args);
        if atomic.is_none() {
            match r {
                Err(TransferError::Unauthorized { token_ids }) => assert_eq!(token_ids, vec![2]),
                other => panic!("unexpected response: {:?}", other),
            }
        }
        assert_eq!(icrc7_owner_of(&c, 2), Some(other_owner));
    }
}

#[test]
fn same_request_from_another_caller_is_a_duplicate() {
    let mut c = collection(None);
    let owner = Account::from_owner(p());
    mint(&mut c, 1, owner).unwrap();
    let mut args = transfer_args(vec![1], Account::from_owner(q()));
    args.from = Some(Account::new(p(), None));
    args.created_at_time = Some(NOW);
    assert!(matches!(icrc7_transfer(&mut c, &p(), NOW, args), Ok(0)));
    let mut again = transfer_args(vec![1, 1], Account::new(q(), Some([0; 32])));
    again.from = Some(owner);
    again.created_at_time = Some(NOW);
    match icrc7_transfer(&mut c, &d(), NOW + MINUTE, again) {
        Err(TransferError::Duplicate { duplicate_of }) => assert_eq!(duplicate_of, 0),
        other => panic!("unexpected response: {:?}", other),
    }
}

#[test]
fn stranger_without_approval_is_unauthorized() {
    let mut c = collection(None);
    let owner = Account::default();
    mint(&mut c, 1, owner).unwrap();
    let mut args = transfer_args(vec![1], Account::from_owner(q()));
    args.from = Some(owner);
    match icrc7_transfer(&mut c, &Principal::from_slice(&[0x99]), NOW, args) {
        Err(TransferError::Unauthorized { token_ids }) => assert_eq!(token_ids, vec![1]),
        other => panic!("unexpected response: {:?}", other),
    }
}

#[test]
fn approval_for_one_item_moves_only_that_item() {
    let mut c = collection(None);
    let owner = Account::from_owner(p());
    let to = Account::from_owner(q());
    mint(&mut c, 1, owner).unwrap();
    mint(&mut c, 2, owner).unwrap();
    let mut approve = approve_args(d());
    approve.token_ids = Some(vec![1]);
    icrc7_approve(&mut c, &p(), NOW, approve).expect("approve should succeed");
    let mut args = transfer_args(vec![1, 2], to);
    args.from = Some(owner);
    args.is_atomic = Some(false);
    icrc7_transfer(&mut c, &d(), NOW, args).expect("transfer should partially succeed");
    assert_eq!(icrc7_tokens_of(&c, owner), vec![2]);
    assert_eq!(icrc7_tokens_of(&c, to), vec![1]);
}

#[test]
fn approval_for_one_subaccount_does_not_cover_another() {
    let mut c = collection(None);
    let first = Account::from_owner(p());
    let second = Account::new(p(), Some([1; 32]));
    let to = Account::from_owner(q());
    mint(&mut c, 1, first).unwrap();
    mint(&mut c, 2, second).unwrap();
    let mut approve = approve_args(d());
    approve.from_subaccount = Some([1; 32]);
    icrc7_approve(&mut c, &p(), NOW, approve).unwrap();
    let mut args = transfer_args(vec![1], to);
    args.from = Some(first);
    assert!(matches!(icrc7_transfer(&mut c, &d(), NOW, args), Err(TransferError::Unauthorized { .. })));
    let mut args = transfer_args(vec![2], to);
    args.from = Some(second);
    assert!(icrc7_transfer(&mut c, &d(), NOW, args).is_ok());
    assert_eq!(icrc7_owner_of(&c, 2), Some(to));
}

#[test]
fn expired_approval_does_not_authorize() {
    let mut c = collection(None);
    let owner = Account::from_owner(p());
    mint(&mut c, 1, owner).unwrap();
    let mut approve = approve_args(d());
    approve.expires_at = Some(NOW - 1);
    icrc7_approve(&mut c, &p(), NOW, approve).unwrap();
    let mut args = transfer_args(vec![1], Account::from_owner(q()));
    args.from = Some(owner);
    assert!(matches!(icrc7_transfer(&mut c, &d(), NOW, args), Err(TransferError::Unauthorized { .. })));
}

#[test]
fn only_the_oldest_approval_of_an_owner_is_consulted() {
    let mut c = collection(None);
    let owner = Account::from_owner(p());
    mint(&mut c, 1, owner).unwrap();
    icrc7_approve(&mut c, &p(), NOW, approve_args(Principal::from_slice(&[0x55]))).unwrap();
    icrc7_approve(&mut c, &p(), NOW, approve_args(d())).unwrap();
    assert_eq!(c.find_approval_for_delegate(&owner, &d(), 1, NOW), None);
    assert_eq!(c.find_approval_for_delegate(&owner, &Principal::from_slice(&[0x55]), 1, NOW), Some(0));
    let mut args = transfer_args(vec![1], Account::from_owner(q()));
    args.from = Some(owner);
    assert!(matches!(icrc7_transfer(&mut c, &d(), NOW, args), Err(TransferError::Unauthorized { .. })));
}

#[test]
fn empty_request_is_refused() {
    let mut c = collection(None);
    let r = icrc7_transfer(&mut c, &p(), NOW, transfer_args(vec![], Account::from_owner(q())));
    assert!(matches!(r, Err(TransferError::GenericError { error_code: 4, .. })));
}

#[test]
fn test_old_transfers() {
    let mut c = collection(None);
    let owner = Account::default();
    mint(&mut c, 1, owner).unwrap();
    let mut args = transfer_args(vec![1], Account::from_owner(Principal::from_slice(&[0x1])));
    args.created_at_time = Some(NOW - MINUTE * 3);
    let reply = icrc7_transfer(&mut c, &owner.owner, NOW, args);
    assert!(matches!(reply, Err(TransferError::TooOld)));
    let mut args = transfer_args(vec![1], Account::from_owner(Principal::from_slice(&[0x1])));
    args.created_at_time = Some(NOW + MINUTE * 3);
    match icrc7_transfer(&mut c, &owner.owner, NOW, args) {
        Err(TransferError::CreatedInFuture { ledger_time }) => assert_eq!(ledger_time, NOW),
        other => panic!("unexpected response: {:?}", other),
    }
    let mut args = transfer_args(vec![1], Account::from_owner(Principal::from_slice(&[0x1])));
    args.created_at_time = Some(NOW - MINUTE * 2);
    assert!(icrc7_transfer(&mut c, &owner.owner, NOW, args).is_ok());
}

#[test]
fn memo_is_part_of_the_request_identity() {
    let mut c = collection(None);
    let owner = Account::default();
    mint(&mut c, 1, owner).unwrap();
    mint(&mut c, 2, owner).unwrap();
    let mut first = transfer_args(vec![1], Account::from_owner(q()));
    first.memo = Some(b"memo1".to_vec());
    first.created_at_time = Some(NOW);
    let id = icrc7_transfer(&mut c, &owner.owner, NOW, first).expect("first transfer should succeed");
    let mut same = transfer_args(vec![1], Account::from_owner(q()));
    same.memo = Some(b"memo1".to_vec());
    same.created_at_time = Some(NOW);
    match icrc7_transfer(&mut c, &owner.owner, NOW, same) {
        Err(TransferError::Duplicate { duplicate_of }) => assert_eq!(duplicate_of, id),
        other => panic!("unexpected response: {:?}", other),
    }
    let mut other = transfer_args(vec![2], Account::from_owner(q()));
    other.memo = Some(b"memo2".to_vec());
    other.created_at_time = Some(NOW);
    assert!(matches!(icrc7_transfer(&mut c, &owner.owner, NOW, other), Ok(1)));
}

#[test]
fn mint_refusals_come_in_order() {
    let mut unconfigured = Collection::default();
    assert_eq!(mint(&mut unconfigured, 1, Account::default()), Err(MintError::AuthorityNotSet));
    let mut c = collection(None);
    let args = MintTokenArgs { id: 1, name: "x".to_owned(), image: "QUFBQQ".to_owned(), owner: Account::default() };
    assert_eq!(mint_token(&mut c, &p(), args), Err(MintError::Unauthorized));
    mint(&mut c, 1, Account::default()).unwrap();
    assert_eq!(mint(&mut c, 1, Account::default()), Err(MintError::DuplicateId));
    let bad = MintTokenArgs { id: 2, name: "x".to_owned(), image: "!!!".to_owned(), owner: Account::default() };
    assert_eq!(mint_token(&mut c, &authority(), bad), Err(MintError::InvalidPayload));
    assert_eq!(icrc7_total_supply(&c), 1);
    assert_eq!(MintError::CapacityExceeded.message(), "supply cap reached");
}

#[test]
fn mint_decodes_the_image_and_canonicalizes_the_owner() {
    let mut c = collection(None);
    mint(&mut c, 1, Account::new(p(), None)).unwrap();
    assert_eq!(
        icrc7_metadata(&c, 1),
        Some(TokenMetadata { icrc7_id: 1, icrc7_name: "NFT-1".to_owned(), icrc7_image: vec![65, 65, 65, 65] })
    );
    assert_eq!(c.tokens[&1].owner.subaccount, Some([0; 32]));
    assert_eq!(icrc7_metadata(&c, 2), None);
}

#[test]
fn mint_with_decoded_image_applies_the_same_checks() {
    let mut c = collection(None);
    assert_eq!(mint_with_image(&mut c, &authority(), 5, "n".to_owned(), None, Account::default()), Err(MintError::InvalidPayload));
    assert_eq!(mint_with_image(&mut c, &authority(), 5, "n".to_owned(), Some(vec![1, 2]), Account::default()), Ok(5));
    assert_eq!(c.tokens[&5].image, vec![1, 2]);
}

#[test]
fn approve_refusals() {
    let mut c = collection(None);
    mint(&mut c, 1, Account::from_owner(p())).unwrap();
    mint(&mut c, 2, Account::from_owner(q())).unwrap();
    match icrc7_approve(&mut c, &Principal::anonymous(), NOW, approve_args(d())) {
        Err(AppprovalError::GenericError { error_code, .. }) => assert_eq!(error_code, 3),
        other => panic!("unexpected response: {:?}", other),
    }
    let mut args = approve_args(d());
    args.token_ids = Some(vec![1, 2, 9, 2]);
    match icrc7_approve(&mut c, &p(), NOW, args) {
        Err(AppprovalError::Unauthorized(ids)) => assert_eq!(ids, vec![2, 9]),
        other => panic!("unexpected response: {:?}", other),
    }
    let mut args = approve_args(d());
    args.created_at = Some(NOW - 3 * MINUTE);
    assert!(matches!(icrc7_approve(&mut c, &p(), NOW, args), Err(AppprovalError::TooOld)));
    assert!(c.approvals.is_empty());
    let mut args = approve_args(d());
    args.token_ids = Some(vec![1]);
    assert!(matches!(icrc7_approve(&mut c, &p(), NOW, args), Ok(0)));
    assert!(matches!(icrc7_approve(&mut c, &p(), NOW, approve_args(d())), Ok(1)));
    assert_eq!(c.approvals_of(&p()), vec![0, 1]);
}

#[test]
fn init_checks_and_upper_cases_the_symbol() {
    let c = collection(None);
    assert_eq!(c.symbol, "TEST");
    assert_eq!(c.royalties, 1000);
    assert_eq!(c.authority, Some(authority()));
    let mut c = Collection::default();
    let mut args = init_args(None);
    args.royalties = 10001;
    assert_eq!(init(&mut c, args), Err(InitError::RoyaltiesOutOfRange));
    assert_eq!(init(&mut c, init_args(Some(0))), Err(InitError::ZeroSupplyCap));
    let mut args = init_args(None);
    args.image = Some("*".to_owned());
    assert_eq!(init(&mut c, args), Err(InitError::InvalidImage));
    assert_eq!(c.authority, None);
    let mut args = init_args(Some(3));
    args.image = Some("QUFBQQ".to_owned());
    assert_eq!(init(&mut c, args), Ok(()));
    assert_eq!(c.image, Some(vec![65, 65, 65, 65]));
    assert_eq!(icrc7_supply_cap(&c), Some(3));
}

#[test]
fn accounts_compare_in_canonical_form() {
    assert_eq!(Account::new(p(), None), Account::new(p(), Some([0; 32])));
    assert_ne!(Account::new(p(), None), Account::new(p(), Some([1; 32])));
    assert_ne!(Account::new(p(), None), Account::new(q(), None));
    assert_eq!(Account::new(p(), None).to_canonical().subaccount, Some([0; 32]));
    assert_eq!(Principal::from_slice(&[4]), Principal::anonymous());
    assert!(Principal::anonymous().is_anonymous());
    assert_eq!(q().as_slice(), vec![3, 3, 3]);
}

#[test]
fn queries_reflect_ownership() {
    let mut c = collection(None);
    let owner = Account::new(Principal::from_slice(&[1; 4]), None);
    mint(&mut c, 1, owner).unwrap();
    mint(&mut c, 2, owner).unwrap();
    mint(&mut c, 3, Account::default()).unwrap();
    assert_eq!(icrc7_owner_of(&c, 1), Some(owner.to_canonical()));
    assert_eq!(icrc7_balance_of(&c, owner), 2);
    let mut ids = icrc7_tokens_of(&c, owner);
    ids.sort();
    assert_eq!(ids, vec![1, 2]);
    assert_eq!(icrc7_balance_of(&c, Account::from_owner(q())), 0);
    assert_eq!(icrc7_total_supply(&c), 3);
}

#[test]
fn collection_metadata_holds_only_requested_fields() {
    let c = collection(None);
    let all = icrc7_collection_metadata(&c, &vec![]);
    assert_eq!(all.icrc7_name, "test collection");
    assert_eq!(all.icrc7_symbol, "TEST");
    assert_eq!(all.icrc7_royalties, 1000);
    assert_eq!(all.icrc7_description, Some("blah".to_owned()));
    assert_eq!(all.icrc7_total_supply, 0);
    assert_eq!(all.icrc7_supply_cap, None);
    let some = icrc7_collection_metadata(&c, &vec!["icrc7_name".to_owned(), "icrc7_symbol".to_owned()]);
    assert_eq!(some.icrc7_name, "test collection");
    assert_eq!(some.icrc7_symbol, "TEST");
    assert_eq!(some.icrc7_royalties, 0);
    assert_eq!(some.icrc7_description, None);
    assert_eq!(some.icrc7_royalty_recipient, Account::default());
    let standards = icrc7_supported_standards();
    assert_eq!(standards.len(), 1);
    assert_eq!(standards[0].name, "ICRC-7");
}
