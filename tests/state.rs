use icrc7::state::{Approval, Collection, Principal, Transfer, TX_DEDUPLICATION_WINDOW};

#[test]
fn test_gc() {
    let mut c = Collection::default();

    let now: u64 = 10000000000000000000;

    let t1 = Transfer {
        created_at: now - TX_DEDUPLICATION_WINDOW - 1,
        ..Default::default()
    };

    let t2 = Transfer {
        created_at: now - TX_DEDUPLICATION_WINDOW + 1,
        ..Default::default()
    };

    let t3 = Transfer {
        created_at: now + TX_DEDUPLICATION_WINDOW + 1,
        ..Default::default()
    };

    c.add_transfer(t1.clone());
    c.add_transfer(t2.clone());
    c.add_transfer(t3.clone());

    assert_eq!(c.transfers.len(), 3);

    c.gc(now);

    assert_eq!(c.transfers.len(), 2);
    assert!(c.has_transfer(t2.created_at, 1));
    assert!(c.has_transfer(t3.created_at, 2));
}

#[test]
fn test_gc_approvals() {
    let mut c = Collection::default();

    let now: u64 = 10000000000000000000;

    let a1 = Approval {
        expires_at: Some(now - 1),
        from: Principal::anonymous(),
        from_subaccount: None,
        to: Principal::anonymous(),
        token_ids: None,
        memo: None,
    };

    let a2 = Approval {
        expires_at: Some(now + 1),
        from: Principal::anonymous(),
        from_subaccount: None,
        to: Principal::anonymous(),
        token_ids: None,
        memo: None,
    };

    let a3 = Approval {
        expires_at: Some(now + 2),
        from: Principal::anonymous(),
        from_subaccount: None,
        to: Principal::anonymous(),
        token_ids: None,
        memo: None,
    };

    c.add_approval(a1.clone());
    c.add_approval(a2.clone());
    c.add_approval(a3.clone());

    assert_eq!(c.approvals.len(), 3);
    assert_eq!(c.approvals_of(&Principal::anonymous()).len(), 3);

    c.gc(now);

    assert_eq!(c.approvals.len(), 2);
    assert_eq!(c.approvals_of(&Principal::anonymous()).len(), 2);
    assert!(c.approvals.contains_key(&1));
    assert!(c.approvals.contains_key(&2));
}

#[test]
fn gc_keeps_transfers_inside_window_and_unexpiring_approvals() {
    let mut c = Collection::default();
    let now: u64 = 5 * TX_DEDUPLICATION_WINDOW;
    let edge = Transfer {
        created_at: now - TX_DEDUPLICATION_WINDOW,
        ..Default::default()
    };
    let stale = Transfer {
        created_at: now - TX_DEDUPLICATION_WINDOW - 1,
        ..Default::default()
    };
    c.add_transfer(edge.clone());
    c.add_transfer(stale.clone());
    let p = Principal::from_slice(&[7]);
    let forever = Approval {
        expires_at: None,
        from: p,
        from_subaccount: None,
        to: Principal::anonymous(),
        token_ids: None,
        memo: None,
    };
    let until_now = Approval {
        expires_at: Some(now),
        ..forever.clone()
    };
    let gone = Approval {
        expires_at: Some(now - 1),
        ..forever.clone()
    };
    c.add_approval(gone);
    c.add_approval(forever);
    c.add_approval(until_now);

    c.gc(now);

    assert_eq!(c.transfers.len(), 1);
    assert!(c.has_transfer(edge.created_at, 0));
    assert!(!c.has_transfer(stale.created_at, 1));
    assert_eq!(c.approvals_of(&p), vec![1, 2]);

    // sweeping again changes nothing
    c.gc(now);
    assert_eq!(c.transfers.len(), 1);
    assert_eq!(c.approvals.len(), 2);
}

#[test]
fn gc_drops_empty_index_entries() {
    let mut c = Collection::default();
    let p = Principal::from_slice(&[7]);
    let q = Principal::from_slice(&[8]);
    let a = Approval {
        expires_at: Some(10),
        from: p,
        from_subaccount: None,
        to: q,
        token_ids: None,
        memo: None,
    };
    c.add_approval(a.clone());
    c.add_approval(Approval { from: q, expires_at: None, ..a });
    assert_eq!(c.approvals_by_principal.len(), 2);
    c.gc(11);
    assert_eq!(c.approvals_by_principal.len(), 1);
    assert!(c.approvals_of(&p).is_empty());
    assert_eq!(c.approvals_of(&q), vec![1]);
}

#[test]
fn gc_before_the_window_has_passed_keeps_everything() {
    let mut c = Collection::default();
    c.add_transfer(Transfer::default());
    c.gc(5);
    assert_eq!(c.transfers.len(), 1);
}

#[test]
fn transfer_log_stays_ordered_by_creation_time() {
    let mut c = Collection::default();
    c.add_transfer(Transfer { created_at: 30, ..Default::default() });
    c.add_transfer(Transfer { created_at: 10, ..Default::default() });
    c.add_transfer(Transfer { created_at: 30, ..Default::default() });
    let keys: Vec<(u64, u64)> = c.transfers.iter().map(|(id, t)| (t.created_at, *id)).collect();
    assert_eq!(keys, vec![(10, 1), (30, 0), (30, 2)]);
}

#[test]
fn duplicate_search_compares_item_sets_and_canonical_accounts() {
    let mut c = Collection::default();
    let p = Principal::from_slice(&[1]);
    let t = Transfer {
        from: icrc7::state::Account::from_owner(p),
        token_ids: vec![1, 2],
        memo: Some(vec![9]),
        created_at: 100,
        ..Default::default()
    };
    c.add_transfer(t.clone());
    let same = Transfer {
        from: icrc7::state::Account::new(p, None),
        token_ids: vec![2, 1, 2],
        ..t.clone()
    };
    assert_eq!(c.find_duplicate_transfer(&same), Some(0));
    let other_memo = Transfer { memo: None, ..t.clone() };
    assert_eq!(c.find_duplicate_transfer(&other_memo), None);
    let other_time = Transfer { created_at: 101, ..t.clone() };
    assert_eq!(c.find_duplicate_transfer(&other_time), None);
    let other_items = Transfer { token_ids: vec![1], ..t };
    assert_eq!(c.find_duplicate_transfer(&other_items), None);
}

#[test]
fn earlier_sweep_then_later_sweep_matches_a_single_later_sweep() {
    let build = || {
        let mut c = Collection::default();
        for t in [10u64, 200, 300] {
            c.add_transfer(Transfer { created_at: t, ..Default::default() });
        }
        let a = Approval {
            expires_at: Some(TX_DEDUPLICATION_WINDOW + 150),
            from: Principal::from_slice(&[7]),
            from_subaccount: None,
            to: Principal::anonymous(),
            token_ids: None,
            memo: None,
        };
        c.add_approval(a.clone());
        c.add_approval(Approval { expires_at: Some(TX_DEDUPLICATION_WINDOW + 300), ..a.clone() });
        c.add_approval(Approval { expires_at: None, ..a });
        c
    };
    let mut twice = build();
    twice.gc(TX_DEDUPLICATION_WINDOW + 100);
    twice.gc(TX_DEDUPLICATION_WINDOW + 250);
    let mut once = build();
    once.gc(TX_DEDUPLICATION_WINDOW + 250);
    assert_eq!(twice.transfers.len(), once.transfers.len());
    assert_eq!(twice.transfers.len(), 1);
    assert!(twice.has_transfer(300, 2));
    assert_eq!(twice.approvals_of(&Principal::from_slice(&[7])), vec![1, 2]);
    assert_eq!(once.approvals_of(&Principal::from_slice(&[7])), vec![1, 2]);
}
