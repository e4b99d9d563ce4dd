use rujira_ghost_vault::address::{Address, Cmp};
use rujira_ghost_vault::borrowers::{Borrower, Ledger};
use rujira_ghost_vault::migration::{migrate, OldDelegate};
use rujira_ghost_vault::error::ContractError;
use rujira_ghost_vault::pool::Pool;

fn addr(s: &str) -> Address {
    Address::new(s.as_bytes().to_vec())
}

/// A pool whose valuation is the identity: `ownership(x) = x`.
fn unit_pool() -> Pool {
    Pool { size: 1000, shares: 1000 }
}

fn record(l: &Ledger, s: &str) -> (u128, u128) {
    let b = Borrower::load(l, addr(s)).unwrap();
    (b.limit, b.shares)
}

#[test]
fn set_creates_then_updates_limit() {
    let mut l = Ledger::new();
    Borrower::set(&mut l, addr("alice"), 1000);
    assert_eq!(record(&l, "alice"), (1000, 0));
    let mut b = Borrower::load(&l, addr("alice")).unwrap();
    b.borrow(&mut l, &unit_pool(), 300).unwrap();
    Borrower::set(&mut l, addr("alice"), 2000);
    assert_eq!(record(&l, "alice"), (2000, 300));
    Borrower::set(&mut l, addr("alice"), 2000);
    assert_eq!(record(&l, "alice"), (2000, 300));
}

#[test]
fn borrow_within_limit_then_refused() {
    let mut l = Ledger::new();
    Borrower::set(&mut l, addr("alice"), 1000);
    let mut b = Borrower::load(&l, addr("alice")).unwrap();
    assert_eq!(b.borrow(&mut l, &unit_pool(), 500), Ok(()));
    assert_eq!(b.shares, 500);
    assert_eq!(record(&l, "alice"), (1000, 500));
    assert_eq!(
        b.borrow(&mut l, &unit_pool(), 600),
        Err(ContractError::BorrowLimitReached { limit: 1000 })
    );
    assert_eq!(b.shares, 500);
    assert_eq!(record(&l, "alice"), (1000, 500));
    assert_eq!(b.borrow(&mut l, &unit_pool(), 500), Ok(()));
    assert_eq!(record(&l, "alice"), (1000, 1000));
}

#[test]
fn borrow_limit_uses_pool_valuation() {
    let mut l = Ledger::new();
    Borrower::set(&mut l, addr("alice"), 1333);
    let mut b = Borrower::load(&l, addr("alice")).unwrap();
    let pool = Pool { size: 8000, shares: 6000 };
    assert_eq!(b.borrow(&mut l, &pool, 1000), Ok(()));
    assert_eq!(
        b.borrow(&mut l, &pool, 1),
        Err(ContractError::BorrowLimitReached { limit: 1333 })
    );
    assert_eq!(b.shares, 1000);
}

#[test]
fn pool_ownership_rounds_down() {
    let pool = Pool { size: 8000, shares: 6000 };
    assert_eq!(pool.ownership(1000), 1333);
    assert_eq!(pool.ownership(0), 0);
    assert_eq!(Pool { size: 0, shares: 0 }.ownership(0), 0);
    let big = Pool { size: u128::MAX, shares: u128::MAX };
    assert_eq!(big.ownership(u128::MAX - 1), u128::MAX - 1);
}

#[test]
fn delegate_borrow_scenario() {
    let mut l = Ledger::new();
    Borrower::set(&mut l, addr("alice"), 1000);
    let mut b = Borrower::load(&l, addr("alice")).unwrap();
    b.borrow(&mut l, &unit_pool(), 500).unwrap();
    assert_eq!(b.delegate_borrow(&mut l, addr("bot"), &unit_pool(), 300), Ok(()));
    assert_eq!(b.delegate_shares(&l, addr("bot")), 300);
    assert_eq!(b.shares, 800);
    assert_eq!(record(&l, "alice"), (1000, 800));
}

#[test]
fn delegate_borrow_refused_changes_nothing() {
    let mut l = Ledger::new();
    Borrower::set(&mut l, addr("alice"), 1000);
    let mut b = Borrower::load(&l, addr("alice")).unwrap();
    b.delegate_borrow(&mut l, addr("bot"), &unit_pool(), 900).unwrap();
    assert_eq!(
        b.delegate_borrow(&mut l, addr("bot"), &unit_pool(), 200),
        Err(ContractError::BorrowLimitReached { limit: 1000 })
    );
    assert_eq!(b.delegate_shares(&l, addr("bot")), 900);
    assert_eq!(b.shares, 900);
    assert_eq!(record(&l, "alice"), (1000, 900));
}

#[test]
fn delegate_shares_default_zero() {
    let mut l = Ledger::new();
    Borrower::set(&mut l, addr("alice"), 1000);
    let b = Borrower::load(&l, addr("alice")).unwrap();
    assert_eq!(b.delegate_shares(&l, addr("nobody")), 0);
}

#[test]
fn repay_returns_residual() {
    let mut l = Ledger::new();
    Borrower::set(&mut l, addr("alice"), 1000);
    let mut b = Borrower::load(&l, addr("alice")).unwrap();
    b.borrow(&mut l, &unit_pool(), 500).unwrap();
    assert_eq!(b.repay(&mut l, 100), 0);
    assert_eq!(b.shares, 400);
    assert_eq!(b.repay(&mut l, 700), 300);
    assert_eq!(b.shares, 0);
    assert_eq!(record(&l, "alice"), (1000, 0));
    assert_eq!(b.repay(&mut l, 5), 5);
    assert_eq!(b.shares, 0);
}

#[test]
fn delegate_round_trip_restores_state() {
    let mut l = Ledger::new();
    Borrower::set(&mut l, addr("alice"), 1000);
    let mut b = Borrower::load(&l, addr("alice")).unwrap();
    b.borrow(&mut l, &unit_pool(), 200).unwrap();
    b.delegate_borrow(&mut l, addr("bot"), &unit_pool(), 100).unwrap();
    b.delegate_borrow(&mut l, addr("bot"), &unit_pool(), 250).unwrap();
    assert_eq!(b.delegate_shares(&l, addr("bot")), 350);
    assert_eq!(b.delegate_repay(&mut l, addr("bot"), 250), Ok(0));
    assert_eq!(b.delegate_shares(&l, addr("bot")), 100);
    assert_eq!(b.shares, 300);
    assert_eq!(record(&l, "alice"), (1000, 300));
}

#[test]
fn delegate_repay_caps_at_entry() {
    let mut l = Ledger::new();
    Borrower::set(&mut l, addr("alice"), 1000);
    let mut b = Borrower::load(&l, addr("alice")).unwrap();
    b.borrow(&mut l, &unit_pool(), 400).unwrap();
    b.delegate_borrow(&mut l, addr("bot"), &unit_pool(), 100).unwrap();
    assert_eq!(b.delegate_repay(&mut l, addr("bot"), 160), Ok(60));
    assert_eq!(b.delegate_shares(&l, addr("bot")), 0);
    assert_eq!(b.shares, 400);
    assert_eq!(b.delegate_repay(&mut l, addr("bot"), 10), Ok(10));
    assert_eq!(b.shares, 400);
}

#[test]
fn delegate_repay_without_entry_fails() {
    let mut l = Ledger::new();
    Borrower::set(&mut l, addr("alice"), 1000);
    let mut b = Borrower::load(&l, addr("alice")).unwrap();
    b.borrow(&mut l, &unit_pool(), 400).unwrap();
    assert_eq!(
        b.delegate_repay(&mut l, addr("bot"), 10),
        Err(ContractError::NotFound {})
    );
    assert_eq!(b.shares, 400);
    assert_eq!(record(&l, "alice"), (1000, 400));
}

#[test]
fn load_unknown_is_unauthorized() {
    let mut l = Ledger::new();
    Borrower::set(&mut l, addr("alice"), 1000);
    assert!(matches!(
        Borrower::load(&l, addr("bob")),
        Err(ContractError::UnauthorizedBorrower {})
    ));
}

#[test]
fn save_upserts() {
    let mut l = Ledger::new();
    let b = Borrower { addr: addr("carol"), limit: 7, shares: 3 };
    b.save(&mut l);
    assert_eq!(record(&l, "carol"), (7, 3));
    let b = Borrower { addr: addr("carol"), limit: 9, shares: 1 };
    b.save(&mut l);
    assert_eq!(record(&l, "carol"), (9, 1));
}

fn names(page: &[Borrower]) -> Vec<String> {
    page.iter()
        .map(|b| String::from_utf8(b.addr.bytes.clone()).unwrap())
        .collect()
}

#[test]
fn list_is_ascending_and_after_cursor() {
    let mut l = Ledger::new();
    for name in ["dave", "alice", "carol", "bob", "ab"] {
        Borrower::set(&mut l, addr(name), 1);
    }
    let all = Borrower::list(&l, None, None);
    assert_eq!(names(&all), vec!["ab", "alice", "bob", "carol", "dave"]);
    let page = Borrower::list(&l, Some(2), Some(addr("alice")));
    assert_eq!(names(&page), vec!["bob", "carol"]);
    let page = Borrower::list(&l, Some(10), Some(addr("b")));
    assert_eq!(names(&page), vec!["bob", "carol", "dave"]);
    let page = Borrower::list(&l, Some(0), None);
    assert!(page.is_empty());
    let page = Borrower::list(&l, None, Some(addr("zed")));
    assert!(page.is_empty());
}

#[test]
fn list_pages_are_capped_and_chain() {
    let mut l = Ledger::new();
    for i in 0..250u32 {
        Borrower::set(&mut l, addr(&format!("user{:03}", 249 - i)), i as u128);
    }
    assert_eq!(Borrower::list(&l, None, None).len(), 100);
    assert_eq!(Borrower::list(&l, Some(200), None).len(), 100);
    assert_eq!(Borrower::list(&l, Some(7), None).len(), 7);
    let mut seen: Vec<String> = Vec::new();
    let mut cursor: Option<Address> = None;
    loop {
        let page = Borrower::list(&l, Some(255), cursor.as_ref().map(|a| a.copy()));
        assert!(page.len() <= 100);
        if page.is_empty() {
            break;
        }
        cursor = Some(page.last().unwrap().addr.copy());
        seen.extend(names(&page));
    }
    let expected: Vec<String> = (0..250u32).map(|i| format!("user{:03}", i)).collect();
    assert_eq!(seen, expected);
}

fn legacy(b: &str, d: &str, shares: u128) -> ((Address, Address), OldDelegate) {
    (
        (addr(b), addr(d)),
        OldDelegate {
            borrower: Borrower { addr: addr(b), limit: 0, shares: 0 },
            addr: addr(d),
            shares,
        },
    )
}

#[test]
fn migrate_scenario() {
    let mut l = Ledger::new();
    Borrower::set(&mut l, addr("alice"), 1000);
    Borrower::set(&mut l, addr("zoe"), 50);
    Borrower { addr: addr("alice"), limit: 1000, shares: 999 }.save(&mut l);
    Borrower { addr: addr("zoe"), limit: 50, shares: 40 }.save(&mut l);
    let old = vec![legacy("alice", "bot", 300), legacy("alice", "carol", 200)];
    assert_eq!(migrate(&mut l, &old), Ok(()));
    let alice = Borrower::load(&l, addr("alice")).unwrap();
    assert_eq!((alice.limit, alice.shares), (1000, 500));
    assert_eq!(alice.delegate_shares(&l, addr("bot")), 300);
    assert_eq!(alice.delegate_shares(&l, addr("carol")), 200);
    assert_eq!(record(&l, "zoe"), (50, 40));
    assert_eq!(l.delegate_entries().len(), 2);
    // running it again recomputes the same totals
    assert_eq!(migrate(&mut l, &old), Ok(()));
    assert_eq!(record(&l, "alice"), (1000, 500));
    assert_eq!(l.delegate_entries().len(), 2);
}

#[test]
fn migrate_missing_borrower_changes_nothing() {
    let mut l = Ledger::new();
    Borrower { addr: addr("alice"), limit: 1000, shares: 999 }.save(&mut l);
    let old = vec![legacy("alice", "bot", 300), legacy("bob", "bot", 200)];
    assert_eq!(migrate(&mut l, &old), Err(ContractError::NotFound {}));
    assert_eq!(record(&l, "alice"), (1000, 999));
    assert!(l.delegate_entries().is_empty());
}

#[test]
fn addresses_order_bytewise() {
    assert!(matches!(addr("a").compare(&addr("ab")), Cmp::Less));
    assert!(matches!(addr("ab").compare(&addr("b")), Cmp::Less));
    assert!(matches!(addr("b").compare(&addr("ab")), Cmp::Greater));
    assert!(matches!(addr("").compare(&addr("")), Cmp::Equal));
    assert!(addr("bot").equals(&addr("bot")));
    assert!(!addr("bot").equals(&addr("bots")));
    assert_eq!(addr("xyz").copy().bytes, b"xyz".to_vec());
}

#[test]
fn put_delegate_overwrites() {
    let mut l = Ledger::new();
    l.put_delegate(&addr("alice"), &addr("bot"), 5);
    l.put_delegate(&addr("alice"), &addr("bot"), 8);
    l.put_delegate(&addr("bob"), &addr("bot"), 1);
    let entries = l.delegate_entries();
    assert_eq!(entries.len(), 2);
    assert_eq!(entries[0].shares, 8);
    assert_eq!(entries[1].shares, 1);
}
