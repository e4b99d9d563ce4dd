//! The borrower and delegate tables and the operations on them: limits,
//! borrowing and repaying directly or through a delegate, and listing.
use crate::address::{bytes_lt, lemma_lt_asymmetric, lemma_lt_irreflexive, lemma_lt_transitive, Address, Cmp};
use crate::error::ContractError;
use crate::pool::Pool;
use crate::table::{lemma_table_get, lemma_table_insert, lemma_table_update, table, unique};
use vstd::math::min;
use vstd::prelude::*;

verus! {

/// A borrower: its address, the most that its share of the pool may be worth,
/// and the shares it has borrowed, directly or through any delegate.
pub struct Borrower {
    pub addr: Address,
    pub limit: u128,
    pub shares: u128,
}

impl View for Borrower {
    type V = (Seq<u8>, u128, u128);

    open spec fn view(&self) -> (Seq<u8>, u128, u128) {
        (self.addr@, self.limit, self.shares)
    }
}

/// The shares that one delegate has borrowed for one borrower.
pub struct DelegateShare {
    pub borrower: Address,
    pub delegate: Address,
    pub shares: u128,
}

/// The two tables of the store: borrower records, kept in ascending order of
/// address, and the per-delegate shares, one entry per (borrower, delegate).
pub struct Ledger {
    borrowers: Vec<Borrower>,
    delegates: Vec<DelegateShare>,
}

/// The record of a borrower as the borrower table holds it: limit and shares.
pub type Record = (u128, u128);

/// The key of a delegate entry: borrower address, then delegate address.
pub type PairKey = (Seq<u8>, Seq<u8>);

pub open spec fn ascending(keys: Seq<Seq<u8>>) -> bool {
    forall|i: int, j: int| 0 <= i < j < keys.len() ==> bytes_lt(#[trigger] keys[i], #[trigger] keys[j])
}

pub open spec fn borrower_keys(s: Seq<Borrower>) -> Seq<Seq<u8>> {
    s.map_values(|b: Borrower| b.addr@)
}

pub open spec fn borrower_vals(s: Seq<Borrower>) -> Seq<Record> {
    s.map_values(|b: Borrower| (b.limit, b.shares))
}

pub open spec fn delegate_keys(s: Seq<DelegateShare>) -> Seq<PairKey> {
    s.map_values(|d: DelegateShare| (d.borrower@, d.delegate@))
}

pub open spec fn delegate_vals(s: Seq<DelegateShare>) -> Seq<u128> {
    s.map_values(|d: DelegateShare| d.shares)
}

proof fn lemma_ascending_unique(keys: Seq<Seq<u8>>)
    requires
        ascending(keys),
    ensures
        unique(keys),
{
    assert forall|i: int, j: int|
        0 <= i < keys.len() && 0 <= j < keys.len() && #[trigger] keys[i] == #[trigger] keys[j]
            implies i == j by {
        if i < j {
            lemma_lt_irreflexive(keys[i]);
        } else if j < i {
            lemma_lt_irreflexive(keys[j]);
        }
    }
}

impl Ledger {
    /// Borrower table: address to (limit, shares).
    pub closed spec fn borrowers(&self) -> Map<Seq<u8>, Record> {
        table(borrower_keys(self.borrowers@), borrower_vals(self.borrowers@))
    }

    /// Delegate table: (borrower, delegate) to shares.
    pub closed spec fn delegates(&self) -> Map<PairKey, u128> {
        table(delegate_keys(self.delegates@), delegate_vals(self.delegates@))
    }

    pub closed spec fn wf(&self) -> bool {
        &&& ascending(borrower_keys(self.borrowers@))
        &&& unique(delegate_keys(self.delegates@))
    }

    /// An empty store.
    pub fn new() -> (r: Ledger)
        ensures
            r.wf(),
            r.borrowers() == Map::<Seq<u8>, Record>::empty(),
            r.delegates() == Map::<PairKey, u128>::empty(),
    {
        let r = Ledger { borrowers: Vec::new(), delegates: Vec::new() };
        assert(r.borrowers() =~= Map::<Seq<u8>, Record>::empty());
        assert(r.delegates() =~= Map::<PairKey, u128>::empty());
        r
    }

    /// Where `addr` stands in the borrower table, or where it would go.
    fn find_borrower(&self, addr: &Address) -> (r: Result<usize, usize>)
        requires
            self.wf(),
        ensures
            r matches Ok(i) ==> i < self.borrowers@.len() && self.borrowers@[i as int].addr@ == addr@,
            r matches Err(p) ==> {
                &&& p <= self.borrowers@.len()
                &&& !borrower_keys(self.borrowers@).contains(addr@)
                &&& forall|j: int| 0 <= j < p ==> bytes_lt(self.borrowers@[j].addr@, addr@)
                &&& forall|j: int|
                    p <= j < self.borrowers@.len() ==> bytes_lt(addr@, self.borrowers@[j].addr@)
            },
    {
        let mut i: usize = 0;
        while i < self.borrowers.len()
            invariant
                self.wf(),
                i <= self.borrowers@.len(),
                forall|j: int| 0 <= j < i ==> bytes_lt(self.borrowers@[j].addr@, addr@),
            decreases self.borrowers.len() - i,
        {
            match self.borrowers[i].addr.compare(addr) {
                Cmp::Less => {},
                Cmp::Equal => {
                    return Ok(i);
                },
                Cmp::Greater => {
                    proof {
                        let keys = borrower_keys(self.borrowers@);
                        assert forall|j: int| i <= j < self.borrowers@.len() implies bytes_lt(
                            addr@,
                            self.borrowers@[j].addr@,
                        ) by {
                            if j > i {
                                assert(bytes_lt(keys[i as int], keys[j]));
                                lemma_lt_transitive(addr@, keys[i as int], keys[j]);
                            }
                        }
                        assert forall|j: int| 0 <= j < keys.len() implies keys[j] != addr@ by {
                            lemma_lt_irreflexive(addr@);
                        }
                    }
                    return Err(i);
                },
            }
            i = i + 1;
        }
        proof {
            let keys = borrower_keys(self.borrowers@);
            assert forall|j: int| 0 <= j < keys.len() implies keys[j] != addr@ by {
                lemma_lt_irreflexive(addr@);
            }
        }
        Err(i)
    }

    /// Writes `b` into the borrower table, replacing any record at its address.
    pub(crate) fn put_borrower(&mut self, b: Borrower)
        requires
            old(self).wf(),
        ensures
            final(self).wf(),
            final(self).borrowers() == old(self).borrowers().insert(b.addr@, (b.limit, b.shares)),
            final(self).delegates() == old(self).delegates(),
    {
        let ghost s = self.borrowers@;
        let ghost k = b.addr@;
        let ghost v: Record = (b.limit, b.shares);
        proof {
            lemma_ascending_unique(borrower_keys(s));
        }
        match self.find_borrower(&b.addr) {
            Ok(i) => {
                self.borrowers.set(i, b);
                proof {
                    lemma_table_update(borrower_keys(s), borrower_vals(s), i as int, v);
                    assert(borrower_keys(self.borrowers@) =~= borrower_keys(s));
                    assert(borrower_vals(self.borrowers@) =~= borrower_vals(s).update(i as int, v));
                }
            },
            Err(p) => {
                self.borrowers.insert(p, b);
                proof {
                    lemma_table_insert(borrower_keys(s), borrower_vals(s), p as int, k, v);
                    assert(borrower_keys(self.borrowers@) =~= borrower_keys(s).insert(p as int, k));
                    assert(borrower_vals(self.borrowers@) =~= borrower_vals(s).insert(p as int, v));
                    let keys = borrower_keys(self.borrowers@);
                    assert forall|i: int, j: int| 0 <= i < j < keys.len() implies bytes_lt(
                        #[trigger] keys[i],
                        #[trigger] keys[j],
                    ) by {
                        if i < p && j > p {
                            lemma_lt_transitive(keys[i], k, keys[j]);
                        } else if i < p && j < p {
                            assert(bytes_lt(borrower_keys(s)[i], borrower_keys(s)[j]));
                        } else if i > p && j > p {
                            assert(bytes_lt(borrower_keys(s)[i - 1], borrower_keys(s)[j - 1]));
                        }
                    }
                }
            },
        }
    }

    /// Where the entry for (`borrower`, `delegate`) stands, if there is one.
    fn find_delegate(&self, borrower: &Address, delegate: &Address) -> (r: Option<usize>)
        ensures
            r matches Some(i) ==> i < self.delegates@.len() && delegate_keys(self.delegates@)[i as int]
                == (borrower@, delegate@),
            r is None ==> !delegate_keys(self.delegates@).contains((borrower@, delegate@)),
    {
        let mut i: usize = 0;
        while i < self.delegates.len()
            invariant
                i <= self.delegates@.len(),
                forall|j: int|
                    0 <= j < i ==> delegate_keys(self.delegates@)[j] != (borrower@, delegate@),
            decreases self.delegates.len() - i,
        {
            let e = &self.delegates[i];
            if e.borrower.equals(borrower) && e.delegate.equals(delegate) {
                return Some(i);
            }
            i = i + 1;
        }
        None
    }

    /// Sets the shares of (`borrower`, `delegate`), adding the entry if absent.
    pub fn put_delegate(&mut self, borrower: &Address, delegate: &Address, shares: u128)
        requires
            old(self).wf(),
        ensures
            final(self).wf(),
            final(self).delegates() == old(self).delegates().insert((borrower@, delegate@), shares),
            final(self).borrowers() == old(self).borrowers(),
    {
        let ghost s = self.delegates@;
        let ghost k = (borrower@, delegate@);
        match self.find_delegate(borrower, delegate) {
            Some(i) => {
                let e = DelegateShare { borrower: borrower.copy(), delegate: delegate.copy(), shares };
                self.delegates.set(i, e);
                proof {
                    lemma_table_update(delegate_keys(s), delegate_vals(s), i as int, shares);
                    assert(delegate_keys(self.delegates@) =~= delegate_keys(s));
                    assert(delegate_vals(self.delegates@) =~= delegate_vals(s).update(i as int, shares));
                }
            },
            None => {
                let e = DelegateShare { borrower: borrower.copy(), delegate: delegate.copy(), shares };
                let p = self.delegates.len();
                self.delegates.insert(p, e);
                proof {
                    lemma_table_insert(delegate_keys(s), delegate_vals(s), p as int, k, shares);
                    assert(delegate_keys(self.delegates@) =~= delegate_keys(s).insert(p as int, k));
                    assert(delegate_vals(self.delegates@) =~= delegate_vals(s).insert(p as int, shares));
                }
            },
        }
    }

    /// Every delegate entry, in the order in which they were first written.
    pub fn delegate_entries(&self) -> (r: Vec<DelegateShare>)
        requires
            self.wf(),
        ensures
            unique(delegate_keys(r@)),
            table(delegate_keys(r@), delegate_vals(r@)) == self.delegates(),
    {
        let mut out: Vec<DelegateShare> = Vec::new();
        let mut i: usize = 0;
        while i < self.delegates.len()
            invariant
                i <= self.delegates@.len(),
                out@.len() == i,
                forall|j: int|
                    0 <= j < i ==> {
                        &&& (#[trigger] out@[j]).borrower@ == self.delegates@[j].borrower@
                        &&& out@[j].delegate@ == self.delegates@[j].delegate@
                        &&& out@[j].shares == self.delegates@[j].shares
                    },
            decreases self.delegates.len() - i,
        {
            let e = &self.delegates[i];
            out.push(DelegateShare { borrower: e.borrower.copy(), delegate: e.delegate.copy(), shares: e.shares });
            i = i + 1;
        }
        proof {
            assert(delegate_keys(out@) =~= delegate_keys(self.delegates@));
            assert(delegate_vals(out@) =~= delegate_vals(self.delegates@));
        }
        out
    }

    /// The shares of (`borrower`, `delegate`), if it has an entry.
    fn get_delegate(&self, borrower: &Address, delegate: &Address) -> (r: Option<u128>)
        requires
            self.wf(),
        ensures
            r == (if self.delegates().contains_key((borrower@, delegate@)) {
                Some(self.delegates()[(borrower@, delegate@)])
            } else {
                None
            }),
    {
        match self.find_delegate(borrower, delegate) {
            Some(i) => {
                proof {
                    lemma_table_get(delegate_keys(self.delegates@), delegate_vals(self.delegates@), i as int);
                }
                Some(self.delegates[i].shares)
            },
            None => None,
        }
    }
}

impl Borrower {
    /// The record at `addr`; a missing record means the address may not borrow.
    pub fn load(ledger: &Ledger, addr: Address) -> (r: Result<Borrower, ContractError>)
        requires
            ledger.wf(),
        ensures
            r is Ok <==> ledger.borrowers().contains_key(addr@),
            r matches Ok(b) ==> b.addr@ == addr@ && (b.limit, b.shares) == ledger.borrowers()[addr@],
            r is Err ==> r == Err::<Borrower, ContractError>(ContractError::UnauthorizedBorrower {  }),
    {
        match ledger.find_borrower(&addr) {
            Ok(i) => {
                proof {
                    lemma_table_get(
                        borrower_keys(ledger.borrowers@),
                        borrower_vals(ledger.borrowers@),
                        i as int,
                    );
                }
                let b = &ledger.borrowers[i];
                Ok(Borrower { addr, limit: b.limit, shares: b.shares })
            },
            Err(_) => Err(ContractError::UnauthorizedBorrower {  }),
        }
    }

    /// Writes this record at its address, replacing any record there.
    pub fn save(&self, ledger: &mut Ledger)
        requires
            old(ledger).wf(),
        ensures
            final(ledger).wf(),
            final(ledger).borrowers() == old(ledger).borrowers().insert(
                self.addr@,
                (self.limit, self.shares),
            ),
            final(ledger).delegates() == old(ledger).delegates(),
    {
        let b = Borrower { addr: self.addr.copy(), limit: self.limit, shares: self.shares };
        ledger.put_borrower(b);
    }

    /// The shares that `delegate` has borrowed for this borrower; zero when it
    /// has no entry.
    pub fn delegate_shares(&self, ledger: &Ledger, delegate: Address) -> (r: u128)
        requires
            ledger.wf(),
        ensures
            r == (if ledger.delegates().contains_key((self.addr@, delegate@)) {
                ledger.delegates()[(self.addr@, delegate@)]
            } else {
                0
            }),
    {
        match ledger.get_delegate(&self.addr, &delegate) {
            Some(v) => v,
            None => 0,
        }
    }

    /// Borrows `shares` more, provided the pool values the borrower's new
    /// total at no more than its limit; the record is then saved. A refused
    /// borrow changes nothing.
    pub fn borrow(&mut self, ledger: &mut Ledger, pool: &Pool, shares: u128) -> (r: Result<
        (),
        ContractError,
    >)
        requires
            old(ledger).wf(),
            old(self).shares + shares <= u128::MAX,
            pool.valuation_defined((old(self).shares + shares) as u128),
        ensures
            final(ledger).wf(),
            r is Ok <==> pool.ownership_spec((old(self).shares + shares) as u128) <= old(self).limit,
            r is Ok ==> borrowed(old(self)@, *old(ledger), shares, final(self)@, *final(ledger)),
            r is Err ==> {
                &&& r == Err::<(), ContractError>(
                    ContractError::BorrowLimitReached { limit: old(self).limit },
                )
                &&& *final(self) == *old(self)
                &&& *final(ledger) == *old(ledger)
            },
    {
        if pool.ownership(self.shares + shares) > self.limit {
            return Err(ContractError::BorrowLimitReached { limit: self.limit });
        }
        self.shares = self.shares + shares;
        self.save(ledger);
        Ok(())
    }

    /// Repays up to `shares`, never more than the borrower owes, saves the
    /// record, and returns the part of `shares` that was not owed.
    pub fn repay(&mut self, ledger: &mut Ledger, shares: u128) -> (r: u128)
        requires
            old(ledger).wf(),
        ensures
            final(ledger).wf(),
            repaid(old(self)@, *old(ledger), shares, final(self)@, *final(ledger), r),
            r == (if shares > old(self).shares {
                shares - old(self).shares
            } else {
                0
            }),
    {
        let repaid = if shares < self.shares {
            shares
        } else {
            self.shares
        };
        self.shares = self.shares - repaid;
        self.save(ledger);
        shares - repaid
    }

    /// Borrows `shares` through `delegate`: the delegate's entry grows by
    /// `shares` together with the borrower's total, or, when the limit refuses
    /// the borrow, neither changes.
    pub fn delegate_borrow(
        &mut self,
        ledger: &mut Ledger,
        delegate: Address,
        pool: &Pool,
        shares: u128,
    ) -> (r: Result<(), ContractError>)
        requires
            old(ledger).wf(),
            old(self).shares + shares <= u128::MAX,
            pair_shares(old(ledger).delegates(), old(self).addr@, delegate@) + shares <= u128::MAX,
            pool.valuation_defined((old(self).shares + shares) as u128),
        ensures
            final(ledger).wf(),
            r is Ok <==> pool.ownership_spec((old(self).shares + shares) as u128) <= old(self).limit,
            r is Ok ==> delegate_borrowed(
                old(self)@,
                *old(ledger),
                delegate@,
                shares,
                final(self)@,
                *final(ledger),
            ),
            r is Err ==> {
                &&& r == Err::<(), ContractError>(
                    ContractError::BorrowLimitReached { limit: old(self).limit },
                )
                &&& *final(self) == *old(self)
                &&& *final(ledger) == *old(ledger)
            },
    {
        if pool.ownership(self.shares + shares) > self.limit {
            return Err(ContractError::BorrowLimitReached { limit: self.limit });
        }
        let current = match ledger.get_delegate(&self.addr, &delegate) {
            Some(v) => v,
            None => 0,
        };
        ledger.put_delegate(&self.addr, &delegate, current + shares);
        self.borrow(ledger, pool, shares)
    }

    /// Repays up to `shares` through `delegate`, never more than the delegate
    /// has borrowed for this borrower; the borrower then repays what the
    /// delegate repaid. Returns the part of `shares` that was not owed. Fails,
    /// changing nothing, when the pair has no entry.
    pub fn delegate_repay(&mut self, ledger: &mut Ledger, delegate: Address, shares: u128) -> (r:
        Result<u128, ContractError>)
        requires
            old(ledger).wf(),
        ensures
            final(ledger).wf(),
            r is Ok <==> old(ledger).delegates().contains_key((old(self).addr@, delegate@)),
            r matches Ok(residual) ==> delegate_repaid(
                old(self)@,
                *old(ledger),
                delegate@,
                shares,
                final(self)@,
                *final(ledger),
                residual,
            ),
            r is Err ==> {
                &&& r == Err::<u128, ContractError>(ContractError::NotFound {  })
                &&& *final(self) == *old(self)
                &&& *final(ledger) == *old(ledger)
            },
    {
        let owed = match ledger.get_delegate(&self.addr, &delegate) {
            Some(v) => v,
            None => {
                return Err(ContractError::NotFound {  });
            },
        };
        let repaid = if shares < owed {
            shares
        } else {
            owed
        };
        let left = match owed.checked_sub(repaid) {
            Some(v) => v,
            None => {
                return Err(ContractError::Underflow {  });
            },
        };
        ledger.put_delegate(&self.addr, &delegate, left);
        self.repay(ledger, repaid);
        Ok(shares - repaid)
    }

    /// Sets the limit of `addr`, creating its record with no shares when it
    /// has none, and keeping its shares when it has.
    pub fn set(ledger: &mut Ledger, addr: Address, limit: u128)
        requires
            old(ledger).wf(),
        ensures
            final(ledger).wf(),
            final(ledger).borrowers() == set_limit(old(ledger).borrowers(), addr@, limit),
            final(ledger).delegates() == old(ledger).delegates(),
    {
        let mut borrower = match Borrower::load(ledger, addr.copy()) {
            Ok(b) => b,
            Err(_) => Borrower { addr, limit: 0, shares: 0 },
        };
        borrower.limit = limit;
        ledger.put_borrower(borrower);
    }
}

/// A borrower viewed as (address, limit, shares).
pub type BorrowerView = (Seq<u8>, u128, u128);

/// `b1` and `l1` are borrower `b0` and store `l0` after `s` shares were
/// borrowed: the borrower holds `s` more, and its record is saved.
pub open spec fn borrowed(b0: BorrowerView, l0: Ledger, s: u128, b1: BorrowerView, l1: Ledger) -> bool {
    &&& b1 == (b0.0, b0.1, (b0.2 + s) as u128)
    &&& l1.borrowers() == l0.borrowers().insert(b1.0, (b1.1, b1.2))
    &&& l1.delegates() == l0.delegates()
}

/// `b1` and `l1` are borrower `b0` and store `l0` after a repayment of `s`
/// shares with `residual` left over: the borrower pays what it can, never
/// more than it holds, and its record is saved.
pub open spec fn repaid(
    b0: BorrowerView,
    l0: Ledger,
    s: u128,
    b1: BorrowerView,
    l1: Ledger,
    residual: u128,
) -> bool {
    let paid = min(s as int, b0.2 as int);
    &&& b1 == (b0.0, b0.1, (b0.2 - paid) as u128)
    &&& residual == s - paid
    &&& l1.borrowers() == l0.borrowers().insert(b1.0, (b1.1, b1.2))
    &&& l1.delegates() == l0.delegates()
}

/// As `borrowed`, through delegate `d`, whose entry grows by `s` too.
pub open spec fn delegate_borrowed(
    b0: BorrowerView,
    l0: Ledger,
    d: Seq<u8>,
    s: u128,
    b1: BorrowerView,
    l1: Ledger,
) -> bool {
    &&& b1 == (b0.0, b0.1, (b0.2 + s) as u128)
    &&& l1.borrowers() == l0.borrowers().insert(b1.0, (b1.1, b1.2))
    &&& l1.delegates() == l0.delegates().insert(
        (b0.0, d),
        (pair_shares(l0.delegates(), b0.0, d) + s) as u128,
    )
}

/// A repayment of `s` shares through delegate `d`, whose entry exists: the
/// delegate repays what it can, never more than its entry, the borrower then
/// repays that amount, and `residual` is what was not owed.
pub open spec fn delegate_repaid(
    b0: BorrowerView,
    l0: Ledger,
    d: Seq<u8>,
    s: u128,
    b1: BorrowerView,
    l1: Ledger,
    residual: u128,
) -> bool {
    let owed = l0.delegates()[(b0.0, d)];
    let back = min(s as int, owed as int);
    let paid = min(back, b0.2 as int);
    &&& residual == s - back
    &&& b1 == (b0.0, b0.1, (b0.2 - paid) as u128)
    &&& l1.borrowers() == l0.borrowers().insert(b1.0, (b1.1, b1.2))
    &&& l1.delegates() == l0.delegates().insert((b0.0, d), (owed - back) as u128)
}

/// The shares of (`b`, `d`) in a delegate table; zero without an entry.
pub open spec fn pair_shares(m: Map<PairKey, u128>, b: Seq<u8>, d: Seq<u8>) -> int {
    if m.contains_key((b, d)) {
        m[(b, d)] as int
    } else {
        0
    }
}

/// The shares recorded for `a` in a borrower table; zero without a record.
pub open spec fn shares_of(m: Map<Seq<u8>, Record>, a: Seq<u8>) -> u128 {
    if m.contains_key(a) {
        m[a].1
    } else {
        0
    }
}

/// The most records one page of a listing holds.
pub const MAX_PAGE: u8 = 100;

/// `k` comes after the cursor, if there is one.
pub open spec fn after_cursor(after: Option<Seq<u8>>, k: Seq<u8>) -> bool {
    match after {
        Some(c) => bytes_lt(c, k),
        None => true,
    }
}

/// The address that a listing starts after, if any.
pub open spec fn cursor_of(start_after: Option<Address>) -> Option<Seq<u8>> {
    match start_after {
        Some(a) => Some(a@),
        None => None,
    }
}

/// The size of a page asked for as `limit`: the default, and the cap, is 100.
pub open spec fn page_size(limit: Option<u8>) -> nat {
    match limit {
        Some(n) => if n <= 100 {
            n as nat
        } else {
            100
        },
        None => 100,
    }
}

/// `page` lists, in ascending order of address, the first `n` records of the
/// borrower table `m` that come after the cursor, or all of them if there are
/// fewer.
pub open spec fn is_page(
    m: Map<Seq<u8>, Record>,
    after: Option<Seq<u8>>,
    n: nat,
    page: Seq<(Seq<u8>, u128, u128)>,
) -> bool {
    &&& page.len() <= n
    &&& forall|i: int|
        0 <= i < page.len() ==> {
            &&& m.contains_key(#[trigger] page[i].0)
            &&& m[page[i].0] == (page[i].1, page[i].2)
            &&& after_cursor(after, page[i].0)
        }
    &&& forall|i: int, j: int| 0 <= i < j < page.len() ==> bytes_lt(#[trigger] page[i].0, #[trigger] page[j].0)
    &&& forall|k: Seq<u8>|
        #![trigger m.contains_key(k)]
        m.contains_key(k) && after_cursor(after, k) && (page.len() < n || (page.len() > 0
            && !bytes_lt(page.last().0, k))) ==> exists|i: int| 0 <= i < page.len() && page[i].0 == k
}

/// Paging on: a full page, followed by the page that starts after its last
/// address, is the page twice as long. Chained pages thus walk the whole
/// table in order, missing and repeating nothing.
pub proof fn lemma_pages_chain(
    m: Map<Seq<u8>, Record>,
    after: Option<Seq<u8>>,
    n: nat,
    first: Seq<(Seq<u8>, u128, u128)>,
    next: Seq<(Seq<u8>, u128, u128)>,
)
    requires
        n > 0,
        is_page(m, after, n, first),
        first.len() == n,
        is_page(m, Some(first.last().0), n, next),
    ensures
        is_page(m, after, 2 * n, first + next),
{
    let all = first + next;
    let last = first.last().0;
    assert(first[first.len() - 1].0 == last);
    assert forall|i: int| 0 <= i < all.len() implies {
        &&& m.contains_key(#[trigger] all[i].0)
        &&& m[all[i].0] == (all[i].1, all[i].2)
        &&& after_cursor(after, all[i].0)
    } by {
        if i >= first.len() {
            assert(all[i] == next[i - first.len()]);
            if let Some(c) = after {
                assert(after_cursor(after, last));
                lemma_lt_transitive(c, last, all[i].0);
            }
        } else {
            assert(all[i] == first[i]);
        }
    }
    assert forall|i: int, j: int| 0 <= i < j < all.len() implies bytes_lt(
        #[trigger] all[i].0,
        #[trigger] all[j].0,
    ) by {
        if j < first.len() {
            assert(all[i] == first[i] && all[j] == first[j]);
        } else if i >= first.len() {
            assert(all[i] == next[i - first.len()] && all[j] == next[j - first.len()]);
        } else {
            assert(all[i] == first[i] && all[j] == next[j - first.len()]);
            assert(bytes_lt(last, all[j].0));
            if i < first.len() - 1 {
                assert(bytes_lt(first[i].0, first[first.len() - 1].0));
                lemma_lt_transitive(all[i].0, last, all[j].0);
            }
        }
    }
    assert forall|k: Seq<u8>|
        #![trigger m.contains_key(k)]
        m.contains_key(k) && after_cursor(after, k) && (all.len() < 2 * n || (all.len() > 0
            && !bytes_lt(all.last().0, k))) implies exists|i: int| 0 <= i < all.len() && all[i].0 == k by {
        if bytes_lt(last, k) {
            if next.len() > 0 {
                assert(all.last() == next.last());
            }
            let i = choose|i: int| 0 <= i < next.len() && next[i].0 == k;
            assert(all[first.len() + i] == next[i]);
        } else {
            let i = choose|i: int| 0 <= i < first.len() && first[i].0 == k;
            assert(all[i] == first[i]);
        }
    }
}

impl Borrower {
    /// One page of the borrower table in ascending order of address: at most
    /// `limit` records (100 when absent, and never more than 100), starting
    /// after `start_after` when it is given.
    pub fn list(ledger: &Ledger, limit: Option<u8>, start_after: Option<Address>) -> (r: Vec<
        Borrower,
    >)
        requires
            ledger.wf(),
        ensures
            is_page(
                ledger.borrowers(),
                cursor_of(start_after),
                page_size(limit),
                r@.map_values(|b: Borrower| b@),
            ),
    {
        let n: u8 = match limit {
            Some(l) => if l <= MAX_PAGE {
                l
            } else {
                MAX_PAGE
            },
            None => MAX_PAGE,
        };
        let ghost after = cursor_of(start_after);
        let ghost keys = borrower_keys(ledger.borrowers@);
        let len = ledger.borrowers.len();
        let start: usize = match &start_after {
            None => 0,
            Some(c) => match ledger.find_borrower(c) {
                Ok(i) => i + 1,
                Err(p) => p,
            },
        };
        proof {
            lemma_ascending_unique(keys);
            assert forall|q: int| 0 <= q < keys.len() implies (q >= start <==> after_cursor(
                after,
                #[trigger] keys[q],
            )) by {
                if let Some(c) = after {
                    if q >= start {
                        if q > start - 1 && start > 0 && keys[start - 1] == c {
                            assert(bytes_lt(keys[start - 1], keys[q]));
                        }
                    } else {
                        if keys[start - 1] == c {
                            if q < start - 1 {
                                assert(bytes_lt(keys[q], keys[start - 1]));
                                lemma_lt_asymmetric(keys[q], c);
                            } else {
                                lemma_lt_irreflexive(c);
                            }
                        } else {
                            lemma_lt_asymmetric(keys[q], c);
                        }
                    }
                }
            }
        }
        let mut page: Vec<Borrower> = Vec::new();
        let mut i: usize = start;
        while i < len && page.len() < n as usize
            invariant
                ledger.wf(),
                len == ledger.borrowers@.len(),
                start <= i <= len,
                page@.len() == i - start,
                page@.len() <= n,
                forall|j: int| 0 <= j < page@.len() ==> #[trigger] page@[j]@ == ledger.borrowers@[start + j]@,
            decreases len - i,
        {
            let b = &ledger.borrowers[i];
            page.push(Borrower { addr: b.addr.copy(), limit: b.limit, shares: b.shares });
            i = i + 1;
        }
        proof {
            let view = page@.map_values(|b: Borrower| b@);
            let m = ledger.borrowers();
            assert forall|j: int| 0 <= j < view.len() implies {
                &&& m.contains_key(#[trigger] view[j].0)
                &&& m[view[j].0] == (view[j].1, view[j].2)
                &&& after_cursor(after, view[j].0)
            } by {
                lemma_table_get(keys, borrower_vals(ledger.borrowers@), start + j);
                assert(keys[start + j] == view[j].0);
            }
            assert forall|a: int, b: int| 0 <= a < b < view.len() implies bytes_lt(
                #[trigger] view[a].0,
                #[trigger] view[b].0,
            ) by {
                assert(keys[start + a] == view[a].0 && keys[start + b] == view[b].0);
            }
            assert forall|k: Seq<u8>|
                #![trigger m.contains_key(k)]
                m.contains_key(k) && after_cursor(after, k) && (view.len() < page_size(limit)
                    || (view.len() > 0 && !bytes_lt(view.last().0, k))) implies exists|j: int|
                0 <= j < view.len() && view[j].0 == k by {
                let q = choose|q: int| 0 <= q < keys.len() && keys[q] == k;
                assert(keys[q] == k);
                if q >= i {
                    if view.len() >= page_size(limit) {
                        assert(view[view.len() - 1].0 == keys[i - 1]);
                        assert(bytes_lt(keys[i - 1], keys[q]));
                    }
                }
                assert(view[q - start].0 == k);
            }
        }
        page
    }
}

/// The borrower table `m` after the limit of `a` is set to `limit`.
pub open spec fn set_limit(m: Map<Seq<u8>, Record>, a: Seq<u8>, limit: u128) -> Map<Seq<u8>, Record> {
    m.insert(a, (limit, shares_of(m, a)))
}

/// Setting the limit of an address without a record creates the record with
/// that limit and no shares; setting it again, to any limit, changes the limit
/// and keeps the shares; setting the same limit twice is setting it once.
pub proof fn lemma_set_then_set(m: Map<Seq<u8>, Record>, a: Seq<u8>, limit: u128, limit2: u128)
    requires
        !m.contains_key(a),
    ensures
        set_limit(m, a, limit)[a] == (limit, 0u128),
        set_limit(set_limit(m, a, limit), a, limit2)[a] == (limit2, 0u128),
        set_limit(set_limit(m, a, limit), a, limit) == set_limit(m, a, limit),
{
    assert(set_limit(set_limit(m, a, limit), a, limit) =~= set_limit(m, a, limit));
}

/// Borrowing `s` shares through a delegate and then repaying `s` through the
/// same delegate gives the delegate's entry and the borrower's shares back,
/// with nothing left over; a borrower whose record was saved leaves the
/// borrower table as it found it.
pub proof fn lemma_delegate_round_trip(
    b0: BorrowerView,
    l0: Ledger,
    d: Seq<u8>,
    s: u128,
    b1: BorrowerView,
    l1: Ledger,
    b2: BorrowerView,
    l2: Ledger,
    residual: u128,
)
    requires
        b0.2 + s <= u128::MAX,
        pair_shares(l0.delegates(), b0.0, d) + s <= u128::MAX,
        delegate_borrowed(b0, l0, d, s, b1, l1),
        delegate_repaid(b1, l1, d, s, b2, l2, residual),
    ensures
        residual == 0,
        b2 == b0,
        pair_shares(l2.delegates(), b0.0, d) == pair_shares(l0.delegates(), b0.0, d),
        l0.borrowers().contains_key(b0.0) && l0.borrowers()[b0.0] == (b0.1, b0.2)
            ==> l2.borrowers() == l0.borrowers(),
{
    if l0.borrowers().contains_key(b0.0) && l0.borrowers()[b0.0] == (b0.1, b0.2) {
        assert(l2.borrowers() =~= l0.borrowers());
    }
}

} // verus!
