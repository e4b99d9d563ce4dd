//! Migration from the legacy delegate records, which embedded a borrower
//! snapshot in each entry, to the normalized delegate table and recomputed
//! borrower totals.
use crate::address::Address;
use crate::borrowers::{Borrower, Ledger, PairKey, Record};
use crate::error::ContractError;
use vstd::prelude::*;

verus! {

/// A delegate record of the legacy format: a snapshot of the borrower, the
/// delegate's address, and the delegate's shares.
pub struct OldDelegate {
    pub borrower: Borrower,
    pub addr: Address,
    pub shares: u128,
}

/// A legacy table read in key order: (borrower, delegate) and the record.
pub open spec fn legacy_view(s: Seq<((Address, Address), OldDelegate)>) -> Seq<(Seq<u8>, Seq<u8>, u128)> {
    s.map_values(|e: ((Address, Address), OldDelegate)| (e.0.0@, e.0.1@, e.1.shares))
}

/// The shares of all legacy entries of borrower `b`.
pub open spec fn legacy_total(es: Seq<(Seq<u8>, Seq<u8>, u128)>, b: Seq<u8>) -> int
    decreases es.len(),
{
    if es.len() == 0 {
        0
    } else {
        legacy_total(es.drop_last(), b) + if es.last().0 == b {
            es.last().2 as int
        } else {
            0
        }
    }
}

/// The delegate table `m` with each legacy entry written into it, in order.
pub open spec fn apply_legacy(m: Map<PairKey, u128>, es: Seq<(Seq<u8>, Seq<u8>, u128)>) -> Map<
    PairKey,
    u128,
>
    decreases es.len(),
{
    if es.len() == 0 {
        m
    } else {
        apply_legacy(m, es.drop_last()).insert((es.last().0, es.last().1), es.last().2)
    }
}

/// Some legacy entry belongs to borrower `b`.
pub open spec fn referenced(es: Seq<(Seq<u8>, Seq<u8>, u128)>, b: Seq<u8>) -> bool {
    exists|i: int| 0 <= i < es.len() && #[trigger] es[i].0 == b
}

/// The borrower table `m` after migration: each borrower with legacy entries
/// holds their total as its shares; the others are as they were.
pub open spec fn migrated(m: Map<Seq<u8>, Record>, es: Seq<(Seq<u8>, Seq<u8>, u128)>) -> Map<
    Seq<u8>,
    Record,
> {
    Map::new(
        |k: Seq<u8>| m.contains_key(k),
        |k: Seq<u8>|
            if referenced(es, k) {
                (m[k].0, legacy_total(es, k) as u128)
            } else {
                m[k]
            },
    )
}

proof fn lemma_prefix_step(es: Seq<(Seq<u8>, Seq<u8>, u128)>, i: int, m: Map<PairKey, u128>)
    requires
        0 <= i < es.len(),
    ensures
        forall|b: Seq<u8>|
            #[trigger] legacy_total(es.take(i + 1), b) == legacy_total(es.take(i), b) + if es[i].0
                == b {
                es[i].2 as int
            } else {
                0
            },
        forall|b: Seq<u8>|
            #[trigger] referenced(es.take(i + 1), b) == (referenced(es.take(i), b) || es[i].0 == b),
        apply_legacy(m, es.take(i + 1)) == apply_legacy(m, es.take(i)).insert(
            (es[i].0, es[i].1),
            es[i].2,
        ),
{
    assert(es.take(i + 1).drop_last() =~= es.take(i));
    assert forall|b: Seq<u8>|
        #[trigger] referenced(es.take(i + 1), b) == (referenced(es.take(i), b) || es[i].0
            == b) by {
        if referenced(es.take(i + 1), b) {
            let j = choose|j: int| 0 <= j < i + 1 && #[trigger] es.take(i + 1)[j].0 == b;
            if j < i {
                assert(es.take(i)[j].0 == b);
            }
        }
        if referenced(es.take(i), b) {
            let j = choose|j: int| 0 <= j < i && #[trigger] es.take(i)[j].0 == b;
            assert(es.take(i + 1)[j].0 == b);
        }
        if es[i].0 == b {
            assert(es.take(i + 1)[i].0 == b);
        }
    }
}

proof fn lemma_total_bounded(es: Seq<(Seq<u8>, Seq<u8>, u128)>, i: int, b: Seq<u8>)
    requires
        0 <= i <= es.len(),
    ensures
        0 <= legacy_total(es.take(i), b) <= legacy_total(es, b),
    decreases es.len() - i,
{
    if i == es.len() {
        assert(es.take(i) =~= es);
        lemma_total_nonneg(es, b);
    } else {
        lemma_prefix_step(es, i, Map::empty());
        lemma_total_bounded(es, i + 1, b);
        lemma_total_nonneg(es.take(i), b);
    }
}

proof fn lemma_total_nonneg(es: Seq<(Seq<u8>, Seq<u8>, u128)>, b: Seq<u8>)
    ensures
        legacy_total(es, b) >= 0,
    decreases es.len(),
{
    if es.len() > 0 {
        lemma_total_nonneg(es.drop_last(), b);
    }
}

/// Rebuilds the delegate table and the borrowers' totals from the legacy
/// records in `legacy`: each (borrower, delegate) entry is written as it
/// stands, and every borrower that has entries gets their total as its
/// shares, whatever it held before. Fails, changing nothing, when an entry's
/// borrower has no record.
pub fn migrate(ledger: &mut Ledger, legacy: &Vec<((Address, Address), OldDelegate)>) -> (r: Result<
    (),
    ContractError,
>)
    requires
        old(ledger).wf(),
        forall|b: Seq<u8>| #[trigger] legacy_total(legacy_view(legacy@), b) <= u128::MAX,
    ensures
        final(ledger).wf(),
        r is Ok <==> forall|i: int|
            0 <= i < legacy@.len() ==> old(ledger).borrowers().contains_key(
                #[trigger] legacy_view(legacy@)[i].0,
            ),
        r is Ok ==> {
            &&& final(ledger).borrowers() == migrated(old(ledger).borrowers(), legacy_view(legacy@))
            &&& final(ledger).delegates() == apply_legacy(
                old(ledger).delegates(),
                legacy_view(legacy@),
            )
        },
        r is Err ==> r == Err::<(), ContractError>(ContractError::NotFound {  }) && *final(ledger)
            == *old(ledger),
{
    let ghost es = legacy_view(legacy@);
    let ghost m0 = ledger.borrowers();
    let ghost d0 = ledger.delegates();
    let n = legacy.len();
    let mut i: usize = 0;
    while i < n
        invariant
            n == legacy@.len(),
            i <= n,
            es == legacy_view(legacy@),
            ledger.wf(),
            ledger.borrowers() == m0,
            forall|j: int| 0 <= j < i ==> m0.contains_key(#[trigger] es[j].0),
        decreases n - i,
    {
        match Borrower::load(ledger, legacy[i].0.0.copy()) {
            Ok(_) => {},
            Err(_) => {
                proof {
                    assert(!m0.contains_key(es[i as int].0));
                }
                return Err(ContractError::NotFound {  });
            },
        }
        i = i + 1;
    }
    i = 0;
    while i < n
        invariant
            n == legacy@.len(),
            i <= n,
            es == legacy_view(legacy@),
            ledger.wf(),
            ledger.delegates() == d0,
            ledger.borrowers().dom() == m0.dom(),
            forall|j: int| 0 <= j < n ==> m0.contains_key(#[trigger] es[j].0),
            forall|k: Seq<u8>|
                #[trigger] m0.contains_key(k) ==> ledger.borrowers()[k] == if referenced(
                    es.take(i as int),
                    k,
                ) {
                    (m0[k].0, 0u128)
                } else {
                    m0[k]
                },
        decreases n - i,
    {
        proof {
            lemma_prefix_step(es, i as int, d0);
        }
        let b = &legacy[i].0.0;
        let limit = match Borrower::load(ledger, b.copy()) {
            Ok(rec) => rec.limit,
            Err(_) => {
                proof {
                    assert(false);
                }
                0
            },
        };
        ledger.put_borrower(Borrower { addr: b.copy(), limit, shares: 0 });
        i = i + 1;
        proof {
            assert(ledger.borrowers().dom() =~= m0.dom());
        }
    }
    proof {
        assert(es.take(n as int) =~= es);
    }
    i = 0;
    while i < n
        invariant
            n == legacy@.len(),
            i <= n,
            es == legacy_view(legacy@),
            ledger.wf(),
            ledger.delegates() == apply_legacy(d0, es.take(i as int)),
            ledger.borrowers().dom() == m0.dom(),
            forall|j: int| 0 <= j < n ==> m0.contains_key(#[trigger] es[j].0),
            forall|b: Seq<u8>| #[trigger] legacy_total(es, b) <= u128::MAX,
            forall|k: Seq<u8>|
                #[trigger] m0.contains_key(k) ==> ledger.borrowers()[k] == if referenced(es, k) {
                    (m0[k].0, legacy_total(es.take(i as int), k) as u128)
                } else {
                    m0[k]
                },
        decreases n - i,
    {
        proof {
            lemma_prefix_step(es, i as int, d0);
            lemma_total_bounded(es, i + 1, es[i as int].0);
            lemma_total_nonneg(es.take(i as int), es[i as int].0);
            assert(referenced(es, es[i as int].0));
        }
        let e = &legacy[i];
        let b = &e.0.0;
        ledger.put_delegate(b, &e.0.1, e.1.shares);
        let (limit, shares) = match Borrower::load(ledger, b.copy()) {
            Ok(rec) => (rec.limit, rec.shares),
            Err(_) => {
                proof {
                    assert(false);
                }
                (0, 0)
            },
        };
        ledger.put_borrower(Borrower { addr: b.copy(), limit, shares: shares + e.1.shares });
        i = i + 1;
        proof {
            assert(ledger.borrowers().dom() =~= m0.dom());
        }
    }
    proof {
        assert(ledger.borrowers() =~= migrated(m0, es));
    }
    Ok(())
}

} // verus!
