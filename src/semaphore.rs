//! Reservations of key ranges by transactions, which detect conflicting
//! access and fail fast instead of waiting.

use vstd::prelude::*;

use crate::error::{conflict, Code, TCResult};
use crate::schema::{ranges_overlap, Range};
use crate::txn::{txn_rank, TxnId};
use crate::value::ValueView;

verus! {

/// A reservation: the transaction, the range it reserves, and whether it
/// reserves the range for writing.
pub type ReservationView = ((u128, u16), Seq<ValueView>, bool);

/// Whether a read of `range` at `txn` conflicts with a reservation: a later
/// transaction has reserved an overlapping range for writing.
pub open spec fn read_conflicts(
    res: Seq<ReservationView>,
    txn: (u128, u16),
    range: Seq<ValueView>,
) -> bool {
    exists|i: int|
        0 <= i < res.len() && (#[trigger] res[i]).2 && txn_rank(res[i].0) > txn_rank(txn)
            && ranges_overlap(res[i].1, range)
}

/// Whether a write of `range` at `txn` conflicts with a reservation: another
/// transaction has reserved an overlapping range for writing, or a later one
/// has reserved it for reading.
pub open spec fn write_conflicts(
    res: Seq<ReservationView>,
    txn: (u128, u16),
    range: Seq<ValueView>,
) -> bool {
    exists|i: int|
        0 <= i < res.len() && (#[trigger] res[i]).0 != txn && ranges_overlap(res[i].1, range) && (
        res[i].2 || txn_rank(res[i].0) > txn_rank(txn))
}

/// Whether a reservation outlives the release of `txn`.
pub open spec fn outlives(r: ReservationView, txn: (u128, u16), is_final: bool) -> bool {
    if is_final {
        txn_rank(r.0) > txn_rank(txn)
    } else {
        r.0 != txn
    }
}

#[derive(Debug)]
struct Reservation {
    txn: TxnId,
    range: Range,
    write: bool,
}

impl Reservation {
    spec fn view(&self) -> ReservationView {
        (self.txn@, self.range@, self.write)
    }
}

spec fn reservations_view(v: Seq<Reservation>) -> Seq<ReservationView> {
    v.map_values(|r: Reservation| r.view())
}

/// The reservations of key ranges held by transactions.
#[derive(Debug)]
pub struct Semaphore {
    reservations: Vec<Reservation>,
}

impl View for Semaphore {
    type V = Seq<ReservationView>;

    closed spec fn view(&self) -> Seq<ReservationView> {
        reservations_view(self.reservations@)
    }
}

impl Semaphore {
    /// A semaphore without reservations.
    pub fn new() -> (r: Semaphore)
        ensures
            r@ == Seq::<ReservationView>::empty(),
    {
        let r = Semaphore { reservations: Vec::new() };
        assert(r@ =~= Seq::<ReservationView>::empty());
        r
    }

    /// A semaphore in which `txn` holds `range` for writing.
    pub fn with_reservation(txn: TxnId, range: Range) -> (r: Semaphore)
        ensures
            r@ == seq![(txn@, range@, true)],
    {
        let mut reservations: Vec<Reservation> = Vec::new();
        reservations.push(Reservation { txn, range, write: true });
        let r = Semaphore { reservations };
        assert(r@ =~= seq![(txn@, range@, true)]);
        r
    }

    fn find_conflict(&self, txn: &TxnId, range: &Range, write: bool) -> (r: bool)
        ensures
            r == if write {
                write_conflicts(self@, txn@, range@)
            } else {
                read_conflicts(self@, txn@, range@)
            },
    {
        let mut i: usize = 0;
        while i < self.reservations.len()
            invariant
                i <= self.reservations.len(),
                forall|j: int|
                    0 <= j < i ==> !(if write {
                        (#[trigger] self@[j]).0 != txn@ && ranges_overlap(self@[j].1, range@) && (
                        self@[j].2 || txn_rank(self@[j].0) > txn_rank(txn@))
                    } else {
                        (#[trigger] self@[j]).2 && txn_rank(self@[j].0) > txn_rank(txn@)
                            && ranges_overlap(self@[j].1, range@)
                    }),
            decreases self.reservations.len() - i,
        {
            let res = &self.reservations[i];
            assert(self@[i as int] == res.view());
            proof {
                TxnId::lemma_view_injective(res.txn, *txn);
            }
            let hit = if write {
                res.txn != *txn && res.range.overlaps(range) && (res.write || txn.precedes(
                    &res.txn,
                ))
            } else {
                res.write && txn.precedes(&res.txn) && res.range.overlaps(range)
            };
            if hit {
                return true;
            }
            i = i + 1;
        }
        false
    }

    /// Reserve `range` for reading at `txn`; a `Conflict` error, with nothing
    /// reserved, where a later transaction has reserved an overlapping range
    /// for writing. Returns the range granted.
    pub fn read(&mut self, txn: TxnId, range: Range) -> (r: TCResult<Range>)
        ensures
            r is Err <==> read_conflicts(old(self)@, txn@, range@),
            r matches Err(e) ==> e.code() == Code::Conflict && final(self)@ == old(self)@,
            r matches Ok(granted) ==> granted@ == range@ && final(self)@ == old(self)@.push(
                (txn@, range@, false),
            ),
    {
        if self.find_conflict(&txn, &range, false) {
            return Err(conflict());
        }
        let granted = range.clone_range();
        self.reservations.push(Reservation { txn, range, write: false });
        assert(self@ =~= old(self)@.push((txn@, granted@, false)));
        Ok(granted)
    }

    /// Reserve `range` for writing at `txn`; a `Conflict` error, with nothing
    /// reserved, where another transaction has reserved an overlapping range
    /// for writing, or a later one for reading. Returns the range granted.
    pub fn write(&mut self, txn: TxnId, range: Range) -> (r: TCResult<Range>)
        ensures
            r is Err <==> write_conflicts(old(self)@, txn@, range@),
            r matches Err(e) ==> e.code() == Code::Conflict && final(self)@ == old(self)@,
            r matches Ok(granted) ==> granted@ == range@ && final(self)@ == old(self)@.push(
                (txn@, range@, true),
            ),
    {
        if self.find_conflict(&txn, &range, true) {
            return Err(conflict());
        }
        let granted = range.clone_range();
        self.reservations.push(Reservation { txn, range, write: true });
        assert(self@ =~= old(self)@.push((txn@, granted@, true)));
        Ok(granted)
    }

    /// Release the reservations of `txn`; where `is_final`, also those of
    /// every earlier transaction.
    pub fn finalize(&mut self, txn: &TxnId, is_final: bool)
        ensures
            forall|x: ReservationView|
                #![trigger final(self)@.contains(x)]
                final(self)@.contains(x) <==> (old(self)@.contains(x) && outlives(
                    x,
                    txn@,
                    is_final,
                )),
    {
        let ghost before = self@;
        let mut kept: Vec<Reservation> = Vec::new();
        let ghost total = self.reservations@;
        assert(reservations_view(kept@) =~= Seq::<ReservationView>::empty());
        while self.reservations.len() > 0
            invariant
                forall|x: ReservationView|
                    #![trigger reservations_view(kept@).contains(x)]
                    reservations_view(kept@).contains(x) <==> (exists|j: int|
                        self.reservations@.len() <= j < total.len() && #[trigger] total[j].view() == x)
                        && outlives(x, txn@, is_final),
                total.len() == before.len(),
                forall|j: int| 0 <= j < total.len() ==> #[trigger] total[j].view() == before[j],
                self.reservations@.len() <= total.len(),
                self.reservations@ == total.subrange(0, self.reservations@.len() as int),
            decreases self.reservations.len(),
        {
            let ghost pre = self.reservations@;
            let res = self.reservations.pop().unwrap();
            assert(res == pre[pre.len() - 1]);
            assert(pre[pre.len() - 1] == total[pre.len() - 1]);
            assert(self.reservations@ =~= total.subrange(0, self.reservations@.len() as int));
            proof {
                TxnId::lemma_view_injective(res.txn, *txn);
            }
            let keep = if is_final {
                txn.precedes(&res.txn)
            } else {
                res.txn != *txn
            };
            let ghost kv_before = reservations_view(kept@);
            if keep {
                kept.push(res);
            }
            proof {
                let kv = reservations_view(kept@);
                let n = self.reservations@.len() as int;
                assert(total[n] == res);
                assert forall|x: ReservationView| #[trigger] kv.contains(x) <==> (exists|j: int|
                    n <= j < total.len() && #[trigger] total[j].view() == x) && outlives(
                    x,
                    txn@,
                    is_final,
                ) by {
                    if kv.contains(x) {
                        let a = choose|a: int| 0 <= a < kv.len() && kv[a] == x;
                        if keep && a == kv.len() - 1 {
                            assert(total[n].view() == x);
                        } else {
                            assert(kv_before[a] == x);
                            assert(kv_before.contains(x));
                        }
                    }
                    if (exists|j: int| n <= j < total.len() && #[trigger] total[j].view() == x)
                        && outlives(x, txn@, is_final) {
                        let j = choose|j: int| n <= j < total.len() && #[trigger] total[j].view() == x;
                        if j == n {
                            assert(kv[kv.len() - 1] == x);
                        } else {
                            assert(kv_before.contains(x));
                            let a = choose|a: int| 0 <= a < kv_before.len() && kv_before[a] == x;
                            assert(kv[a] == x);
                        }
                    }
                }
            }
        }
        self.reservations = kept;
        proof {
            assert forall|x: ReservationView| #![trigger self@.contains(x)]
                self@.contains(x) <==> (before.contains(x) && outlives(x, txn@, is_final)) by {
                if before.contains(x) {
                    let j = choose|j: int| 0 <= j < before.len() && before[j] == x;
                    assert(total[j].view() == x);
                }
                if exists|j: int| 0 <= j < total.len() && #[trigger] total[j].view() == x {
                    let j = choose|j: int| 0 <= j < total.len() && #[trigger] total[j].view() == x;
                    assert(before[j] == x);
                }
            }
        }
    }
}

/// Two transactions that write overlapping ranges, neither ordered before the
/// other by a release, conflict: once either holds its reservation, the
/// other's write fails. On a semaphore without reservations the first write
/// succeeds.
pub proof fn lemma_overlapping_writes_conflict(
    res: Seq<ReservationView>,
    t1: (u128, u16),
    r1: Seq<ValueView>,
    t2: (u128, u16),
    r2: Seq<ValueView>,
)
    requires
        t1 != t2,
        ranges_overlap(r1, r2),
    ensures
        write_conflicts(res.push((t1, r1, true)), t2, r2),
        !write_conflicts(Seq::<ReservationView>::empty(), t1, r1),
{
    let s = res.push((t1, r1, true));
    assert(s[res.len() as int] == (t1, r1, true));
}

} // verus!
