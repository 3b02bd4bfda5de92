use std::sync::atomic::{AtomicUsize, Ordering};
use std::sync::Arc;
use vstd::prelude::*;

verus! {

/// A byte budget shared between the piece buffers that draw on it.
#[derive(Debug)]
pub struct PieceBufferBudget {
    limit: usize,
    used: AtomicUsize,
}

/// The per-torrent and process-wide budgets a piece buffer must fit in.
#[derive(Clone, Debug)]
pub struct PieceBufferBudgets {
    global: Arc<PieceBufferBudget>,
    torrent: Arc<PieceBufferBudget>,
}

#[derive(Debug)]
struct BudgetCounterPermit {
    budget: Arc<PieceBufferBudget>,
    bytes: usize,
}

/// Bytes held against both budgets; released when dropped.
#[derive(Debug)]
pub struct PieceBufferReservation {
    _torrent: BudgetCounterPermit,
    _global: BudgetCounterPermit,
}

/// The usage after adding `bytes` to `used`, unless it would exceed
/// `limit`.
pub fn next_usage(used: usize, bytes: usize, limit: usize) -> (r: Option<usize>)
    ensures
        used + bytes <= limit ==> r == Some((used + bytes) as usize),
        used + bytes > limit ==> r is None,
{
    match used.checked_add(bytes) {
        Some(next) => if next <= limit {
            Some(next)
        } else {
            None
        },
        None => None,
    }
}

/// Adds `bytes` to the shared counter with `AtomicUsize::fetch_update`,
/// unless `next_usage` refuses; reports whether the counter was raised.
/// `fetch_update` succeeds only when its closure gives `Some`, which
/// `next_usage` does only when the usage it was shown plus `bytes` fits in
/// `limit`; so a raised counter means `bytes` alone fits. What the counter
/// held depends on other threads, so nothing more is stated.
#[verifier::external_body]
fn counter_try_add(counter: &AtomicUsize, bytes: usize, limit: usize) -> (r: bool)
    ensures
        r ==> bytes <= limit,
{
    counter.fetch_update(Ordering::AcqRel, Ordering::Acquire, |used| next_usage(used, bytes, limit)).is_ok()
}

/// Subtracts `bytes` from the shared counter with `AtomicUsize::fetch_sub`.
#[verifier::external_body]
fn counter_release(counter: &AtomicUsize, bytes: usize)
    opens_invariants none
    no_unwind
{
    counter.fetch_sub(bytes, Ordering::AcqRel);
}

/// Reads the shared counter with `AtomicUsize::load`.
#[verifier::external_body]
fn counter_load(counter: &AtomicUsize) -> (r: usize) {
    counter.load(Ordering::Acquire)
}

impl PieceBufferBudget {
    /// A budget of `limit` bytes, none of them used.
    pub fn new(limit: usize) -> (r: Self)
        ensures
            r.limit() == limit,
    {
        PieceBufferBudget { limit, used: AtomicUsize::new(0) }
    }

    /// The budget's limit.
    pub closed spec fn limit(&self) -> usize {
        self.limit
    }

    /// The bytes currently reserved against the budget.
    pub fn used(&self) -> usize {
        counter_load(&self.used)
    }

    fn try_acquire(budget: &Arc<PieceBufferBudget>, bytes: usize) -> (r: Option<BudgetCounterPermit>)
        ensures
            r matches Some(p) ==> p.bytes == bytes && bytes <= budget.limit(),
            bytes > budget.limit() ==> r is None,
    {
        if !counter_try_add(&budget.used, bytes, budget.limit) {
            return None;
        }
        Some(BudgetCounterPermit { budget: Arc::clone(budget), bytes })
    }
}

impl PieceBufferBudgets {
    /// Budgets drawing on a process-wide and a per-torrent budget.
    pub fn new(global: Arc<PieceBufferBudget>, torrent: Arc<PieceBufferBudget>) -> (r: Self)
        ensures
            r.global_budget() == global,
            r.torrent_budget() == torrent,
    {
        PieceBufferBudgets { global, torrent }
    }

    pub closed spec fn global_budget(&self) -> Arc<PieceBufferBudget> {
        self.global
    }

    pub closed spec fn torrent_budget(&self) -> Arc<PieceBufferBudget> {
        self.torrent
    }

    /// Reserves logical allocation bytes against both the per-torrent and
    /// process-wide limits. The returned non-cloneable guard releases both
    /// reservations when it is dropped. Nothing is reserved for zero bytes
    /// nor for more bytes than either budget's limit; otherwise whether the
    /// budgets have room depends on what the other holders reserved.
    pub fn try_reserve(&self, bytes: usize) -> (r: Option<PieceBufferReservation>)
        ensures
            bytes == 0 ==> r is None,
            bytes > self.torrent_budget().limit() ==> r is None,
            bytes > self.global_budget().limit() ==> r is None,
            r matches Some(res) ==> res.bytes() == bytes && 0 < bytes && bytes <= self.torrent_budget().limit()
                && bytes <= self.global_budget().limit(),
    {
        if bytes == 0 {
            return None;
        }
        let torrent = match PieceBufferBudget::try_acquire(&self.torrent, bytes) {
            Some(p) => p,
            None => {
                return None;
            },
        };
        let global = match PieceBufferBudget::try_acquire(&self.global, bytes) {
            Some(p) => p,
            None => {
                return None;
            },
        };
        Some(PieceBufferReservation { _torrent: torrent, _global: global })
    }
}

impl PieceBufferReservation {
    /// The bytes held against each budget.
    pub closed spec fn bytes(&self) -> usize {
        self._torrent.bytes
    }
}

impl Drop for BudgetCounterPermit {
    fn drop(&mut self)
        opens_invariants none
        no_unwind
    {
        counter_release(&self.budget.used, self.bytes);
    }
}

} // verus!
