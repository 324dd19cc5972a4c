//! The positions monitor: binds the position state machine, the positions
//! cache and the wallet aggregator; keeps instrument indexes and the lock
//! table; and drives the per-quote update pipeline that emits monitoring
//! events.

use vstd::prelude::*;
use crate::caches::PositionsCache;
use crate::collections::SymMap;
use crate::collections::SymSet;
use crate::errors::EngineError;
use crate::positions::ActivePosition;
use crate::positions::ActiveTopUp;
use crate::positions::BidAsk;
use crate::positions::CanceledTopUp;
use crate::positions::ClosedPosition;
use crate::positions::PendingPosition;
use crate::positions::same_active;
use crate::positions::Position;
use crate::symbols::AssetSymbol;
use crate::symbols::InstrumentSymbol;
use crate::symbols::PositionId;
use crate::symbols::SymbolKey;
use crate::symbols::WalletId;
use crate::wallets::Wallet;
use crate::wallets::WalletBalance;

verus! {

/// The position ids indexed under one instrument.
pub struct PositionIdsByInstrumentSymbol {
    pub items: SymSet<PositionId>,
    pub instrument_symbol: InstrumentSymbol,
}

impl PositionIdsByInstrumentSymbol {
    pub fn new(instrument_symbol: InstrumentSymbol) -> (r: Self)
        ensures
            r.items.wf(),
            r.items@ =~= Set::<Seq<u8>>::empty(),
            r.instrument_symbol@ == instrument_symbol@,
    {
        PositionIdsByInstrumentSymbol { items: SymSet::empty(), instrument_symbol }
    }

    pub fn new_with_one(instrument_symbol: InstrumentSymbol, id: PositionId) -> (r: Self)
        ensures
            r.items.wf(),
            r.items@ =~= Set::<Seq<u8>>::empty().insert(id@),
            r.instrument_symbol@ == instrument_symbol@,
    {
        let mut items = SymSet::empty();
        items.insert(id);
        PositionIdsByInstrumentSymbol { items, instrument_symbol }
    }

    pub fn len(&self) -> (r: usize)
        ensures
            r == self.items.spec_len(),
    {
        self.items.len()
    }
}

/// The wallet ids indexed under one instrument.
pub struct WalletIdsByInstrumentSymbol {
    pub items: SymSet<WalletId>,
    pub instrument_symbol: InstrumentSymbol,
}

impl WalletIdsByInstrumentSymbol {
    pub fn new(instrument_symbol: InstrumentSymbol) -> (r: Self)
        ensures
            r.items.wf(),
            r.items@ =~= Set::<Seq<u8>>::empty(),
            r.instrument_symbol@ == instrument_symbol@,
    {
        WalletIdsByInstrumentSymbol { items: SymSet::empty(), instrument_symbol }
    }

    pub fn new_with_one(instrument_symbol: InstrumentSymbol, id: WalletId) -> (r: Self)
        ensures
            r.items.wf(),
            r.items@ =~= Set::<Seq<u8>>::empty().insert(id@),
            r.instrument_symbol@ == instrument_symbol@,
    {
        let mut items = SymSet::empty();
        items.insert(id);
        WalletIdsByInstrumentSymbol { items, instrument_symbol }
    }

    pub fn len(&self) -> (r: usize)
        ensures
            r == self.items.spec_len(),
    {
        self.items.len()
    }
}

/// What one `update` hands back to the caller for dispatching.
pub enum PositionMonitoringEvent {
    /// The position was closed and removed from the cache.
    PositionClosed(ClosedPosition),
    /// A pending position reached its desire price and went active.
    PositionActivated(ActivePosition),
    /// An active position has a margin call; re-emitted every tick it holds.
    PositionMarginCall(ActivePosition),
    /// The position was locked pending an external workflow.
    PositionLocked(PositionLockReason),
    /// A wallet's loss crossed its margin-call threshold from below.
    WalletMarginCall(WalletMarginCallInfo),
}

/// Why a position was locked.
pub enum PositionLockReason {
    /// The position entered its top-up band and needs more margin.
    TopUp(ActivePosition),
    /// Top-ups aged and the price recovered: they were handed back.
    TopUpsCanceled((ActivePosition, Vec<CanceledTopUp>)),
    /// A pending position reached its desire price but its assets are not
    /// reserved yet.
    ActivationPending(PendingPosition),
}

/// Snapshot carried by a wallet-level margin call.
pub struct WalletMarginCallInfo {
    pub loss_percent: i64,
    pub pnl: i64,
    pub wallet_id: WalletId,
    pub trader_id: Vec<u8>,
}

/// The monitor: cache, indexes, lock table, wallets and scratch state.
pub struct PositionsMonitor {
    positions_cache: PositionsCache,
    ids_by_instruments: SymMap<InstrumentSymbol, PositionIdsByInstrumentSymbol>,
    cancel_top_up_delay: i64,
    cancel_top_up_price_change_percent: i64,
    locked_ids: SymSet<PositionId>,
    pnl_accuracy: Option<u32>,
    wallets_by_ids: SymMap<WalletId, Wallet>,
    wallet_ids_by_instruments: SymMap<InstrumentSymbol, WalletIdsByInstrumentSymbol>,
    wallet_monitoring_enabled: bool,
    last_update_events_count: usize,
    // reused allocations, cleared at the tail of every update
    top_up_pnls_by_wallet_ids: SymMap<WalletId, i64>,
    top_up_reserved_by_wallet_ids: SymMap<WalletId, SymMap<AssetSymbol, i64>>,
}

impl PositionsMonitor {
    /// The positions cache.
    pub closed spec fn cache(self) -> PositionsCache {
        self.positions_cache
    }

    /// The instrument-to-position-ids index.
    pub closed spec fn ids_index(self) -> SymMap<InstrumentSymbol, PositionIdsByInstrumentSymbol> {
        self.ids_by_instruments
    }

    /// The lock table.
    pub closed spec fn locked(self) -> SymSet<PositionId> {
        self.locked_ids
    }

    /// The wallets, keyed by wallet id.
    pub closed spec fn wallets(self) -> SymMap<WalletId, Wallet> {
        self.wallets_by_ids
    }

    /// The instrument-to-wallet-ids index.
    pub closed spec fn wallet_index(self) -> SymMap<InstrumentSymbol, WalletIdsByInstrumentSymbol> {
        self.wallet_ids_by_instruments
    }

    /// The per-wallet profit-and-loss scratch map.
    pub closed spec fn scratch_pnls(self) -> SymMap<WalletId, i64> {
        self.top_up_pnls_by_wallet_ids
    }

    /// The per-wallet reserved-amounts scratch map.
    pub closed spec fn scratch_reserved(self) -> SymMap<WalletId, SymMap<AssetSymbol, i64>> {
        self.top_up_reserved_by_wallet_ids
    }

    pub closed spec fn spec_wallet_monitoring_enabled(self) -> bool {
        self.wallet_monitoring_enabled
    }

    pub closed spec fn spec_pnl_accuracy(self) -> Option<u32> {
        self.pnl_accuracy
    }

    pub closed spec fn spec_cancel_top_up_delay(self) -> i64 {
        self.cancel_top_up_delay
    }

    pub closed spec fn spec_cancel_top_up_price_change_percent(self) -> i64 {
        self.cancel_top_up_price_change_percent
    }

    /// Validity of the whole monitor. Besides well-formed containers it
    /// carries the cross-index invariants: every cached position is indexed
    /// under exactly the instruments of its order; every locked id is in
    /// the cache; every indexed wallet id resolves to a stored wallet.
    pub open spec fn wf(self) -> bool {
        &&& self.cache().wf()
        &&& self.ids_index().wf()
        &&& forall|k: Seq<u8>|
            #[trigger] self.ids_index()@.contains_key(k) ==> self.ids_index()@[k].items.wf()
        &&& self.locked().wf()
        &&& forall|id: Seq<u8>|
            #[trigger] self.locked()@.contains(id) ==> self.cache()@.contains_key(id)
        &&& self.wallets().wf()
        &&& forall|w: Seq<u8>|
            #[trigger] self.wallets()@.contains_key(w) ==> self.wallets()@[w].wf()
                && self.wallets()@[w].id@ == w
        &&& self.wallet_index().wf()
        &&& forall|k: Seq<u8>|
            #[trigger] self.wallet_index()@.contains_key(k)
                ==> self.wallet_index()@[k].items.wf()
        &&& forall|k: Seq<u8>, w: Seq<u8>|
            self.wallet_index()@.contains_key(k) && #[trigger] self.wallet_index()@[k].items@
                .contains(w) ==> self.wallets()@.contains_key(w) && self.wallets()@[
                w
            ].balances_by_instruments@.contains_key(k)
        &&& self.scratch_pnls().wf()
        &&& self.scratch_reserved().wf()
        &&& forall|w: Seq<u8>|
            #[trigger] self.scratch_reserved()@.contains_key(w) ==> self.scratch_reserved()@[w]
                .wf()
        &&& self.indexed_exactly()
    }

    /// Every cached position id appears in the index of an instrument
    /// exactly when that instrument belongs to its order; every instrument
    /// of a cached position has an index entry.
    pub open spec fn indexed_exactly(self) -> bool {
        &&& forall|id: Seq<u8>, k: Seq<u8>|
            self.cache()@.contains_key(id) && #[trigger] self.cache()@[
                id
            ].spec_order().spec_instruments().contains(k) ==> self.ids_index()@.contains_key(k)
                && self.ids_index()@[k].items@.contains(id)
        &&& forall|id: Seq<u8>, k: Seq<u8>|
            self.cache()@.contains_key(id) && self.ids_index()@.contains_key(k)
                && #[trigger] self.ids_index()@[k].items@.contains(id) ==> self.cache()@[
                id
            ].spec_order().spec_instruments().contains(k)
    }

    /// Every position id in the cache is indexed under an instrument
    /// exactly when the instrument belongs to its order.
    pub proof fn lemma_index_consistent(self, id: Seq<u8>, k: Seq<u8>)
        requires
            self.wf(),
            self.cache()@.contains_key(id),
            self.ids_index()@.contains_key(k),
        ensures
            self.ids_index()@[k].items@.contains(id) <==> self.cache()@[
                id
            ].spec_order().spec_instruments().contains(k),
    {
    }

    /// A locked position id is always in the cache.
    pub proof fn lemma_locked_in_cache(self, id: Seq<u8>)
        requires
            self.wf(),
            self.locked()@.contains(id),
        ensures
            self.cache()@.contains_key(id),
    {
    }

    pub fn new(
        capacity: usize,
        cancel_top_up_delay: i64,
        cancel_top_up_price_change_percent: i64,
        pnl_accuracy: Option<u32>,
        wallet_monitoring_enabled: bool,
    ) -> (r: Self)
        ensures
            r.wf(),
            r.cache()@ =~= Map::<Seq<u8>, Position>::empty(),
            r.ids_index()@ =~= Map::<Seq<u8>, PositionIdsByInstrumentSymbol>::empty(),
            r.locked()@ =~= Set::<Seq<u8>>::empty(),
            r.wallets()@ =~= Map::<Seq<u8>, Wallet>::empty(),
            r.wallet_index()@ =~= Map::<Seq<u8>, WalletIdsByInstrumentSymbol>::empty(),
            r.spec_wallet_monitoring_enabled() == wallet_monitoring_enabled,
            r.spec_pnl_accuracy() == pnl_accuracy,
            r.spec_cancel_top_up_delay() == cancel_top_up_delay,
            r.spec_cancel_top_up_price_change_percent() == cancel_top_up_price_change_percent,
    {
        PositionsMonitor {
            wallets_by_ids: SymMap::empty(),
            positions_cache: PositionsCache::with_capacity(capacity),
            ids_by_instruments: SymMap::empty(),
            cancel_top_up_delay,
            locked_ids: SymSet::empty(),
            cancel_top_up_price_change_percent,
            pnl_accuracy,
            wallet_ids_by_instruments: SymMap::empty(),
            top_up_pnls_by_wallet_ids: SymMap::empty(),
            top_up_reserved_by_wallet_ids: SymMap::empty(),
            wallet_monitoring_enabled,
            last_update_events_count: 0,
        }
    }

    /// The number of cached positions.
    pub fn count(&self) -> (r: usize)
        ensures
            r == self.cache().positions().spec_len(),
    {
        self.positions_cache.count()
    }

    pub fn contains_wallet(&self, wallet_id: &WalletId) -> (r: bool)
        requires
            self.wf(),
        ensures
            r == self.wallets()@.contains_key(wallet_id@),
    {
        self.wallets_by_ids.contains(wallet_id)
    }

    /// Mutable access to a stored wallet. Writing a wallet whose id or
    /// validity differ through the returned borrow leaves the monitor
    /// outside [`Self::wf`]; the caller answers for what it writes.
    pub fn get_wallet_mut(&mut self, wallet_id: &WalletId) -> (r: Option<&mut Wallet>)
        requires
            old(self).wf(),
        ensures
            match r {
                Some(w) => old(self).wallets()@.contains_key(wallet_id@) && *w == old(self).wallets()@[wallet_id@] && final(self).wallets().key_seq() == old(self).wallets().key_seq() && final(self).wallets().val_seq() == old(self).wallets().val_seq().update(
                    old(self).wallets().spec_idx(wallet_id@),
                    *final(w),
                ),
                None => !old(self).wallets()@.contains_key(wallet_id@) && *final(self) == *old(self),
            },
    {
        self.wallets_by_ids.get_mut(wallet_id)
    }

    /// Mutable access to a cached position; see
    /// [`PositionsCache::get_mut`] for the caveat on what may be written.
    pub fn get_mut(&mut self, id: &PositionId) -> (r: Option<&mut Position>)
        requires
            old(self).wf(),
        ensures
            match r {
                Some(p) => old(self).cache()@.contains_key(id@) && *p == old(self).cache()@[id@]
                    && final(self).cache().positions().key_seq() == old(self).cache().positions().key_seq() && final(self).cache().positions().val_seq()
                    == old(self).cache().positions().val_seq().update(
                    old(self).cache().positions().spec_idx(id@),
                    *final(p),
                ) && final(self).cache().wallets_index() == old(self).cache().wallets_index(),
                None => !old(self).cache()@.contains_key(id@) && *final(self) == *old(self),
            },
    {
        self.positions_cache.get_mut(id)
    }

    /// Up to `limit` positions of a wallet, in index order.
    pub fn get_by_wallet_id(&self, wallet_id: &WalletId, limit: usize) -> (r: Vec<&Position>)
        requires
            self.wf(),
        ensures
            !self.cache().wallets_index()@.contains_key(wallet_id@) ==> r@.len() == 0,
            self.cache().wallets_index()@.contains_key(wallet_id@) ==> {
                let s = self.cache().wallets_index()@[wallet_id@];
                &&& r@.len() == (if s.spec_len() < limit {
                    s.spec_len() as int
                } else {
                    limit as int
                })
                &&& forall|j: int|
                    0 <= j < r@.len() ==> *(#[trigger] r@[j]) == self.cache()@[s.key_seq()[j]]
            },
    {
        self.positions_cache.get_by_wallet_id(wallet_id, limit)
    }

    /// Drop the lock on a position id; the caller is expected to have
    /// persisted any changes first.
    pub fn unlock(&mut self, position_id: &PositionId)
        requires
            old(self).wf(),
        ensures
            final(self).wf(),
            final(self).locked()@ =~= old(self).locked()@.remove(position_id@),
            final(self).cache() == old(self).cache(),
            final(self).ids_index() == old(self).ids_index(),
            final(self).wallets() == old(self).wallets(),
            final(self).wallet_index() == old(self).wallet_index(),
    {
        self.locked_ids.remove(position_id);
    }
}


impl PositionsMonitor {
    /// Store a wallet, indexing it under every instrument of its balances;
    /// re-adding a wallet id overwrites it.
    pub fn add_wallet(&mut self, wallet: Wallet)
        requires
            old(self).wf(),
            wallet.wf(),
        ensures
            final(self).wf(),
            final(self).wallets()@ =~= old(self).wallets()@.insert(wallet.id@, wallet),
            final(self).cache() == old(self).cache(),
            final(self).ids_index() == old(self).ids_index(),
            final(self).locked() == old(self).locked(),
            forall|k: Seq<u8>|
                #[trigger] wallet.balances_by_instruments@.contains_key(k) ==> final(self).wallet_index()@.contains_key(k) && final(self).wallet_index()@[k].items@
                    .contains(wallet.id@),
            forall|k: Seq<u8>, w2: Seq<u8>|
                final(self).wallet_index()@.contains_key(k) && #[trigger] final(self).wallet_index()@[k].items@.contains(w2) && w2 != wallet.id@ ==> old(self).wallet_index()@.contains_key(k) && old(self).wallet_index()@[k].items@.contains(
                    w2,
                ),
    {
        let ghost wb = wallet.id@;
        // Clear any stale index entries of a wallet being re-added.
        let prior_key = wallet.id.key_dup();
        let _prior = self.remove_wallet(&prior_key);
        let ghost ap = *self;
        let instruments = wallet.get_instruments();
        let n = instruments.len();
        let mut i: usize = 0;
        while i < n
            invariant
                ap.wf(),
                wallet.wf(),
                wb == wallet.id@,
                i <= n,
                n == instruments@.len(),
                instruments@.map_values(|s: InstrumentSymbol| s@)
                    == wallet.balances_by_instruments.key_seq(),
                self.wallet_ids_by_instruments.wf(),
                forall|k: Seq<u8>|
                    #[trigger] self.wallet_index()@.contains_key(k)
                        ==> self.wallet_index()@[k].items.wf(),
                forall|j: int|
                    0 <= j < i ==> self.wallet_index()@.contains_key(
                        #[trigger] instruments@[j]@,
                    ) && self.wallet_index()@[instruments@[j]@].items@.contains(wb),
                forall|k: Seq<u8>, w2: Seq<u8>|
                    self.wallet_index()@.contains_key(k) && #[trigger] self.wallet_index()@[
                        k
                    ].items@.contains(w2) && w2 != wb ==> ap.wallet_index()@.contains_key(k) && ap.wallet_index()@[k].items@
                        .contains(w2),
                forall|k: Seq<u8>, w2: Seq<u8>|
                    self.wallet_index()@.contains_key(k) && #[trigger] self.wallet_index()@[
                        k
                    ].items@.contains(w2) && w2 == wb
                        ==> wallet.balances_by_instruments@.contains_key(k),
                forall|k: Seq<u8>|
                    ap.wallet_index()@.contains_key(k)
                        ==> #[trigger] self.wallet_index()@.contains_key(k) && (forall|
                        w2: Seq<u8>,
                    |
                        ap.wallet_index()@[k].items@.contains(w2)
                            ==> #[trigger] self.wallet_index()@[k].items@.contains(w2)),
                *self == (PositionsMonitor {
                    wallet_ids_by_instruments: self.wallet_ids_by_instruments,
                    ..ap
                }),
            decreases n - i,
        {
            let ghost s0 = *self;
            let instrument = &instruments[i];
            proof {
                assert(instruments@.map_values(|s: InstrumentSymbol| s@)[i as int]
                    == instrument@);
                assert(wallet.balances_by_instruments.key_seq()[i as int] == instrument@);
                crate::collections::lemma_keyseq_dom(wallet.balances_by_instruments);
                assert(wallet.balances_by_instruments.key_seq().contains(instrument@)) by {
                    assert(wallet.balances_by_instruments.key_seq()[i as int] == instrument@);
                }
                assert(wallet.balances_by_instruments@.contains_key(instrument@));
            }
            let entry_opt = self.wallet_ids_by_instruments.remove(instrument);
            let ghost had = entry_opt is Some;
            let mut e = match entry_opt {
                Some(e) => e,
                None => WalletIdsByInstrumentSymbol::new(instrument.key_dup()),
            };
            proof {
                if had {
                    assert(s0.wallet_index()@.contains_key(instrument@));
                    assert(e == s0.wallet_index()@[instrument@]);
                }
                assert(e.items.wf());
            }
            e.items.insert(wallet.id.key_dup());
            let ghost e2 = e;
            self.wallet_ids_by_instruments.insert(instrument.key_dup(), e);
            proof {
                assert(self.wallet_index()@ =~= s0.wallet_index()@.insert(instrument@, e2));
                assert forall|k: Seq<u8>, w2: Seq<u8>|
                    self.wallet_index()@.contains_key(k) && #[trigger] self.wallet_index()@[
                        k
                    ].items@.contains(w2) && w2 != wb implies ap.wallet_index()@.contains_key(k) && ap.wallet_index()@[k].items@
                    .contains(w2) by {
                    if k == instrument@ {
                        assert(e2.items@.contains(w2));
                        assert(had);
                        assert(s0.wallet_index()@[instrument@].items@.contains(w2));
                    } else {
                        assert(s0.wallet_index()@.contains_key(k)
                            && s0.wallet_index()@[k].items@.contains(w2));
                    }
                }
                assert forall|k: Seq<u8>, w2: Seq<u8>|
                    self.wallet_index()@.contains_key(k) && #[trigger] self.wallet_index()@[
                        k
                    ].items@.contains(w2) && w2 == wb implies (ap.wallet_index()@.contains_key(k) && ap.wallet_index()@[k].items@
                    .contains(w2)) || wallet.balances_by_instruments@.contains_key(k) by {
                    if k != instrument@ {
                        assert(s0.wallet_index()@.contains_key(k)
                            && s0.wallet_index()@[k].items@.contains(w2));
                    }
                }
                assert forall|k: Seq<u8>| ap.wallet_index()@.contains_key(k)
                    implies #[trigger] self.wallet_index()@.contains_key(k) && (forall|
                    w2: Seq<u8>,
                |
                    ap.wallet_index()@[k].items@.contains(w2)
                        ==> #[trigger] self.wallet_index()@[k].items@.contains(w2)) by {
                    assert(s0.wallet_index()@.contains_key(k));
                    if k == instrument@ {
                        assert(had);
                        assert forall|w2: Seq<u8>|
                            ap.wallet_index()@[k].items@.contains(w2)
                            implies #[trigger] self.wallet_index()@[k].items@.contains(w2) by {
                            assert(s0.wallet_index()@[k].items@.contains(w2));
                            assert(e2.items@.contains(w2));
                        }
                    }
                }
            }
            proof {
                assert forall|j: int|
                    0 <= j < i + 1 implies self.wallet_index()@.contains_key(
                    #[trigger] instruments@[j]@,
                ) && self.wallet_index()@[instruments@[j]@].items@.contains(wb) by {
                    if j < i {
                        assert(s0.wallet_index()@.contains_key(instruments@[j]@));
                        assert(s0.wallet_index()@[instruments@[j]@].items@.contains(wb));
                    }
                }
            }
            i = i + 1;
        }
        let ghost bi = *self;
        let key = wallet.id.key_dup();
        self.wallets_by_ids.insert(key, wallet);
        proof {
            assert(self.wallet_index() == bi.wallet_index());
            assert(self.wallets()@ =~= old(self).wallets()@.insert(wb, wallet));
            assert forall|k: Seq<u8>| #[trigger] self.wallet_index()@.contains_key(k)
                implies self.wallet_index()@[k].items.wf() by {
                assert(bi.wallet_index()@.contains_key(k));
                assert(bi.wallet_index()@[k].items.wf());
            }
            assert forall|k: Seq<u8>, w2: Seq<u8>|
                self.wallet_index()@.contains_key(k) && #[trigger] self.wallet_index()@[
                    k
                ].items@.contains(w2) implies self.wallets()@.contains_key(w2) && self.wallets()@[
                w2
            ].balances_by_instruments@.contains_key(k) by {
                assert(bi.wallet_index()@.contains_key(k)
                    && bi.wallet_index()@[k].items@.contains(w2));
                if w2 == wb {
                    assert(wallet.balances_by_instruments@.contains_key(k));
                } else {
                    assert(ap.wallet_index()@.contains_key(k)
                        && ap.wallet_index()@[k].items@.contains(w2));
                    assert(old(self).wallet_index()@.contains_key(k)
                        && old(self).wallet_index()@[k].items@.contains(w2));
                    assert(old(self).wallets()@.contains_key(w2));
                    assert(self.wallets()@[w2] == old(self).wallets()@[w2]);
                }
            }
            assert forall|k: Seq<u8>, w2: Seq<u8>|
                self.wallet_index()@.contains_key(k) && #[trigger] self.wallet_index()@[
                    k
                ].items@.contains(w2) && w2 != wb implies old(self).wallet_index()@.contains_key(k) && old(self).wallet_index()@[k].items@.contains(
                w2,
            ) by {
                assert(bi.wallet_index()@.contains_key(k)
                    && bi.wallet_index()@[k].items@.contains(w2));
                assert(ap.wallet_index()@.contains_key(k)
                    && ap.wallet_index()@[k].items@.contains(w2));
            }
            assert forall|k: Seq<u8>| #[trigger] wallet.balances_by_instruments@.contains_key(k)
                implies self.wallet_index()@.contains_key(k) && self.wallet_index()@[k].items@
                .contains(wb) by {
                crate::collections::lemma_keyseq_dom(wallet.balances_by_instruments);
                assert(wallet.balances_by_instruments.key_seq().contains(k));
                let j = choose|j: int|
                    0 <= j < wallet.balances_by_instruments.key_seq().len()
                        && wallet.balances_by_instruments.key_seq()[j] == k;
                assert(instruments@.map_values(|s: InstrumentSymbol| s@)[j] == k);
                assert(instruments@[j]@ == k);
                assert(bi.wallet_index()@.contains_key(k)
                    && bi.wallet_index()@[k].items@.contains(wb));
            }
        }
    }

    /// Remove a wallet and every index entry pointing at it.
    pub fn remove_wallet(&mut self, wallet_id: &WalletId) -> (r: Option<Wallet>)
        requires
            old(self).wf(),
        ensures
            final(self).wf(),
            final(self).wallets()@ =~= old(self).wallets()@.remove(wallet_id@),
            final(self).cache() == old(self).cache(),
            final(self).ids_index() == old(self).ids_index(),
            final(self).locked() == old(self).locked(),
            final(self).scratch_pnls() == old(self).scratch_pnls(),
            final(self).scratch_reserved() == old(self).scratch_reserved(),
            final(self).spec_wallet_monitoring_enabled() == old(self).spec_wallet_monitoring_enabled(),
            match r {
                Some(w) => old(self).wallets()@.contains_key(wallet_id@) && w == old(self).wallets()@[wallet_id@],
                None => !old(self).wallets()@.contains_key(wallet_id@) && *final(self) == *old(self),
            },
            forall|k: Seq<u8>|
                #[trigger] final(self).wallet_index()@.contains_key(k) ==> !final(self).wallet_index()@[k].items@.contains(wallet_id@),
            forall|k: Seq<u8>, w2: Seq<u8>|
                final(self).wallet_index()@.contains_key(k) && #[trigger] final(self).wallet_index()@[k].items@.contains(w2) ==> old(self).wallet_index()@.contains_key(k) && old(self).wallet_index()@[k].items@.contains(
                    w2,
                ),
    {
        let removed = self.wallets_by_ids.remove(wallet_id);
        let wallet = match removed {
            Some(w) => w,
            None => {
                proof {
                    assert(self.wallets()@ =~= old(self).wallets()@.remove(wallet_id@));
                }
                return None;
            },
        };
        let ghost wb = wallet_id@;
        let ghost mid = *self;
        let instruments = wallet.get_instruments();
        let n = instruments.len();
        let mut i: usize = 0;
        while i < n
            invariant
                old(self).wf(),
                mid.wallets() == self.wallets_by_ids,
                self.wallets()@ == old(self).wallets()@.remove(wb),
                old(self).wallets()@.contains_key(wb),
                wallet == old(self).wallets()@[wb],
                wb == wallet_id@,
                i <= n,
                n == instruments@.len(),
                instruments@.map_values(|s: InstrumentSymbol| s@)
                    == wallet.balances_by_instruments.key_seq(),
                self.wallet_ids_by_instruments.wf(),
                forall|k: Seq<u8>|
                    #[trigger] self.wallet_index()@.contains_key(k)
                        ==> self.wallet_index()@[k].items.wf(),
                forall|j: int|
                    0 <= j < i && self.wallet_index()@.contains_key(
                        #[trigger] instruments@[j]@,
                    ) ==> !self.wallet_index()@[instruments@[j]@].items@.contains(wb),
                forall|k: Seq<u8>, w2: Seq<u8>|
                    self.wallet_index()@.contains_key(k) && #[trigger] self.wallet_index()@[
                        k
                    ].items@.contains(w2) ==> old(self).wallet_index()@.contains_key(k) && old(self).wallet_index()@[k].items@.contains(w2),
                *self == (PositionsMonitor {
                    wallet_ids_by_instruments: self.wallet_ids_by_instruments,
                    wallets_by_ids: self.wallets_by_ids,
                    ..*old(self)
                }),
            decreases n - i,
        {
            let ghost s0 = *self;
            let instrument = &instruments[i];
            proof {
                assert(instruments@.map_values(|s: InstrumentSymbol| s@)[i as int]
                    == instrument@);
            }
            let entry_opt = self.wallet_ids_by_instruments.remove(instrument);
            match entry_opt {
                Some(mut e) => {
                    proof {
                        assert(s0.wallet_index()@.contains_key(instrument@));
                        assert(e == s0.wallet_index()@[instrument@]);
                        assert(e.items.wf());
                    }
                    e.items.remove(wallet_id);
                    let ghost e2 = e;
                    self.wallet_ids_by_instruments.insert(instrument.key_dup(), e);
                    proof {
                        assert(self.wallet_index()@ =~= s0.wallet_index()@.insert(
                            instrument@,
                            e2,
                        ));
                        assert(e2.items@ =~= s0.wallet_index()@[instrument@].items@.remove(wb));
                    }
                },
                None => {},
            }
            proof {
                assert forall|j: int|
                    0 <= j < i + 1 && self.wallet_index()@.contains_key(
                    #[trigger] instruments@[j]@,
                ) implies !self.wallet_index()@[instruments@[j]@].items@.contains(wb) by {
                    if j < i {
                        if s0.wallet_index()@.contains_key(instruments@[j]@) {
                            assert(!s0.wallet_index()@[instruments@[j]@].items@.contains(wb));
                        }
                    }
                }
            }
            i = i + 1;
        }
        proof {
            assert forall|k: Seq<u8>| #[trigger] self.wallet_index()@.contains_key(k)
                implies !self.wallet_index()@[k].items@.contains(wb) by {
                if self.wallet_index()@[k].items@.contains(wb) {
                    assert(old(self).wallet_index()@.contains_key(k)
                        && old(self).wallet_index()@[k].items@.contains(wb));
                    assert(old(self).wallets()@[wb].balances_by_instruments@.contains_key(k));
                    crate::collections::lemma_keyseq_dom(
                        wallet.balances_by_instruments,
                    );
                    assert(wallet.balances_by_instruments.key_seq().contains(k));
                    let j = choose|j: int|
                        0 <= j < wallet.balances_by_instruments.key_seq().len()
                            && wallet.balances_by_instruments.key_seq()[j] == k;
                    assert(instruments@.map_values(|s: InstrumentSymbol| s@)[j] == k);
                    assert(instruments@[j]@ == k);
                }
            }
        }
        Some(wallet)
    }

    /// Replace a stored wallet's balance entry; hands back a copy of the
    /// updated wallet on success, `None` when the wallet is unknown.
    pub fn update_wallet(&mut self, wallet_id: &WalletId, balance: WalletBalance) -> (r: Result<
        Option<Wallet>,
        EngineError,
    >)
        requires
            old(self).wf(),
        ensures
            final(self).wf(),
            final(self).cache() == old(self).cache(),
            final(self).ids_index() == old(self).ids_index(),
            final(self).locked() == old(self).locked(),
            final(self).wallet_index() == old(self).wallet_index(),
            !old(self).wallets()@.contains_key(wallet_id@) ==> r == Result::<
                Option<Wallet>,
                EngineError,
            >::Ok(None) && *final(self) == *old(self),
            r is Err ==> final(self).wallets()@ =~= old(self).wallets()@,
            r matches Ok(Some(w)) ==> old(self).wallets()@.contains_key(wallet_id@) && final(self).wallets()@.contains_key(wallet_id@) && crate::wallets::same_wallet(
                w,
                final(self).wallets()@[wallet_id@],
            ),
            old(self).wallets()@.contains_key(wallet_id@) ==> {
                let pre_w = old(self).wallets()@[wallet_id@];
                let consistent = pre_w.balances_by_instruments@.contains_key(
                    balance.instrument_symbol@,
                ) && balance.asset_symbol@ + pre_w.estimate_asset@ == balance.instrument_symbol@;
                &&& (consistent ==> (r matches Ok(Some(_))) && final(self).wallets()@ =~= old(self).wallets()@.insert(wallet_id@, final(self).wallets()@[wallet_id@])
                    && crate::wallets::spec_balance_updated(
                    pre_w,
                    final(self).wallets()@[wallet_id@],
                    balance,
                ))
                &&& (!pre_w.balances_by_instruments@.contains_key(balance.instrument_symbol@)
                    ==> r == Result::<Option<Wallet>, EngineError>::Err(
                    EngineError::BalanceNotFound,
                ))
                &&& (pre_w.balances_by_instruments@.contains_key(balance.instrument_symbol@)
                    && !(balance.asset_symbol@ + pre_w.estimate_asset@
                    == balance.instrument_symbol@) ==> r == Result::<
                    Option<Wallet>,
                    EngineError,
                >::Err(EngineError::BidAskInstrumentMismatch))
            },
    {
        let removed = self.wallets_by_ids.remove(wallet_id);
        let mut wallet = match removed {
            Some(w) => w,
            None => {
                proof {
                    assert(self.wallets()@ =~= old(self).wallets()@);
                }
                return Ok(None);
            },
        };
        let res = wallet.update_balance(balance);
        match res {
            Ok(()) => {
                let copy = wallet.dup();
                let ghost wb = wallet_id@;
                self.wallets_by_ids.insert(wallet_id.key_dup(), wallet);
                proof {
                    assert(self.wallets()@ =~= old(self).wallets()@.insert(
                        wb,
                        self.wallets()@[wb],
                    ));
                }
                Ok(Some(copy))
            },
            Err(e) => {
                self.wallets_by_ids.insert(wallet_id.key_dup(), wallet);
                proof {
                    assert(self.wallets()@ =~= old(self).wallets()@);
                }
                Err(e)
            },
        }
    }
}


impl PositionsMonitor {
    /// Index a position under every instrument of its order and store it in
    /// the cache; re-adding an id overwrites it and re-indexes it.
    pub fn add(&mut self, position: Position)
        requires
            old(self).wf(),
            position.wf(),
        ensures
            final(self).wf(),
            final(self).cache()@ =~= old(self).cache()@.insert(position.spec_id()@, position),
            final(self).cache().positions().spec_len() == old(self).cache().positions().spec_len() + (if old(self).cache()@.contains_key(
                position.spec_id()@,
            ) {
                0int
            } else {
                1int
            }),
            final(self).locked() == old(self).locked(),
            final(self).wallets() == old(self).wallets(),
            final(self).wallet_index() == old(self).wallet_index(),
            forall|k: Seq<u8>|
                #[trigger] position.spec_order().spec_instruments().contains(k) ==> final(self).ids_index()@.contains_key(k) && final(self).ids_index()@[k].items@.contains(
                    position.spec_id()@,
                ),
            forall|k: Seq<u8>, id2: Seq<u8>|
                final(self).ids_index()@.contains_key(k) && #[trigger] final(self).ids_index()@[k].items@.contains(id2) && id2 != position.spec_id()@ ==> old(self).ids_index()@.contains_key(k) && old(self).ids_index()@[k].items@.contains(id2),
            forall|k: Seq<u8>, id2: Seq<u8>|
                old(self).ids_index()@.contains_key(k) && #[trigger] old(self).ids_index()@[k].items@.contains(id2) && id2 != position.spec_id()@ ==> final(self).ids_index()@.contains_key(k) && final(self).ids_index()@[k].items@.contains(
                    id2,
                ),
    {
        let ghost idb = position.spec_id()@;
        let id = position.get_id().key_dup();
        // Clear the id from every index entry: a re-added position may have
        // changed instruments, and a stale membership would break the index
        // invariant.
        let n0 = self.ids_by_instruments.len();
        let mut cleaned: SymMap<InstrumentSymbol, PositionIdsByInstrumentSymbol> =
            SymMap::empty();
        let mut i: usize = 0;
        while i < n0
            invariant
                old(self).wf(),
                *self == *old(self),
                idb == position.spec_id()@,
                id@ == idb,
                i <= n0,
                n0 == self.ids_index().spec_len(),
                cleaned.wf(),
                cleaned.key_seq() =~= self.ids_index().key_seq().take(i as int),
                forall|k: Seq<u8>|
                    #[trigger] cleaned@.contains_key(k) ==> self.ids_index()@.contains_key(k)
                        && cleaned@[k].items.wf() && cleaned@[k].items@ =~= self.ids_index()@[
                        k
                    ].items@.remove(idb),
            decreases n0 - i,
        {
            let k = self.ids_by_instruments.key_at(i);
            let e = self.ids_by_instruments.val_at(i);
            let mut items = e.items.dup();
            items.remove(&id);
            proof {
                crate::collections::lemma_keyseq_dom(cleaned);
                if cleaned.key_seq().contains(k.key()) {
                    let j = choose|j: int|
                        0 <= j < cleaned.key_seq().len() && cleaned.key_seq()[j] == k.key();
                    assert(self.ids_index().key_seq()[j] == k.key());
                    assert(false);
                }
            }
            let entry = PositionIdsByInstrumentSymbol {
                items,
                instrument_symbol: e.instrument_symbol.key_dup(),
            };
            cleaned.insert(k.key_dup(), entry);
            proof {
                assert(cleaned.key_seq() =~= self.ids_index().key_seq().take(i as int + 1));
            }
            i = i + 1;
        }
        proof {
            assert(cleaned.key_seq() =~= self.ids_index().key_seq());
            crate::collections::lemma_keyseq_dom(cleaned);
            crate::collections::lemma_keyseq_dom(self.ids_by_instruments);
            assert forall|k: Seq<u8>| #[trigger] cleaned@.contains_key(k)
                == self.ids_index()@.contains_key(k) by {
                assert(cleaned@.contains_key(k) == cleaned.key_seq().contains(k));
                assert(self.ids_index()@.contains_key(k) == self.ids_index().key_seq().contains(
                    k,
                ));
            }
        }
        self.ids_by_instruments = cleaned;
        let ghost cp = *self;
        // Index the id under every instrument of the order.
        let instruments = position.get_instruments();
        let n = instruments.len();
        let mut j: usize = 0;
        while j < n
            invariant
                old(self).wf(),
                cp.cache() == self.positions_cache,
                cp.locked() == self.locked_ids,
                cp.wallets() == self.wallets_by_ids,
                cp.wallet_index() == self.wallet_ids_by_instruments,
                idb == position.spec_id()@,
                id@ == idb,
                position.wf(),
                j <= n,
                n == instruments@.len(),
                instruments@.map_values(|s: InstrumentSymbol| s@)
                    == position.spec_order().spec_instruments(),
                self.ids_by_instruments.wf(),
                forall|k: Seq<u8>|
                    #[trigger] self.ids_index()@.contains_key(k)
                        ==> self.ids_index()@[k].items.wf(),
                forall|jj: int|
                    0 <= jj < j ==> self.ids_index()@.contains_key(
                        #[trigger] instruments@[jj]@,
                    ) && self.ids_index()@[instruments@[jj]@].items@.contains(idb),
                forall|k: Seq<u8>, id2: Seq<u8>|
                    self.ids_index()@.contains_key(k) && #[trigger] self.ids_index()@[
                        k
                    ].items@.contains(id2) && id2 != idb ==> cp.ids_index()@.contains_key(k)
                        && cp.ids_index()@[k].items@.contains(id2),
                forall|k: Seq<u8>, id2: Seq<u8>|
                    cp.ids_index()@.contains_key(k) && #[trigger] cp.ids_index()@[
                        k
                    ].items@.contains(id2) ==> self.ids_index()@.contains_key(k)
                        && self.ids_index()@[k].items@.contains(id2),
                forall|k: Seq<u8>|
                    self.ids_index()@.contains_key(k) && #[trigger] self.ids_index()@[
                        k
                    ].items@.contains(idb) ==> (exists|jj: int|
                        0 <= jj < j && instruments@[jj]@ == k),
                *self == (PositionsMonitor {
                    ids_by_instruments: self.ids_by_instruments,
                    ..cp
                }),
            decreases n - j,
        {
            let ghost s0 = *self;
            let instrument = &instruments[j];
            proof {
                assert(instruments@.map_values(|s: InstrumentSymbol| s@)[j as int]
                    == instrument@);
            }
            let entry_opt = self.ids_by_instruments.remove(instrument);
            let ghost had = entry_opt is Some;
            let mut e = match entry_opt {
                Some(e) => e,
                None => PositionIdsByInstrumentSymbol::new(instrument.key_dup()),
            };
            proof {
                if had {
                    assert(s0.ids_index()@.contains_key(instrument@));
                    assert(e == s0.ids_index()@[instrument@]);
                }
                assert(e.items.wf());
            }
            e.items.insert(id.key_dup());
            let ghost e2 = e;
            self.ids_by_instruments.insert(instrument.key_dup(), e);
            proof {
                assert(self.ids_index()@ =~= s0.ids_index()@.insert(instrument@, e2));
                assert forall|k: Seq<u8>, id2: Seq<u8>|
                    self.ids_index()@.contains_key(k) && #[trigger] self.ids_index()@[
                        k
                    ].items@.contains(id2) && id2 != idb implies cp.ids_index()@.contains_key(k)
                    && cp.ids_index()@[k].items@.contains(id2) by {
                    if k == instrument@ {
                        assert(e2.items@.contains(id2));
                        assert(had);
                        assert(s0.ids_index()@[instrument@].items@.contains(id2));
                    } else {
                        assert(s0.ids_index()@.contains_key(k)
                            && s0.ids_index()@[k].items@.contains(id2));
                    }
                }
                assert forall|k: Seq<u8>, id2: Seq<u8>|
                    cp.ids_index()@.contains_key(k) && #[trigger] cp.ids_index()@[
                        k
                    ].items@.contains(id2) implies self.ids_index()@.contains_key(k)
                    && self.ids_index()@[k].items@.contains(id2) by {
                    assert(s0.ids_index()@.contains_key(k)
                        && s0.ids_index()@[k].items@.contains(id2));
                    if k == instrument@ {
                        assert(had);
                        assert(e2.items@.contains(id2));
                    }
                }
                assert forall|k: Seq<u8>|
                    self.ids_index()@.contains_key(k) && #[trigger] self.ids_index()@[
                        k
                    ].items@.contains(idb) implies (exists|jj: int|
                    0 <= jj < j + 1 && instruments@[jj]@ == k) by {
                    if k == instrument@ {
                        assert(instruments@[j as int]@ == k);
                    } else {
                        assert(s0.ids_index()@.contains_key(k)
                            && s0.ids_index()@[k].items@.contains(idb));
                        let jj = choose|jj: int| 0 <= jj < j && instruments@[jj]@ == k;
                        assert(instruments@[jj]@ == k);
                    }
                }
                assert forall|jj: int|
                    0 <= jj < j + 1 implies self.ids_index()@.contains_key(
                    #[trigger] instruments@[jj]@,
                ) && self.ids_index()@[instruments@[jj]@].items@.contains(idb) by {
                    if jj < j {
                        assert(s0.ids_index()@.contains_key(instruments@[jj]@));
                        assert(s0.ids_index()@[instruments@[jj]@].items@.contains(idb));
                    }
                }
            }
            j = j + 1;
        }
        let ghost bi = *self;
        self.positions_cache.add(position);
        proof {
            assert(self.ids_index() == bi.ids_index());
            assert(self.cache()@ =~= old(self).cache()@.insert(idb, position));
            assert forall|k: Seq<u8>, id2: Seq<u8>|
                cp.ids_index()@.contains_key(k) && #[trigger] cp.ids_index()@[
                    k
                ].items@.contains(id2) implies old(self).ids_index()@.contains_key(k) && old(self).ids_index()@[k].items@.contains(id2) && id2 != idb by {
                assert(cp.ids_index()@[k].items@ =~= old(self).ids_index()@[
                    k
                ].items@.remove(idb));
            }
            assert forall|k: Seq<u8>, id2: Seq<u8>|
                old(self).ids_index()@.contains_key(k) && #[trigger] old(self).ids_index()@[k].items@.contains(id2) && id2 != idb
                implies cp.ids_index()@.contains_key(k) && cp.ids_index()@[k].items@.contains(
                id2,
            ) by {
                assert(cp.ids_index()@.contains_key(k));
                assert(cp.ids_index()@[k].items@ =~= old(self).ids_index()@[
                    k
                ].items@.remove(idb));
            }
            assert forall|k: Seq<u8>, id2: Seq<u8>|
                bi.ids_index()@.contains_key(k) && #[trigger] bi.ids_index()@[
                    k
                ].items@.contains(id2) && id2 != idb implies cp.ids_index()@.contains_key(k)
                && cp.ids_index()@[k].items@.contains(id2) by {}
            assert forall|k: Seq<u8>, id2: Seq<u8>|
                cp.ids_index()@.contains_key(k) && #[trigger] cp.ids_index()@[
                    k
                ].items@.contains(id2) implies bi.ids_index()@.contains_key(k)
                && bi.ids_index()@[k].items@.contains(id2) by {}
            assert forall|k: Seq<u8>, id2: Seq<u8>|
                old(self).ids_index()@.contains_key(k) && #[trigger] old(self).ids_index()@[k].items@.contains(id2) && id2 != idb
                implies self.ids_index()@.contains_key(k) && self.ids_index()@[
                k
            ].items@.contains(id2) by {
                assert(cp.ids_index()@.contains_key(k)
                    && cp.ids_index()@[k].items@.contains(id2));
                assert(bi.ids_index()@.contains_key(k)
                    && bi.ids_index()@[k].items@.contains(id2));
            }
            assert forall|k: Seq<u8>| #[trigger] self.ids_index()@.contains_key(k)
                implies self.ids_index()@[k].items.wf() by {
                assert(bi.ids_index()@.contains_key(k));
                assert(bi.ids_index()@[k].items.wf());
            }
            assert forall|id2: Seq<u8>, k: Seq<u8>|
                self.cache()@.contains_key(id2) && #[trigger] self.cache()@[
                    id2
                ].spec_order().spec_instruments().contains(k) implies self.ids_index()@
                .contains_key(k) && self.ids_index()@[k].items@.contains(id2) by {
                if id2 == idb {
                    crate::collections::lemma_keyseq_dom(self.ids_by_instruments);
                    assert(position.spec_order().spec_instruments().contains(k));
                    let jj = choose|jj: int|
                        0 <= jj < position.spec_order().spec_instruments().len()
                            && position.spec_order().spec_instruments()[jj] == k;
                    assert((instruments@.map_values(|s: InstrumentSymbol| s@))[jj] == k);
                    assert(instruments@[jj]@ == k);
                    assert(bi.ids_index()@.contains_key(k)
                        && bi.ids_index()@[k].items@.contains(idb));
                } else {
                    assert(old(self).cache()@.contains_key(id2));
                    assert(old(self).cache()@[id2] == self.cache()@[id2]);
                    assert(old(self).ids_index()@.contains_key(k)
                        && old(self).ids_index()@[k].items@.contains(id2));
                    assert(cp.ids_index()@.contains_key(k)
                        && cp.ids_index()@[k].items@.contains(id2));
                    assert(bi.ids_index()@.contains_key(k)
                        && bi.ids_index()@[k].items@.contains(id2));
                }
            }
            assert forall|id2: Seq<u8>, k: Seq<u8>|
                self.cache()@.contains_key(id2) && self.ids_index()@.contains_key(k)
                    && #[trigger] self.ids_index()@[k].items@.contains(id2)
                implies self.cache()@[id2].spec_order().spec_instruments().contains(k) by {
                if id2 == idb {
                    assert(bi.ids_index()@.contains_key(k)
                        && bi.ids_index()@[k].items@.contains(idb));
                    let jj = choose|jj: int| 0 <= jj < n && instruments@[jj]@ == k;
                    assert((instruments@.map_values(|s: InstrumentSymbol| s@))[jj] == k);
                    assert(position.spec_order().spec_instruments().contains(k)) by {
                        assert(position.spec_order().spec_instruments()[jj] == k);
                    }
                } else {
                    assert(bi.ids_index()@.contains_key(k)
                        && bi.ids_index()@[k].items@.contains(id2));
                    assert(cp.ids_index()@.contains_key(k)
                        && cp.ids_index()@[k].items@.contains(id2));
                    assert(old(self).ids_index()@.contains_key(k)
                        && old(self).ids_index()@[k].items@.contains(id2));
                    assert(old(self).cache()@.contains_key(id2));
                    assert(self.cache()@[id2] == old(self).cache()@[id2]);
                }
            }
            assert forall|id2: Seq<u8>| #[trigger] self.locked()@.contains(id2)
                implies self.cache()@.contains_key(id2) by {
                assert(old(self).locked()@.contains(id2));
                assert(old(self).cache()@.contains_key(id2));
            }
        }
    }
}


impl PositionsMonitor {
    /// Remove a position: refused while locked; otherwise it leaves the
    /// cache and every instrument index entry, and the owning wallet is
    /// either relieved of the position's profit-and-loss or evicted when
    /// this was its last position.
    pub fn remove(&mut self, position_id: &PositionId) -> (r: Option<Position>)
        requires
            old(self).wf(),
        ensures
            final(self).wf(),
            old(self).locked()@.contains(position_id@) ==> r is None && *final(self) == *old(self),
            !old(self).locked()@.contains(position_id@) && !old(self).cache()@.contains_key(
                position_id@,
            ) ==> r is None && *final(self) == *old(self),
            !old(self).locked()@.contains(position_id@) && old(self).cache()@.contains_key(
                position_id@,
            ) ==> {
                let p = old(self).cache()@[position_id@];
                &&& r == Some(p)
                &&& final(self).cache()@ =~= old(self).cache()@.remove(position_id@)
                &&& final(self).cache().positions().spec_len() == old(self).cache().positions().spec_len() - 1
                &&& final(self).locked() == old(self).locked()
                &&& forall|k: Seq<u8>, id2: Seq<u8>|
                    final(self).ids_index()@.contains_key(k) && #[trigger] final(self).ids_index()@[k].items@.contains(id2) ==> id2 != position_id@ && old(self).ids_index()@.contains_key(k) && old(self).ids_index()@[k].items@.contains(
                        id2,
                    )
                &&& (!(p is Active) ==> final(self).wallets() == old(self).wallets())
                &&& (p is Active ==> {
                    let w = p.spec_order().wallet_id@;
                    let keeps_wallet = p->Active_0.order.top_up_enabled && final(self).cache().wallets_index()@.contains_key(w);
                    &&& (keeps_wallet && old(self).wallets()@.contains_key(w) ==> final(self).wallets()@ =~= old(self).wallets()@.insert(
                        w,
                        final(self).wallets()@[w],
                    ) && crate::wallets::spec_deducted(
                        old(self).wallets()@[w],
                        final(self).wallets()@[w],
                        p->Active_0.order.instrument@,
                        p->Active_0.current_pnl,
                    ))
                    &&& (keeps_wallet && !old(self).wallets()@.contains_key(w) ==> final(self).wallets()@ =~= old(self).wallets()@)
                    &&& (!keeps_wallet ==> final(self).wallets()@ =~= old(self).wallets()@.remove(w))
                })
            },
    {
        if self.locked_ids.contains(position_id) {
            return None;
        }
        let removed = self.positions_cache.remove(position_id);
        let position = match removed {
            Some(p) => p,
            None => {
                return None;
            },
        };
        let ghost idb = position_id@;
        proof {
            assert forall|id2: Seq<u8>| #[trigger] self.locked()@.contains(id2)
                implies self.cache()@.contains_key(id2) by {
                assert(old(self).cache()@.contains_key(id2));
                assert(id2 != idb);
            }
            assert forall|id2: Seq<u8>, k: Seq<u8>|
                self.cache()@.contains_key(id2) && #[trigger] self.cache()@[
                    id2
                ].spec_order().spec_instruments().contains(k) implies self.ids_index()@
                .contains_key(k) && self.ids_index()@[k].items@.contains(id2) by {
                assert(old(self).cache()@.contains_key(id2));
                assert(self.cache()@[id2] == old(self).cache()@[id2]);
            }
            assert forall|id2: Seq<u8>, k: Seq<u8>|
                self.cache()@.contains_key(id2) && self.ids_index()@.contains_key(k)
                    && #[trigger] self.ids_index()@[k].items@.contains(id2)
                implies self.cache()@[id2].spec_order().spec_instruments().contains(k) by {
                assert(old(self).cache()@.contains_key(id2));
                assert(self.cache()@[id2] == old(self).cache()@[id2]);
            }
            assert(self.wf());
        }
        // Wallet bookkeeping: an active position with top-ups enabled hands
        // its profit-and-loss back to the wallet while the wallet still has
        // other positions; otherwise the wallet is evicted.
        match &position {
            Position::Active(a) => {
                if a.order.top_up_enabled && self.positions_cache.contains_by_wallet_id(
                    &a.order.wallet_id,
                ) {
                    let ghost am = *self;
                    let wopt = self.wallets_by_ids.remove(&a.order.wallet_id);
                    match wopt {
                        Some(mut wallet) => {
                            wallet.deduct_top_up_pnl(&a.order.instrument, a.current_pnl);
                            let ghost wb = a.order.wallet_id@;
                            self.wallets_by_ids.insert(a.order.wallet_id.key_dup(), wallet);
                            proof {
                                assert(self.wallets()@ =~= am.wallets()@.insert(
                                    wb,
                                    self.wallets()@[wb],
                                ));
                                assert forall|k2: Seq<u8>, w2: Seq<u8>|
                                    self.wallet_index()@.contains_key(k2)
                                        && #[trigger] self.wallet_index()@[k2].items@.contains(
                                        w2,
                                    ) implies self.wallets()@.contains_key(w2)
                                    && self.wallets()@[
                                    w2
                                ].balances_by_instruments@.contains_key(k2) by {
                                    assert(am.wallets()@.contains_key(w2));
                                    if w2 == wb {
                                        assert(self.wallets()@[wb].balances_by_instruments
                                            == am.wallets()@[wb].balances_by_instruments);
                                    }
                                }
                                assert(self.wf());
                            }
                        },
                        None => {
                            proof {
                                assert(self.wallets()@ =~= am.wallets()@);
                                assert(self.wf());
                            }
                        },
                    }
                } else {
                    let _ = self.remove_wallet(&a.order.wallet_id);
                }
            },
            Position::Closed(_) => {},
            Position::Pending(_) => {},
        }
        let ghost aw = *self;
        // Drop the id from every instrument index entry of the order.
        let instruments = position.get_order().get_instruments();
        let n = instruments.len();
        let mut i: usize = 0;
        while i < n
            invariant
                aw.wf(),
                aw.cache() == self.positions_cache,
                aw.locked() == self.locked_ids,
                aw.wallets() == self.wallets_by_ids,
                aw.wallet_index() == self.wallet_ids_by_instruments,
                aw.ids_index() == old(self).ids_index(),
                !aw.cache()@.contains_key(idb),
                idb == position_id@,
                i <= n,
                n == instruments@.len(),
                self.ids_by_instruments.wf(),
                forall|k: Seq<u8>|
                    #[trigger] self.ids_index()@.contains_key(k)
                        ==> self.ids_index()@[k].items.wf(),
                forall|j: int|
                    0 <= j < i && self.ids_index()@.contains_key(#[trigger] instruments@[j]@)
                        ==> !self.ids_index()@[instruments@[j]@].items@.contains(idb),
                forall|k: Seq<u8>, id2: Seq<u8>|
                    self.ids_index()@.contains_key(k) && #[trigger] self.ids_index()@[
                        k
                    ].items@.contains(id2) ==> old(self).ids_index()@.contains_key(k) && old(self).ids_index()@[k].items@.contains(id2),
                forall|k: Seq<u8>, id2: Seq<u8>|
                    old(self).ids_index()@.contains_key(k) && #[trigger] old(self).ids_index()@[k].items@.contains(id2) && id2 != idb
                        ==> self.ids_index()@.contains_key(k) && self.ids_index()@[
                        k
                    ].items@.contains(id2),
                *self == (PositionsMonitor {
                    ids_by_instruments: self.ids_by_instruments,
                    ..aw
                }),
            decreases n - i,
        {
            let ghost s0 = *self;
            let instrument = &instruments[i];
            let entry_opt = self.ids_by_instruments.remove(instrument);
            match entry_opt {
                Some(mut e) => {
                    proof {
                        assert(s0.ids_index()@.contains_key(instrument@));
                        assert(e == s0.ids_index()@[instrument@]);
                        assert(e.items.wf());
                    }
                    e.items.remove(position_id);
                    let ghost e2 = e;
                    self.ids_by_instruments.insert(instrument.key_dup(), e);
                    proof {
                        assert(self.ids_index()@ =~= s0.ids_index()@.insert(instrument@, e2));
                        assert(e2.items@ =~= s0.ids_index()@[instrument@].items@.remove(idb));
                    }
                },
                None => {},
            }
            proof {
                assert forall|j: int|
                    0 <= j < i + 1 && self.ids_index()@.contains_key(
                    #[trigger] instruments@[j]@,
                ) implies !self.ids_index()@[instruments@[j]@].items@.contains(idb) by {
                    if j < i {
                        if s0.ids_index()@.contains_key(instruments@[j]@) {
                            assert(!s0.ids_index()@[instruments@[j]@].items@.contains(idb));
                        }
                    }
                }
            }
            i = i + 1;
        }
        proof {
            assert(instruments@.map_values(|s: InstrumentSymbol| s@)
                == position.spec_order().spec_instruments());
            assert forall|id2: Seq<u8>, k: Seq<u8>|
                self.cache()@.contains_key(id2) && #[trigger] self.cache()@[
                    id2
                ].spec_order().spec_instruments().contains(k) implies self.ids_index()@
                .contains_key(k) && self.ids_index()@[k].items@.contains(id2) by {
                assert(aw.cache()@.contains_key(id2));
                assert(aw.ids_index()@.contains_key(k)
                    && aw.ids_index()@[k].items@.contains(id2));
                assert(id2 != idb);
            }
            assert forall|id2: Seq<u8>, k: Seq<u8>|
                self.cache()@.contains_key(id2) && self.ids_index()@.contains_key(k)
                    && #[trigger] self.ids_index()@[k].items@.contains(id2)
                implies self.cache()@[id2].spec_order().spec_instruments().contains(k) by {
                assert(aw.ids_index()@.contains_key(k)
                    && aw.ids_index()@[k].items@.contains(id2));
                assert(aw.cache()@.contains_key(id2));
            }
            assert forall|k: Seq<u8>, id2: Seq<u8>|
                self.ids_index()@.contains_key(k) && #[trigger] self.ids_index()@[
                    k
                ].items@.contains(id2) implies id2 != idb && old(self).ids_index()@.contains_key(k) && old(self).ids_index()@[k].items@.contains(id2) by {
                if id2 == idb {
                    assert(old(self).ids_index()@.contains_key(k)
                        && old(self).ids_index()@[k].items@.contains(idb));
                    assert(old(self).cache()@[idb].spec_order().spec_instruments().contains(k));
                    let j = choose|j: int|
                        0 <= j < position.spec_order().spec_instruments().len()
                            && position.spec_order().spec_instruments()[j] == k;
                    assert((instruments@.map_values(|s: InstrumentSymbol| s@))[j] == k);
                    assert(instruments@[j]@ == k);
                }
            }
        }
        Some(position)
    }

    /// Route a top-up into the active position with this id; closed and
    /// pending positions refuse it.
    pub fn add_top_up(&mut self, position: &ActivePosition, top_up: ActiveTopUp) -> (r: Result<
        (),
        EngineError,
    >)
        requires
            old(self).wf(),
            top_up.wf(),
        ensures
            final(self).wf(),
            final(self).locked() == old(self).locked(),
            final(self).wallets() == old(self).wallets(),
            final(self).cache().positions().spec_len() == old(self).cache().positions().spec_len(),
            !old(self).cache()@.contains_key(position.id@) ==> r == Result::<
                (),
                EngineError,
            >::Err(EngineError::PositionNotFound) && *final(self) == *old(self),
            old(self).cache()@.contains_key(position.id@) && old(self).cache()@[position.id@]
                is Closed ==> r == Result::<(), EngineError>::Err(
                EngineError::TopUpOnClosedPosition,
            ) && final(self).cache()@ =~= old(self).cache()@,
            old(self).cache()@.contains_key(position.id@) && old(self).cache()@[position.id@]
                is Pending ==> r == Result::<(), EngineError>::Err(
                EngineError::TopUpOnPendingPosition,
            ) && final(self).cache()@ =~= old(self).cache()@,
            old(self).cache()@.contains_key(position.id@) && old(self).cache()@[position.id@]
                is Active ==> r is Ok && {
                let a = old(self).cache()@[position.id@]->Active_0;
                let after = final(self).cache()@[position.id@];
                &&& final(self).cache()@.contains_key(position.id@)
                &&& after is Active
                &&& after->Active_0.top_ups@ == a.top_ups@.push(top_up)
                &&& after->Active_0.total_invest_assets@ == crate::assets::spec_merge_amounts(
                    a.total_invest_assets@,
                    top_up.assets.key_seq(),
                    top_up.assets@,
                )
                &&& !after->Active_0.top_up_locked
                &&& after->Active_0 == (ActivePosition {
                    top_ups: after->Active_0.top_ups,
                    total_invest_assets: after->Active_0.total_invest_assets,
                    top_up_locked: false,
                    ..a
                })
                &&& forall|id2: Seq<u8>|
                    id2 != position.id@ ==> final(self).cache()@.contains_key(id2) == old(self).cache()@.contains_key(id2) && (old(self).cache()@.contains_key(id2)
                        ==> final(self).cache()@[id2] == old(self).cache()@[id2])
            },
    {
        let removed = self.positions_cache.remove(&position.id);
        let inner = match removed {
            Some(p) => p,
            None => {
                return Err(EngineError::PositionNotFound);
            },
        };
        let ghost idb = position.id@;
        match inner {
            Position::Active(mut a) => {
                a.add_top_up(top_up);
                let ghost a2 = a;
                self.positions_cache.add(Position::Active(a));
                proof {
                    assert(self.cache()@ =~= old(self).cache()@.insert(
                        idb,
                        Position::Active(a2),
                    ));
                    let oldp = old(self).cache()@[idb];
                    assert(a2.order == oldp->Active_0.order);
                    assert forall|id2: Seq<u8>, k: Seq<u8>|
                        self.cache()@.contains_key(id2) && #[trigger] self.cache()@[
                            id2
                        ].spec_order().spec_instruments().contains(k) implies self.ids_index()@
                        .contains_key(k) && self.ids_index()@[k].items@.contains(id2) by {
                        assert(old(self).cache()@.contains_key(id2));
                        if id2 == idb {
                            assert(old(self).cache()@[idb].spec_order()
                                == self.cache()@[idb].spec_order());
                        } else {
                            assert(self.cache()@[id2] == old(self).cache()@[id2]);
                        }
                    }
                    assert forall|id2: Seq<u8>, k: Seq<u8>|
                        self.cache()@.contains_key(id2) && self.ids_index()@.contains_key(k)
                            && #[trigger] self.ids_index()@[k].items@.contains(id2)
                        implies self.cache()@[id2].spec_order().spec_instruments().contains(
                        k,
                    ) by {
                        assert(old(self).cache()@.contains_key(id2));
                        if id2 == idb {
                            assert(old(self).cache()@[idb].spec_order()
                                == self.cache()@[idb].spec_order());
                        } else {
                            assert(self.cache()@[id2] == old(self).cache()@[id2]);
                        }
                    }
                    assert forall|id2: Seq<u8>| #[trigger] self.locked()@.contains(id2)
                        implies self.cache()@.contains_key(id2) by {
                        assert(old(self).cache()@.contains_key(id2));
                    }
                }
                Ok(())
            },
            Position::Closed(c) => {
                self.positions_cache.add(Position::Closed(c));
                proof {
                    self.lemma_readd_same(*old(self), idb);
                }
                Err(EngineError::TopUpOnClosedPosition)
            },
            Position::Pending(p) => {
                self.positions_cache.add(Position::Pending(p));
                proof {
                    self.lemma_readd_same(*old(self), idb);
                }
                Err(EngineError::TopUpOnPendingPosition)
            },
        }
    }

    /// Re-adding the value just removed restores the cache view and the
    /// monitor's invariants.
    proof fn lemma_readd_same(self, pre: Self, idb: Seq<u8>)
        requires
            pre.wf(),
            pre.cache()@.contains_key(idb),
            self.cache()@ =~= pre.cache()@.remove(idb).insert(idb, pre.cache()@[idb]),
            self.ids_index() == pre.ids_index(),
            self.locked() == pre.locked(),
            self.wallets() == pre.wallets(),
            self.wallet_index() == pre.wallet_index(),
            self.scratch_pnls() == pre.scratch_pnls(),
            self.scratch_reserved() == pre.scratch_reserved(),
            self.cache().wf(),
        ensures
            self.cache()@ =~= pre.cache()@,
            self.wf(),
    {
        assert(self.cache()@ =~= pre.cache()@);
        assert forall|id2: Seq<u8>, k: Seq<u8>|
            self.cache()@.contains_key(id2) && #[trigger] self.cache()@[
                id2
            ].spec_order().spec_instruments().contains(k) implies self.ids_index()@.contains_key(
            k,
        ) && self.ids_index()@[k].items@.contains(id2) by {
            assert(self.cache()@[id2] == pre.cache()@[id2]);
        }
        assert forall|id2: Seq<u8>, k: Seq<u8>|
            self.cache()@.contains_key(id2) && self.ids_index()@.contains_key(k)
                && #[trigger] self.ids_index()@[k].items@.contains(id2) implies self.cache()@[
            id2
        ].spec_order().spec_instruments().contains(k) by {
            assert(self.cache()@[id2] == pre.cache()@[id2]);
        }
        assert forall|id2: Seq<u8>| #[trigger] self.locked()@.contains(id2)
            implies self.cache()@.contains_key(id2) by {
            assert(pre.cache()@.contains_key(id2));
        }
    }
}



/// The id a lock event is about.
pub open spec fn lock_reason_id(r: PositionLockReason) -> Seq<u8> {
    match r {
        PositionLockReason::TopUp(a) => a.id@,
        PositionLockReason::TopUpsCanceled(t) => t.0.id@,
        PositionLockReason::ActivationPending(p) => p.id@,
    }
}

/// Whether `id` is among the first `k` visited ids.
pub open spec fn spec_visited(sids: Seq<Seq<u8>>, k: int, id: Seq<u8>) -> bool {
    exists|j: int| 0 <= j < k && sids[j] == id
}

/// What any single event of a tick is allowed to say, over the caches
/// before (`cb`) and after (`cn`) the tick, the lock table before (`lb`)
/// and after (`ln`), and the visited ids: every position event names a
/// visited, previously unlocked id, and its payload matches that
/// position's step.
pub open spec fn spec_event_sound(
    cb: Map<Seq<u8>, Position>,
    cn: Map<Seq<u8>, Position>,
    lb: Set<Seq<u8>>,
    ln: Set<Seq<u8>>,
    sids: Seq<Seq<u8>>,
    k: int,
    q: BidAsk,
    acc: Option<u32>,
    e: PositionMonitoringEvent,
) -> bool {
    match e {
        PositionMonitoringEvent::PositionClosed(c) => {
            &&& spec_visited(sids, k, c.id@)
            &&& !lb.contains(c.id@)
            &&& cb.contains_key(c.id@)
            &&& !cn.contains_key(c.id@)
            &&& (cb[c.id@] is Closed || cb[c.id@] is Active)
            &&& (cb[c.id@] is Closed ==> c == cb[c.id@]->Closed_0)
            &&& (cb[c.id@] is Active ==> exists|a2: ActivePosition|
                (#[trigger] cb[c.id@]->Active_0.spec_updated(a2, q))
                    && a2.spec_close_reason() is Some && a2.spec_closed_into(
                    c,
                    a2.spec_close_reason()->0,
                    acc,
                ))
        },
        PositionMonitoringEvent::PositionActivated(a) => {
            &&& spec_visited(sids, k, a.id@)
            &&& !lb.contains(a.id@)
            &&& cb.contains_key(a.id@)
            &&& cb[a.id@] is Pending
            &&& cn.contains_key(a.id@)
            &&& cn[a.id@] is Active
            &&& same_active(a, cn[a.id@]->Active_0)
        },
        PositionMonitoringEvent::PositionMarginCall(a) => {
            &&& spec_visited(sids, k, a.id@)
            &&& !lb.contains(a.id@)
            &&& cb.contains_key(a.id@)
            &&& cb[a.id@] is Active
            &&& exists|a2: ActivePosition|
                (#[trigger] cb[a.id@]->Active_0.spec_updated(a2, q)) && a2.spec_is_margin_call()
                    && same_active(a, a2)
        },
        PositionMonitoringEvent::PositionLocked(r) => {
            let id = lock_reason_id(r);
            &&& spec_visited(sids, k, id)
            &&& !lb.contains(id)
            &&& ln.contains(id)
            &&& cn.contains_key(id)
        },
        PositionMonitoringEvent::WalletMarginCall(_) => false,
    }
}

/// Every event among the first ones emitted satisfies
/// [`spec_event_sound`].
pub open spec fn spec_events_sound(
    cb: Map<Seq<u8>, Position>,
    cn: Map<Seq<u8>, Position>,
    lb: Set<Seq<u8>>,
    ln: Set<Seq<u8>>,
    sids: Seq<Seq<u8>>,
    k: int,
    q: BidAsk,
    acc: Option<u32>,
    events: Seq<PositionMonitoringEvent>,
) -> bool {
    forall|j: int|
        0 <= j < events.len() ==> spec_event_sound(cb, cn, lb, ln, sids, k, q, acc, #[trigger] events[j])
}

/// No two closed events name the same id.
pub open spec fn spec_closed_once(events: Seq<PositionMonitoringEvent>) -> bool {
    forall|j1: int, j2: int|
        0 <= j1 < j2 < events.len() && (#[trigger] events[j1]) is PositionClosed && (
        #[trigger] events[j2]) is PositionClosed ==> events[j1]->PositionClosed_0.id@
            != events[j2]->PositionClosed_0.id@
}

/// The owed events over the first `k` visited ids: an activation, a
/// margin call and a lock each come with their event.
pub open spec fn spec_events_complete(
    cb: Map<Seq<u8>, Position>,
    cn: Map<Seq<u8>, Position>,
    lb: Set<Seq<u8>>,
    ln: Set<Seq<u8>>,
    sids: Seq<Seq<u8>>,
    k: int,
    q: BidAsk,
    events: Seq<PositionMonitoringEvent>,
) -> bool {
    &&& forall|j: int|
        0 <= j < k && cb.contains_key(#[trigger] sids[j]) && !lb.contains(sids[j]) && cb[
            sids[j]
        ] is Pending && cn.contains_key(sids[j]) && cn[sids[j]] is Active ==> (exists|jj: int|
            0 <= jj < events.len() && (#[trigger] events[jj]) is PositionActivated && events[
                jj
            ]->PositionActivated_0.id@ == sids[j])
    &&& forall|j: int|
        0 <= j < k && cb.contains_key(#[trigger] sids[j]) && !lb.contains(sids[j]) && cb[
            sids[j]
        ] is Active && (exists|a2: ActivePosition|
            (#[trigger] cb[sids[j]]->Active_0.spec_updated(a2, q)) && a2.spec_is_margin_call())
            ==> (exists|jj: int|
            0 <= jj < events.len() && (#[trigger] events[jj]) is PositionMarginCall && events[
                jj
            ]->PositionMarginCall_0.id@ == sids[j])
    &&& forall|j: int|
        0 <= j < k && !lb.contains(#[trigger] sids[j]) && ln.contains(sids[j]) ==> (exists|
            jj: int,
        |
            0 <= jj < events.len() && (#[trigger] events[jj]) is PositionLocked
                && lock_reason_id(events[jj]->PositionLocked_0) == sids[j])
}

/// Two refreshes of the same position agree on the margin call.
proof fn lemma_refresh_margin_agrees(a0: ActivePosition, x: ActivePosition, y: ActivePosition, q: BidAsk)
    requires
        a0.spec_updated(x, q),
        a0.spec_updated(y, q),
    ensures
        x.spec_is_margin_call() == y.spec_is_margin_call(),
{
    assert(x.order == y.order);
    assert(x.current_price == y.current_price);
    assert(x.current_asset_prices@ == y.current_asset_prices@);
    assert(x.activate_price == y.activate_price);
    assert(x.spec_invest_cur() == y.spec_invest_cur());
    assert(x.spec_pnl_cur() == y.spec_pnl_cur());
}

/// Event soundness carries across one visit that only touches its own id,
/// only grows the lock table, and only appends events.
proof fn lemma_events_sound_step(
    cb: Map<Seq<u8>, Position>,
    cn_pre: Map<Seq<u8>, Position>,
    cn_post: Map<Seq<u8>, Position>,
    lb: Set<Seq<u8>>,
    ln_pre: Set<Seq<u8>>,
    ln_post: Set<Seq<u8>>,
    sids: Seq<Seq<u8>>,
    i: int,
    q: BidAsk,
    acc: Option<u32>,
    events: Seq<PositionMonitoringEvent>,
)
    requires
        0 <= i < sids.len(),
        forall|j: int| 0 <= j < i ==> #[trigger] sids[j] != sids[i],
        forall|id: Seq<u8>|
            id != sids[i] ==> #[trigger] cn_pre.contains_key(id) == cn_post.contains_key(id) && (
            cn_pre.contains_key(id) ==> cn_pre[id] == cn_post[id]),
        forall|id: Seq<u8>| #[trigger] ln_pre.contains(id) ==> ln_post.contains(id),
        forall|id: Seq<u8>|
            id != sids[i] && #[trigger] ln_post.contains(id) ==> ln_pre.contains(id),
        spec_events_sound(cb, cn_pre, lb, ln_pre, sids, i, q, acc, events),
    ensures
        spec_events_sound(cb, cn_post, lb, ln_post, sids, i + 1, q, acc, events),
{
    assert forall|j: int| 0 <= j < events.len() implies spec_event_sound(
        cb,
        cn_post,
        lb,
        ln_post,
        sids,
        i + 1,
        q,
        acc,
        #[trigger] events[j],
    ) by {
        let e = events[j];
        match e {
            PositionMonitoringEvent::PositionClosed(c) => {
                let jd = choose|jj: int| 0 <= jj < i && sids[jj] == c.id@;
                assert(sids[jd] == c.id@);
                assert(c.id@ != sids[i]);
            },
            PositionMonitoringEvent::PositionActivated(a) => {
                let jd = choose|jj: int| 0 <= jj < i && sids[jj] == a.id@;
                assert(sids[jd] == a.id@);
                assert(a.id@ != sids[i]);
            },
            PositionMonitoringEvent::PositionMarginCall(a) => {
                let jd = choose|jj: int| 0 <= jj < i && sids[jj] == a.id@;
                assert(sids[jd] == a.id@);
            },
            PositionMonitoringEvent::PositionLocked(r) => {
                let id = lock_reason_id(r);
                let jd = choose|jj: int| 0 <= jj < i && sids[jj] == id;
                assert(sids[jd] == id);
                assert(id != sids[i]);
            },
            PositionMonitoringEvent::WalletMarginCall(_) => {},
        }
    }
}

/// Event completeness carries across one visit given the new visit's own
/// obligations.
proof fn lemma_events_complete_step(
    cb: Map<Seq<u8>, Position>,
    cn_pre: Map<Seq<u8>, Position>,
    cn_post: Map<Seq<u8>, Position>,
    lb: Set<Seq<u8>>,
    ln_pre: Set<Seq<u8>>,
    ln_post: Set<Seq<u8>>,
    sids: Seq<Seq<u8>>,
    i: int,
    q: BidAsk,
    events_pre: Seq<PositionMonitoringEvent>,
    events_post: Seq<PositionMonitoringEvent>,
)
    requires
        0 <= i < sids.len(),
        forall|j: int| 0 <= j < i ==> #[trigger] sids[j] != sids[i],
        forall|id: Seq<u8>|
            id != sids[i] ==> #[trigger] cn_pre.contains_key(id) == cn_post.contains_key(id) && (
            cn_pre.contains_key(id) ==> cn_pre[id] == cn_post[id]),
        forall|id: Seq<u8>| #[trigger] ln_pre.contains(id) ==> ln_post.contains(id),
        forall|id: Seq<u8>|
            id != sids[i] && #[trigger] ln_post.contains(id) ==> ln_pre.contains(id),
        events_post.len() >= events_pre.len(),
        forall|j: int| 0 <= j < events_pre.len() ==> #[trigger] events_post[j] == events_pre[j],
        spec_events_complete(cb, cn_pre, lb, ln_pre, sids, i, q, events_pre),
        cb.contains_key(sids[i]) && !lb.contains(sids[i]) && cb[sids[i]] is Pending
            && cn_post.contains_key(sids[i]) && cn_post[sids[i]] is Active ==> (exists|jj: int|
            0 <= jj < events_post.len() && (#[trigger] events_post[jj]) is PositionActivated
                && events_post[jj]->PositionActivated_0.id@ == sids[i]),
        cb.contains_key(sids[i]) && !lb.contains(sids[i]) && cb[sids[i]] is Active && (exists|
            a2: ActivePosition,
        |
            (#[trigger] cb[sids[i]]->Active_0.spec_updated(a2, q)) && a2.spec_is_margin_call())
            ==> (exists|jj: int|
            0 <= jj < events_post.len() && (#[trigger] events_post[jj]) is PositionMarginCall
                && events_post[jj]->PositionMarginCall_0.id@ == sids[i]),
        !lb.contains(sids[i]) && ln_post.contains(sids[i]) ==> (exists|jj: int|
            0 <= jj < events_post.len() && (#[trigger] events_post[jj]) is PositionLocked
                && lock_reason_id(events_post[jj]->PositionLocked_0) == sids[i]),
    ensures
        spec_events_complete(cb, cn_post, lb, ln_post, sids, i + 1, q, events_post),
{
    assert forall|j: int|
        0 <= j < i + 1 && cb.contains_key(#[trigger] sids[j]) && !lb.contains(sids[j]) && cb[
            sids[j]
        ] is Pending && cn_post.contains_key(sids[j]) && cn_post[sids[j]] is Active
        implies (exists|jj: int|
        0 <= jj < events_post.len() && (#[trigger] events_post[jj]) is PositionActivated
            && events_post[jj]->PositionActivated_0.id@ == sids[j]) by {
        if j < i {
            assert(sids[j] != sids[i]);
            assert(cn_pre.contains_key(sids[j]) == cn_post.contains_key(sids[j]));
            assert(cn_pre.contains_key(sids[j]));
            assert(cn_pre[sids[j]] == cn_post[sids[j]]);
            let jj0 = choose|jj: int|
                0 <= jj < events_pre.len() && (#[trigger] events_pre[jj]) is PositionActivated
                    && events_pre[jj]->PositionActivated_0.id@ == sids[j];
            assert(events_post[jj0] == events_pre[jj0]);
        }
    }
    assert forall|j: int|
        0 <= j < i + 1 && cb.contains_key(#[trigger] sids[j]) && !lb.contains(sids[j]) && cb[
            sids[j]
        ] is Active && (exists|a2: ActivePosition|
            (#[trigger] cb[sids[j]]->Active_0.spec_updated(a2, q)) && a2.spec_is_margin_call())
        implies (exists|jj: int|
        0 <= jj < events_post.len() && (#[trigger] events_post[jj]) is PositionMarginCall
            && events_post[jj]->PositionMarginCall_0.id@ == sids[j]) by {
        if j < i {
            let jj0 = choose|jj: int|
                0 <= jj < events_pre.len() && (#[trigger] events_pre[jj]) is PositionMarginCall
                    && events_pre[jj]->PositionMarginCall_0.id@ == sids[j];
            assert(events_post[jj0] == events_pre[jj0]);
        }
    }
    assert forall|j: int|
        0 <= j < i + 1 && !lb.contains(#[trigger] sids[j]) && ln_post.contains(sids[j])
        implies (exists|jj: int|
        0 <= jj < events_post.len() && (#[trigger] events_post[jj]) is PositionLocked
            && lock_reason_id(events_post[jj]->PositionLocked_0) == sids[j]) by {
        if j < i {
            assert(sids[j] != sids[i]);
            assert(ln_pre.contains(sids[j]));
            let jj0 = choose|jj: int|
                0 <= jj < events_pre.len() && (#[trigger] events_pre[jj]) is PositionLocked
                    && lock_reason_id(events_pre[jj]->PositionLocked_0) == sids[j];
            assert(events_post[jj0] == events_pre[jj0]);
        }
    }
}


/// Completeness survives appending further events.
proof fn lemma_complete_extend(
    cb: Map<Seq<u8>, Position>,
    cn: Map<Seq<u8>, Position>,
    lb: Set<Seq<u8>>,
    ln: Set<Seq<u8>>,
    sids: Seq<Seq<u8>>,
    k: int,
    q: BidAsk,
    ev_a: Seq<PositionMonitoringEvent>,
    ev_b: Seq<PositionMonitoringEvent>,
)
    requires
        spec_events_complete(cb, cn, lb, ln, sids, k, q, ev_a),
        ev_b.len() >= ev_a.len(),
        forall|j: int| 0 <= j < ev_a.len() ==> #[trigger] ev_b[j] == ev_a[j],
    ensures
        spec_events_complete(cb, cn, lb, ln, sids, k, q, ev_b),
{
    assert forall|j: int|
        0 <= j < k && cb.contains_key(#[trigger] sids[j]) && !lb.contains(sids[j]) && cb[
            sids[j]
        ] is Pending && cn.contains_key(sids[j]) && cn[sids[j]] is Active implies (exists|
        jj: int,
    |
        0 <= jj < ev_b.len() && (#[trigger] ev_b[jj]) is PositionActivated && ev_b[
            jj
        ]->PositionActivated_0.id@ == sids[j]) by {
        let jj0 = choose|jj: int|
            0 <= jj < ev_a.len() && (#[trigger] ev_a[jj]) is PositionActivated && ev_a[
                jj
            ]->PositionActivated_0.id@ == sids[j];
        assert(ev_b[jj0] == ev_a[jj0]);
    }
    assert forall|j: int|
        0 <= j < k && cb.contains_key(#[trigger] sids[j]) && !lb.contains(sids[j]) && cb[
            sids[j]
        ] is Active && (exists|a2: ActivePosition|
            (#[trigger] cb[sids[j]]->Active_0.spec_updated(a2, q)) && a2.spec_is_margin_call())
        implies (exists|jj: int|
        0 <= jj < ev_b.len() && (#[trigger] ev_b[jj]) is PositionMarginCall && ev_b[
            jj
        ]->PositionMarginCall_0.id@ == sids[j]) by {
        let jj0 = choose|jj: int|
            0 <= jj < ev_a.len() && (#[trigger] ev_a[jj]) is PositionMarginCall && ev_a[
                jj
            ]->PositionMarginCall_0.id@ == sids[j];
        assert(ev_b[jj0] == ev_a[jj0]);
    }
    assert forall|j: int|
        0 <= j < k && !lb.contains(#[trigger] sids[j]) && ln.contains(sids[j]) implies (exists|
        jj: int,
    |
        0 <= jj < ev_b.len() && (#[trigger] ev_b[jj]) is PositionLocked && lock_reason_id(
            ev_b[jj]->PositionLocked_0,
        ) == sids[j]) by {
        let jj0 = choose|jj: int|
            0 <= jj < ev_a.len() && (#[trigger] ev_a[jj]) is PositionLocked && lock_reason_id(
                ev_a[jj]->PositionLocked_0,
            ) == sids[j];
        assert(ev_b[jj0] == ev_a[jj0]);
    }
}

/// One visit's full event bookkeeping: old events stay sound, the new
/// events were proved sound by the caller, completeness extends by the
/// visit's own obligations, and closed events stay unique.
proof fn lemma_scan_visit_events(
    cb: Map<Seq<u8>, Position>,
    cn_pre: Map<Seq<u8>, Position>,
    cn_post: Map<Seq<u8>, Position>,
    lb: Set<Seq<u8>>,
    ln_pre: Set<Seq<u8>>,
    ln_post: Set<Seq<u8>>,
    sids: Seq<Seq<u8>>,
    i: int,
    q: BidAsk,
    acc: Option<u32>,
    ev0: Seq<PositionMonitoringEvent>,
    events: Seq<PositionMonitoringEvent>,
)
    requires
        0 <= i < sids.len(),
        forall|j: int| 0 <= j < i ==> #[trigger] sids[j] != sids[i],
        forall|id: Seq<u8>|
            id != sids[i] ==> #[trigger] cn_pre.contains_key(id) == cn_post.contains_key(id) && (
            cn_pre.contains_key(id) ==> cn_pre[id] == cn_post[id]),
        forall|id: Seq<u8>| #[trigger] ln_pre.contains(id) ==> ln_post.contains(id),
        forall|id: Seq<u8>|
            id != sids[i] && #[trigger] ln_post.contains(id) ==> ln_pre.contains(id),
        events.len() >= ev0.len(),
        forall|j: int| 0 <= j < ev0.len() ==> #[trigger] events[j] == ev0[j],
        spec_events_sound(cb, cn_pre, lb, ln_pre, sids, i, q, acc, ev0),
        spec_events_complete(cb, cn_pre, lb, ln_pre, sids, i, q, ev0),
        spec_closed_once(ev0),
        forall|j: int|
            ev0.len() <= j < events.len() ==> spec_event_sound(
                cb,
                cn_post,
                lb,
                ln_post,
                sids,
                i + 1,
                q,
                acc,
                #[trigger] events[j],
            ),
        forall|j: int|
            ev0.len() <= j < events.len() && (#[trigger] events[j]) is PositionClosed ==> events[
                j
            ]->PositionClosed_0.id@ == sids[i],
        forall|j1: int, j2: int|
            ev0.len() <= j1 < j2 < events.len() ==> !((#[trigger] events[j1]) is PositionClosed
                && (#[trigger] events[j2]) is PositionClosed),
        cb.contains_key(sids[i]) && !lb.contains(sids[i]) && cb[sids[i]] is Pending
            && cn_post.contains_key(sids[i]) && cn_post[sids[i]] is Active ==> (exists|jj: int|
            0 <= jj < events.len() && (#[trigger] events[jj]) is PositionActivated && events[
                jj
            ]->PositionActivated_0.id@ == sids[i]),
        cb.contains_key(sids[i]) && !lb.contains(sids[i]) && cb[sids[i]] is Active && (exists|
            a2: ActivePosition,
        |
            (#[trigger] cb[sids[i]]->Active_0.spec_updated(a2, q)) && a2.spec_is_margin_call())
            ==> (exists|jj: int|
            0 <= jj < events.len() && (#[trigger] events[jj]) is PositionMarginCall && events[
                jj
            ]->PositionMarginCall_0.id@ == sids[i]),
        !lb.contains(sids[i]) && ln_post.contains(sids[i]) ==> (exists|jj: int|
            0 <= jj < events.len() && (#[trigger] events[jj]) is PositionLocked
                && lock_reason_id(events[jj]->PositionLocked_0) == sids[i]),
    ensures
        spec_events_sound(cb, cn_post, lb, ln_post, sids, i + 1, q, acc, events),
        spec_events_complete(cb, cn_post, lb, ln_post, sids, i + 1, q, events),
        spec_closed_once(events),
{
    lemma_events_sound_step(cb, cn_pre, cn_post, lb, ln_pre, ln_post, sids, i, q, acc, ev0);
    assert forall|j: int| 0 <= j < events.len() implies spec_event_sound(
        cb,
        cn_post,
        lb,
        ln_post,
        sids,
        i + 1,
        q,
        acc,
        #[trigger] events[j],
    ) by {
        if j < ev0.len() {
            assert(events[j] == ev0[j]);
            assert(spec_event_sound(cb, cn_post, lb, ln_post, sids, i + 1, q, acc, ev0[j]));
        }
    }
    lemma_events_complete_step(
        cb,
        cn_pre,
        cn_post,
        lb,
        ln_pre,
        ln_post,
        sids,
        i,
        q,
        ev0,
        events,
    );
    assert forall|j1: int, j2: int|
        0 <= j1 < j2 < events.len() && (#[trigger] events[j1]) is PositionClosed && (
        #[trigger] events[j2]) is PositionClosed implies events[j1]->PositionClosed_0.id@
        != events[j2]->PositionClosed_0.id@ by {
        if j2 < ev0.len() {
            assert(events[j1] == ev0[j1]);
            assert(events[j2] == ev0[j2]);
        } else if j1 < ev0.len() {
            assert(events[j1] == ev0[j1]);
            assert(spec_event_sound(cb, cn_pre, lb, ln_pre, sids, i, q, acc, ev0[j1]));
            let c1 = ev0[j1]->PositionClosed_0;
            let jd = choose|jj: int| 0 <= jj < i && sids[jj] == c1.id@;
            assert(sids[jd] == c1.id@);
            assert(c1.id@ != sids[i]);
            assert(events[j2]->PositionClosed_0.id@ == sids[i]);
        }
    }
}

/// The cross-position profit-and-loss that one tick accumulates for wallet
/// `w`: the post-update `current_pnl` of every visited position that
/// survived the tick as an active, top-up-enabled position of that wallet,
/// summed in visit order with saturation.
pub open spec fn spec_scratch_contributes(
    cache_before: Map<Seq<u8>, Position>,
    cache_now: Map<Seq<u8>, Position>,
    locked_before: Set<Seq<u8>>,
    id: Seq<u8>,
) -> bool {
    &&& !locked_before.contains(id)
    &&& cache_before.contains_key(id)
    &&& cache_before[id] is Active
    &&& cache_now.contains_key(id)
    &&& cache_now[id] is Active
    &&& cache_now[id]->Active_0.order.top_up_enabled
}

pub open spec fn spec_scratch_pnl(
    cache_before: Map<Seq<u8>, Position>,
    cache_now: Map<Seq<u8>, Position>,
    processed: Seq<Seq<u8>>,
    locked_before: Set<Seq<u8>>,
    w: Seq<u8>,
) -> int
    decreases processed.len(),
{
    if processed.len() == 0 {
        0
    } else {
        let rest = spec_scratch_pnl(
            cache_before,
            cache_now,
            processed.drop_last(),
            locked_before,
            w,
        );
        let id = processed.last();
        if spec_scratch_contributes(cache_before, cache_now, locked_before, id) && cache_now[
            id
        ]->Active_0.order.wallet_id@ == w {
            crate::numeric::sat_add_spec(rest, cache_now[id]->Active_0.current_pnl as int)
        } else {
            rest
        }
    }
}

/// Whether wallet `w` received any scratch contribution.
pub open spec fn spec_scratch_touched(
    cache_before: Map<Seq<u8>, Position>,
    cache_now: Map<Seq<u8>, Position>,
    processed: Seq<Seq<u8>>,
    locked_before: Set<Seq<u8>>,
    w: Seq<u8>,
) -> bool
    decreases processed.len(),
{
    if processed.len() == 0 {
        false
    } else {
        let rest = spec_scratch_touched(
            cache_before,
            cache_now,
            processed.drop_last(),
            locked_before,
            w,
        );
        let id = processed.last();
        rest || (spec_scratch_contributes(cache_before, cache_now, locked_before, id)
            && cache_now[id]->Active_0.order.wallet_id@ == w)
    }
}

/// How one tick transforms one unlocked position: closed positions leave
/// with their event; pending positions refresh and activate once the desire
/// price is reached; active positions refresh, close on the first matching
/// close reason, or run the top-up logic.
pub open spec fn spec_step_outcome(
    p: Position,
    q: BidAsk,
    pct: i64,
    delay: i64,
    after: Option<Position>,
    now_locked: bool,
) -> bool {
    match p {
        Position::Closed(_) => after is None && !now_locked,
        Position::Pending(p0) => exists|p2: PendingPosition|
            #[trigger] p0.spec_updated(p2, q) && (if p2.spec_price_reached() {
                exists|a1: ActivePosition, a2: ActivePosition|
                    #[trigger] p2.spec_activated(a1) && #[trigger] a1.spec_updated(a2, q)
                        && after == Some(Position::Active(a2)) && !now_locked
            } else {
                after == Some(Position::Pending(p2)) && !now_locked
            }),
        Position::Active(a0) => exists|a2: ActivePosition|
            #[trigger] a0.spec_updated(a2, q) && (if a2.spec_close_reason() is Some {
                after is None && !now_locked
            } else if a2.spec_is_top_up() {
                after == Some(Position::Active(ActivePosition { top_up_locked: true, ..a2 }))
                    && now_locked
            } else {
                exists|a3: ActivePosition|
                    (#[trigger] a2.same_except_top_ups(a3)) && a3.top_ups@
                        == ActivePosition::spec_kept_tops(
                        a2.top_ups@,
                        a2.current_price as int,
                        a2.order.side,
                        a2.last_update_date as int,
                        pct as int,
                        delay as int,
                    ) && after == Some(Position::Active(a3)) && now_locked
                        == (ActivePosition::spec_canceled_tops(
                        a2.top_ups@,
                        a2.current_price as int,
                        a2.order.side,
                        a2.last_update_date as int,
                        pct as int,
                        delay as int,
                    ).len() > 0)
            }),
    }
}

/// The scratch maps match the tick sums over the first `k` visited ids.
pub open spec fn scan_scratch_inv(
    sp: Map<Seq<u8>, i64>,
    cache_before: Map<Seq<u8>, Position>,
    cache_now: Map<Seq<u8>, Position>,
    sids: Seq<Seq<u8>>,
    locked_before: Set<Seq<u8>>,
    k: int,
) -> bool {
    &&& forall|w: Seq<u8>|
        #[trigger] sp.contains_key(w) == spec_scratch_touched(
            cache_before,
            cache_now,
            sids.take(k),
            locked_before,
            w,
        )
    &&& forall|w: Seq<u8>|
        #[trigger] sp.contains_key(w) ==> sp[w] == spec_scratch_pnl(
            cache_before,
            cache_now,
            sids.take(k),
            locked_before,
            w,
        )
}

/// Every one of the first `k` visited ids that was cached, unlocked and
/// has left the cache went out with a closed event naming it.
pub open spec fn scan_closed_complete(
    cache_before: Map<Seq<u8>, Position>,
    cache_now: Map<Seq<u8>, Position>,
    locked_before: Set<Seq<u8>>,
    events: Seq<PositionMonitoringEvent>,
    ids: Seq<PositionId>,
    k: int,
) -> bool {
    forall|j: int|
        0 <= j < k && cache_before.contains_key((#[trigger] ids[j])@) && !locked_before.contains(
            ids[j]@,
        ) && !cache_now.contains_key(ids[j]@) ==> (exists|jj: int|
            0 <= jj < events.len() && (#[trigger] events[jj]) is PositionClosed && events[
                jj
            ]->PositionClosed_0.id@ == ids[j]@)
}

impl PositionsMonitor {
    /// The monitor's invariants while the index entry of `instr` is taken
    /// out for the duration of a tick.
    pub open spec fn scan_ok(self, instr: Seq<u8>) -> bool {
        &&& self.cache().wf()
        &&& self.ids_index().wf()
        &&& forall|k: Seq<u8>|
            #[trigger] self.ids_index()@.contains_key(k) ==> self.ids_index()@[k].items.wf()
        &&& self.locked().wf()
        &&& forall|id: Seq<u8>|
            #[trigger] self.locked()@.contains(id) ==> self.cache()@.contains_key(id)
        &&& self.wallets().wf()
        &&& forall|w: Seq<u8>|
            #[trigger] self.wallets()@.contains_key(w) ==> self.wallets()@[w].wf()
                && self.wallets()@[w].id@ == w
        &&& self.wallet_index().wf()
        &&& forall|k: Seq<u8>|
            #[trigger] self.wallet_index()@.contains_key(k)
                ==> self.wallet_index()@[k].items.wf()
        &&& forall|k: Seq<u8>, w: Seq<u8>|
            self.wallet_index()@.contains_key(k) && #[trigger] self.wallet_index()@[k].items@
                .contains(w) ==> self.wallets()@.contains_key(w) && self.wallets()@[
                w
            ].balances_by_instruments@.contains_key(k)
        &&& self.scratch_pnls().wf()
        &&& self.scratch_reserved().wf()
        &&& forall|w: Seq<u8>|
            #[trigger] self.scratch_reserved()@.contains_key(w) ==> self.scratch_reserved()@[w]
                .wf()
        &&& !self.ids_index()@.contains_key(instr)
        &&& forall|id: Seq<u8>, k: Seq<u8>|
            self.cache()@.contains_key(id) && #[trigger] self.cache()@[
                id
            ].spec_order().spec_instruments().contains(k) && k != instr
                ==> self.ids_index()@.contains_key(k) && self.ids_index()@[k].items@.contains(
                id,
            )
        &&& forall|id: Seq<u8>, k: Seq<u8>|
            self.cache()@.contains_key(id) && self.ids_index()@.contains_key(k)
                && #[trigger] self.ids_index()@[k].items@.contains(id) ==> self.cache()@[
                id
            ].spec_order().spec_instruments().contains(k)
    }

    /// Visit every id indexed under the tick's instrument: refresh each
    /// unlocked position, take its transitions, collect the surviving ids,
    /// the events, the wallets that lost their last position, and (the tick
    /// sum law) accumulate per-wallet scratch: after the scan, each
    /// wallet's scratch profit-and-loss equals the sum of `current_pnl`
    /// over the visited, surviving, active, top-up-enabled positions of
    /// that wallet.
    #[verifier::rlimit(100)]
    #[verifier::spinoff_prover]
    fn scan_ids(&mut self, bidask: &BidAsk, ids: &Vec<PositionId>) -> (out: (
        Vec<PositionMonitoringEvent>,
        SymSet<PositionId>,
        Vec<WalletId>,
    ))
        requires
            old(self).scan_ok(bidask.instrument@),
            bidask.wf(),
            old(self).scratch_pnls()@ =~= Map::<Seq<u8>, i64>::empty(),
            old(self).scratch_reserved()@ =~= Map::<Seq<u8>, SymMap<AssetSymbol, i64>>::empty(),
            forall|j1: int, j2: int|
                0 <= j1 < j2 < ids@.len() ==> (#[trigger] ids@[j1])@ != (#[trigger] ids@[j2])@,
        ensures
            final(self).scan_ok(bidask.instrument@),
            final(self).wallets() == old(self).wallets(),
            final(self).wallet_index() == old(self).wallet_index(),
            final(self).ids_index() == old(self).ids_index(),
            final(self).spec_wallet_monitoring_enabled() == old(self).spec_wallet_monitoring_enabled(),
            final(self).spec_pnl_accuracy() == old(self).spec_pnl_accuracy(),
            final(self).spec_cancel_top_up_price_change_percent() == old(self).spec_cancel_top_up_price_change_percent(),
            final(self).spec_cancel_top_up_delay() == old(self).spec_cancel_top_up_delay(),
            // locked ids are never touched and stay locked (the lock table only grows)
            forall|id: Seq<u8>|
                #[trigger] old(self).locked()@.contains(id) ==> final(self).locked()@.contains(
                    id,
                ) && final(self).cache()@.contains_key(id) && final(self).cache()@[id] == old(self).cache()@[id],
            forall|id: Seq<u8>|
                #[trigger] final(self).cache()@.contains_key(id) ==> old(self).cache()@.contains_key(id),
            // ids that were not visited are untouched
            forall|id: Seq<u8>|
                old(self).cache()@.contains_key(id) && !(exists|j: int|
                    0 <= j < ids@.len() && (#[trigger] ids@[j])@ == id) ==> final(self).cache()@.contains_key(id) && final(self).cache()@[id] == old(self).cache()@[id],
            // each visited unlocked cached position steps by the state machine
            forall|j: int|
                0 <= j < ids@.len() && old(self).cache()@.contains_key((#[trigger] ids@[j])@)
                    && !old(self).locked()@.contains(ids@[j]@) ==> spec_step_outcome(
                    old(self).cache()@[ids@[j]@],
                    *bidask,
                    old(self).spec_cancel_top_up_price_change_percent(),
                    old(self).spec_cancel_top_up_delay(),
                    if final(self).cache()@.contains_key(ids@[j]@) {
                        Some(final(self).cache()@[ids@[j]@])
                    } else {
                        None
                    },
                    final(self).locked()@.contains(ids@[j]@),
                ),
            // the surviving-id set holds exactly the visited ids still cached,
            // plus nothing else
            forall|id: Seq<u8>|
                #[trigger] out.1@.contains(id) ==> final(self).cache()@.contains_key(id) && (
                exists|j: int| 0 <= j < ids@.len() && (#[trigger] ids@[j])@ == id),
            forall|j: int|
                0 <= j < ids@.len() && final(self).cache()@.contains_key((#[trigger] ids@[j])@)
                    ==> out.1@.contains(ids@[j]@),
            out.1.wf(),
            // closed events name visited, unlocked ids that left the cache
            forall|j: int|
                0 <= j < out.0@.len() && (#[trigger] out.0@[j]) is PositionClosed ==> !old(self).locked()@.contains(out.0@[j]->PositionClosed_0.id@) && !final(self).cache()@.contains_key(out.0@[j]->PositionClosed_0.id@) && (exists|jj: int|
                    0 <= jj < ids@.len() && (#[trigger] ids@[jj])@ == out.0@[
                        j
                    ]->PositionClosed_0.id@),
            // every visited position that left the cache went with a closed event
            forall|j: int|
                0 <= j < ids@.len() && old(self).cache()@.contains_key((#[trigger] ids@[j])@)
                    && !old(self).locked()@.contains(ids@[j]@) && !final(self).cache()@.contains_key(ids@[j]@) ==> (exists|jj: int|
                    0 <= jj < out.0@.len() && (#[trigger] out.0@[jj]) is PositionClosed && out.0@[
                        jj
                    ]->PositionClosed_0.id@ == ids@[j]@),
            // no wallet-level events come out of the scan
            forall|j: int| 0 <= j < out.0@.len() ==> !((#[trigger] out.0@[j]) is WalletMarginCall),
            // every event names a visited, previously unlocked id and its
            // payload matches that position's step
            spec_events_sound(
                old(self).cache()@,
                final(self).cache()@,
                old(self).locked()@,
                final(self).locked()@,
                ids@.map_values(|p: PositionId| p@),
                ids@.len() as int,
                *bidask,
                old(self).spec_pnl_accuracy(),
                out.0@,
            ),
            // an activation, a refreshed margin call and a new lock each
            // come with their event
            spec_events_complete(
                old(self).cache()@,
                final(self).cache()@,
                old(self).locked()@,
                final(self).locked()@,
                ids@.map_values(|p: PositionId| p@),
                ids@.len() as int,
                *bidask,
                out.0@,
            ),
            spec_closed_once(out.0@),
            // the tick sum law: scratch holds, per wallet, the saturating sum
            // of the surviving active top-up-enabled positions' profit-and-loss
            scan_scratch_inv(
                final(self).scratch_pnls()@,
                old(self).cache()@,
                final(self).cache()@,
                ids@.map_values(|p: PositionId| p@),
                old(self).locked()@,
                ids@.len() as int,
            ),
    {
        let ghost instr = bidask.instrument@;
        let ghost sids = ids@.map_values(|p: PositionId| p@);
        let ghost cb = old(self).cache()@;
        let ghost lb = old(self).locked()@;
        let ghost acc = old(self).spec_pnl_accuracy();
        let mut events: Vec<PositionMonitoringEvent> = Vec::new();
        let mut new_items: SymSet<PositionId> = SymSet::empty();
        let mut wallets_to_remove: Vec<WalletId> = Vec::new();
        let n = ids.len();
        let mut i: usize = 0;
        proof {
            assert(sids.take(0) =~= Seq::<Seq<u8>>::empty());
        }
        while i < n
            invariant
                bidask.wf(),
                instr == bidask.instrument@,
                sids == ids@.map_values(|p: PositionId| p@),
                cb == old(self).cache()@,
                lb == old(self).locked()@,
                acc == old(self).spec_pnl_accuracy(),
                spec_events_sound(
                    cb,
                    self.cache()@,
                    lb,
                    self.locked()@,
                    sids,
                    i as int,
                    *bidask,
                    acc,
                    events@,
                ),
                spec_events_complete(
                    cb,
                    self.cache()@,
                    lb,
                    self.locked()@,
                    sids,
                    i as int,
                    *bidask,
                    events@,
                ),
                spec_closed_once(events@),
                i <= n,
                n == ids@.len(),
                forall|j1: int, j2: int|
                    0 <= j1 < j2 < ids@.len() ==> (#[trigger] ids@[j1])@ != (
                    #[trigger] ids@[j2])@,
                self.scan_ok(instr),
                self.wallets() == old(self).wallets(),
                self.wallet_index() == old(self).wallet_index(),
                self.ids_index() == old(self).ids_index(),
                self.spec_cancel_top_up_price_change_percent() == old(self).spec_cancel_top_up_price_change_percent(),
                self.spec_cancel_top_up_delay() == old(self).spec_cancel_top_up_delay(),
                self.spec_pnl_accuracy() == old(self).spec_pnl_accuracy(),
                self.spec_wallet_monitoring_enabled() == old(self).spec_wallet_monitoring_enabled(),
                forall|id: Seq<u8>|
                    #[trigger] old(self).locked()@.contains(id) ==> self.locked()@.contains(id),
                forall|id: Seq<u8>|
                    #[trigger] self.locked()@.contains(id) ==> old(self).locked()@.contains(id)
                        || (exists|j: int| 0 <= j < i && (#[trigger] ids@[j])@ == id),
                forall|id: Seq<u8>|
                    #[trigger] old(self).locked()@.contains(id) ==> self.cache()@.contains_key(
                        id,
                    ) && self.cache()@[id] == old(self).cache()@[id],
                forall|id: Seq<u8>|
                    #[trigger] old(self).cache()@.contains_key(id) && !(exists|j: int|
                        0 <= j < i && (#[trigger] ids@[j])@ == id) ==> self.cache()@.contains_key(
                        id,
                    ) && self.cache()@[id] == old(self).cache()@[id],
                forall|id: Seq<u8>|
                    #[trigger] self.cache()@.contains_key(id) ==> old(self).cache()@.contains_key(
                        id,
                    ),
                forall|j: int|
                    0 <= j < i && old(self).cache()@.contains_key((#[trigger] ids@[j])@)
                        && !old(self).locked()@.contains(ids@[j]@) ==> spec_step_outcome(
                        old(self).cache()@[ids@[j]@],
                        *bidask,
                        old(self).spec_cancel_top_up_price_change_percent(),
                        old(self).spec_cancel_top_up_delay(),
                        if self.cache()@.contains_key(ids@[j]@) {
                            Some(self.cache()@[ids@[j]@])
                        } else {
                            None
                        },
                        self.locked()@.contains(ids@[j]@),
                    ),
                new_items.wf(),
                forall|id: Seq<u8>|
                    #[trigger] new_items@.contains(id) ==> self.cache()@.contains_key(id) && (
                    exists|j: int| 0 <= j < i && (#[trigger] ids@[j])@ == id),
                forall|j: int|
                    0 <= j < i && self.cache()@.contains_key((#[trigger] ids@[j])@)
                        ==> new_items@.contains(ids@[j]@),
                forall|j: int|
                    0 <= j < events@.len() && (#[trigger] events@[j]) is PositionClosed ==> !old(self).locked()@.contains(events@[j]->PositionClosed_0.id@) && !self.cache()@
                        .contains_key(events@[j]->PositionClosed_0.id@) && (exists|jj: int|
                        0 <= jj < i && (#[trigger] ids@[jj])@ == events@[
                            j
                        ]->PositionClosed_0.id@),
                forall|j: int|
                    0 <= j < events@.len() ==> !((#[trigger] events@[j]) is WalletMarginCall),
                scan_scratch_inv(
                    self.scratch_pnls()@,
                    old(self).cache()@,
                    self.cache()@,
                    sids,
                    old(self).locked()@,
                    i as int,
                ),
                scan_closed_complete(
                    old(self).cache()@,
                    self.cache()@,
                    old(self).locked()@,
                    events@,
                    ids@,
                    i as int,
                ),
            decreases n - i,
        {
            let ghost s0 = *self;
            let ghost s0_events = events@;
            let id = &ids[i];
            proof {
                assert(sids[i as int] == id@);
                assert forall|j: int| 0 <= j < i implies #[trigger] sids[j] != sids[
                    i as int
                ] by {
                    assert(sids[j] == ids@[j]@);
                    assert((#[trigger] ids@[j])@ != ids@[i as int]@);
                }
            }
            if self.locked_ids.contains(id) {
                new_items.insert(id.key_dup());
                proof {
                    assert(!(exists|j2: int| 0 <= j2 < i && (#[trigger] ids@[j2])@ == sids[
                        i as int
                    ]));
                    assert(old(self).locked()@.contains(sids[i as int]));
                    lemma_scratch_step_skip(
                        old(self).cache()@,
                        s0.cache()@,
                        self.cache()@,
                        self.scratch_pnls()@,
                        sids,
                        old(self).locked()@,
                        i as int,
                    );
                    assert(scan_scratch_inv(
                        self.scratch_pnls()@,
                        old(self).cache()@,
                        self.cache()@,
                        sids,
                        old(self).locked()@,
                        i as int + 1,
                    ));
                    assert(events@ == s0_events);
                    lemma_scan_visit_events(
                        cb,
                        s0.cache()@,
                        self.cache()@,
                        lb,
                        s0.locked()@,
                        self.locked()@,
                        sids,
                        i as int,
                        *bidask,
                        acc,
                        s0_events,
                        events@,
                    );
                }
            } else {
                let removed = self.positions_cache.remove(id);
                match removed {
                    None => {
                        proof {
                            assert(self.cache()@ =~= s0.cache()@);
                            assert(!(exists|j2: int|
                                0 <= j2 < i && (#[trigger] ids@[j2])@ == sids[i as int]));
                            assert(!old(self).cache()@.contains_key(sids[i as int]));
                            assert(events@ == s0_events);
                            assert(!self.locked()@.contains(sids[i as int]));
                            lemma_scan_visit_events(
                                cb,
                                s0.cache()@,
                                self.cache()@,
                                lb,
                                s0.locked()@,
                                self.locked()@,
                                sids,
                                i as int,
                                *bidask,
                                acc,
                                s0_events,
                                events@,
                            );
                            lemma_scratch_step_skip(
                                old(self).cache()@,
                                s0.cache()@,
                                self.cache()@,
                                self.scratch_pnls()@,
                                sids,
                                old(self).locked()@,
                                i as int,
                            );
                                            assert(scan_scratch_inv(
                                                self.scratch_pnls()@,
                                                old(self).cache()@,
                                                self.cache()@,
                                                sids,
                                                old(self).locked()@,
                                                i as int + 1,
                                            ));
                        }
                    },
                    Some(position) => {
                        let ghost idb = id@;
                        match position {
                            Position::Closed(c) => {
                                let ghost cid = c.id@;
                                let ghost cg = c;
                                events.push(PositionMonitoringEvent::PositionClosed(c));
                                proof {
                                    assert(cid == idb);
                                    assert(events@.last() is PositionClosed
                                        && events@.last()->PositionClosed_0.id@ == idb);
                                    assert(events@[events@.len() - 1] == events@.last());
                                    assert(!self.cache()@.contains_key(idb));
                                    assert(!(exists|j2: int|
                                        0 <= j2 < i && (#[trigger] ids@[j2])@ == idb));
                                    assert(old(self).cache()@.contains_key(idb));
                                    assert(old(self).cache()@[idb] == s0.cache()@[idb]);
                                    assert(cb[idb] is Closed && cg == cb[idb]->Closed_0);
                                    assert(!lb.contains(idb)) by {
                                        if lb.contains(idb) {
                                            assert(s0.locked()@.contains(idb));
                                        }
                                    }
                                    assert(!self.locked()@.contains(idb));
                                    assert forall|j: int|
                                        s0_events.len() <= j < events@.len()
                                        implies spec_event_sound(
                                        cb,
                                        self.cache()@,
                                        lb,
                                        self.locked()@,
                                        sids,
                                        i as int + 1,
                                        *bidask,
                                        acc,
                                        #[trigger] events@[j],
                                    ) by {
                                        assert(events@[j] == events@.last());
                                        assert(spec_visited(sids, i as int + 1, idb)) by {
                                            assert(sids[i as int] == idb);
                                        }
                                    }
                                    lemma_scan_visit_events(
                                        cb,
                                        s0.cache()@,
                                        self.cache()@,
                                        lb,
                                        s0.locked()@,
                                        self.locked()@,
                                        sids,
                                        i as int,
                                        *bidask,
                                        acc,
                                        s0_events,
                                        events@,
                                    );
                                    lemma_scratch_step_skip(
                                        old(self).cache()@,
                                        s0.cache()@,
                                        self.cache()@,
                                        self.scratch_pnls()@,
                                        sids,
                                        old(self).locked()@,
                                        i as int,
                                    );
                                            assert(scan_scratch_inv(
                                                self.scratch_pnls()@,
                                                old(self).cache()@,
                                                self.cache()@,
                                                sids,
                                                old(self).locked()@,
                                                i as int + 1,
                                            ));
                                }
                            },
                            Position::Pending(mut p) => {
                                proof {
                                    assert(!(exists|j2: int|
                                        0 <= j2 < i && (#[trigger] ids@[j2])@ == idb));
                                    assert(old(self).cache()@.contains_key(idb));
                                    assert(old(self).cache()@[idb] == s0.cache()@[idb]);
                                    assert(old(self).cache()@[idb] is Pending);
                                }
                                p.update(bidask);
                                // In this model reservation is treated as
                                // available at order placement, so
                                // `can_activate` coincides with the price
                                // condition and the pending-reservation
                                // branch below is provably unreachable; it
                                // keeps the dispatch shape of the monitor.
                                if p.is_price_reached() {
                                    if p.can_activate() {
                                        let mut a = p.into_active();
                                        a.update(bidask);
                                        let snapshot = a.dup();
                                        events.push(
                                            PositionMonitoringEvent::PositionActivated(snapshot),
                                        );
                                        let ghost a2 = a;
                                        self.positions_cache.add(Position::Active(a));
                                        new_items.insert(id.key_dup());
                                        proof {
                                            assert(self.cache()@ =~= s0.cache()@.insert(
                                                idb,
                                                Position::Active(a2),
                                            ));
                                            assert(self.cache()@.contains_key(idb));
                                            assert(a2.id@ == idb);
                                            assert(!lb.contains(idb)) by {
                                                if lb.contains(idb) {
                                                    assert(s0.locked()@.contains(idb));
                                                }
                                            }
                                            assert(!self.locked()@.contains(idb));
                                            assert(events@.last() is PositionActivated
                                                && same_active(
                                                events@.last()->PositionActivated_0,
                                                a2,
                                            ));
                                            assert forall|j: int|
                                                s0_events.len() <= j < events@.len()
                                                implies spec_event_sound(
                                                cb,
                                                self.cache()@,
                                                lb,
                                                self.locked()@,
                                                sids,
                                                i as int + 1,
                                                *bidask,
                                                acc,
                                                #[trigger] events@[j],
                                            ) by {
                                                assert(events@[j] == events@.last());
                                                assert(spec_visited(sids, i as int + 1, idb))
                                                    by {
                                                    assert(sids[i as int] == idb);
                                                }
                                                assert(self.cache()@[idb] == Position::Active(
                                                    a2,
                                                ));
                                            }
                                            assert(events@[events@.len() - 1]
                                                is PositionActivated && events@[events@.len()
                                                - 1]->PositionActivated_0.id@ == idb);
                                            lemma_scan_visit_events(
                                                cb,
                                                s0.cache()@,
                                                self.cache()@,
                                                lb,
                                                s0.locked()@,
                                                self.locked()@,
                                                sids,
                                                i as int,
                                                *bidask,
                                                acc,
                                                s0_events,
                                                events@,
                                            );
                                            lemma_scratch_step_skip(
                                                old(self).cache()@,
                                                s0.cache()@,
                                                self.cache()@,
                                                self.scratch_pnls()@,
                                                sids,
                                                old(self).locked()@,
                                                i as int,
                                            );
                                            assert(scan_scratch_inv(
                                                self.scratch_pnls()@,
                                                old(self).cache()@,
                                                self.cache()@,
                                                sids,
                                                old(self).locked()@,
                                                i as int + 1,
                                            ));
                                        }
                                    } else {
                                        self.locked_ids.insert(id.key_dup());
                                        let pending_snapshot = p.dup();
                                        events.push(
                                            PositionMonitoringEvent::PositionLocked(
                                                PositionLockReason::ActivationPending(
                                                    pending_snapshot,
                                                ),
                                            ),
                                        );
                                        let ghost p2 = p;
                                        self.positions_cache.add(Position::Pending(p));
                                        new_items.insert(id.key_dup());
                                        proof {
                                            assert(self.cache()@ =~= s0.cache()@.insert(
                                                idb,
                                                Position::Pending(p2),
                                            ));
                                            assert(self.cache()@.contains_key(idb));
                                            assert(p2.id@ == idb);
                                            assert(!lb.contains(idb)) by {
                                                if lb.contains(idb) {
                                                    assert(s0.locked()@.contains(idb));
                                                }
                                            }
                                            assert(self.locked()@.contains(idb));
                                            assert(events@.last() is PositionLocked
                                                && lock_reason_id(
                                                events@.last()->PositionLocked_0,
                                            ) == idb);
                                            assert forall|j: int|
                                                s0_events.len() <= j < events@.len()
                                                implies spec_event_sound(
                                                cb,
                                                self.cache()@,
                                                lb,
                                                self.locked()@,
                                                sids,
                                                i as int + 1,
                                                *bidask,
                                                acc,
                                                #[trigger] events@[j],
                                            ) by {
                                                assert(events@[j] == events@.last());
                                                assert(spec_visited(sids, i as int + 1, idb))
                                                    by {
                                                    assert(sids[i as int] == idb);
                                                }
                                            }
                                            assert(events@[events@.len() - 1]
                                                is PositionLocked && lock_reason_id(
                                                events@[events@.len() - 1]->PositionLocked_0,
                                            ) == idb);
                                            lemma_scan_visit_events(
                                                cb,
                                                s0.cache()@,
                                                self.cache()@,
                                                lb,
                                                s0.locked()@,
                                                self.locked()@,
                                                sids,
                                                i as int,
                                                *bidask,
                                                acc,
                                                s0_events,
                                                events@,
                                            );
                                            lemma_scratch_step_skip(
                                                old(self).cache()@,
                                                s0.cache()@,
                                                self.cache()@,
                                                self.scratch_pnls()@,
                                                sids,
                                                old(self).locked()@,
                                                i as int,
                                            );
                                            assert(scan_scratch_inv(
                                                self.scratch_pnls()@,
                                                old(self).cache()@,
                                                self.cache()@,
                                                sids,
                                                old(self).locked()@,
                                                i as int + 1,
                                            ));
                                        }
                                    }
                                } else {
                                    let ghost p2 = p;
                                    self.positions_cache.add(Position::Pending(p));
                                    new_items.insert(id.key_dup());
                                    proof {
                                        assert(self.cache()@ =~= s0.cache()@.insert(
                                            idb,
                                            Position::Pending(p2),
                                        ));
                                        assert(self.cache()@.contains_key(idb));
                                        assert(self.cache()@[idb] is Pending);
                                        assert(events@ == s0_events);
                                        assert(!self.locked()@.contains(idb));
                                        lemma_scan_visit_events(
                                            cb,
                                            s0.cache()@,
                                            self.cache()@,
                                            lb,
                                            s0.locked()@,
                                            self.locked()@,
                                            sids,
                                            i as int,
                                            *bidask,
                                            acc,
                                            s0_events,
                                            events@,
                                        );
                                        lemma_scratch_step_skip(
                                            old(self).cache()@,
                                            s0.cache()@,
                                            self.cache()@,
                                            self.scratch_pnls()@,
                                            sids,
                                            old(self).locked()@,
                                            i as int,
                                        );
                                            assert(scan_scratch_inv(
                                                self.scratch_pnls()@,
                                                old(self).cache()@,
                                                self.cache()@,
                                                sids,
                                                old(self).locked()@,
                                                i as int + 1,
                                            ));
                                    }
                                }
                            },
                            Position::Active(mut a) => {
                                proof {
                                    assert(!(exists|j2: int|
                                        0 <= j2 < i && (#[trigger] ids@[j2])@ == idb));
                                    assert(old(self).cache()@.contains_key(idb));
                                    assert(old(self).cache()@[idb] == s0.cache()@[idb]);
                                    assert(old(self).cache()@[idb] is Active);
                                }
                                a.update(bidask);
                                let ghost ar = a;
                                let had_margin_call = a.is_margin_call();
                                if had_margin_call {
                                    let margin_snapshot = a.dup();
                                    events.push(
                                        PositionMonitoringEvent::PositionMarginCall(
                                            margin_snapshot,
                                        ),
                                    );
                                }
                                let reason = a.determine_close_reason();
                                match reason {
                                    Some(reason) => {
                                        let accuracy = self.pnl_accuracy;
                                        let wallet_id = a.order.wallet_id.key_dup();
                                        let c = a.close(reason, accuracy);
                                        if self.wallet_monitoring_enabled
                                            && !self.positions_cache.contains_by_wallet_id(
                                            &wallet_id,
                                        ) {
                                            wallets_to_remove.push(wallet_id);
                                        }
                                        let ghost cid = c.id@;
                                        events.push(
                                            PositionMonitoringEvent::PositionClosed(c),
                                        );
                                        proof {
                                            assert(cid == idb);
                                            assert(ar.id@ == idb);
                                            assert(events@.last() is PositionClosed
                                                && events@.last()->PositionClosed_0.id@ == idb);
                                            assert(events@[events@.len() - 1]
                                                == events@.last());
                                            assert(!self.cache()@.contains_key(idb));
                                            assert(!lb.contains(idb)) by {
                                                if lb.contains(idb) {
                                                    assert(s0.locked()@.contains(idb));
                                                }
                                            }
                                            assert(!self.locked()@.contains(idb));
                                            assert(cb[idb]->Active_0.spec_updated(
                                                ar,
                                                *bidask,
                                            ));
                                            assert(ar.spec_close_reason() is Some);
                                            assert(acc == s0.spec_pnl_accuracy());
                                            assert(ar.spec_closed_into(
                                                events@.last()->PositionClosed_0,
                                                ar.spec_close_reason()->0,
                                                acc,
                                            ));
                                            if had_margin_call {
                                                assert(events@[s0_events.len() as int]
                                                    is PositionMarginCall && same_active(
                                                    events@[s0_events.len() as int]
                                                        ->PositionMarginCall_0,
                                                    ar,
                                                ) && ar.spec_is_margin_call());
                                            }
                                            assert forall|j: int|
                                                s0_events.len() <= j < events@.len()
                                                implies spec_event_sound(
                                                cb,
                                                self.cache()@,
                                                lb,
                                                self.locked()@,
                                                sids,
                                                i as int + 1,
                                                *bidask,
                                                acc,
                                                #[trigger] events@[j],
                                            ) by {
                                                assert(spec_visited(sids, i as int + 1, idb))
                                                    by {
                                                    assert(sids[i as int] == idb);
                                                }
                                                if events@[j] is PositionMarginCall {
                                                    assert(j == s0_events.len() as int);
                                                    assert(same_active(
                                                        events@[j]->PositionMarginCall_0,
                                                        ar,
                                                    ));
                                                    assert(events@[
                                                        j
                                                    ]->PositionMarginCall_0.id@ == idb);
                                                } else {
                                                    assert(events@[j] == events@.last());
                                                }
                                            }
                                            assert(cb.contains_key(idb) && !lb.contains(idb)
                                                && cb[idb] is Active && (exists|
                                                a2x: ActivePosition,
                                            |
                                                (#[trigger] cb[idb]->Active_0.spec_updated(
                                                    a2x,
                                                    *bidask,
                                                )) && a2x.spec_is_margin_call()) ==> (exists|
                                                jj: int,
                                            |
                                                0 <= jj < events@.len() && (#[trigger] events@[
                                                    jj
                                                ]) is PositionMarginCall && events@[
                                                    jj
                                                ]->PositionMarginCall_0.id@ == idb)) by {
                                                if (exists|a2x: ActivePosition|
                                                    (#[trigger] cb[idb]->Active_0.spec_updated(
                                                        a2x,
                                                        *bidask,
                                                    )) && a2x.spec_is_margin_call()) {
                                                    let a2x = choose|a2x: ActivePosition|
                                                        (#[trigger] cb[
                                                            idb
                                                        ]->Active_0.spec_updated(a2x, *bidask))
                                                            && a2x.spec_is_margin_call();
                                                    lemma_refresh_margin_agrees(
                                                        cb[idb]->Active_0,
                                                        a2x,
                                                        ar,
                                                        *bidask,
                                                    );
                                                    assert(had_margin_call);
                                                    assert(events@[s0_events.len() as int]
                                                        is PositionMarginCall && events@[
                                                        s0_events.len() as int
                                                    ]->PositionMarginCall_0.id@ == idb);
                                                }
                                            }
                                            lemma_scan_visit_events(
                                                cb,
                                                s0.cache()@,
                                                self.cache()@,
                                                lb,
                                                s0.locked()@,
                                                self.locked()@,
                                                sids,
                                                i as int,
                                                *bidask,
                                                acc,
                                                s0_events,
                                                events@,
                                            );
                                            lemma_scratch_step_skip(
                                                old(self).cache()@,
                                                s0.cache()@,
                                                self.cache()@,
                                                self.scratch_pnls()@,
                                                sids,
                                                old(self).locked()@,
                                                i as int,
                                            );
                                            assert(scan_scratch_inv(
                                                self.scratch_pnls()@,
                                                old(self).cache()@,
                                                self.cache()@,
                                                sids,
                                                old(self).locked()@,
                                                i as int + 1,
                                            ));
                                        }
                                    },
                                    None => {
                                        if a.is_top_up() {
                                            a.lock_top_up();
                                            self.locked_ids.insert(id.key_dup());
                                            let lock_snapshot = a.dup();
                                            events.push(
                                                PositionMonitoringEvent::PositionLocked(
                                                    PositionLockReason::TopUp(lock_snapshot),
                                                ),
                                            );
                                            proof {
                                                assert(events@.last() is PositionLocked
                                                    && lock_reason_id(
                                                    events@.last()->PositionLocked_0,
                                                ) == idb);
                                            }
                                        } else {
                                            let canceled = a.try_cancel_top_ups(
                                                self.cancel_top_up_price_change_percent,
                                                self.cancel_top_up_delay,
                                            );
                                            if canceled.len() > 0 {
                                                self.locked_ids.insert(id.key_dup());
                                                let lock_snapshot = a.dup();
                                                events.push(
                                                    PositionMonitoringEvent::PositionLocked(
                                                        PositionLockReason::TopUpsCanceled(
                                                            (lock_snapshot, canceled),
                                                        ),
                                                    ),
                                                );
                                                proof {
                                                    assert(events@.last() is PositionLocked
                                                        && lock_reason_id(
                                                        events@.last()->PositionLocked_0,
                                                    ) == idb);
                                                }
                                            }
                                        }
                                        if a.order.top_up_enabled {
                                            let w = a.order.wallet_id.key_dup();
                                            let cur = self.top_up_pnls_by_wallet_ids.get(&w);
                                            let nv = match cur {
                                                Some(v) => crate::numeric::sat_add(
                                                    *v,
                                                    a.current_pnl,
                                                ),
                                                None => a.current_pnl,
                                            };
                                            self.top_up_pnls_by_wallet_ids.insert(
                                                w.key_dup(),
                                                nv,
                                            );
                                            let prev = self.top_up_reserved_by_wallet_ids
                                                .remove(&w);
                                            let mut rm = match prev {
                                                Some(m) => m,
                                                None => SymMap::empty(),
                                            };
                                            crate::assets::merge_amounts(
                                                &mut rm,
                                                &a.total_invest_assets,
                                            );
                                            self.top_up_reserved_by_wallet_ids.insert(w, rm);
                                        }
                                        let ghost a3 = a;
                                        self.positions_cache.add(Position::Active(a));
                                        new_items.insert(id.key_dup());
                                        proof {
                                            assert(self.cache()@ =~= s0.cache()@.insert(
                                                idb,
                                                Position::Active(a3),
                                            ));
                                            assert(self.cache()@.contains_key(idb));
                                            assert(ar.id@ == idb);
                                            assert(!lb.contains(idb)) by {
                                                if lb.contains(idb) {
                                                    assert(s0.locked()@.contains(idb));
                                                }
                                            }
                                            assert(cb[idb]->Active_0.spec_updated(
                                                ar,
                                                *bidask,
                                            ));
                                            assert forall|j: int|
                                                s0_events.len() <= j < events@.len()
                                                implies spec_event_sound(
                                                cb,
                                                self.cache()@,
                                                lb,
                                                self.locked()@,
                                                sids,
                                                i as int + 1,
                                                *bidask,
                                                acc,
                                                #[trigger] events@[j],
                                            ) by {
                                                assert(spec_visited(sids, i as int + 1, idb))
                                                    by {
                                                    assert(sids[i as int] == idb);
                                                }
                                                if events@[j] is PositionMarginCall {
                                                    assert(j == s0_events.len() as int);
                                                    assert(same_active(
                                                        events@[j]->PositionMarginCall_0,
                                                        ar,
                                                    ));
                                                    assert(events@[
                                                        j
                                                    ]->PositionMarginCall_0.id@ == idb);
                                                    assert(ar.spec_is_margin_call());
                                                } else {
                                                    assert(events@[j] is PositionLocked);
                                                    assert(lock_reason_id(
                                                        events@[j]->PositionLocked_0,
                                                    ) == idb);
                                                    assert(self.locked()@.contains(idb));
                                                }
                                            }
                                            assert(cb.contains_key(idb) && !lb.contains(idb)
                                                && cb[idb] is Active && (exists|
                                                a2x: ActivePosition,
                                            |
                                                (#[trigger] cb[idb]->Active_0.spec_updated(
                                                    a2x,
                                                    *bidask,
                                                )) && a2x.spec_is_margin_call()) ==> (exists|
                                                jj: int,
                                            |
                                                0 <= jj < events@.len() && (#[trigger] events@[
                                                    jj
                                                ]) is PositionMarginCall && events@[
                                                    jj
                                                ]->PositionMarginCall_0.id@ == idb)) by {
                                                if (exists|a2x: ActivePosition|
                                                    (#[trigger] cb[idb]->Active_0.spec_updated(
                                                        a2x,
                                                        *bidask,
                                                    )) && a2x.spec_is_margin_call()) {
                                                    let a2x = choose|a2x: ActivePosition|
                                                        (#[trigger] cb[
                                                            idb
                                                        ]->Active_0.spec_updated(a2x, *bidask))
                                                            && a2x.spec_is_margin_call();
                                                    lemma_refresh_margin_agrees(
                                                        cb[idb]->Active_0,
                                                        a2x,
                                                        ar,
                                                        *bidask,
                                                    );
                                                    assert(had_margin_call);
                                                    assert(events@[s0_events.len() as int]
                                                        is PositionMarginCall && events@[
                                                        s0_events.len() as int
                                                    ]->PositionMarginCall_0.id@ == idb);
                                                }
                                            }
                                            assert(!lb.contains(idb)
                                                && self.locked()@.contains(idb) ==> (exists|
                                                jj: int,
                                            |
                                                0 <= jj < events@.len() && (#[trigger] events@[
                                                    jj
                                                ]) is PositionLocked && lock_reason_id(
                                                    events@[jj]->PositionLocked_0,
                                                ) == idb)) by {
                                                if self.locked()@.contains(idb) {
                                                    assert(events@.last() is PositionLocked
                                                        && lock_reason_id(
                                                        events@.last()->PositionLocked_0,
                                                    ) == idb);
                                                }
                                            }
                                            lemma_scan_visit_events(
                                                cb,
                                                s0.cache()@,
                                                self.cache()@,
                                                lb,
                                                s0.locked()@,
                                                self.locked()@,
                                                sids,
                                                i as int,
                                                *bidask,
                                                acc,
                                                s0_events,
                                                events@,
                                            );
                                            if a3.order.top_up_enabled {
                                                lemma_scratch_step_active(
                                                    old(self).cache()@,
                                                    s0.cache()@,
                                                    self.cache()@,
                                                    s0.scratch_pnls()@,
                                                    self.scratch_pnls()@,
                                                    sids,
                                                    old(self).locked()@,
                                                    i as int,
                                                );
                                            assert(scan_scratch_inv(
                                                self.scratch_pnls()@,
                                                old(self).cache()@,
                                                self.cache()@,
                                                sids,
                                                old(self).locked()@,
                                                i as int + 1,
                                            ));
                                            } else {
                                                lemma_scratch_step_skip(
                                                    old(self).cache()@,
                                                    s0.cache()@,
                                                    self.cache()@,
                                                    self.scratch_pnls()@,
                                                    sids,
                                                    old(self).locked()@,
                                                    i as int,
                                                );
                                            assert(scan_scratch_inv(
                                                self.scratch_pnls()@,
                                                old(self).cache()@,
                                                self.cache()@,
                                                sids,
                                                old(self).locked()@,
                                                i as int + 1,
                                            ));
                                            }
                                        }
                                    },
                                }
                            },
                        }
                    },
                }
            }
            proof {
                assert forall|id2: Seq<u8>|
                    old(self).cache()@.contains_key(id2) && !(exists|j: int|
                        0 <= j < i + 1 && (#[trigger] ids@[j])@ == id2)
                    implies self.cache()@.contains_key(id2) && self.cache()@[id2] == old(self).cache()@[id2] by {
                    assert(!(exists|j: int| 0 <= j < i && (#[trigger] ids@[j])@ == id2));
                    assert(s0.cache()@.contains_key(id2)
                        && s0.cache()@[id2] == old(self).cache()@[id2]);
                    assert(id2 != ids@[i as int]@);
                }
                assert(scan_closed_complete(
                    old(self).cache()@,
                    self.cache()@,
                    old(self).locked()@,
                    events@,
                    ids@,
                    i as int + 1,
                )) by {
                    assert forall|j: int|
                        0 <= j < i + 1 && old(self).cache()@.contains_key((#[trigger] ids@[j])@)
                            && !old(self).locked()@.contains(ids@[j]@)
                            && !self.cache()@.contains_key(ids@[j]@) implies (exists|jj: int|
                        0 <= jj < events@.len() && (#[trigger] events@[jj]) is PositionClosed
                            && events@[jj]->PositionClosed_0.id@ == ids@[j]@) by {
                        if j < i {
                            assert(ids@[j]@ != ids@[i as int]@);
                            assert(scan_closed_complete(
                                old(self).cache()@,
                                s0.cache()@,
                                old(self).locked()@,
                                s0_events,
                                ids@,
                                i as int,
                            ));
                            assert(!s0.cache()@.contains_key(ids@[j]@));
                            let jj0 = choose|jj: int|
                                0 <= jj < s0_events.len() && (#[trigger] s0_events[jj])
                                    is PositionClosed && s0_events[jj]->PositionClosed_0.id@
                                    == ids@[j]@;
                            assert(events@[jj0] == s0_events[jj0]);
                        } else {
                            assert(!(exists|jj2: int|
                                0 <= jj2 < i && (#[trigger] ids@[jj2])@ == ids@[j]@));
                        }
                    }
                }
            }
            i = i + 1;
        }
        proof {
            assert(sids.take(n as int) =~= sids);
        }
        (events, new_items, wallets_to_remove)
    }
}

/// The scratch sums depend only on the entries of the visited ids.
proof fn lemma_scratch_congruence(
    m_before: Map<Seq<u8>, Position>,
    m1: Map<Seq<u8>, Position>,
    m2: Map<Seq<u8>, Position>,
    processed: Seq<Seq<u8>>,
    locked_before: Set<Seq<u8>>,
)
    requires
        forall|j: int|
            0 <= j < processed.len() ==> m1.contains_key(#[trigger] processed[j])
                == m2.contains_key(processed[j]) && (m1.contains_key(processed[j])
                ==> m1[processed[j]] == m2[processed[j]]),
    ensures
        forall|w: Seq<u8>|
            spec_scratch_pnl(m_before, m1, processed, locked_before, w) == spec_scratch_pnl(
                m_before,
                m2,
                processed,
                locked_before,
                w,
            ),
        forall|w: Seq<u8>|
            spec_scratch_touched(m_before, m1, processed, locked_before, w) == spec_scratch_touched(
                m_before,
                m2,
                processed,
                locked_before,
                w,
            ),
    decreases processed.len(),
{
    if processed.len() > 0 {
        assert forall|j: int|
            0 <= j < processed.drop_last().len() implies m1.contains_key(
            #[trigger] processed.drop_last()[j],
        ) == m2.contains_key(processed.drop_last()[j]) && (m1.contains_key(
            processed.drop_last()[j],
        ) ==> m1[processed.drop_last()[j]] == m2[processed.drop_last()[j]]) by {
            assert(processed.drop_last()[j] == processed[j]);
        }
        lemma_scratch_congruence(m_before, m1, m2, processed.drop_last(), locked_before);
        assert(processed.last() == processed[processed.len() - 1]);
        assert forall|w: Seq<u8>|
            spec_scratch_pnl(m_before, m1, processed, locked_before, w) == spec_scratch_pnl(
                m_before,
                m2,
                processed,
                locked_before,
                w,
            ) && spec_scratch_touched(m_before, m1, processed, locked_before, w) == spec_scratch_touched(
                m_before,
                m2,
                processed,
                locked_before,
                w,
            ) by {
            assert(spec_scratch_pnl(m_before, m1, processed.drop_last(), locked_before, w)
                == spec_scratch_pnl(m_before, m2, processed.drop_last(), locked_before, w));
            assert(spec_scratch_touched(m_before, m1, processed.drop_last(), locked_before, w)
                == spec_scratch_touched(m_before, m2, processed.drop_last(), locked_before, w));
        }
    }
}

/// When the id visited at step `i` contributes nothing to any wallet's
/// scratch sum, the sums over the first `i + 1` ids (in the new cache)
/// equal the sums over the first `i` (in the old cache).
proof fn lemma_scratch_step_skip(
    m_before: Map<Seq<u8>, Position>,
    m_pre: Map<Seq<u8>, Position>,
    m_post: Map<Seq<u8>, Position>,
    sp: Map<Seq<u8>, i64>,
    sids: Seq<Seq<u8>>,
    locked_before: Set<Seq<u8>>,
    i: int,
)
    requires
        0 <= i < sids.len(),
        forall|id: Seq<u8>|
            id != sids[i] ==> #[trigger] m_pre.contains_key(id) == m_post.contains_key(id) && (
            m_pre.contains_key(id) ==> m_pre[id] == m_post[id]),
        forall|j: int| 0 <= j < i ==> #[trigger] sids[j] != sids[i],
        !spec_scratch_contributes(m_before, m_post, locked_before, sids[i]),
        forall|w: Seq<u8>|
            #[trigger] sp.contains_key(w) == spec_scratch_touched(
                m_before,
                m_pre,
                sids.take(i),
                locked_before,
                w,
            ),
        forall|w: Seq<u8>|
            #[trigger] sp.contains_key(w) ==> sp[w] == spec_scratch_pnl(
                m_before,
                m_pre,
                sids.take(i),
                locked_before,
                w,
            ),
    ensures
        forall|w: Seq<u8>|
            #[trigger] sp.contains_key(w) == spec_scratch_touched(
                m_before,
                m_post,
                sids.take(i + 1),
                locked_before,
                w,
            ),
        forall|w: Seq<u8>|
            #[trigger] sp.contains_key(w) ==> sp[w] == spec_scratch_pnl(
                m_before,
                m_post,
                sids.take(i + 1),
                locked_before,
                w,
            ),
{
    assert forall|j: int|
        0 <= j < sids.take(i).len() implies m_pre.contains_key(
        #[trigger] sids.take(i)[j],
    ) == m_post.contains_key(sids.take(i)[j]) && (m_pre.contains_key(sids.take(i)[j])
        ==> m_pre[sids.take(i)[j]] == m_post[sids.take(i)[j]]) by {
        assert(sids.take(i)[j] == sids[j]);
        assert(sids[j] != sids[i]);
    }
    lemma_scratch_congruence(m_before, m_pre, m_post, sids.take(i), locked_before);
    assert forall|w: Seq<u8>|
        spec_scratch_pnl(m_before, m_post, sids.take(i + 1), locked_before, w)
            == spec_scratch_pnl(m_before, m_post, sids.take(i), locked_before, w)
            && spec_scratch_touched(m_before, m_post, sids.take(i + 1), locked_before, w)
            == spec_scratch_touched(m_before, m_post, sids.take(i), locked_before, w) by {
        let t = sids.take(i + 1);
        assert(t.drop_last() =~= sids.take(i));
        assert(t.last() == sids[i]);
    }
}

/// When the id visited at step `i` is a surviving active top-up-enabled
/// position, its wallet's scratch sum grows by its profit-and-loss and all
/// other wallets' sums stay.
proof fn lemma_scratch_step_active(
    m_before: Map<Seq<u8>, Position>,
    m_pre: Map<Seq<u8>, Position>,
    m_post: Map<Seq<u8>, Position>,
    scratch_pre: Map<Seq<u8>, i64>,
    scratch_post: Map<Seq<u8>, i64>,
    sids: Seq<Seq<u8>>,
    locked_before: Set<Seq<u8>>,
    i: int,
)
    requires
        0 <= i < sids.len(),
        forall|id: Seq<u8>|
            id != sids[i] ==> #[trigger] m_pre.contains_key(id) == m_post.contains_key(id) && (
            m_pre.contains_key(id) ==> m_pre[id] == m_post[id]),
        forall|j: int| 0 <= j < i ==> #[trigger] sids[j] != sids[i],
        spec_scratch_contributes(m_before, m_post, locked_before, sids[i]),
        forall|w: Seq<u8>|
            #[trigger] scratch_pre.contains_key(w) == spec_scratch_touched(
                m_before,
                m_pre,
                sids.take(i),
                locked_before,
                w,
            ),
        forall|w: Seq<u8>|
            #[trigger] scratch_pre.contains_key(w) ==> scratch_pre[w] == spec_scratch_pnl(
                m_before,
                m_pre,
                sids.take(i),
                locked_before,
                w,
            ),
        scratch_post == scratch_pre.insert(
            m_post[sids[i]]->Active_0.order.wallet_id@,
            crate::numeric::sat_add_spec(
                (if scratch_pre.contains_key(m_post[sids[i]]->Active_0.order.wallet_id@) {
                    scratch_pre[m_post[sids[i]]->Active_0.order.wallet_id@] as int
                } else {
                    0
                }),
                m_post[sids[i]]->Active_0.current_pnl as int,
            ) as i64,
        ),
    ensures
        forall|w: Seq<u8>|
            #[trigger] scratch_post.contains_key(w) == spec_scratch_touched(
                m_before,
                m_post,
                sids.take(i + 1),
                locked_before,
                w,
            ),
        forall|w: Seq<u8>|
            #[trigger] scratch_post.contains_key(w) ==> scratch_post[w] == spec_scratch_pnl(
                m_before,
                m_post,
                sids.take(i + 1),
                locked_before,
                w,
            ),
{
    let wb = m_post[sids[i]]->Active_0.order.wallet_id@;
    assert forall|j: int|
        0 <= j < sids.take(i).len() implies m_pre.contains_key(
        #[trigger] sids.take(i)[j],
    ) == m_post.contains_key(sids.take(i)[j]) && (m_pre.contains_key(sids.take(i)[j])
        ==> m_pre[sids.take(i)[j]] == m_post[sids.take(i)[j]]) by {
        assert(sids.take(i)[j] == sids[j]);
        assert(sids[j] != sids[i]);
    }
    lemma_scratch_congruence(m_before, m_pre, m_post, sids.take(i), locked_before);
    assert forall|w: Seq<u8>| true implies #[trigger] spec_scratch_touched(
        m_before,
        m_post,
        sids.take(i + 1),
        locked_before,
        w,
    ) == (spec_scratch_touched(m_before, m_post, sids.take(i), locked_before, w) || w == wb)
        && spec_scratch_pnl(m_before, m_post, sids.take(i + 1), locked_before, w) == (if w == wb {
        crate::numeric::sat_add_spec(
            spec_scratch_pnl(m_before, m_post, sids.take(i), locked_before, w),
            m_post[sids[i]]->Active_0.current_pnl as int,
        )
    } else {
        spec_scratch_pnl(m_before, m_post, sids.take(i), locked_before, w)
    }) by {
        let t = sids.take(i + 1);
        assert(t.drop_last() =~= sids.take(i));
        assert(t.last() == sids[i]);
    }
    assert forall|w: Seq<u8>| #[trigger] scratch_post.contains_key(w) == spec_scratch_touched(
        m_before,
        m_post,
        sids.take(i + 1),
        locked_before,
        w,
    ) by {
        let t = sids.take(i + 1);
        assert(t.drop_last() =~= sids.take(i));
        assert(t.last() == sids[i]);
        if w != wb {
            assert(spec_scratch_touched(m_before, m_post, sids.take(i), locked_before, w)
                == spec_scratch_touched(m_before, m_pre, sids.take(i), locked_before, w));
        }
    }
    assert forall|w: Seq<u8>| #[trigger] scratch_post.contains_key(w)
        implies scratch_post[w] == spec_scratch_pnl(
        m_before,
        m_post,
        sids.take(i + 1),
        locked_before,
        w,
    ) by {
        let t = sids.take(i + 1);
        assert(t.drop_last() =~= sids.take(i));
        assert(t.last() == sids[i]);
        if w != wb {
            assert(scratch_pre.contains_key(w));
            assert(spec_scratch_pnl(m_before, m_post, sids.take(i), locked_before, w)
                == spec_scratch_pnl(m_before, m_pre, sids.take(i), locked_before, w));
        } else {
            if !scratch_pre.contains_key(wb) {
                assert(!spec_scratch_touched(m_before, m_pre, sids.take(i), locked_before, wb));
                assert(!spec_scratch_touched(m_before, m_post, sids.take(i), locked_before, wb));
                lemma_scratch_untouched_zero(m_before, m_post, sids.take(i), locked_before, wb);
            }
        }
    }
}

/// A wallet that no visited position contributed to has a zero sum.
proof fn lemma_scratch_untouched_zero(
    cache_before: Map<Seq<u8>, Position>,
    cache_now: Map<Seq<u8>, Position>,
    processed: Seq<Seq<u8>>,
    locked_before: Set<Seq<u8>>,
    w: Seq<u8>,
)
    requires
        !spec_scratch_touched(cache_before, cache_now, processed, locked_before, w),
    ensures
        spec_scratch_pnl(cache_before, cache_now, processed, locked_before, w) == 0,
    decreases processed.len(),
{
    if processed.len() > 0 {
        lemma_scratch_untouched_zero(
            cache_before,
            cache_now,
            processed.drop_last(),
            locked_before,
            w,
        );
    }
}


/// A step never changes a surviving position's order.
proof fn lemma_step_preserves_order(
    p: Position,
    q: BidAsk,
    pct: i64,
    delay: i64,
    after: Option<Position>,
    now_locked: bool,
)
    requires
        spec_step_outcome(p, q, pct, delay, after, now_locked),
        after is Some,
    ensures
        after->0.spec_order() == p.spec_order(),
{
    match p {
        Position::Closed(_) => {},
        Position::Pending(p0) => {
            let p2 = choose|p2: PendingPosition| #[trigger] p0.spec_updated(p2, q) && (
            if p2.spec_price_reached() {
                exists|a1: ActivePosition, a2: ActivePosition|
                    #[trigger] p2.spec_activated(a1) && #[trigger] a1.spec_updated(a2, q)
                        && after == Some(Position::Active(a2)) && !now_locked
            } else {
                after == Some(Position::Pending(p2)) && !now_locked
            });
            if p2.spec_price_reached() {
                let (a1, a2) = choose|a1: ActivePosition, a2: ActivePosition|
                    #[trigger] p2.spec_activated(a1) && #[trigger] a1.spec_updated(a2, q)
                        && after == Some(Position::Active(a2)) && !now_locked;
                assert(a2.order == a1.order);
                assert(a1.order == p2.order);
                assert(p2.order == p0.order);
            }
        },
        Position::Active(a0) => {
            let a2 = choose|a2: ActivePosition| #[trigger] a0.spec_updated(a2, q) && (
            if a2.spec_close_reason() is Some {
                after is None && !now_locked
            } else if a2.spec_is_top_up() {
                after == Some(Position::Active(ActivePosition { top_up_locked: true, ..a2 }))
                    && now_locked
            } else {
                exists|a3: ActivePosition|
                    (#[trigger] a2.same_except_top_ups(a3)) && a3.top_ups@
                        == ActivePosition::spec_kept_tops(
                        a2.top_ups@,
                        a2.current_price as int,
                        a2.order.side,
                        a2.last_update_date as int,
                        pct as int,
                        delay as int,
                    ) && after == Some(Position::Active(a3)) && now_locked
                        == (ActivePosition::spec_canceled_tops(
                        a2.top_ups@,
                        a2.current_price as int,
                        a2.order.side,
                        a2.last_update_date as int,
                        pct as int,
                        delay as int,
                    ).len() > 0)
            });
            if a2.spec_close_reason() is Some {
            } else if a2.spec_is_top_up() {
            } else {
                let a3 = choose|a3: ActivePosition|
                    (#[trigger] a2.same_except_top_ups(a3)) && after == Some(
                        Position::Active(a3),
                    );
            }
        },
    }
}

impl PositionsMonitor {
    /// Reset the reused scratch maps for the next tick.
    fn clear_reused_allocations(&mut self)
        ensures
            final(self).scratch_pnls()@ =~= Map::<Seq<u8>, i64>::empty(),
            final(self).scratch_pnls().wf(),
            final(self).scratch_reserved()@ =~= Map::<Seq<u8>, SymMap<AssetSymbol, i64>>::empty(),
            final(self).scratch_reserved().wf(),
            *final(self) == (PositionsMonitor {
                top_up_pnls_by_wallet_ids: final(self).top_up_pnls_by_wallet_ids,
                top_up_reserved_by_wallet_ids: final(self).top_up_reserved_by_wallet_ids,
                ..*old(self)
            }),
    {
        self.top_up_pnls_by_wallet_ids = SymMap::empty();
        self.top_up_reserved_by_wallet_ids = SymMap::empty();
    }

    /// Re-value, at the tick's quote, the single balance of every wallet
    /// indexed under the tick's instrument.
    fn update_wallet_prices(&mut self, bidask: &BidAsk)
        requires
            old(self).wf(),
            bidask.wf(),
        ensures
            final(self).wf(),
            final(self).cache() == old(self).cache(),
            final(self).ids_index() == old(self).ids_index(),
            final(self).locked() == old(self).locked(),
            final(self).wallet_index() == old(self).wallet_index(),
            final(self).scratch_pnls() == old(self).scratch_pnls(),
            final(self).scratch_reserved() == old(self).scratch_reserved(),
            forall|w: Seq<u8>|
                #[trigger] final(self).wallets()@.contains_key(w) == old(self).wallets()@.contains_key(w),
            final(self).spec_wallet_monitoring_enabled() == old(self).spec_wallet_monitoring_enabled(),
    {
        let entry_opt = self.wallet_ids_by_instruments.get(&bidask.instrument);
        let wids = match entry_opt {
            Some(e) => e.items.keys_snapshot(),
            None => {
                return ;
            },
        };
        let n = wids.len();
        let mut i: usize = 0;
        while i < n
            invariant
                self.wf(),
                bidask.wf(),
                i <= n,
                n == wids@.len(),
                self.cache() == old(self).cache(),
                self.ids_index() == old(self).ids_index(),
                self.locked() == old(self).locked(),
                self.wallet_index() == old(self).wallet_index(),
                self.scratch_pnls() == old(self).scratch_pnls(),
                self.scratch_reserved() == old(self).scratch_reserved(),
                self.spec_wallet_monitoring_enabled() == old(self).spec_wallet_monitoring_enabled(),
                forall|w: Seq<u8>|
                    #[trigger] self.wallets()@.contains_key(w) == old(self).wallets()@.contains_key(w),
            decreases n - i,
        {
            let ghost s0 = *self;
            let w = &wids[i];
            let removed = self.wallets_by_ids.remove(w);
            match removed {
                Some(mut wallet) => {
                    wallet.update_price(bidask);
                    let ghost wg = wallet;
                    let key = wallet.id.key_dup();
                    self.wallets_by_ids.insert(key, wallet);
                    proof {
                        assert(wg.id@ == w.key());
                        assert(self.wallets()@ =~= s0.wallets()@.insert(w.key(), wg));
                        assert forall|k2: Seq<u8>, w2: Seq<u8>|
                            self.wallet_index()@.contains_key(k2)
                                && #[trigger] self.wallet_index()@[k2].items@.contains(w2)
                            implies self.wallets()@.contains_key(w2) && self.wallets()@[
                            w2
                        ].balances_by_instruments@.contains_key(k2) by {
                            assert(s0.wallets()@.contains_key(w2));
                            if w2 == w.key() {
                                assert(wg.balances_by_instruments
                                    == s0.wallets()@[w2].balances_by_instruments);
                            }
                        }
                    }
                },
                None => {},
            }
            i = i + 1;
        }
    }

    /// Store each wallet's accumulated reserve amounts, valued at its own
    /// stored prices, under the tick's instrument.
    fn update_wallet_reserved(&mut self, bidask: &BidAsk)
        requires
            old(self).wf(),
            bidask.wf(),
        ensures
            final(self).wf(),
            final(self).cache() == old(self).cache(),
            final(self).ids_index() == old(self).ids_index(),
            final(self).locked() == old(self).locked(),
            final(self).wallet_index() == old(self).wallet_index(),
            final(self).scratch_pnls() == old(self).scratch_pnls(),
            final(self).scratch_reserved() == old(self).scratch_reserved(),
            forall|w: Seq<u8>|
                #[trigger] final(self).wallets()@.contains_key(w) == old(self).wallets()@.contains_key(w),
            final(self).spec_wallet_monitoring_enabled() == old(self).spec_wallet_monitoring_enabled(),
    {
        let n = self.top_up_reserved_by_wallet_ids.len();
        let mut i: usize = 0;
        while i < n
            invariant
                self.wf(),
                bidask.wf(),
                i <= n,
                n == self.scratch_reserved().spec_len(),
                self.cache() == old(self).cache(),
                self.ids_index() == old(self).ids_index(),
                self.locked() == old(self).locked(),
                self.wallet_index() == old(self).wallet_index(),
                self.scratch_pnls() == old(self).scratch_pnls(),
                self.scratch_reserved() == old(self).scratch_reserved(),
                self.spec_wallet_monitoring_enabled() == old(self).spec_wallet_monitoring_enabled(),
                forall|w: Seq<u8>|
                    #[trigger] self.wallets()@.contains_key(w) == old(self).wallets()@.contains_key(w),
            decreases n - i,
        {
            let ghost s0 = *self;
            let w = self.top_up_reserved_by_wallet_ids.key_at(i).key_dup();
            let removed = self.wallets_by_ids.remove(&w);
            match removed {
                Some(mut wallet) => {
                    let reserved = self.top_up_reserved_by_wallet_ids.val_at(i);
                    wallet.set_top_up_reserved(&bidask.instrument, reserved);
                    let ghost wg = wallet;
                    let key = wallet.id.key_dup();
                    self.wallets_by_ids.insert(key, wallet);
                    proof {
                        assert(wg.id@ == w.key());
                        assert(self.wallets()@ =~= s0.wallets()@.insert(w.key(), wg));
                        assert forall|k2: Seq<u8>, w2: Seq<u8>|
                            self.wallet_index()@.contains_key(k2)
                                && #[trigger] self.wallet_index()@[k2].items@.contains(w2)
                            implies self.wallets()@.contains_key(w2) && self.wallets()@[
                            w2
                        ].balances_by_instruments@.contains_key(k2) by {
                            assert(s0.wallets()@.contains_key(w2));
                            if w2 == w.key() {
                                assert(wg.balances_by_instruments
                                    == s0.wallets()@[w2].balances_by_instruments);
                            }
                        }
                    }
                },
                None => {
                    proof {
                        assert(self.wallets()@ =~= s0.wallets()@);
                    }
                },
            }
            i = i + 1;
        }
    }

    /// Hand each wallet its accumulated cross-position profit-and-loss,
    /// shift and recompute its loss percent, and emit a wallet margin call
    /// exactly when the loss crossed the threshold from below.
    fn update_wallet_pnls(&mut self, bidask: &BidAsk) -> (out: Vec<PositionMonitoringEvent>)
        requires
            old(self).wf(),
            bidask.wf(),
        ensures
            final(self).wf(),
            final(self).cache() == old(self).cache(),
            final(self).ids_index() == old(self).ids_index(),
            final(self).locked() == old(self).locked(),
            final(self).wallet_index() == old(self).wallet_index(),
            final(self).scratch_pnls() == old(self).scratch_pnls(),
            final(self).scratch_reserved() == old(self).scratch_reserved(),
            final(self).spec_wallet_monitoring_enabled() == old(self).spec_wallet_monitoring_enabled(),
            forall|w: Seq<u8>|
                #[trigger] final(self).wallets()@.contains_key(w) == old(self).wallets()@.contains_key(w),
            forall|j: int| 0 <= j < out@.len() ==> (#[trigger] out@[j]) is WalletMarginCall,
            // an emitted wallet margin call names a stored wallet whose loss
            // sits at or above the threshold while the previous value was
            // below it (the edge trigger)
            forall|j: int|
                0 <= j < out@.len() ==> {
                    let info = (#[trigger] out@[j])->WalletMarginCall_0;
                    &&& final(self).wallets()@.contains_key(info.wallet_id@)
                    &&& {
                        let wlt = final(self).wallets()@[info.wallet_id@];
                        &&& wlt.current_loss_percent >= wlt.margin_call_percent
                        &&& wlt.prev_loss_percent < wlt.margin_call_percent
                        &&& info.loss_percent == wlt.current_loss_percent
                    }
                },
            // and conversely: every wallet that took this tick's
            // profit-and-loss and now sits across the threshold got a call
            forall|w: Seq<u8>|
                #[trigger] old(self).scratch_pnls()@.contains_key(w) && final(self).wallets()@.contains_key(w) && {
                    let wlt = final(self).wallets()@[w];
                    wlt.current_loss_percent >= wlt.margin_call_percent
                        && wlt.prev_loss_percent < wlt.margin_call_percent
                } ==> (exists|j: int|
                    0 <= j < out@.len() && (#[trigger] out@[j]) is WalletMarginCall && out@[
                        j
                    ]->WalletMarginCall_0.wallet_id@ == w),
    {
        let mut out: Vec<PositionMonitoringEvent> = Vec::new();
        let n = self.top_up_pnls_by_wallet_ids.len();
        let mut i: usize = 0;
        while i < n
            invariant
                self.wf(),
                bidask.wf(),
                i <= n,
                n == self.scratch_pnls().spec_len(),
                self.cache() == old(self).cache(),
                self.ids_index() == old(self).ids_index(),
                self.locked() == old(self).locked(),
                self.wallet_index() == old(self).wallet_index(),
                self.scratch_pnls() == old(self).scratch_pnls(),
                self.scratch_reserved() == old(self).scratch_reserved(),
                self.spec_wallet_monitoring_enabled() == old(self).spec_wallet_monitoring_enabled(),
                forall|w: Seq<u8>|
                    #[trigger] self.wallets()@.contains_key(w) == old(self).wallets()@.contains_key(w),
                forall|j: int| 0 <= j < out@.len() ==> (#[trigger] out@[j]) is WalletMarginCall,
                forall|j: int|
                    0 <= j < out@.len() ==> (exists|jj: int|
                        0 <= jj < i && (#[trigger] out@[j])->WalletMarginCall_0.wallet_id@
                            == self.scratch_pnls().key_seq()[jj]),
                forall|jj: int|
                    0 <= jj < i && self.wallets()@.contains_key(
                        #[trigger] self.scratch_pnls().key_seq()[jj],
                    ) && {
                        let wlt = self.wallets()@[self.scratch_pnls().key_seq()[jj]];
                        wlt.current_loss_percent >= wlt.margin_call_percent
                            && wlt.prev_loss_percent < wlt.margin_call_percent
                    } ==> (exists|j: int|
                        0 <= j < out@.len() && (#[trigger] out@[j]) is WalletMarginCall && out@[
                            j
                        ]->WalletMarginCall_0.wallet_id@ == self.scratch_pnls().key_seq()[jj]),
                forall|j: int|
                    0 <= j < out@.len() ==> {
                        let info = (#[trigger] out@[j])->WalletMarginCall_0;
                        &&& self.wallets()@.contains_key(info.wallet_id@)
                        &&& {
                            let wlt = self.wallets()@[info.wallet_id@];
                            &&& wlt.current_loss_percent >= wlt.margin_call_percent
                            &&& wlt.prev_loss_percent < wlt.margin_call_percent
                            &&& info.loss_percent == wlt.current_loss_percent
                        }
                    },
            decreases n - i,
        {
            let ghost s0 = *self;
            let ghost s0_out = out@;
            let w = self.top_up_pnls_by_wallet_ids.key_at(i).key_dup();
            let pnl = *self.top_up_pnls_by_wallet_ids.val_at(i);
            let removed = self.wallets_by_ids.remove(&w);
            match removed {
                Some(mut wallet) => {
                    wallet.set_top_up_pnl(&bidask.instrument, pnl);
                    wallet.update_loss();
                    let is_call = wallet.is_margin_call();
                    if is_call {
                        out.push(
                            PositionMonitoringEvent::WalletMarginCall(
                                WalletMarginCallInfo {
                                    loss_percent: wallet.current_loss_percent,
                                    pnl,
                                    wallet_id: wallet.id.key_dup(),
                                    trader_id: crate::symbols::bytes_dup(&wallet.trader_id),
                                },
                            ),
                        );
                    }
                    let ghost wg = wallet;
                    let key = wallet.id.key_dup();
                    self.wallets_by_ids.insert(key, wallet);
                    proof {
                        assert(wg.id@ == w.key());
                        assert(w.key() == self.scratch_pnls().key_seq()[i as int]);
                        assert(self.wallets()@ =~= s0.wallets()@.insert(w.key(), wg));
                        assert forall|k2: Seq<u8>, w2: Seq<u8>|
                            self.wallet_index()@.contains_key(k2)
                                && #[trigger] self.wallet_index()@[k2].items@.contains(w2)
                            implies self.wallets()@.contains_key(w2) && self.wallets()@[
                            w2
                        ].balances_by_instruments@.contains_key(k2) by {
                            assert(s0.wallets()@.contains_key(w2));
                            if w2 == w.key() {
                                assert(wg.balances_by_instruments
                                    == s0.wallets()@[w2].balances_by_instruments);
                            }
                        }
                        if is_call {
                            assert(wg.current_loss_percent >= wg.margin_call_percent
                                && wg.prev_loss_percent < wg.margin_call_percent);
                            assert(out@.last() is WalletMarginCall);
                            assert(out@.last()->WalletMarginCall_0.wallet_id@ == w.key());
                            assert(out@.last()->WalletMarginCall_0.loss_percent
                                == wg.current_loss_percent);
                        }
                        assert forall|j: int|
                            0 <= j < out@.len() implies (exists|jj: int|
                            0 <= jj < i + 1 && (#[trigger] out@[j])->WalletMarginCall_0
                                .wallet_id@ == self.scratch_pnls().key_seq()[jj]) by {
                            if j < s0_out.len() {
                                let jj0 = choose|jj: int|
                                    0 <= jj < i && (#[trigger] s0_out[
                                        j
                                    ])->WalletMarginCall_0.wallet_id@
                                        == s0.scratch_pnls().key_seq()[jj];
                                assert(out@[j] == s0_out[j]);
                                assert(self.scratch_pnls().key_seq()[jj0]
                                    == s0.scratch_pnls().key_seq()[jj0]);
                            } else {
                                assert(out@[j] == out@.last());
                                assert(out@[j]->WalletMarginCall_0.wallet_id@
                                    == self.scratch_pnls().key_seq()[i as int]);
                            }
                        }
                        assert forall|j: int|
                            0 <= j < out@.len() implies {
                            let info = (#[trigger] out@[j])->WalletMarginCall_0;
                            &&& self.wallets()@.contains_key(info.wallet_id@)
                            &&& {
                                let wlt = self.wallets()@[info.wallet_id@];
                                &&& wlt.current_loss_percent >= wlt.margin_call_percent
                                &&& wlt.prev_loss_percent < wlt.margin_call_percent
                                &&& info.loss_percent == wlt.current_loss_percent
                            }
                        } by {
                            let info = out@[j]->WalletMarginCall_0;
                            if j < s0_out.len() {
                                let jj0 = choose|jj: int|
                                    0 <= jj < i && (#[trigger] s0_out[
                                        j
                                    ])->WalletMarginCall_0.wallet_id@
                                        == s0.scratch_pnls().key_seq()[jj];
                                assert(info.wallet_id@
                                    == self.scratch_pnls().key_seq()[jj0]);
                                assert(info.wallet_id@ != w.key());
                                assert(s0.wallets()@.contains_key(info.wallet_id@));
                                assert(self.wallets()@[info.wallet_id@]
                                    == s0.wallets()@[info.wallet_id@]);
                            } else {
                                assert(info.wallet_id@ == w.key());
                                assert(self.wallets()@[w.key()] == wg);
                            }
                        }
                        assert forall|jj: int|
                            0 <= jj < i + 1 && self.wallets()@.contains_key(
                            #[trigger] self.scratch_pnls().key_seq()[jj],
                        ) && {
                            let wlt = self.wallets()@[self.scratch_pnls().key_seq()[jj]];
                            wlt.current_loss_percent >= wlt.margin_call_percent
                                && wlt.prev_loss_percent < wlt.margin_call_percent
                        } implies (exists|j: int|
                            0 <= j < out@.len() && (#[trigger] out@[j]) is WalletMarginCall
                                && out@[j]->WalletMarginCall_0.wallet_id@
                                == self.scratch_pnls().key_seq()[jj]) by {
                            let wk = self.scratch_pnls().key_seq()[jj];
                            if jj < i {
                                assert(wk != w.key());
                                assert(s0.wallets()@.contains_key(wk));
                                assert(self.wallets()@[wk] == s0.wallets()@[wk]);
                                let j0 = choose|j: int|
                                    0 <= j < s0_out.len() && (#[trigger] s0_out[j])
                                        is WalletMarginCall && s0_out[
                                        j
                                    ]->WalletMarginCall_0.wallet_id@ == wk;
                                assert(out@[j0] == s0_out[j0]);
                            } else {
                                assert(wk == w.key());
                                assert(self.wallets()@[wk] == wg);
                                assert(is_call);
                                assert(out@.last() is WalletMarginCall
                                    && out@.last()->WalletMarginCall_0.wallet_id@ == wk);
                            }
                        }
                    }
                },
                None => {
                    proof {
                        assert(self.wallets()@ =~= s0.wallets()@);
                        assert(!self.wallets()@.contains_key(
                            self.scratch_pnls().key_seq()[i as int],
                        ));
                    }
                },
            }
            i = i + 1;
        }
        proof {
            assert forall|w2: Seq<u8>|
                #[trigger] old(self).scratch_pnls()@.contains_key(w2)
                    && self.wallets()@.contains_key(w2) && {
                let wlt = self.wallets()@[w2];
                wlt.current_loss_percent >= wlt.margin_call_percent
                    && wlt.prev_loss_percent < wlt.margin_call_percent
            } implies (exists|j: int|
                0 <= j < out@.len() && (#[trigger] out@[j]) is WalletMarginCall && out@[
                    j
                ]->WalletMarginCall_0.wallet_id@ == w2) by {
                old(self).scratch_pnls().lemma_present(w2);
            }
        }
        out
    }
}


impl PositionsMonitor {
    /// The per-quote hot path: visit every position indexed under the
    /// quote's instrument, drive each unlocked position's state machine,
    /// collect monitoring events, and, when wallet monitoring is on, evict
    /// emptied wallets and re-aggregate the surviving wallets' exposure.
    /// The reused scratch maps are cleared at the tail of every update.
    #[verifier::rlimit(100)]
    pub fn update(&mut self, bidask: &BidAsk) -> (events: Vec<PositionMonitoringEvent>)
        requires
            old(self).wf(),
            bidask.wf(),
        ensures
            final(self).wf(),
            final(self).scratch_pnls()@ =~= Map::<Seq<u8>, i64>::empty(),
            final(self).scratch_reserved()@ =~= Map::<Seq<u8>, SymMap<AssetSymbol, i64>>::empty(),
            // a locked position is never touched, stays cached and stays locked
            forall|id: Seq<u8>|
                #[trigger] old(self).locked()@.contains(id) ==> final(self).locked()@.contains(
                    id,
                ) && final(self).cache()@.contains_key(id) && final(self).cache()@[id] == old(self).cache()@[id],
            // no closed event ever names a locked position
            forall|j: int|
                0 <= j < events@.len() && (#[trigger] events@[j]) is PositionClosed ==> !old(self).locked()@.contains(events@[j]->PositionClosed_0.id@),
            // a tick for an unindexed instrument changes no position, no
            // index and no wallet, and emits nothing
            !old(self).ids_index()@.contains_key(bidask.instrument@) ==> events@.len() == 0
                && final(self).cache()@ =~= old(self).cache()@ && final(self).locked()@ =~= old(self).locked()@ && final(self).wallets() == old(self).wallets()
                && final(self).ids_index() == old(self).ids_index() && final(self).wallet_index()
                == old(self).wallet_index(),
            // positions not indexed under the instrument are untouched
            forall|id: Seq<u8>|
                #[trigger] old(self).cache()@.contains_key(id) && !(old(self).ids_index()@.contains_key(bidask.instrument@) && old(self).ids_index()@[
                    bidask.instrument@
                ].items@.contains(id)) ==> final(self).cache()@.contains_key(id) && final(self).cache()@[id] == old(self).cache()@[id],
            // each indexed, cached, unlocked position takes exactly one step
            // of the state machine
            forall|id: Seq<u8>|
                old(self).ids_index()@.contains_key(bidask.instrument@) && #[trigger] old(self).ids_index()@[bidask.instrument@].items@.contains(id) && old(self).cache()@.contains_key(id) && !old(self).locked()@.contains(id)
                    ==> spec_step_outcome(
                    old(self).cache()@[id],
                    *bidask,
                    old(self).spec_cancel_top_up_price_change_percent(),
                    old(self).spec_cancel_top_up_delay(),
                    if final(self).cache()@.contains_key(id) {
                        Some(final(self).cache()@[id])
                    } else {
                        None
                    },
                    final(self).locked()@.contains(id),
                ),
            // every position evicted by this tick went out with a closed
            // event naming it
            forall|id: Seq<u8>|
                old(self).ids_index()@.contains_key(bidask.instrument@) && #[trigger] old(self).ids_index()@[bidask.instrument@].items@.contains(id) && old(self).cache()@.contains_key(id) && !old(self).locked()@.contains(id) && !final(self).cache()@.contains_key(id) ==> (exists|j: int|
                    0 <= j < events@.len() && (#[trigger] events@[j]) is PositionClosed
                        && events@[j]->PositionClosed_0.id@ == id),
            // with wallet monitoring off the wallets are untouched and no
            // wallet event is emitted
            !old(self).spec_wallet_monitoring_enabled() ==> final(self).wallets() == old(self).wallets() && final(self).wallet_index() == old(self).wallet_index() && (forall|
                j: int,
            | 0 <= j < events@.len() ==> !((#[trigger] events@[j]) is WalletMarginCall)),
            // every position event names an indexed, previously unlocked id
            // and carries the payload its step produced; every owed
            // activation, margin-call and lock event is present; closed
            // events are unique per id
            old(self).ids_index()@.contains_key(bidask.instrument@) ==> {
                let sids = old(self).ids_index()@[bidask.instrument@].items.key_seq();
                &&& (forall|j: int|
                    0 <= j < events@.len() && !((#[trigger] events@[j]) is WalletMarginCall)
                        ==> spec_event_sound(
                        old(self).cache()@,
                        final(self).cache()@,
                        old(self).locked()@,
                        final(self).locked()@,
                        sids,
                        sids.len() as int,
                        *bidask,
                        old(self).spec_pnl_accuracy(),
                        events@[j],
                    ))
                &&& spec_events_complete(
                    old(self).cache()@,
                    final(self).cache()@,
                    old(self).locked()@,
                    final(self).locked()@,
                    sids,
                    sids.len() as int,
                    *bidask,
                    events@,
                )
                &&& spec_closed_once(events@)
            },
            // the ticked instrument's index keeps exactly the visited ids
            // that are still cached (unresolvable ids are dropped); every
            // other instrument's entry is untouched
            old(self).ids_index()@.contains_key(bidask.instrument@) ==> final(self).ids_index()@.contains_key(bidask.instrument@) && (forall|id: Seq<u8>|
                #[trigger] final(self).ids_index()@[bidask.instrument@].items@.contains(id)
                    <==> old(self).ids_index()@[bidask.instrument@].items@.contains(id)
                    && final(self).cache()@.contains_key(id)),
            forall|k: Seq<u8>|
                k != bidask.instrument@ ==> #[trigger] final(self).ids_index()@.contains_key(k)
                    == old(self).ids_index()@.contains_key(k) && (old(self).ids_index()@
                    .contains_key(k) ==> final(self).ids_index()@[k] == old(self).ids_index()@[
                    k
                ]),
            // every wallet that took this tick's profit-and-loss and now
            // sits across its threshold got its margin call
            old(self).spec_wallet_monitoring_enabled() && old(self).ids_index()@.contains_key(
                bidask.instrument@,
            ) ==> (forall|w: Seq<u8>|
                #[trigger] final(self).wallets()@.contains_key(w) && spec_scratch_touched(
                    old(self).cache()@,
                    final(self).cache()@,
                    old(self).ids_index()@[bidask.instrument@].items.key_seq(),
                    old(self).locked()@,
                    w,
                ) && {
                    let wlt = final(self).wallets()@[w];
                    wlt.current_loss_percent >= wlt.margin_call_percent
                        && wlt.prev_loss_percent < wlt.margin_call_percent
                } ==> (exists|j: int|
                    0 <= j < events@.len() && (#[trigger] events@[j]) is WalletMarginCall
                        && events@[j]->WalletMarginCall_0.wallet_id@ == w)),
            // an emitted wallet margin call is about a stored wallet whose
            // loss sits at or above its threshold while the previous value
            // was below it, and carries that loss
            forall|j: int|
                0 <= j < events@.len() && (#[trigger] events@[j]) is WalletMarginCall ==> old(self).spec_wallet_monitoring_enabled() && {
                    let info = events@[j]->WalletMarginCall_0;
                    &&& final(self).wallets()@.contains_key(info.wallet_id@)
                    &&& {
                        let wlt = final(self).wallets()@[info.wallet_id@];
                        &&& wlt.current_loss_percent >= wlt.margin_call_percent
                        &&& wlt.prev_loss_percent < wlt.margin_call_percent
                        &&& info.loss_percent == wlt.current_loss_percent
                    }
                },
    {
        let entry_opt = self.ids_by_instruments.remove(&bidask.instrument);
        let entry = match entry_opt {
            Some(e) => e,
            None => {
                self.clear_reused_allocations();
                proof {
                    assert(self.wf());
                }
                return Vec::new();
            },
        };
        let ghost instr = bidask.instrument@;
        let ghost p0 = *self;
        proof {
            assert(self.scan_ok(instr)) by {
                assert forall|id: Seq<u8>, k: Seq<u8>|
                    self.cache()@.contains_key(id) && #[trigger] self.cache()@[
                        id
                    ].spec_order().spec_instruments().contains(k) && k != instr
                    implies self.ids_index()@.contains_key(k) && self.ids_index()@[
                    k
                ].items@.contains(id) by {
                    assert(old(self).ids_index()@.contains_key(k)
                        && old(self).ids_index()@[k].items@.contains(id));
                }
            }
        }
        // The reused allocations must be clean before the scan accumulates
        // into them.
        self.clear_reused_allocations();
        let ghost ps = *self;
        let ids = entry.items.keys_snapshot();
        proof {
            assert(entry.items.wf());
            entry.items.lemma_keyseq();
            entry.items.lemma_distinct();
            assert forall|j1: int, j2: int|
                0 <= j1 < j2 < ids@.len() implies (#[trigger] ids@[j1])@ != (
            #[trigger] ids@[j2])@ by {
                assert(ids@.map_values(|p: PositionId| p@)[j1] == ids@[j1]@);
                assert(ids@.map_values(|p: PositionId| p@)[j2] == ids@[j2]@);
                assert(ids@[j1]@ == entry.items.key_seq()[j1]);
                assert(ids@[j2]@ == entry.items.key_seq()[j2]);
            }
        }
        let out = self.scan_ids(bidask, &ids);
        let mut events = out.0;
        let ghost scan_events = events@;
        let new_items = out.1;
        let wallets_to_remove = out.2;
        let ghost after_scan = *self;
        let new_entry = PositionIdsByInstrumentSymbol {
            items: new_items,
            instrument_symbol: entry.instrument_symbol,
        };
        self.ids_by_instruments.insert(bidask.instrument.key_dup(), new_entry);
        proof {
            assert(self.ids_index()@ =~= after_scan.ids_index()@.insert(instr, new_entry));
            assert forall|id2: Seq<u8>, k: Seq<u8>|
                self.cache()@.contains_key(id2) && #[trigger] self.cache()@[
                    id2
                ].spec_order().spec_instruments().contains(k) implies self.ids_index()@
                .contains_key(k) && self.ids_index()@[k].items@.contains(id2) by {
                assert(after_scan.cache()@.contains_key(id2));
                assert(ps.cache()@.contains_key(id2));
                assert(old(self).cache()@.contains_key(id2));
                if !(exists|j: int| 0 <= j < ids@.len() && (#[trigger] ids@[j])@ == id2) {
                    assert(self.cache()@[id2] == ps.cache()@[id2]);
                    assert(old(self).cache()@[id2] == self.cache()@[id2]);
                    if k != instr {
                        assert(old(self).ids_index()@.contains_key(k)
                            && old(self).ids_index()@[k].items@.contains(id2));
                        assert(after_scan.ids_index()@.contains_key(k));
                    } else {
                        assert(old(self).ids_index()@[instr].items@.contains(id2));
                        assert(entry.items@.contains(id2));
                        entry.items.lemma_keyseq();
                        assert(entry.items.key_seq().contains(id2));
                        let j = choose|j: int|
                            0 <= j < entry.items.key_seq().len() && entry.items.key_seq()[j]
                                == id2;
                        assert(ids@.map_values(|p: PositionId| p@)[j] == ids@[j]@);
                        assert(ids@[j]@ == id2);
                        assert(false);
                    }
                } else {
                    let j = choose|j: int|
                        0 <= j < ids@.len() && (#[trigger] ids@[j])@ == id2;
                    if !ps.locked()@.contains(id2) {
                        assert(spec_step_outcome(
                            ps.cache()@[id2],
                            *bidask,
                            ps.spec_cancel_top_up_price_change_percent(),
                            ps.spec_cancel_top_up_delay(),
                            Some(self.cache()@[id2]),
                            after_scan.locked()@.contains(id2),
                        ));
                        lemma_step_preserves_order(
                            ps.cache()@[id2],
                            *bidask,
                            ps.spec_cancel_top_up_price_change_percent(),
                            ps.spec_cancel_top_up_delay(),
                            Some(self.cache()@[id2]),
                            after_scan.locked()@.contains(id2),
                        );
                        assert(self.cache()@[id2].spec_order() == ps.cache()@[
                            id2
                        ].spec_order());
                    } else {
                        assert(self.cache()@[id2] == ps.cache()@[id2]);
                    }
                    if k != instr {
                        assert(ps.cache()@[id2].spec_order().spec_instruments().contains(k));
                        assert(old(self).ids_index()@.contains_key(k)
                            && old(self).ids_index()@[k].items@.contains(id2));
                    } else {
                        assert(new_items@.contains(id2));
                    }
                }
            }
            assert forall|id2: Seq<u8>, k: Seq<u8>|
                self.cache()@.contains_key(id2) && self.ids_index()@.contains_key(k)
                    && #[trigger] self.ids_index()@[k].items@.contains(id2)
                implies self.cache()@[id2].spec_order().spec_instruments().contains(k) by {
                assert(ps.cache()@.contains_key(id2));
                let ghost stepped = (exists|j: int|
                    0 <= j < ids@.len() && (#[trigger] ids@[j])@ == id2)
                    && !ps.locked()@.contains(id2);
                if stepped {
                    lemma_step_preserves_order(
                        ps.cache()@[id2],
                        *bidask,
                        ps.spec_cancel_top_up_price_change_percent(),
                        ps.spec_cancel_top_up_delay(),
                        Some(self.cache()@[id2]),
                        after_scan.locked()@.contains(id2),
                    );
                } else {
                    assert(self.cache()@[id2] == ps.cache()@[id2]);
                }
                if k != instr {
                    assert(after_scan.ids_index()@.contains_key(k)
                        && after_scan.ids_index()@[k].items@.contains(id2));
                    assert(old(self).ids_index()@.contains_key(k)
                        && old(self).ids_index()@[k].items@.contains(id2));
                    assert(ps.cache()@[id2].spec_order().spec_instruments().contains(k));
                } else {
                    assert(new_items@.contains(id2));
                    let j2 = choose|j: int| 0 <= j < ids@.len() && (#[trigger] ids@[j])@ == id2;
                    assert(ids@.map_values(|p: PositionId| p@)[j2] == ids@[j2]@);
                    assert(entry.items.key_seq()[j2] == id2);
                    entry.items.lemma_at(j2);
                    assert(entry.items@.contains(id2));
                    assert(old(self).ids_index()@[instr].items@.contains(id2));
                    assert(ps.cache()@[id2].spec_order().spec_instruments().contains(instr));
                }
            }
            assert(self.wf());
        }
        let ghost after_index = *self;
        let ghost mut g_wev: Seq<PositionMonitoringEvent> = Seq::empty();
        let ghost mut g_pre_len: int = 0;
        if self.wallet_monitoring_enabled {
            let m = wallets_to_remove.len();
            let mut k: usize = 0;
            while k < m
                invariant
                    self.wf(),
                    k <= m,
                    m == wallets_to_remove@.len(),
                    self.cache() == after_index.cache(),
                    self.ids_index() == after_index.ids_index(),
                    self.locked() == after_index.locked(),
                    self.scratch_pnls() == after_index.scratch_pnls(),
                    self.scratch_reserved() == after_index.scratch_reserved(),
                    self.spec_wallet_monitoring_enabled() == after_index
                        .spec_wallet_monitoring_enabled(),
                decreases m - k,
            {
                let _ = self.remove_wallet(&wallets_to_remove[k]);
                k = k + 1;
            }
            self.update_wallet_prices(bidask);
            self.update_wallet_reserved(bidask);
            let mut wallet_events = self.update_wallet_pnls(bidask);
            let wn = wallet_events.len();
            let mut wi: usize = 0;
            let ghost pre_events = events@;
            let ghost wev = wallet_events@;
            while wi < wn
                invariant
                    wi <= wn,
                    wn == wev.len(),
                    wallet_events@ == wev.skip(wi as int),
                    events@ == pre_events + wev.take(wi as int),
                    forall|j: int| 0 <= j < wev.len() ==> (#[trigger] wev[j]) is WalletMarginCall,
                decreases wn - wi,
            {
                proof {
                    assert(wallet_events@[0] == wev[wi as int]);
                }
                let e = wallet_events.remove(0);
                events.push(e);
                proof {
                    assert(wallet_events@ =~= wev.skip(wi as int + 1));
                    assert(events@ =~= pre_events + wev.take(wi as int + 1));
                }
                wi = wi + 1;
            }
            proof {
                assert(wev.take(wn as int) =~= wev);
                g_wev = wev;
                g_pre_len = pre_events.len() as int;
                assert(forall|j: int|
                    0 <= j < g_wev.len() ==> #[trigger] events@[g_pre_len + j] == g_wev[j]);
                assert(events@.len() == g_pre_len + g_wev.len());
            }
        }
        self.clear_reused_allocations();
        self.last_update_events_count = events.len();
        proof {
            assert(self.wf());
            let sids_u = ids@.map_values(|p: PositionId| p@);
            let sids_pub = old(self).ids_index()@[instr].items.key_seq();
            assert(sids_pub == entry.items.key_seq());
            assert(sids_u == sids_pub);
            assert(forall|j: int|
                0 <= j < scan_events.len() ==> #[trigger] events@[j] == scan_events[j]);
            assert(forall|j: int|
                scan_events.len() <= j < events@.len() ==> (#[trigger] events@[j])
                    is WalletMarginCall);
            assert(self.cache()@ == after_scan.cache()@);
            assert(self.locked()@ == after_scan.locked()@);
            assert forall|j: int|
                0 <= j < events@.len() && !((#[trigger] events@[j]) is WalletMarginCall)
                implies spec_event_sound(
                old(self).cache()@,
                self.cache()@,
                old(self).locked()@,
                self.locked()@,
                sids_pub,
                sids_pub.len() as int,
                *bidask,
                old(self).spec_pnl_accuracy(),
                events@[j],
            ) by {
                assert(j < scan_events.len());
                assert(events@[j] == scan_events[j]);
                assert(spec_event_sound(
                    ps.cache()@,
                    after_scan.cache()@,
                    ps.locked()@,
                    after_scan.locked()@,
                    sids_u,
                    sids_u.len() as int,
                    *bidask,
                    ps.spec_pnl_accuracy(),
                    scan_events[j],
                ));
            }
            assert(spec_events_complete(
                old(self).cache()@,
                self.cache()@,
                old(self).locked()@,
                self.locked()@,
                sids_pub,
                sids_pub.len() as int,
                *bidask,
                events@,
            )) by {
                assert(spec_events_complete(
                    ps.cache()@,
                    after_scan.cache()@,
                    ps.locked()@,
                    after_scan.locked()@,
                    sids_u,
                    sids_u.len() as int,
                    *bidask,
                    scan_events,
                ));
                lemma_complete_extend(
                    old(self).cache()@,
                    self.cache()@,
                    old(self).locked()@,
                    self.locked()@,
                    sids_pub,
                    sids_pub.len() as int,
                    *bidask,
                    scan_events,
                    events@,
                );
            }
            assert(spec_closed_once(events@)) by {
                assert(spec_closed_once(scan_events));
                assert forall|j1: int, j2: int|
                    0 <= j1 < j2 < events@.len() && (#[trigger] events@[j1]) is PositionClosed
                        && (#[trigger] events@[j2]) is PositionClosed implies events@[
                    j1
                ]->PositionClosed_0.id@ != events@[j2]->PositionClosed_0.id@ by {
                    assert(j2 < scan_events.len());
                    assert(events@[j1] == scan_events[j1]);
                    assert(events@[j2] == scan_events[j2]);
                }
            }
            if old(self).spec_wallet_monitoring_enabled() {
                assert forall|w: Seq<u8>|
                    #[trigger] self.wallets()@.contains_key(w) && spec_scratch_touched(
                    old(self).cache()@,
                    self.cache()@,
                    sids_pub,
                    old(self).locked()@,
                    w,
                ) && {
                    let wlt = self.wallets()@[w];
                    wlt.current_loss_percent >= wlt.margin_call_percent
                        && wlt.prev_loss_percent < wlt.margin_call_percent
                } implies (exists|j: int|
                    0 <= j < events@.len() && (#[trigger] events@[j]) is WalletMarginCall
                        && events@[j]->WalletMarginCall_0.wallet_id@ == w) by {
                    assert(spec_scratch_touched(
                        ps.cache()@,
                        after_scan.cache()@,
                        sids_u,
                        ps.locked()@,
                        w,
                    ));
                    assert(scan_scratch_inv(
                        after_scan.scratch_pnls()@,
                        ps.cache()@,
                        after_scan.cache()@,
                        sids_u,
                        ps.locked()@,
                        sids_u.len() as int,
                    ));
                    assert(sids_u.take(sids_u.len() as int) =~= sids_u);
                    assert(after_scan.scratch_pnls()@.contains_key(w) == spec_scratch_touched(
                        ps.cache()@,
                        after_scan.cache()@,
                        sids_u,
                        ps.locked()@,
                        w,
                    ));
                    assert(after_scan.scratch_pnls()@.contains_key(w));
                    let j0 = choose|j: int|
                        0 <= j < g_wev.len() && (#[trigger] g_wev[j]) is WalletMarginCall
                            && g_wev[j]->WalletMarginCall_0.wallet_id@ == w;
                    assert(events@[g_pre_len + j0] == g_wev[j0]);
                }
            }
            if !old(self).spec_wallet_monitoring_enabled() {
                assert(p0.wallets() == old(self).wallets());
                assert(ps.wallets() == p0.wallets());
                assert(after_scan.wallets() == ps.wallets());
                assert(after_index.wallets() == after_scan.wallets());
                assert(after_index.spec_wallet_monitoring_enabled() == old(self).spec_wallet_monitoring_enabled());
                assert(self.wallets() == after_index.wallets());
                assert(self.wallets() == old(self).wallets());
                assert(p0.wallet_index() == old(self).wallet_index());
                assert(ps.wallet_index() == p0.wallet_index());
                assert(after_scan.wallet_index() == ps.wallet_index());
                assert(after_index.wallet_index() == after_scan.wallet_index());
                assert(self.wallet_index() == after_index.wallet_index());
            }
            assert(ps.cache() == old(self).cache());
            assert(ps.locked() == old(self).locked());
            assert(self.cache() == after_index.cache());
            assert(self.locked() == after_index.locked());
            entry.items.lemma_keyseq();
            assert forall|id: Seq<u8>|
                #[trigger] old(self).cache()@.contains_key(id) && !(old(self).ids_index()@.contains_key(instr) && old(self).ids_index()@[
                instr
            ].items@.contains(id)) implies self.cache()@.contains_key(id) && self.cache()@[id]
                == old(self).cache()@[id] by {
                if (exists|j: int| 0 <= j < ids@.len() && (#[trigger] ids@[j])@ == id) {
                    let j = choose|j: int| 0 <= j < ids@.len() && (#[trigger] ids@[j])@ == id;
                    assert(ids@.map_values(|p: PositionId| p@)[j] == ids@[j]@);
                    assert(entry.items.key_seq()[j] == id);
                    entry.items.lemma_at(j);
                    assert(old(self).ids_index()@[instr].items@.contains(id));
                    assert(false);
                }
            }
            assert forall|id: Seq<u8>|
                old(self).ids_index()@.contains_key(instr) && #[trigger] old(self).ids_index()@[instr].items@.contains(id) && old(self).cache()@.contains_key(id)
                && !old(self).locked()@.contains(id) && !self.cache()@.contains_key(id)
                implies (exists|j: int|
                0 <= j < events@.len() && (#[trigger] events@[j]) is PositionClosed && events@[
                    j
                ]->PositionClosed_0.id@ == id) by {
                assert(entry.items.key_seq().contains(id));
                let j = choose|j: int|
                    0 <= j < entry.items.key_seq().len() && entry.items.key_seq()[j] == id;
                assert(ids@.map_values(|p: PositionId| p@)[j] == ids@[j]@);
                assert(ids@[j]@ == id);
                let jj = choose|jj: int|
                    0 <= jj < out.0@.len() && (#[trigger] out.0@[jj]) is PositionClosed
                        && out.0@[jj]->PositionClosed_0.id@ == id;
                assert(events@[jj] == out.0@[jj]);
            }
            assert forall|id: Seq<u8>|
                old(self).ids_index()@.contains_key(instr) && #[trigger] old(self).ids_index()@[instr].items@.contains(id) && old(self).cache()@.contains_key(id)
                && !old(self).locked()@.contains(id) implies spec_step_outcome(
                old(self).cache()@[id],
                *bidask,
                old(self).spec_cancel_top_up_price_change_percent(),
                old(self).spec_cancel_top_up_delay(),
                if self.cache()@.contains_key(id) {
                    Some(self.cache()@[id])
                } else {
                    None
                },
                self.locked()@.contains(id),
            ) by {
                assert(entry.items.key_seq().contains(id));
                let j = choose|j: int|
                    0 <= j < entry.items.key_seq().len() && entry.items.key_seq()[j] == id;
                assert(ids@.map_values(|p: PositionId| p@)[j] == ids@[j]@);
                assert(ids@[j]@ == id);
            }
        }
        events
    }
}

} // verus!
