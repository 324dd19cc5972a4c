//! The quote cache and the positions cache.

use vstd::prelude::*;
use crate::collections::SymMap;
use crate::collections::SymSet;
use crate::numeric::SCALE;
use crate::positions::same_bidask;
use crate::positions::BidAsk;
use crate::positions::Position;
use crate::symbols::get_instrument_symbol;
use crate::symbols::AssetSymbol;
use crate::symbols::InstrumentSymbol;
use crate::symbols::PositionId;
use crate::symbols::SymbolKey;
use crate::symbols::WalletId;

verus! {

/// Last-quote cache keyed by instrument symbol.
pub struct BidAsksCache {
    items: SymMap<InstrumentSymbol, BidAsk>,
}

/// A sequence of quotes folded into a last-write-wins map keyed by
/// instrument.
pub open spec fn spec_cache_of(src: Seq<BidAsk>) -> Map<Seq<u8>, BidAsk>
    decreases src.len(),
{
    if src.len() == 0 {
        Map::empty()
    } else {
        spec_cache_of(src.drop_last()).insert(src.last().instrument@, src.last())
    }
}

impl BidAsksCache {
    /// The stored quotes, keyed by their instrument bytes.
    pub closed spec fn view(self) -> Map<Seq<u8>, BidAsk> {
        self.items@
    }

    /// Validity: a well-formed container whose every quote sits under its
    /// own instrument.
    pub closed spec fn wf(self) -> bool {
        &&& self.items.wf()
        &&& forall|k: Seq<u8>|
            #[trigger] self.items@.contains_key(k) ==> self.items@[k].instrument@ == k
    }

    /// Build the cache from a batch of quotes; on duplicate instruments the
    /// later quote wins.
    pub fn new(src: Vec<BidAsk>) -> (r: Self)
        ensures
            r.wf(),
            r@ == spec_cache_of(src@),
    {
        let mut items: SymMap<InstrumentSymbol, BidAsk> = SymMap::empty();
        let mut src = src;
        let ghost src0 = src@;
        let initial_count = src.len();
        let ghost n = initial_count as int;
        let mut i: usize = 0;
        proof {
            assert(src0.take(0) =~= Seq::<BidAsk>::empty());
        }
        while src.len() > 0
            invariant
                n == src0.len(),
                n == initial_count as int,
                i as int + src@.len() == n,
                forall|j: int| 0 <= j < src@.len() ==> #[trigger] src@[j] == src0[i + j],
                items.wf(),
                items@ == spec_cache_of(src0.take(i as int)),
                forall|k: Seq<u8>|
                    #[trigger] items@.contains_key(k) ==> items@[k].instrument@ == k,
            decreases src@.len(),
        {
            proof {
                assert(src@[0] == src0[i as int]);
                let tk = src0.take(i as int + 1);
                assert(tk.drop_last() =~= src0.take(i as int));
                assert(tk.last() == src0[i as int]);
            }
            let q = src.remove(0);
            let key = q.instrument.key_dup();
            items.insert(key, q);
            i = i + 1;
        }
        proof {
            assert(src0.take(i as int) =~= src0);
        }
        BidAsksCache { items }
    }

    /// Insert or replace the quote for its instrument.
    pub fn update(&mut self, bidask: BidAsk)
        requires
            old(self).wf(),
        ensures
            final(self).wf(),
            final(self)@ == old(self)@.insert(bidask.instrument@, bidask),
    {
        let key = bidask.instrument.key_dup();
        self.items.insert(key, bidask);
    }

    pub fn get(&self, instrument: &InstrumentSymbol) -> (r: Option<&BidAsk>)
        requires
            self.wf(),
        ensures
            match r {
                Some(q) => self@.contains_key(instrument@) && *q == self@[instrument@],
                None => !self@.contains_key(instrument@),
            },
    {
        self.items.get(instrument)
    }

    /// The sub-map of quotes for the given `asset/base` pairs; pairs with
    /// no cached quote are omitted.
    pub fn find(&self, base_asset: &AssetSymbol, assets: &Vec<AssetSymbol>) -> (r: SymMap<
        InstrumentSymbol,
        BidAsk,
    >)
        requires
            self.wf(),
        ensures
            r.wf(),
            forall|j: int|
                0 <= j < assets@.len() && self@.contains_key(
                    #[trigger] assets@[j]@ + base_asset@,
                ) ==> r@.contains_key(assets@[j]@ + base_asset@) && same_bidask(
                    r@[assets@[j]@ + base_asset@],
                    self@[assets@[j]@ + base_asset@],
                ),
            forall|k: Seq<u8>|
                #[trigger] r@.contains_key(k) ==> self@.contains_key(k) && same_bidask(
                    r@[k],
                    self@[k],
                ) && (exists|j: int| 0 <= j < assets@.len() && assets@[j]@ + base_asset@ == k),
    {
        let mut out: SymMap<InstrumentSymbol, BidAsk> = SymMap::empty();
        let n = assets.len();
        let mut i: usize = 0;
        while i < n
            invariant
                self.wf(),
                out.wf(),
                i <= n,
                n == assets@.len(),
                forall|j: int|
                    0 <= j < i && self@.contains_key(#[trigger] assets@[j]@ + base_asset@)
                        ==> out@.contains_key(assets@[j]@ + base_asset@) && same_bidask(
                        out@[assets@[j]@ + base_asset@],
                        self@[assets@[j]@ + base_asset@],
                    ),
                forall|k: Seq<u8>|
                    #[trigger] out@.contains_key(k) ==> self@.contains_key(k) && same_bidask(
                        out@[k],
                        self@[k],
                    ) && (exists|j: int|
                        0 <= j < assets@.len() && assets@[j]@ + base_asset@ == k),
            decreases n - i,
        {
            let asset = &assets[i];
            let instrument = get_instrument_symbol(asset, base_asset);
            let found = self.items.get(&instrument);
            match found {
                Some(q) => {
                    let dup = q.dup();
                    proof {
                        assert(assets@[i as int]@ + base_asset@ == instrument@);
                    }
                    out.insert(instrument, dup);
                },
                None => {},
            }
            i = i + 1;
        }
        out
    }

    /// Prices of `from_assets` valued in `to_asset`: the asset itself maps
    /// to one, others to the sell-side asset price of the `from/to` quote;
    /// assets with no quote are omitted.
    pub fn find_prices(&self, to_asset: &AssetSymbol, from_assets: &Vec<AssetSymbol>) -> (r:
        SymMap<AssetSymbol, i64>)
        requires
            self.wf(),
        ensures
            r.wf(),
            forall|j: int|
                0 <= j < from_assets@.len() ==> {
                    let a = (#[trigger] from_assets@[j])@;
                    &&& a == to_asset@ ==> r@.contains_key(a) && r@[a] == SCALE
                    &&& a != to_asset@ && self@.contains_key(a + to_asset@)
                        ==> r@.contains_key(a) && r@[a] == self@[a + to_asset@].ask
                },
            forall|k: Seq<u8>|
                #[trigger] r@.contains_key(k) ==> (exists|j: int|
                    0 <= j < from_assets@.len() && from_assets@[j]@ == k) && (k == to_asset@
                    || self@.contains_key(k + to_asset@)),
    {
        let mut out: SymMap<AssetSymbol, i64> = SymMap::empty();
        let n = from_assets.len();
        let mut i: usize = 0;
        while i < n
            invariant
                self.wf(),
                out.wf(),
                i <= n,
                n == from_assets@.len(),
                forall|j: int|
                    0 <= j < i ==> {
                        let a = (#[trigger] from_assets@[j])@;
                        &&& a == to_asset@ ==> out@.contains_key(a) && out@[a] == SCALE
                        &&& a != to_asset@ && self@.contains_key(a + to_asset@)
                            ==> out@.contains_key(a) && out@[a] == self@[a + to_asset@].ask
                    },
                forall|k: Seq<u8>|
                    #[trigger] out@.contains_key(k) ==> (exists|j: int|
                        0 <= j < from_assets@.len() && from_assets@[j]@ == k) && (k == to_asset@
                        || self@.contains_key(k + to_asset@)),
            decreases n - i,
        {
            let asset = &from_assets[i];
            if asset.key_eq(to_asset) {
                out.insert(asset.key_dup(), SCALE);
            } else {
                let instrument = get_instrument_symbol(asset, to_asset);
                let found = self.items.get(&instrument);
                match found {
                    Some(q) => {
                        proof {
                            assert((asset@ + to_asset@).subrange(0, asset@.len() as int)
                                =~= asset@);
                            assert(asset@.is_prefix_of(q.instrument@));
                        }
                        let price = q.get_asset_price(asset, &crate::orders::OrderSide::Sell);
                        out.insert(asset.key_dup(), price);
                    },
                    None => {},
                }
            }
            i = i + 1;
        }
        out
    }
}

/// Position lookup by id and by wallet id.
pub struct PositionsCache {
    positions_by_ids: SymMap<PositionId, Position>,
    ids_by_wallet_ids: SymMap<WalletId, SymSet<PositionId>>,
}

impl PositionsCache {
    /// The positions keyed by their id bytes.
    pub closed spec fn view(self) -> Map<Seq<u8>, Position> {
        self.positions_by_ids@
    }

    /// The positions container itself, for column-level reasoning.
    pub closed spec fn positions(self) -> SymMap<PositionId, Position> {
        self.positions_by_ids
    }

    /// The by-wallet index.
    pub closed spec fn wallets_index(self) -> SymMap<WalletId, SymSet<PositionId>> {
        self.ids_by_wallet_ids
    }

    /// Validity: both indexes well-formed and mutually consistent; a wallet
    /// is indexed exactly while it has at least one position.
    pub open spec fn wf(self) -> bool {
        &&& self.positions().wf()
        &&& self.wallets_index().wf()
        &&& forall|w: Seq<u8>|
            #[trigger] self.wallets_index()@.contains_key(w) ==> {
                let s = self.wallets_index()@[w];
                s.wf() && s.spec_len() > 0
            }
        &&& forall|id: Seq<u8>|
            #[trigger] self@.contains_key(id) ==> {
                let p = self@[id];
                let w = p.spec_order().wallet_id@;
                &&& p.spec_id()@ == id
                &&& p.wf()
                &&& self.wallets_index()@.contains_key(w)
                &&& self.wallets_index()@[w]@.contains(id)
            }
        &&& forall|w: Seq<u8>, id: Seq<u8>|
            self.wallets_index()@.contains_key(w) && #[trigger] self.wallets_index()@[w]@.contains(
                id,
            ) ==> self@.contains_key(id) && self@[id].spec_order().wallet_id@ == w
    }

    /// An empty cache; the capacity is a sizing hint only.
    pub fn with_capacity(capacity: usize) -> (r: PositionsCache)
        ensures
            r.wf(),
            r@ =~= Map::<Seq<u8>, Position>::empty(),
            r.wallets_index()@ =~= Map::<Seq<u8>, SymSet<PositionId>>::empty(),
            r.positions().spec_len() == 0,
    {
        let _ = capacity;
        PositionsCache { positions_by_ids: SymMap::empty(), ids_by_wallet_ids: SymMap::empty() }
    }

    /// The number of cached positions.
    pub fn count(&self) -> (r: usize)
        ensures
            r == self.positions().spec_len(),
    {
        self.positions_by_ids.len()
    }

    pub fn is_empty(&self) -> (r: bool)
        ensures
            r == (self.positions().spec_len() == 0),
    {
        self.positions_by_ids.is_empty()
    }

    /// Insert a position; re-adding an id overwrites, and the by-wallet
    /// index follows the position's wallet.
    pub fn add(&mut self, position: Position)
        requires
            old(self).wf(),
            position.wf(),
        ensures
            final(self).wf(),
            final(self)@ =~= old(self)@.insert(position.spec_id()@, position),
            final(self).wallets_index()@.contains_key(position.spec_order().wallet_id@),
            final(self).wallets_index()@[position.spec_order().wallet_id@]@.contains(
                position.spec_id()@,
            ),
            final(self).positions().spec_len() == old(self).positions().spec_len() + (if old(
                self,
            )@.contains_key(position.spec_id()@) {
                0int
            } else {
                1int
            }),
            spec_add_rel(*old(self), *final(self), position),
    {
        // A stale entry under the same id would leave a dangling index
        // entry under its old wallet: drop it first.
        let _prior = self.remove(position.get_id());
        let ghost ap = *self;
        let ghost idb = position.spec_id()@;
        let ghost wb = position.spec_order().wallet_id@;
        let w = position.get_order().wallet_id.key_dup();
        let set_opt = self.ids_by_wallet_ids.remove(&w);
        let ghost had = set_opt is Some;
        let mut s = match set_opt {
            Some(s) => s,
            None => SymSet::empty(),
        };
        proof {
            if had {
                assert(s == ap.wallets_index()@[wb]);
                assert(ap.wallets_index()@.contains_key(wb));
                assert(s.wf());
            }
        }
        s.insert(position.get_id().key_dup());
        let ghost s2 = s;
        self.ids_by_wallet_ids.insert(w, s);
        let key = position.get_id().key_dup();
        self.positions_by_ids.insert(key, position);
        proof {
            assert(!ap@.contains_key(idb));
            assert(self@ =~= ap@.insert(idb, position));
            assert(self@ =~= old(self)@.insert(idb, position));
            assert(self.wallets_index()@ =~= ap.wallets_index()@.insert(wb, s2));
            assert(s2@.contains(idb));
            assert forall|id: Seq<u8>| #[trigger] self@.contains_key(id) implies {
                let p2 = self@[id];
                let w2 = p2.spec_order().wallet_id@;
                &&& p2.spec_id()@ == id
                &&& p2.wf()
                &&& self.wallets_index()@.contains_key(w2)
                &&& self.wallets_index()@[w2]@.contains(id)
            } by {
                if id != idb {
                    let p2 = self@[id];
                    let w2 = p2.spec_order().wallet_id@;
                    assert(ap@.contains_key(id));
                    assert(ap.wallets_index()@.contains_key(w2));
                    assert(ap.wallets_index()@[w2]@.contains(id));
                    if w2 == wb {
                        assert(had);
                        assert(s2@.contains(id));
                    }
                }
            }
            assert forall|w2: Seq<u8>, id: Seq<u8>|
                self.wallets_index()@.contains_key(w2)
                    && #[trigger] self.wallets_index()@[w2]@.contains(id)
                implies self@.contains_key(id) && self@[id].spec_order().wallet_id@ == w2 by {
                if w2 == wb {
                    if id != idb {
                        assert(had);
                        assert(ap.wallets_index()@[wb]@.contains(id));
                        assert(ap@.contains_key(id));
                    }
                } else {
                    assert(ap.wallets_index()@.contains_key(w2));
                    assert(ap.wallets_index()@[w2]@.contains(id));
                    assert(ap@.contains_key(id));
                    assert(id != idb);
                }
            }
            assert forall|w2: Seq<u8>| #[trigger] self.wallets_index()@.contains_key(w2)
                implies {
                let st = self.wallets_index()@[w2];
                st.wf() && st.spec_len() > 0
            } by {
                if w2 == wb {
                    assert(s2@.contains(idb));
                    s2.lemma_present(idb);
                } else {
                    assert(ap.wallets_index()@.contains_key(w2));
                }
            }
        }
    }

    /// Remove a position, dropping the wallet's index entry when it was the
    /// wallet's last position.
    pub fn remove(&mut self, position_id: &PositionId) -> (r: Option<Position>)
        requires
            old(self).wf(),
        ensures
            final(self).wf(),
            final(self)@ =~= old(self)@.remove(position_id@),
            spec_remove_rel(*old(self), *final(self), position_id@),
            final(self).positions().spec_len() == old(self).positions().spec_len() - (if old(
                self,
            )@.contains_key(position_id@) {
                1int
            } else {
                0int
            }),
            match r {
                Some(p) => old(self)@.contains_key(position_id@) && p == old(self)@[position_id@],
                None => !old(self)@.contains_key(position_id@) && *final(self) == *old(self),
            },
    {
        let removed = self.positions_by_ids.remove(position_id);
        match removed {
            Some(p) => {
                proof {
                    old(self).positions_by_ids.lemma_present(position_id@);
                    assert(self.positions_by_ids.key_seq().len()
                        == old(self).positions_by_ids.key_seq().len() - 1);
                }
                let w = p.get_order().wallet_id.key_dup();
                let set_opt = self.ids_by_wallet_ids.remove(&w);
                match set_opt {
                    Some(mut s) => {
                        s.remove(position_id);
                        let ghost s_after = s;
                        if s.len() > 0 {
                            self.ids_by_wallet_ids.insert(w, s);
                        }
                        proof {
                            let idb = position_id@;
                            let wb = p.spec_order().wallet_id@;
                            let pre = *old(self);
                            assert(self@ =~= pre@.remove(idb));
                            assert forall|id: Seq<u8>| #[trigger] self@.contains_key(id)
                                implies {
                                let p2 = self@[id];
                                let w2 = p2.spec_order().wallet_id@;
                                &&& p2.spec_id()@ == id
                                &&& p2.wf()
                                &&& self.wallets_index()@.contains_key(w2)
                                &&& self.wallets_index()@[w2]@.contains(id)
                            } by {
                                let p2 = self@[id];
                                let w2 = p2.spec_order().wallet_id@;
                                assert(pre@.contains_key(id));
                                if w2 == wb {
                                    assert(pre.wallets_index()@[wb].wf());
                                    assert(s_after.wf());
                                    assert(id != idb);
                                    assert(pre.wallets_index()@[wb]@.contains(id));
                                    assert(s_after@.contains(id));
                                    assert(s_after.spec_len() > 0) by {
                                        s_after.lemma_present(id);
                                    }
                                } else {
                                    assert(pre.wallets_index()@.contains_key(w2));
                                }
                            }
                            assert forall|w2: Seq<u8>, id: Seq<u8>|
                                self.wallets_index()@.contains_key(w2)
                                    && #[trigger] self.wallets_index()@[w2]@.contains(id)
                                implies self@.contains_key(id)
                                && self@[id].spec_order().wallet_id@ == w2 by {
                                if w2 == wb {
                                    assert(s_after@.contains(id));
                                    assert(pre.wallets_index()@[wb]@.contains(id));
                                    assert(id != idb);
                                } else {
                                    assert(pre.wallets_index()@.contains_key(w2)
                                        && pre.wallets_index()@[w2]@.contains(id));
                                    assert(id != idb);
                                }
                            }
                            assert forall|w2: Seq<u8>|
                                #[trigger] self.wallets_index()@.contains_key(w2) implies {
                                let st = self.wallets_index()@[w2];
                                st.wf() && st.spec_len() > 0
                            } by {
                                if w2 != wb {
                                    assert(pre.wallets_index()@.contains_key(w2));
                                }
                            }
                        }
                        Some(p)
                    },
                    None => {
                        proof {
                            assert(old(self)@.contains_key(position_id@));
                            assert(old(self).wallets_index()@.contains_key(
                                p.spec_order().wallet_id@,
                            ));
                            assert(false);
                        }
                        Some(p)
                    },
                }
            },
            None => {
                proof {
                    assert(self@ =~= old(self)@.remove(position_id@));
                }
                None
            },
        }
    }

    /// Up to `limit` positions of a wallet, in index order; a wallet with
    /// no positions yields an empty vector.
    pub fn get_by_wallet_id(&self, wallet_id: &WalletId, limit: usize) -> (r: Vec<&Position>)
        requires
            self.wf(),
        ensures
            !self.wallets_index()@.contains_key(wallet_id@) ==> r@.len() == 0,
            self.wallets_index()@.contains_key(wallet_id@) ==> {
                let s = self.wallets_index()@[wallet_id@];
                &&& r@.len() == (if s.spec_len() < limit {
                    s.spec_len() as int
                } else {
                    limit as int
                })
                &&& forall|j: int|
                    0 <= j < r@.len() ==> *(#[trigger] r@[j]) == self@[s.key_seq()[j]]
            },
    {
        let set_opt = self.ids_by_wallet_ids.get(wallet_id);
        let s = match set_opt {
            Some(s) => s,
            None => {
                return Vec::new();
            },
        };
        let count = s.len();
        let n = if count < limit {
            count
        } else {
            limit
        };
        let mut out: Vec<&Position> = Vec::new();
        let mut i: usize = 0;
        while i < n
            invariant
                self.wf(),
                self.wallets_index()@.contains_key(wallet_id@),
                *s == self.wallets_index()@[wallet_id@],
                i <= n,
                n <= s.spec_len(),
                out@.len() == i,
                forall|j: int|
                    0 <= j < i ==> *(#[trigger] out@[j]) == self@[s.key_seq()[j]],
            decreases n - i,
        {
            let id = s.key_at(i);
            let found = self.positions_by_ids.get(id);
            match found {
                Some(p) => {
                    out.push(p);
                },
                None => {
                    // unreachable: every indexed id is in the cache
                },
            }
            i = i + 1;
        }
        out
    }

    /// Whether the wallet has at least one cached position.
    pub fn contains_by_wallet_id(&self, wallet_id: &WalletId) -> (r: bool)
        requires
            self.wf(),
        ensures
            r == self.wallets_index()@.contains_key(wallet_id@),
    {
        self.ids_by_wallet_ids.contains(wallet_id)
    }

    /// Whether a position with this id is cached.
    pub fn contains(&self, position_id: &PositionId) -> (r: bool)
        requires
            self.wf(),
        ensures
            r == self@.contains_key(position_id@),
    {
        self.positions_by_ids.contains(position_id)
    }

    pub fn get(&self, position_id: &PositionId) -> (r: Option<&Position>)
        requires
            self.wf(),
        ensures
            match r {
                Some(p) => self@.contains_key(position_id@) && *p == self@[position_id@],
                None => !self@.contains_key(position_id@),
            },
    {
        self.positions_by_ids.get(position_id)
    }

    /// Mutable access to a cached position. Writing a position whose id,
    /// wallet or validity differ through the returned borrow leaves the
    /// cache outside [`Self::wf`]; the caller answers for what it writes.
    pub fn get_mut(&mut self, id: &PositionId) -> (r: Option<&mut Position>)
        requires
            old(self).wf(),
        ensures
            match r {
                Some(p) => old(self)@.contains_key(id@) && *p == old(self)@[id@] && final(self).positions().key_seq() == old(self).positions().key_seq() && final(self).positions().val_seq() == old(self).positions().val_seq().update(
                    old(self).positions().spec_idx(id@),
                    *final(p),
                ) && final(self).wallets_index() == old(self).wallets_index(),
                None => !old(self)@.contains_key(id@) && *final(self) == *old(self),
            },
    {
        self.positions_by_ids.get_mut(id)
    }
}


/// How [`PositionsCache::add`] relates the cache before and after.
pub open spec fn spec_add_rel(pre: PositionsCache, post: PositionsCache, p: Position) -> bool {
    &&& post.wf()
    &&& post@ == pre@.insert(p.spec_id()@, p)
    &&& post.wallets_index()@.contains_key(p.spec_order().wallet_id@)
    &&& post.wallets_index()@[p.spec_order().wallet_id@]@.contains(p.spec_id()@)
}

/// How [`PositionsCache::remove`] relates the cache before and after.
pub open spec fn spec_remove_rel(pre: PositionsCache, post: PositionsCache, id: Seq<u8>) -> bool {
    &&& post.wf()
    &&& post@ == pre@.remove(id)
}

/// Adding the same position twice leaves exactly one copy: the cache after
/// the second add equals the cache after the first, and the by-wallet index
/// still holds the id once (a set holds no duplicates).
pub proof fn lemma_add_idempotent(
    c0: PositionsCache,
    c1: PositionsCache,
    c2: PositionsCache,
    p: Position,
)
    requires
        spec_add_rel(c0, c1, p),
        spec_add_rel(c1, c2, p),
    ensures
        c2@ == c1@,
        c2.wallets_index()@[p.spec_order().wallet_id@]@.contains(p.spec_id()@),
{
    assert(c2@ =~= c1@);
}

/// Removing a position that was just added to a cache that did not hold it
/// returns the position map to its pre-add state.
pub proof fn lemma_remove_inverse(
    c0: PositionsCache,
    c1: PositionsCache,
    c2: PositionsCache,
    p: Position,
)
    requires
        !c0@.contains_key(p.spec_id()@),
        spec_add_rel(c0, c1, p),
        spec_remove_rel(c1, c2, p.spec_id()@),
    ensures
        c2@ == c0@,
{
    assert(c2@ =~= c0@);
}

} // verus!
