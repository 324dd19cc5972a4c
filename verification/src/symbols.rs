//! Compact, comparable key types: asset and instrument symbols, wallet and
//! position ids.
//!
//! Each is an opaque short byte string; equality is bytewise. The instrument
//! symbol of an asset pair is the concatenation `base ++ quote`, produced
//! only by [`get_instrument_symbol`], the single source of truth.

use vstd::prelude::*;

verus! {

/// Bytewise equality of two byte slices.
pub fn bytes_eq(a: &[u8], b: &[u8]) -> (r: bool)
    ensures
        r == (a@ == b@),
{
    if a.len() != b.len() {
        proof {
            assert(a@.len() != b@.len());
        }
        return false;
    }
    let n = a.len();
    let mut i: usize = 0;
    while i < n
        invariant
            i <= n,
            n == a@.len() == b@.len(),
            forall|j: int| 0 <= j < i ==> a@[j] == b@[j],
        decreases n - i,
    {
        if a[i] != b[i] {
            proof {
                assert(a@[i as int] != b@[i as int]);
            }
            return false;
        }
        i = i + 1;
    }
    proof {
        assert(a@ =~= b@);
    }
    true
}

/// Does `p` occur at the start of `s`?
pub fn bytes_is_prefix(p: &[u8], s: &[u8]) -> (r: bool)
    ensures
        r == p@.is_prefix_of(s@),
{
    if p.len() > s.len() {
        return false;
    }
    let n = p.len();
    let mut i: usize = 0;
    while i < n
        invariant
            i <= n,
            n == p@.len() <= s@.len(),
            forall|j: int| 0 <= j < i ==> p@[j] == s@[j],
        decreases n - i,
    {
        if p[i] != s[i] {
            proof {
                assert(p@[i as int] != s@[i as int]);
            }
            return false;
        }
        i = i + 1;
    }
    proof {
        assert(p@ =~= s@.subrange(0, p@.len() as int));
    }
    true
}

pub fn bytes_dup(a: &Vec<u8>) -> (r: Vec<u8>)
    ensures
        r@ == a@,
{
    let r = a.clone();
    proof {
        assert(r@ =~= a@);
    }
    r
}

/// A key in the engine: a short byte string with bytewise equality.
pub trait SymbolKey: Sized {
    /// The bytes that identify this value.
    spec fn key(&self) -> Seq<u8>;

    /// Bytewise equality of keys.
    fn key_eq(&self, other: &Self) -> (r: bool)
        ensures
            r == (self.key() == other.key()),
    ;

    /// A fresh value with the same key.
    fn key_dup(&self) -> (r: Self)
        ensures
            r.key() == self.key(),
    ;
}

/// A single asset ("BTC", "USDT").
pub struct AssetSymbol {
    pub bytes: Vec<u8>,
}

/// A traded pair ("ATOMUSDT"): always built by [`get_instrument_symbol`].
pub struct InstrumentSymbol {
    pub bytes: Vec<u8>,
}

/// Identifies a wallet.
pub struct WalletId {
    pub bytes: Vec<u8>,
}

/// Identifies a position.
pub struct PositionId {
    pub bytes: Vec<u8>,
}

impl View for AssetSymbol {
    type V = Seq<u8>;

    open spec fn view(&self) -> Seq<u8> {
        self.bytes@
    }
}

impl View for InstrumentSymbol {
    type V = Seq<u8>;

    open spec fn view(&self) -> Seq<u8> {
        self.bytes@
    }
}

impl View for WalletId {
    type V = Seq<u8>;

    open spec fn view(&self) -> Seq<u8> {
        self.bytes@
    }
}

impl View for PositionId {
    type V = Seq<u8>;

    open spec fn view(&self) -> Seq<u8> {
        self.bytes@
    }
}

impl AssetSymbol {
    pub fn new(bytes: Vec<u8>) -> (r: Self)
        ensures
            r@ == bytes@,
    {
        AssetSymbol { bytes }
    }
}

impl InstrumentSymbol {
    pub fn new(bytes: Vec<u8>) -> (r: Self)
        ensures
            r@ == bytes@,
    {
        InstrumentSymbol { bytes }
    }
}

impl WalletId {
    pub fn new(bytes: Vec<u8>) -> (r: Self)
        ensures
            r@ == bytes@,
    {
        WalletId { bytes }
    }
}

impl PositionId {
    pub fn new(bytes: Vec<u8>) -> (r: Self)
        ensures
            r@ == bytes@,
    {
        PositionId { bytes }
    }
}

impl SymbolKey for AssetSymbol {
    open spec fn key(&self) -> Seq<u8> {
        self.bytes@
    }

    fn key_eq(&self, other: &Self) -> (r: bool) {
        bytes_eq(self.bytes.as_slice(), other.bytes.as_slice())
    }

    fn key_dup(&self) -> (r: Self) {
        AssetSymbol { bytes: bytes_dup(&self.bytes) }
    }
}

impl SymbolKey for InstrumentSymbol {
    open spec fn key(&self) -> Seq<u8> {
        self.bytes@
    }

    fn key_eq(&self, other: &Self) -> (r: bool) {
        bytes_eq(self.bytes.as_slice(), other.bytes.as_slice())
    }

    fn key_dup(&self) -> (r: Self) {
        InstrumentSymbol { bytes: bytes_dup(&self.bytes) }
    }
}

impl SymbolKey for WalletId {
    open spec fn key(&self) -> Seq<u8> {
        self.bytes@
    }

    fn key_eq(&self, other: &Self) -> (r: bool) {
        bytes_eq(self.bytes.as_slice(), other.bytes.as_slice())
    }

    fn key_dup(&self) -> (r: Self) {
        WalletId { bytes: bytes_dup(&self.bytes) }
    }
}

impl SymbolKey for PositionId {
    open spec fn key(&self) -> Seq<u8> {
        self.bytes@
    }

    fn key_eq(&self, other: &Self) -> (r: bool) {
        bytes_eq(self.bytes.as_slice(), other.bytes.as_slice())
    }

    fn key_dup(&self) -> (r: Self) {
        PositionId { bytes: bytes_dup(&self.bytes) }
    }
}

/// The instrument symbol for the pair `(asset, base)`: the concatenation of
/// the two asset symbols. Every place that needs the pair's symbol goes
/// through this function.
pub fn get_instrument_symbol(asset: &AssetSymbol, base: &AssetSymbol) -> (r: InstrumentSymbol)
    ensures
        r@ == asset@ + base@,
{
    let mut bytes = bytes_dup(&asset.bytes);
    proof {
        assert(bytes@ =~= asset.bytes@ + base.bytes@.take(0));
    }
    let mut i: usize = 0;
    let n = base.bytes.len();
    while i < n
        invariant
            i <= n,
            n == base.bytes@.len(),
            bytes@ == asset.bytes@ + base.bytes@.take(i as int),
        decreases n - i,
    {
        let b = base.bytes[i];
        bytes.push(b);
        proof {
            assert(asset.bytes@ + base.bytes@.take(i as int) + seq![base.bytes@[i as int]] =~= asset.bytes@ + base.bytes@.take(i + 1));
        }
        i = i + 1;
    }
    proof {
        assert(base.bytes@.take(n as int) =~= base.bytes@);
    }
    InstrumentSymbol { bytes }
}

} // verus!
