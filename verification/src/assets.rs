//! Helpers on asset-amount maps: merging in new amounts and deducting
//! amounts that were handed back.

use vstd::prelude::*;
use crate::collections::SymMap;
use crate::numeric::sat_add;
use crate::numeric::sat_add_spec;
use crate::numeric::sat_sub;
use crate::numeric::sat_sub_spec;
use crate::symbols::AssetSymbol;
use crate::symbols::SymbolKey;

verus! {

/// The amounts of `dst` after adding every amount listed by `src_keys`
/// (with saturation); assets new to `dst` enter with the added amount.
pub open spec fn spec_merge_amounts(
    dst: Map<Seq<u8>, i64>,
    src_keys: Seq<Seq<u8>>,
    src: Map<Seq<u8>, i64>,
) -> Map<Seq<u8>, i64>
    decreases src_keys.len(),
{
    if src_keys.len() == 0 {
        dst
    } else {
        let prev = spec_merge_amounts(dst, src_keys.drop_last(), src);
        let k = src_keys.last();
        let base = if prev.contains_key(k) {
            prev[k] as int
        } else {
            0
        };
        prev.insert(k, sat_add_spec(base, src[k] as int) as i64)
    }
}

/// The key order of `dst` after the merge: existing keys stay in place,
/// assets new to `dst` are appended in `src` order.
pub open spec fn spec_merge_keys(dst_keys: Seq<Seq<u8>>, src_keys: Seq<Seq<u8>>) -> Seq<Seq<u8>>
    decreases src_keys.len(),
{
    if src_keys.len() == 0 {
        dst_keys
    } else {
        let prev = spec_merge_keys(dst_keys, src_keys.drop_last());
        if prev.contains(src_keys.last()) {
            prev
        } else {
            prev.push(src_keys.last())
        }
    }
}

/// The amounts of `dst` after deducting every amount listed by `src_keys`
/// (with saturation). Every listed asset must already be in `dst`.
pub open spec fn spec_sub_amounts(
    dst: Map<Seq<u8>, i64>,
    src_keys: Seq<Seq<u8>>,
    src: Map<Seq<u8>, i64>,
) -> Map<Seq<u8>, i64>
    decreases src_keys.len(),
{
    if src_keys.len() == 0 {
        dst
    } else {
        let prev = spec_sub_amounts(dst, src_keys.drop_last(), src);
        let k = src_keys.last();
        let base = if prev.contains_key(k) {
            prev[k] as int
        } else {
            0
        };
        prev.insert(k, sat_sub_spec(base, src[k] as int) as i64)
    }
}

/// Add every amount of `src` into `dst`, keyed by asset, saturating.
pub fn merge_amounts(dst: &mut SymMap<AssetSymbol, i64>, src: &SymMap<AssetSymbol, i64>)
    requires
        old(dst).wf(),
        src.wf(),
    ensures
        final(dst).wf(),
        final(dst)@ == spec_merge_amounts(old(dst)@, src.key_seq(), src@),
        final(dst).key_seq() == spec_merge_keys(old(dst).key_seq(), src.key_seq()),
{
    let n = src.len();
    let mut i: usize = 0;
    proof {
        assert(src.key_seq().take(0) =~= Seq::<Seq<u8>>::empty());
    }
    while i < n
        invariant
            dst.wf(),
            src.wf(),
            i <= n,
            n == src.spec_len(),
            dst@ == spec_merge_amounts(old(dst)@, src.key_seq().take(i as int), src@),
            dst.key_seq() == spec_merge_keys(
                old(dst).key_seq(),
                src.key_seq().take(i as int),
            ),
        decreases n - i,
    {
        let k = src.key_at(i);
        let amt = *src.val_at(i);
        proof {
            let t = src.key_seq().take(i + 1);
            assert(t.drop_last() =~= src.key_seq().take(i as int));
            assert(t.last() == src.key_seq()[i as int]);
            crate::collections::lemma_keyseq_dom(*dst);
        }
        let cur = dst.get(k);
        match cur {
            Some(v) => {
                let nv = sat_add(*v, amt);
                dst.insert(k.key_dup(), nv);
            },
            None => {
                dst.insert(k.key_dup(), amt);
            },
        }
        i = i + 1;
    }
    proof {
        assert(src.key_seq().take(n as int) =~= src.key_seq());
    }
}

/// Deduct every amount of `src` from `dst`, keyed by asset, saturating.
/// Assets missing from `dst` enter with the negated deduction.
pub fn sub_amounts(dst: &mut SymMap<AssetSymbol, i64>, src: &SymMap<AssetSymbol, i64>)
    requires
        old(dst).wf(),
        src.wf(),
    ensures
        final(dst).wf(),
        final(dst)@ == spec_sub_amounts(old(dst)@, src.key_seq(), src@),
        final(dst).key_seq() == spec_merge_keys(old(dst).key_seq(), src.key_seq()),
{
    let n = src.len();
    let mut i: usize = 0;
    proof {
        assert(src.key_seq().take(0) =~= Seq::<Seq<u8>>::empty());
    }
    while i < n
        invariant
            dst.wf(),
            src.wf(),
            i <= n,
            n == src.spec_len(),
            dst@ == spec_sub_amounts(old(dst)@, src.key_seq().take(i as int), src@),
            dst.key_seq() == spec_merge_keys(
                old(dst).key_seq(),
                src.key_seq().take(i as int),
            ),
        decreases n - i,
    {
        let k = src.key_at(i);
        let amt = *src.val_at(i);
        proof {
            let t = src.key_seq().take(i + 1);
            assert(t.drop_last() =~= src.key_seq().take(i as int));
            assert(t.last() == src.key_seq()[i as int]);
            crate::collections::lemma_keyseq_dom(*dst);
        }
        let cur = dst.get(k);
        match cur {
            Some(v) => {
                let nv = sat_sub(*v, amt);
                dst.insert(k.key_dup(), nv);
            },
            None => {
                let nv = sat_sub(0, amt);
                dst.insert(k.key_dup(), nv);
            },
        }
        i = i + 1;
    }
    proof {
        assert(src.key_seq().take(n as int) =~= src.key_seq());
    }
}

} // verus!
