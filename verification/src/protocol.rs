//! Identifiers for concurrent protocol contexts: a parent identifier is
//! extended with a little-endian counter suffix, so that the children of one
//! context never collide as long as they are drawn in order.

use std::sync::Arc;
use vstd::prelude::*;

use crate::galois::le_bytes_val;
use crate::sharing::PackedSharing;

verus! {

use vstd::arithmetic::div_mod::{lemma_fundamental_div_mod, lemma_mod_bound};
use vstd::arithmetic::power2::{
    lemma2_to64, lemma2_to64_rest, lemma_pow2_strictly_increases, pow2,
};
use vstd::bits::{lemma_u64_pow2_no_overflow, lemma_u64_shl_is_mul};

/// Unique identifier for a protocol context.
pub type ProtocolID = Vec<u8>;

/// Identifier of one party.
pub type PartyID = u16;

/// Computes unique protocol identifiers for the subcontexts of a parent
/// context.  Each child identifier is the parent identifier followed by the
/// current counter suffix; the counter then advances by one.
pub struct ProtocolIDBuilder<'a> {
    id: &'a ProtocolID,
    suffix: Vec<u8>,
}

impl<'a> ProtocolIDBuilder<'a> {
    /// The parent identifier.
    pub closed spec fn spec_id(self) -> Seq<u8> {
        self.id@
    }

    /// The counter suffix, least significant byte first.
    pub closed spec fn spec_suffix(self) -> Seq<u8> {
        self.suffix@
    }

    /// Start a builder for up to `num` children: the counter gets as many
    /// bytes as the bit width of the smallest power of two reaching `num`,
    /// rounded up to whole bytes, and starts at zero.  For `num >= 2` the
    /// counter is wide enough to range over at least `num` values; a bound
    /// of one or zero gets no counter bytes and yields no children.
    pub fn new(parent_id: &'a ProtocolID, num: u64) -> (r: Self)
        ensures
            r.spec_id() == parent_id@,
            r.spec_suffix().len() <= 8,
            le_bytes_val(r.spec_suffix()) == 0,
            forall|k: int| 0 <= k < r.spec_suffix().len() ==> (#[trigger] r.spec_suffix()[k])
                == 0,
            num <= 1 ==> r.spec_suffix().len() == 0,
            num >= 2 ==> 1 <= r.spec_suffix().len() && num <= pow2(
                (8 * r.spec_suffix().len()) as nat,
            ),
    {
        let mut bits: u32 = 0;
        while bits < 64 && (1u64 << bits) < num
            invariant
                bits <= 64,
                bits == 0 || (1u64 << ((bits - 1) as u32)) < num,
            decreases 64 - bits,
        {
            bits += 1;
        }
        proof {
            assert(forall|b: u32| b < 64 ==> (1u64 << b) >= 1) by (bit_vector);
            assert((1u64 << 0u32) == 1) by (bit_vector);
            if num <= 1 {
                assert(bits == 0);
            } else {
                assert(bits >= 1);
                let nb = ((bits + 7) / 8) as int;
                assert(8 * nb >= bits) by {
                    lemma_mod_bound((bits + 7) as int, 8);
                    lemma_fundamental_div_mod((bits + 7) as int, 8);
                };
                if bits == 64 {
                    assert(nb == 8);
                    assert(pow2(64) == 0x10000000000000000) by {
                        lemma2_to64();
                        lemma2_to64_rest();
                    };
                } else {
                    assert((1u64 << bits) >= num);
                    lemma_u64_pow2_no_overflow(bits as nat);
                    lemma_u64_shl_is_mul(1u64, bits as u64);
                    assert(pow2(bits as nat) >= num);
                    if bits < 8 * nb {
                        lemma_pow2_strictly_increases(bits as nat, (8 * nb) as nat);
                    }
                }
            }
        }
        let num_bytes = ((bits + 7) / 8) as usize;
        let mut suffix: Vec<u8> = Vec::new();
        let mut k: usize = 0;
        while k < num_bytes
            invariant
                k <= num_bytes,
                num_bytes <= 8,
                suffix@.len() == k,
                forall|x: int| 0 <= x < k ==> (#[trigger] suffix@[x]) == 0,
                le_bytes_val(suffix@) == 0,
            decreases num_bytes - k,
        {
            let ghost old_suffix = suffix@;
            suffix.push(0);
            proof {
                lemma_le_bytes_zero_push(old_suffix);
            }
            k += 1;
        }
        ProtocolIDBuilder { id: parent_id, suffix }
    }

    /// Advance the counter by one, starting the carry at byte `idx`.  Fails
    /// exactly when every byte from `idx` on already holds its maximum, and
    /// leaves the suffix unchanged in that case.
    fn increment_bytes(&mut self, idx: usize) -> (r: Result<(), ()>)
        requires
            idx <= old(self).spec_suffix().len(),
        ensures
            final(self).spec_id() == old(self).spec_id(),
            final(self).spec_suffix().len() == old(self).spec_suffix().len(),
            final(self).spec_suffix().subrange(0, idx as int) == old(self).spec_suffix().subrange(
                0,
                idx as int,
            ),
            match r {
                Ok(()) => le_bytes_val(
                    final(self).spec_suffix().skip(idx as int),
                ) == le_bytes_val(old(self).spec_suffix().skip(idx as int)) + 1,
                Err(()) => final(self).spec_suffix() == old(self).spec_suffix() && (forall|k: int|
                    idx <= k < old(self).spec_suffix().len() ==> (
                    #[trigger] old(self).spec_suffix()[k]) == 255),
            },
        decreases old(self).spec_suffix().len() - idx,
    {
        if idx >= self.suffix.len() {
            return Err(());
        }
        let ghost olds_full = self.suffix@;
        if self.suffix[idx] == 255u8 {
            self.suffix[idx] = 0;
            let ghost mid = self.suffix@;
            let r = self.increment_bytes(idx + 1);
            proof {
                let news_full = self.suffix@;
                assert(news_full.subrange(0, idx as int) =~= olds_full.subrange(0, idx as int));
                let olds = olds_full.skip(idx as int);
                let news = news_full.skip(idx as int);
                assert(olds.subrange(1, olds.len() as int) =~= olds_full.skip(idx + 1));
                assert(news.subrange(1, news.len() as int) =~= news_full.skip(idx + 1));
                assert(news_full.subrange(0, idx as int + 1)[idx as int] == news_full[idx as int]);
                assert(mid.subrange(0, idx as int + 1)[idx as int] == mid[idx as int]);
                assert(news[0] == mid[idx as int] && olds[0] == olds_full[idx as int]);
                if r is Err {
                    assert(mid.skip(idx + 1) =~= olds_full.skip(idx + 1));
                } else {
                    assert(mid.skip(idx + 1) =~= olds_full.skip(idx + 1));
                    assert(le_bytes_val(news) == le_bytes_val(olds) + 1);
                }
            }
            match r {
                Ok(()) => Ok(()),
                Err(()) => {
                    self.suffix[idx] = 255;
                    proof {
                        assert(self.suffix@ =~= olds_full);
                        assert(self.suffix@.subrange(0, idx as int) =~= olds_full.subrange(
                            0,
                            idx as int,
                        ));
                    }
                    Err(())
                },
            }
        } else {
            let v = self.suffix[idx];
            self.suffix[idx] = v + 1;
            proof {
                let news_full = self.suffix@;
                assert(news_full.subrange(0, idx as int) =~= olds_full.subrange(0, idx as int));
                let olds = olds_full.skip(idx as int);
                let news = news_full.skip(idx as int);
                assert(olds.subrange(1, olds.len() as int) =~= olds_full.skip(idx + 1));
                assert(news.subrange(1, news.len() as int) =~= news_full.skip(idx + 1));
                assert(news_full.skip(idx + 1) =~= olds_full.skip(idx + 1));
                assert(news[0] == v + 1 && olds[0] == v);
            }
            Ok(())
        }
    }

    /// The next child identifier: the parent identifier followed by the
    /// current counter.  Returns nothing once the counter is exhausted.
    pub fn next(&mut self) -> (r: Option<ProtocolID>)
        ensures
            final(self).spec_id() == old(self).spec_id(),
            final(self).spec_suffix().len() == old(self).spec_suffix().len(),
            match r {
                Some(child) => child@ == old(self).spec_id() + old(self).spec_suffix()
                    && le_bytes_val(final(self).spec_suffix()) == le_bytes_val(
                    old(self).spec_suffix(),
                ) + 1,
                None => final(self).spec_suffix() == old(self).spec_suffix() && (forall|k: int|
                    0 <= k < old(self).spec_suffix().len() ==> (
                    #[trigger] old(self).spec_suffix()[k]) == 255),
            },
    {
        let mut child_id: Vec<u8> = Vec::new();
        let mut k: usize = 0;
        let idv = self.id;
        while k < idv.len()
            invariant
                k <= idv@.len(),
                child_id@.len() == k,
                forall|x: int| 0 <= x < k ==> (#[trigger] child_id@[x]) == idv@[x],
            decreases idv@.len() - k,
        {
            child_id.push(idv[k]);
            k += 1;
        }
        let mut k: usize = 0;
        let ghost prefix = child_id@;
        while k < self.suffix.len()
            invariant
                k <= self.spec_suffix().len(),
                child_id@ == prefix + self.spec_suffix().subrange(0, k as int),
            decreases self.spec_suffix().len() - k,
        {
            child_id.push(self.suffix[k]);
            proof {
                assert(child_id@ =~= prefix + self.spec_suffix().subrange(0, k + 1));
            }
            k += 1;
        }
        proof {
            assert(child_id@ =~= old(self).spec_id() + old(self).spec_suffix());
        }
        let ghost before = self.suffix@;
        match self.increment_bytes(0) {
            Ok(()) => {
                proof {
                    assert(self.suffix@.skip(0) =~= self.suffix@);
                    assert(before.skip(0) =~= before);
                }
                Some(child_id)
            },
            Err(()) => None,
        }
    }
}

proof fn lemma_le_bytes_zero_push(s: Seq<u8>)
    requires
        le_bytes_val(s) == 0,
        forall|k: int| 0 <= k < s.len() ==> (#[trigger] s[k]) == 0,
    ensures
        le_bytes_val(s.push(0)) == 0,
    decreases s.len(),
{
    reveal_with_fuel(le_bytes_val, 3);
    if s.len() == 0 {
        assert(s.push(0).drop_first() =~= Seq::<u8>::empty());
        assert(s.push(0).subrange(1, 1) =~= Seq::<u8>::empty());
    } else {
        assert(s.push(0).subrange(1, s.len() as int + 1) =~= s.subrange(1, s.len() as int).push(0));
        lemma_le_bytes_zero_push(s.subrange(1, s.len() as int));
    }
}

/// The shared parameters of one MPC session: the party, the corruption
/// threshold, the LPN parameters, and the packed-sharing instances used for
/// ordinary wires and for sharings over all parties.
#[derive(Clone)]
pub struct MPCContext {
    /// This party's identifier.
    pub id: PartyID,
    /// The number of parties.
    pub n: usize,
    /// The corruption threshold.
    pub t: usize,
    /// The number of secrets packed into one sharing.
    pub l: usize,
    /// LPN error parameter: Bernoulli errors with bias `2^-lpn_tau`.
    pub lpn_tau: usize,
    /// LPN key length.
    pub lpn_key_len: usize,
    /// LPN message length.
    pub lpn_mssg_len: usize,
    /// Sharing instance for degree-`t` sharings.
    pub pss: Arc<PackedSharing>,
    /// Sharing instance for degree-`n-1` sharings.
    pub pss_n: Arc<PackedSharing>,
}

} // verus!
