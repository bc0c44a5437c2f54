//! Assembly of the ordered epoch-transition sequence.
//!
//! The per-epoch fetch work runs outside this crate; everything that decides
//! or computes stands here. `epoch_block_numbers` plans the arithmetic block
//! sequence, `make_transition` builds one transition from fetched data,
//! `order_transitions` reassembles concurrently completed transitions in
//! strictly increasing step-index order, `collect_transitions` short-circuits
//! a batch to its first error, and `split_genesis` separates the trusted
//! genesis block from the transitions handed to proof generation.

use crate::bitmap;
use crate::errors::PipelineError;
use vstd::arithmetic::div_mod::lemma_fundamental_div_mod;
use vstd::prelude::*;

verus! {

/// The block descriptor of one epoch boundary: where it sits in the
/// requested range, the caller-supplied fault-tolerance bound, and the
/// validator set in force after the transition (serialized public keys).
pub struct EpochBlock {
    /// Sequence position of this epoch within the requested range, 0-based.
    pub index: u16,
    /// Caller-supplied bound on how many validators may fail to sign.
    pub maximum_non_signers: u32,
    /// Ordered public keys that define the validator set after this
    /// transition.
    pub new_public_keys: Vec<Vec<u8>>,
}

/// One epoch transition: the block descriptor, the aggregate signature
/// attesting that a quorum of the previous epoch's validator set approved
/// it, and the fixed 256-entry participation vector over that previous set.
pub struct EpochTransition {
    pub block: EpochBlock,
    pub aggregate_signature: Vec<u8>,
    pub bitmap: Vec<bool>,
}

/// The block numbers of the epoch boundaries in `[start, end]` with step
/// `step`: exactly `(end - start) / step + 1` numbers, the `i`-th being
/// `start + i * step`.
pub fn epoch_block_numbers(start: u64, end: u64, step: u64) -> (nums: Vec<u64>)
    requires
        step >= 1,
        start <= end,
        (end - start) as int / step as int + 1 <= usize::MAX as int,
    ensures
        nums@.len() == (end - start) as int / step as int + 1,
        forall|i: int| 0 <= i < nums@.len() ==> nums@[i] == start as int + i * step as int,
{
    let span = end - start;
    let quotient = span / step;
    let count = quotient + 1;
    proof {
        lemma_fundamental_div_mod(span as int, step as int);
    }
    let mut nums: Vec<u64> = Vec::new();
    let mut i: u64 = 0;
    while i < count
        invariant
            step >= 1,
            start <= end,
            span == end - start,
            quotient == span as int / step as int,
            count == quotient + 1,
            span == quotient * step + span as int % step as int,
            i <= count,
            nums@.len() == i as int,
            forall|k: int| 0 <= k < i as int ==> nums@[k] == start as int + k * step as int,
        decreases count - i,
    {
        proof {
            assert(i as int * step as int <= quotient as int * step as int) by (nonlinear_arith)
                requires
                    i as int <= quotient as int,
                    step as int >= 1,
            ;
            assert(quotient * step <= span);
        }
        let num = start + i * step;
        nums.push(num);
        i = i + 1;
    }
    nums
}

/// Build one epoch transition from the data fetched for one boundary block:
/// the step index, the configured fault-tolerance bound, the validator set
/// after the transition, the aggregate signature from the block's signature
/// metadata, and the 32-byte fixed-width participation bitmap, which is
/// unpacked into exactly 256 booleans.
pub fn make_transition(
    index: u16,
    maximum_non_signers: u32,
    new_public_keys: Vec<Vec<u8>>,
    aggregate_signature: Vec<u8>,
    bitmap_bytes: &Vec<u8>,
) -> (t: EpochTransition)
    requires
        bitmap_bytes@.len() == 32,
    ensures
        t.block.index == index,
        t.block.maximum_non_signers == maximum_non_signers,
        t.block.new_public_keys == new_public_keys,
        t.aggregate_signature == aggregate_signature,
        t.bitmap@ == bitmap::spec_unpack(bitmap_bytes@),
        t.bitmap@.len() == 256,
{
    let bits = bitmap::unpack_bitmap(bitmap_bytes);
    EpochTransition {
        block: EpochBlock { index, maximum_non_signers, new_public_keys },
        aggregate_signature,
        bitmap: bits,
    }
}

/// All results in a batch are successes.
pub open spec fn all_ok(parts: Seq<Result<EpochTransition, PipelineError>>) -> bool {
    forall|i: int| 0 <= i < parts.len() ==> parts[i] is Ok
}

/// Collapse a batch of per-epoch results into either the complete ordered
/// sequence or the first error, fail-fast: no partial result ever survives a
/// failure.
pub fn collect_transitions(parts: Vec<Result<EpochTransition, PipelineError>>) -> (r: Result<
    Vec<EpochTransition>,
    PipelineError,
>)
    ensures
        r is Ok <==> all_ok(parts@),
        r is Ok ==> r->Ok_0@.len() == parts@.len() && (forall|i: int|
            0 <= i < parts@.len() ==> r->Ok_0@[i] == parts@[i]->Ok_0),
        r is Err ==> exists|k: int|
            #![auto]
            0 <= k < parts@.len() && parts@[k] is Err && r->Err_0 == parts@[k]->Err_0 && (forall|
                j: int,
            | 0 <= j < k ==> parts@[j] is Ok),
{
    let ghost orig = parts@;
    let mut rem = parts;
    let mut out: Vec<EpochTransition> = Vec::new();
    proof {
        assert(orig.skip(0) =~= orig);
    }
    while rem.len() > 0
        invariant
            orig == parts@,
            out@.len() + rem@.len() == orig.len(),
            rem@ == orig.skip(out@.len() as int),
            forall|j: int|
                0 <= j < out@.len() ==> (#[trigger] orig[j]) is Ok && out@[j] == orig[j]->Ok_0,
        decreases rem@.len(),
    {
        let ghost done = out@.len() as int;
        let x = rem.remove(0);
        proof {
            assert(x == orig[done]);
            assert(orig.skip(done).remove(0) =~= orig.skip(done + 1));
        }
        match x {
            Ok(t) => out.push(t),
            Err(e) => {
                proof {
                    assert(0 <= done < orig.len() && orig[done] is Err && e == orig[done]->Err_0
                        && (forall|j: int| 0 <= j < done ==> (#[trigger] orig[j]) is Ok));
                }
                return Err(e);
            },
        }
    }
    Ok(out)
}

/// How many slots of a partially assembled sequence are already filled.
pub open spec fn count_filled<T>(s: Seq<Option<T>>) -> nat
    decreases s.len(),
{
    if s.len() == 0 {
        0
    } else {
        count_filled(s.drop_last()) + (if s.last() is Some {
            1nat
        } else {
            0nat
        })
    }
}

proof fn lemma_count_filled_le<T>(s: Seq<Option<T>>)
    ensures
        count_filled(s) <= s.len(),
    decreases s.len(),
{
    if s.len() > 0 {
        lemma_count_filled_le(s.drop_last());
    }
}

proof fn lemma_count_filled_update<T>(s: Seq<Option<T>>, i: int, v: T)
    requires
        0 <= i < s.len(),
        s[i] is None,
    ensures
        count_filled(s.update(i, Some(v))) == count_filled(s) + 1,
    decreases s.len(),
{
    let u = s.update(i, Some(v));
    if i == s.len() - 1 {
        assert(u.drop_last() =~= s.drop_last());
        assert(u.last() == Some(v));
        assert(s.last() == s[i]);
    } else {
        assert(u.drop_last() =~= s.drop_last().update(i, Some(v)));
        assert(u.last() == s.last());
        lemma_count_filled_update(s.drop_last(), i, v);
    }
}

proof fn lemma_count_filled_full<T>(s: Seq<Option<T>>)
    requires
        count_filled(s) == s.len(),
    ensures
        forall|k: int| 0 <= k < s.len() ==> s[k] is Some,
    decreases s.len(),
{
    if s.len() > 0 {
        lemma_count_filled_le(s.drop_last());
        assert(count_filled(s.drop_last()) == s.len() - 1);
        lemma_count_filled_full(s.drop_last());
        assert forall|k: int| 0 <= k < s.len() implies s[k] is Some by {
            if k < s.len() - 1 {
                assert(s.drop_last()[k] is Some);
            } else {
                assert(s.last() is Some);
            }
        }
    }
}

/// The step indices of a batch are mutually distinct and all within range.
pub open spec fn indices_complete(parts: Seq<EpochTransition>) -> bool {
    (forall|j: int| 0 <= j < parts.len() ==> (#[trigger] parts[j].block.index) < parts.len())
        && (forall|a: int, b: int|
        0 <= a < b < parts.len() ==> (#[trigger] parts[a].block.index) != (
        #[trigger] parts[b].block.index))
}

/// Reassemble concurrently completed transitions into strictly increasing
/// step-index order. Succeeds exactly when the indices carried by the parts
/// are `0, 1, ..., n-1` in some order, whatever order the parts arrived in;
/// then slot `k` of the result holds the part whose index is `k`. A
/// duplicated or out-of-range index is a malformed batch.
pub fn order_transitions(parts: Vec<EpochTransition>) -> (r: Result<
    Vec<EpochTransition>,
    PipelineError,
>)
    ensures
        r is Ok <==> indices_complete(parts@),
        r is Err ==> r->Err_0 == PipelineError::MalformedRecord,
        r is Ok ==> r->Ok_0@.len() == parts@.len() && (forall|j: int|
            0 <= j < parts@.len() ==> r->Ok_0@[(#[trigger] parts@[j].block.index) as int]
                == parts@[j]),
{
    let ghost orig = parts@;
    let n = parts.len();
    let mut slots: Vec<Option<EpochTransition>> = Vec::new();
    let mut f: usize = 0;
    while f < n
        invariant
            f <= n,
            slots@.len() == f as int,
            forall|k: int| 0 <= k < f as int ==> slots@[k] is None,
        decreases n - f,
    {
        slots.push(None);
        f = f + 1;
    }
    proof {
        lemma_count_all_none(slots@);
    }
    let mut rem = parts;
    let mut done: usize = 0;
    proof {
        assert(orig.skip(0) =~= orig);
    }
    while rem.len() > 0
        invariant
            orig == parts@,
            n == orig.len(),
            done as int + rem@.len() == n as int,
            rem@ == orig.skip(done as int),
            slots@.len() == n as int,
            count_filled(slots@) == done as int,
            forall|j: int|
                0 <= j < done as int ==> (#[trigger] orig[j].block.index) < n && slots@[orig[j].block.index as int]
                    == Some(orig[j]),
            forall|k: int|
                0 <= k < n as int ==> (#[trigger] slots@[k]) is Some ==> exists|j: int|
                    0 <= j < done as int && orig[j].block.index == k,
            forall|a: int, b: int|
                0 <= a < b < done as int ==> (#[trigger] orig[a].block.index) != (
                #[trigger] orig[b].block.index),
        decreases rem@.len(),
    {
        let ghost d = done as int;
        let part = rem.remove(0);
        proof {
            assert(part == orig[d]);
            assert(orig.skip(d).remove(0) =~= orig.skip(d + 1));
        }
        let idx = part.block.index as usize;
        if idx >= n {
            proof {
                assert(orig[d].block.index >= orig.len());
                assert(!indices_complete(orig));
            }
            return Err(PipelineError::MalformedRecord);
        }
        let occupied = slots[idx].is_some();
        if occupied {
            proof {
                let j = choose|j: int| 0 <= j < d && orig[j].block.index == idx as int;
                assert(orig[j].block.index == orig[d].block.index);
                assert(!indices_complete(orig));
            }
            return Err(PipelineError::MalformedRecord);
        }
        proof {
            lemma_count_filled_update(slots@, idx as int, part);
            assert forall|a: int, b: int| 0 <= a < b < d + 1 implies (
            #[trigger] orig[a].block.index) != (#[trigger] orig[b].block.index) by {
                if b == d {
                    if orig[a].block.index == orig[d].block.index {
                        assert(slots@[orig[a].block.index as int] == Some(orig[a]));
                    }
                }
            }
        }
        slots[idx] = Some(part);
        done = done + 1;
    }
    proof {
        lemma_count_filled_full(slots@);
        assert(indices_complete(orig));
    }
    let ghost full = slots@;
    let mut out: Vec<EpochTransition> = Vec::new();
    let mut k: usize = 0;
    proof {
        assert(full.skip(0) =~= full);
    }
    while k < n
        invariant
            n == orig.len(),
            full.len() == n as int,
            slots@ == full.skip(k as int),
            k <= n,
            out@.len() == k as int,
            forall|k2: int| 0 <= k2 < n as int ==> (#[trigger] full[k2]) is Some,
            forall|t: int| 0 <= t < k as int ==> Some(#[trigger] out@[t]) == full[t],
        decreases n - k,
    {
        let ghost kk = k as int;
        let x = slots.remove(0);
        proof {
            assert(x == full[kk]);
            assert(full.skip(kk).remove(0) =~= full.skip(kk + 1));
        }
        match x {
            Some(t) => out.push(t),
            None => {
                proof {
                    assert(false);
                }
                return Err(PipelineError::MalformedRecord);
            },
        }
        k = k + 1;
    }
    proof {
        assert forall|j: int| 0 <= j < orig.len() implies out@[(
        #[trigger] orig[j].block.index) as int] == orig[j] by {
            let idx = orig[j].block.index as int;
            assert(full[idx] == Some(orig[j]));
            assert(Some(out@[idx]) == full[idx]);
        }
    }
    Ok(out)
}

proof fn lemma_count_all_none<T>(s: Seq<Option<T>>)
    requires
        forall|k: int| 0 <= k < s.len() ==> s[k] is None,
    ensures
        count_filled(s) == 0,
    decreases s.len(),
{
    if s.len() > 0 {
        assert(s.last() is None);
        lemma_count_all_none(s.drop_last());
    }
}

/// The keys selected by a participation vector: the key at each position
/// whose bit is set, in order. A set bit at or beyond the end of the key
/// list selects nothing: positions beyond the active validator count are
/// defined to be `false` and are never interpreted as signers.
pub open spec fn spec_selected(keys: Seq<Seq<u8>>, bits: Seq<bool>) -> Seq<Seq<u8>>
    decreases bits.len(),
{
    if bits.len() == 0 || keys.len() == 0 {
        Seq::empty()
    } else {
        (if bits[0] {
            seq![keys[0]]
        } else {
            Seq::empty()
        }) + spec_selected(keys.skip(1), bits.skip(1))
    }
}

/// An owned copy of a byte string.
fn copy_bytes(src: &Vec<u8>) -> (r: Vec<u8>)
    ensures
        r@ == src@,
{
    let mut r: Vec<u8> = Vec::new();
    let mut i: usize = 0;
    while i < src.len()
        invariant
            i <= src@.len(),
            r@ =~= src@.take(i as int),
        decreases src@.len() - i,
    {
        let b = src[i];
        proof {
            assert(src@.take(i as int + 1) =~= src@.take(i as int).push(src@[i as int]));
        }
        r.push(b);
        i = i + 1;
    }
    proof {
        assert(src@.take(src@.len() as int) =~= src@);
    }
    r
}

/// Select, via the fixed-width participation vector, the subset of the
/// previous epoch's public keys whose bit is set, preserving their order.
pub fn select_participants(previous_keys: &Vec<Vec<u8>>, bitmap: &Vec<bool>) -> (selected: Vec<
    Vec<u8>,
>)
    ensures
        selected.deep_view() == spec_selected(previous_keys.deep_view(), bitmap@),
{
    let ghost keys = previous_keys.deep_view();
    let ghost bits = bitmap@;
    let m = if bitmap.len() < previous_keys.len() {
        bitmap.len()
    } else {
        previous_keys.len()
    };
    let mut selected: Vec<Vec<u8>> = Vec::new();
    let mut j: usize = 0;
    proof {
        assert(keys.skip(0) =~= keys);
        assert(bits.skip(0) =~= bits);
        assert(selected.deep_view() =~= Seq::<Seq<u8>>::empty());
    }
    while j < m
        invariant
            keys == previous_keys.deep_view(),
            bits == bitmap@,
            keys.len() == previous_keys@.len(),
            bits.len() == bitmap@.len(),
            m == vstd::math::min(keys.len() as int, bits.len() as int),
            j <= m,
            spec_selected(keys, bits) == selected.deep_view() + spec_selected(
                keys.skip(j as int),
                bits.skip(j as int),
            ),
        decreases m - j,
    {
        let ghost jj = j as int;
        proof {
            assert(keys.skip(jj).len() > 0 && bits.skip(jj).len() > 0);
            assert(keys.skip(jj)[0] == keys[jj]);
            assert(bits.skip(jj)[0] == bits[jj]);
            assert(keys.skip(jj).skip(1) =~= keys.skip(jj + 1));
            assert(bits.skip(jj).skip(1) =~= bits.skip(jj + 1));
        }
        if bitmap[j] {
            let key = copy_bytes(&previous_keys[j]);
            proof {
                assert(key.deep_view() =~= keys[jj]);
            }
            let ghost before = selected.deep_view();
            selected.push(key);
            proof {
                assert(selected.deep_view() =~= before.push(keys[jj]));
                assert(before.push(keys[jj]) =~= before + seq![keys[jj]]);
                assert(selected.deep_view() + spec_selected(keys.skip(jj + 1), bits.skip(jj + 1))
                    =~= before + (seq![keys[jj]] + spec_selected(
                    keys.skip(jj + 1),
                    bits.skip(jj + 1),
                )));
            }
        } else {
            proof {
                assert(Seq::<Seq<u8>>::empty() + spec_selected(keys.skip(jj + 1), bits.skip(jj + 1))
                    =~= spec_selected(keys.skip(jj + 1), bits.skip(jj + 1)));
            }
        }
        j = j + 1;
    }
    proof {
        assert(spec_selected(keys.skip(j as int), bits.skip(j as int)) =~= Seq::<Seq<u8>>::empty());
        assert(selected.deep_view() + Seq::<Seq<u8>>::empty() =~= selected.deep_view());
    }
    selected
}

/// Separate the first transition's block, the trusted genesis validator set,
/// from the remaining transitions handed to proof generation. The genesis
/// block is not itself attested: no prior epoch exists to verify it against.
pub fn split_genesis(transitions: Vec<EpochTransition>) -> (r: Option<
    (EpochBlock, Vec<EpochTransition>),
>)
    ensures
        r is None <==> transitions@.len() == 0,
        r is Some ==> r->Some_0.0 == transitions@[0].block && r->Some_0.1@ == transitions@.skip(1),
{
    if transitions.len() == 0 {
        return None;
    }
    let ghost orig = transitions@;
    let mut rest = transitions;
    let first = rest.remove(0);
    proof {
        assert(orig.remove(0) =~= orig.skip(1));
    }
    Some((first.block, rest))
}

} // verus!
