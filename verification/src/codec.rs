//! Fragmentation codec. An application message travels as its serialized
//! byte string; serialization never produces a NUL byte, so reassembly can
//! recover the exact payload by cutting the zero padding at the first zero
//! byte. Disassembly splits the bytes into fragments of exactly
//! `FRAGMENT_DSIZE` payload bytes, the last one zero-padded; reassembly
//! concatenates the fragments in index order and cuts at the first zero.

use crate::types::{Fragment, FRAGMENT_DSIZE};
use vstd::prelude::*;

verus! {

/// How many fragments a payload of `len` bytes needs: `len / 128` rounded up.
pub open spec fn n_fragments(len: nat) -> nat {
    (len + 127) / 128
}

/// How many payload bytes the fragment at position `i` carries.
pub open spec fn chunk_len(len: int, i: int) -> int {
    if (i + 1) * 128 <= len {
        128
    } else {
        len - i * 128
    }
}

/// A sequence of `n` zero bytes.
pub open spec fn zeros(n: nat) -> Seq<u8> {
    Seq::new(n, |j: int| 0u8)
}

/// The 128-byte payload of the fragment at position `i`: the corresponding
/// slice of the message, zero-padded at the end.
pub open spec fn chunk_padded(b: Seq<u8>, i: int) -> Seq<u8> {
    b.subrange(i * 128, i * 128 + chunk_len(b.len() as int, i)) + zeros(
        (128 - chunk_len(b.len() as int, i)) as nat,
    )
}

/// The payload bytes of a run of reassembly slots, in index order; an empty
/// slot contributes nothing.
pub open spec fn concat_data(slots: Seq<Option<Fragment>>) -> Seq<u8>
    decreases slots.len(),
{
    if slots.len() == 0 {
        Seq::<u8>::empty()
    } else {
        concat_data(slots.drop_last()) + match slots.last() {
            Some(f) => f.data@,
            None => Seq::<u8>::empty(),
        }
    }
}

/// Position of the first zero byte, or the length if there is none.
pub open spec fn first_zero(b: Seq<u8>) -> int
    decreases b.len(),
{
    if b.len() == 0 {
        0
    } else if b[0] == 0 {
        0
    } else {
        1 + first_zero(b.drop_first())
    }
}

/// What reassembly recovers from a run of slots: the concatenated payloads,
/// cut at the first zero byte.
pub open spec fn assembled(slots: Seq<Option<Fragment>>) -> Seq<u8> {
    concat_data(slots).take(first_zero(concat_data(slots)))
}

/// The first zero is never past the end.
pub proof fn lemma_first_zero_le_len(b: Seq<u8>)
    ensures
        0 <= first_zero(b) <= b.len(),
    decreases b.len(),
{
    if b.len() > 0 && b[0] != 0 {
        lemma_first_zero_le_len(b.drop_first());
    }
}

/// The position scanned forward to is the first zero: everything before `i`
/// is non-zero and `i` is the end or holds a zero.
pub proof fn lemma_first_zero_char(b: Seq<u8>, i: int)
    requires
        0 <= i <= b.len(),
        forall|k: int| 0 <= k < i ==> b[k] != 0u8,
        i < b.len() ==> b[i] == 0u8,
    ensures
        first_zero(b) == i,
    decreases b.len(),
{
    if b.len() > 0 && b[0] != 0 {
        lemma_first_zero_char(b.drop_first(), i - 1);
    }
}

/// Splits a serialized message into fragments: every fragment carries its
/// position, the total count, its meaningful length, and exactly the
/// corresponding zero-padded 128-byte slice of the message.
pub fn disassemble_message(bytes: &Vec<u8>) -> (r: Vec<Fragment>)
    requires
        1 <= bytes@.len() <= usize::MAX - 127,
    ensures
        r@.len() == n_fragments(bytes@.len()),
        forall|i: int|
            0 <= i < r@.len() ==> {
                &&& (#[trigger] r@[i]).fragment_index == i as u64
                &&& r@[i].total_n_fragments == r@.len() as u64
                &&& r@[i].wf()
                &&& r@[i].length as int == chunk_len(bytes@.len() as int, i)
                &&& r@[i].data@ == chunk_padded(bytes@, i)
            },
{
    let total_size: usize = bytes.len();
    let total_n: usize = (total_size + 127) / 128;
    proof {
        assert(total_n * 128 <= total_size + 127 + 127) by (nonlinear_arith)
            requires
                total_n == (total_size + 127) / 128,
        ;
        assert((total_n - 1) * 128 < total_size) by (nonlinear_arith)
            requires
                total_n == (total_size + 127) / 128,
                total_size >= 1,
        ;
    }
    let mut fragments: Vec<Fragment> = Vec::new();
    let mut i: usize = 0;
    while i < total_n
        invariant
            i <= total_n,
            total_n == n_fragments(bytes@.len()),
            1 <= total_size == bytes@.len() <= usize::MAX - 127,
            (total_n - 1) * 128 < total_size,
            fragments@.len() == i,
            forall|j: int|
                0 <= j < i ==> {
                    &&& (#[trigger] fragments@[j]).fragment_index == j as u64
                    &&& fragments@[j].total_n_fragments == total_n as u64
                    &&& fragments@[j].wf()
                    &&& fragments@[j].length as int == chunk_len(bytes@.len() as int, j)
                    &&& fragments@[j].data@ == chunk_padded(bytes@, j)
                },
        decreases total_n - i,
    {
        proof {
            assert(i * 128 <= (total_n - 1) * 128) by (nonlinear_arith)
                requires
                    i <= total_n - 1,
            ;
        }
        let start: usize = i * 128;
        let end: usize = if total_size >= 128 && start <= total_size - 128 {
            start + 128
        } else {
            total_size
        };
        let mut data: Vec<u8> = Vec::new();
        let mut j: usize = start;
        while j < end
            invariant
                start <= j <= end <= bytes@.len(),
                data@ == bytes@.subrange(start as int, j as int),
            decreases end - j,
        {
            data.push(bytes[j]);
            proof {
                assert(data@ =~= bytes@.subrange(start as int, j + 1));
            }
            j = j + 1;
        }
        let length: u8 = (end - start) as u8;
        let mut k: usize = end - start;
        while k < FRAGMENT_DSIZE
            invariant
                end - start <= k <= FRAGMENT_DSIZE,
                data@ == bytes@.subrange(start as int, end as int) + zeros(
                    (k - (end - start)) as nat,
                ),
            decreases FRAGMENT_DSIZE - k,
        {
            data.push(0);
            proof {
                assert(data@ =~= bytes@.subrange(start as int, end as int) + zeros(
                    (k + 1 - (end - start)) as nat,
                ));
            }
            k = k + 1;
        }
        proof {
            assert(end as int - start as int == chunk_len(bytes@.len() as int, i as int));
            assert(data@ =~= chunk_padded(bytes@, i as int));
        }
        fragments.push(
            Fragment {
                fragment_index: i as u64,
                total_n_fragments: total_n as u64,
                length,
                data,
            },
        );
        i = i + 1;
    }
    fragments
}

/// Concatenates the payloads of a complete run of slots and cuts at the
/// first zero byte. Returns nothing when a slot is still empty.
pub fn assemble_payload(slots: &Vec<Option<Fragment>>) -> (r: Option<Vec<u8>>)
    requires
        forall|i: int|
            0 <= i < slots@.len() ==> ((#[trigger] slots@[i]) matches Some(f) ==> f.wf()),
    ensures
        r is Some <==> (forall|i: int| 0 <= i < slots@.len() ==> !((#[trigger] slots@[i]) is None)),
        r matches Some(v) ==> v@ == assembled(slots@),
{
    let mut buf: Vec<u8> = Vec::new();
    let mut i: usize = 0;
    while i < slots.len()
        invariant
            i <= slots@.len(),
            buf@ == concat_data(slots@.take(i as int)),
            forall|k: int| 0 <= k < i ==> !((#[trigger] slots@[k]) is None),
            forall|k: int|
                0 <= k < slots@.len() ==> ((#[trigger] slots@[k]) matches Some(f) ==> f.wf()),
        decreases slots@.len() - i,
    {
        match &slots[i] {
            Some(f) => {
                let mut j: usize = 0;
                while j < f.data.len()
                    invariant
                        j <= f.data@.len(),
                        buf@ == concat_data(slots@.take(i as int)) + f.data@.subrange(
                            0,
                            j as int,
                        ),
                    decreases f.data@.len() - j,
                {
                    buf.push(f.data[j]);
                    proof {
                        assert(buf@ =~= concat_data(slots@.take(i as int)) + f.data@.subrange(
                            0,
                            j + 1,
                        ));
                    }
                    j = j + 1;
                }
                proof {
                    assert(slots@.take(i + 1).drop_last() =~= slots@.take(i as int));
                    assert(slots@.take(i + 1).last() == slots@[i as int]);
                    assert(f.data@.subrange(0, f.data@.len() as int) =~= f.data@);
                    assert(buf@ =~= concat_data(slots@.take(i + 1)));
                }
            },
            None => {
                return None;
            },
        }
        i = i + 1;
    }
    proof {
        assert(slots@.take(slots@.len() as int) =~= slots@);
        lemma_first_zero_le_len(buf@);
    }
    let mut z: usize = 0;
    while z < buf.len() && buf[z] != 0
        invariant
            0 <= z <= buf@.len(),
            forall|k: int| 0 <= k < z ==> buf@[k] != 0u8,
        decreases buf@.len() - z,
    {
        z = z + 1;
    }
    proof {
        lemma_first_zero_char(buf@, z as int);
    }
    buf.truncate(z);
    proof {
        assert(buf@ =~= concat_data(slots@).take(first_zero(concat_data(slots@))));
    }
    Some(buf)
}

/// Auxiliary induction for the round trip: the first `k` chunks of a
/// disassembled message concatenate back to the first `k * 128` bytes of the
/// message, padded with zeros once the message is exhausted.
proof fn lemma_concat_prefix(b: Seq<u8>, slots: Seq<Option<Fragment>>, k: int)
    requires
        1 <= b.len(),
        slots.len() == n_fragments(b.len()),
        forall|i: int|
            0 <= i < slots.len() ==> ((#[trigger] slots[i]) matches Some(f) && f.data@
                == chunk_padded(b, i)),
        0 <= k <= slots.len(),
    ensures
        concat_data(slots.take(k)) =~= b.take(
            if k * 128 <= b.len() {
                k * 128
            } else {
                b.len() as int
            },
        ) + zeros(
            (if k * 128 <= b.len() {
                0
            } else {
                k * 128 - b.len()
            }) as nat,
        ),
    decreases k,
{
    assert((n_fragments(b.len()) - 1) * 128 < b.len() && b.len() <= n_fragments(b.len()) * 128)
        by (nonlinear_arith)
        requires
            b.len() >= 1,
    ;
    if k == 0 {
        assert(slots.take(0) =~= Seq::<Option<Fragment>>::empty());
    } else {
        lemma_concat_prefix(b, slots, k - 1);
        assert(slots.take(k).drop_last() =~= slots.take(k - 1));
        assert(slots.take(k).last() == slots[k - 1]);
        let f = slots[k - 1]->Some_0;
        assert(f.data@ == chunk_padded(b, k - 1));
        assert((k - 1) * 128 == k * 128 - 128);
        if k * 128 <= b.len() {
            assert(concat_data(slots.take(k)) =~= b.take(k * 128));
        } else if (k - 1) * 128 < b.len() {
            assert(concat_data(slots.take(k)) =~= b.take(b.len() as int) + zeros(
                (k * 128 - b.len()) as nat,
            ));
        } else {
            assert(concat_data(slots.take(k)) =~= b.take(b.len() as int) + zeros(
                (k * 128 - b.len()) as nat,
            ));
        }
    }
}

/// Round trip: reassembling a complete run of slots that hold the fragments
/// of a serialized message recovers the message exactly, for any message
/// whose bytes hold no zero (serialization to the wire format never produces
/// one).
pub proof fn lemma_codec_round_trip(b: Seq<u8>, slots: Seq<Option<Fragment>>)
    requires
        1 <= b.len(),
        forall|i: int| 0 <= i < b.len() ==> b[i] != 0u8,
        slots.len() == n_fragments(b.len()),
        forall|i: int|
            0 <= i < slots.len() ==> ((#[trigger] slots[i]) matches Some(f) && f.data@
                == chunk_padded(b, i)),
    ensures
        assembled(slots) == b,
{
    let n = slots.len() as int;
    lemma_concat_prefix(b, slots, n);
    assert(slots.take(n) =~= slots);
    assert((n_fragments(b.len()) - 1) * 128 < b.len() && b.len() <= n_fragments(b.len()) * 128)
        by (nonlinear_arith)
        requires
            b.len() >= 1,
    ;
    let c = concat_data(slots);
    let pad = n * 128 - b.len();
    assert(c =~= b + zeros(pad as nat));
    assert forall|k: int| 0 <= k < b.len() implies c[k] != 0u8 by {
        assert(c[k] == b[k]);
    }
    if b.len() < c.len() {
        assert(c[b.len() as int] == 0u8);
    }
    lemma_first_zero_char(c, b.len() as int);
    assert(assembled(slots) =~= b);
}

/// The payload bytes of each slot, forgetting everything else about the
/// fragments.
pub open spec fn slots_data(slots: Seq<Option<Fragment>>) -> Seq<Option<Seq<u8>>> {
    Seq::new(
        slots.len(),
        |j: int|
            match slots[j] {
                Some(f) => Some(f.data@),
                None => None,
            },
    )
}

/// The concatenated payloads of a run of slot data views, in index order.
pub open spec fn concat_data_views(d: Seq<Option<Seq<u8>>>) -> Seq<u8>
    decreases d.len(),
{
    if d.len() == 0 {
        Seq::<u8>::empty()
    } else {
        concat_data_views(d.drop_last()) + match d.last() {
            Some(b) => b,
            None => Seq::<u8>::empty(),
        }
    }
}

/// What reassembly recovers, expressed over slot data views alone.
pub open spec fn assembled_data(d: Seq<Option<Seq<u8>>>) -> Seq<u8> {
    concat_data_views(d).take(first_zero(concat_data_views(d)))
}

/// Reassembly depends only on the slots' payload bytes.
pub proof fn lemma_assembled_is_data(slots: Seq<Option<Fragment>>)
    ensures
        assembled_data(slots_data(slots)) == assembled(slots),
    decreases slots.len(),
{
    lemma_concat_is_data(slots);
}

proof fn lemma_concat_is_data(slots: Seq<Option<Fragment>>)
    ensures
        concat_data_views(slots_data(slots)) == concat_data(slots),
    decreases slots.len(),
{
    if slots.len() > 0 {
        lemma_concat_is_data(slots.drop_last());
        assert(slots_data(slots).drop_last() =~= slots_data(slots.drop_last()));
    }
}

} // verus!
