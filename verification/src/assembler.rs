use vstd::prelude::*;

use crate::error::ReassemblyError;
use crate::packet_type::PacketType;
use crate::tpm2::{parse_ok, parsed_payload, parsed_rest, parsed_type, spec_encode, Tpm2Packet};
use crate::tpm2net::{spec_can_split, spec_chunk, spec_num_fragments, NetPacket};
use vstd::slice::slice_to_vec;

verus! {

/// How many slots of an in-progress message hold a fragment payload.
pub open spec fn filled(slots: Seq<Option<Seq<u8>>>) -> int
    decreases slots.len(),
{
    if slots.len() == 0 {
        0int
    } else {
        filled(slots.drop_last()) + if slots.last() is Some {
            1int
        } else {
            0int
        }
    }
}

/// The buffered payloads concatenated in ascending packet-number order; an
/// empty slot contributes nothing (the reassembler only concatenates once
/// every slot is filled).
pub open spec fn concat_slots(slots: Seq<Option<Seq<u8>>>) -> Seq<u8>
    decreases slots.len(),
{
    if slots.len() == 0 {
        Seq::empty()
    } else {
        concat_slots(slots.drop_last()) + match slots.last() {
            Some(p) => p,
            None => Seq::empty(),
        }
    }
}

/// Whether a fragment numbered `pn` of `pc` belongs to the tracked message:
/// its number is 1-based and within the count, and the count agrees with the
/// one recorded by the first fragment (when one is recorded).
pub open spec fn frag_in_range(slots: Seq<Option<Seq<u8>>>, pn: int, pc: int) -> bool {
    &&& 1 <= pn <= pc
    &&& slots.len() == 0 || pc == slots.len()
}

/// The slot buffer after storing a belonging fragment's payload: a first
/// fragment establishes `pc` empty slots, then the payload lands in slot
/// `pn - 1`.
pub open spec fn slots_after_store(
    slots: Seq<Option<Seq<u8>>>,
    pn: int,
    pc: int,
    data: Seq<u8>,
) -> Seq<Option<Seq<u8>>>
    recommends
        frag_in_range(slots, pn, pc),
{
    let base = if slots.len() == 0 {
        Seq::new(pc as nat, |i: int| None::<Seq<u8>>)
    } else {
        slots
    };
    base.update(pn - 1, Some(data))
}

/// What one `ingest` step reports, at the ghost level. `Complete` carries
/// the reconstructed packet's framing role and payload.
pub enum StepOutcome {
    Mismatched,
    Duplicate,
    Incomplete,
    Complete(PacketType, Seq<u8>),
    TooLarge,
    Corrupt,
}

/// The outcome of ingesting a fragment numbered `pn` of `pc` with payload
/// `data` into a reassembler whose in-progress buffer is `slots` and whose
/// maximum assembled size is `max`: reject a fragment that does not belong,
/// reject a duplicate without overwriting, and otherwise store the payload;
/// once every slot is filled, the concatenation must decode as exactly one
/// packet of at most `max` encoded bytes.
pub open spec fn step_outcome(
    slots: Seq<Option<Seq<u8>>>,
    pn: int,
    pc: int,
    data: Seq<u8>,
    max: int,
) -> StepOutcome {
    if !frag_in_range(slots, pn, pc) {
        StepOutcome::Mismatched
    } else if slots.len() != 0 && slots[pn - 1] is Some {
        StepOutcome::Duplicate
    } else {
        let stored = slots_after_store(slots, pn, pc, data);
        if filled(stored) < stored.len() {
            StepOutcome::Incomplete
        } else {
            let joined = concat_slots(stored);
            if !(parse_ok(joined) && parsed_rest(joined) == Seq::<u8>::empty()) {
                StepOutcome::Corrupt
            } else if joined.len() > max {
                StepOutcome::TooLarge
            } else {
                StepOutcome::Complete(parsed_type(joined), parsed_payload(joined))
            }
        }
    }
}

/// The in-progress buffer after ingesting a fragment: unchanged on
/// rejection, extended while collecting, and cleared whenever the message
/// ends (successfully or not).
pub open spec fn step_slots(
    slots: Seq<Option<Seq<u8>>>,
    pn: int,
    pc: int,
    data: Seq<u8>,
    max: int,
) -> Seq<Option<Seq<u8>>> {
    match step_outcome(slots, pn, pc, data, max) {
        StepOutcome::Mismatched => slots,
        StepOutcome::Duplicate => slots,
        StepOutcome::Incomplete => slots_after_store(slots, pn, pc, data),
        StepOutcome::Complete(t, p) => Seq::empty(),
        StepOutcome::TooLarge => Seq::empty(),
        StepOutcome::Corrupt => Seq::empty(),
    }
}

/// What `ingest` reports to the caller: never an ambiguous "nothing
/// happened" — a rejected duplicate, a fragment of another message, a
/// still-incomplete message, a completed packet, and a discarded message
/// are all distinguishable.
#[derive(Debug)]
pub enum ReassemblyResult {
    /// The fragment was stored; the message is not yet complete.
    Incomplete,
    /// A payload for this `packet_number` is already buffered; the stored
    /// payload was not overwritten.
    Duplicate,
    /// The fragment does not belong to the tracked message: its
    /// `packet_count` disagrees with the recorded one, or its
    /// `packet_number` is outside `1..=packet_count`.
    Mismatched,
    /// Every fragment arrived and the concatenated payloads decoded as
    /// exactly one packet within the size limit.
    Complete(Tpm2Packet),
    /// Every fragment arrived but the message was discarded.
    Error(ReassemblyError),
}

/// Whether an executable result reports the ghost outcome `o`.
pub open spec fn matches_outcome(r: ReassemblyResult, o: StepOutcome) -> bool {
    match o {
        StepOutcome::Mismatched => r is Mismatched,
        StepOutcome::Duplicate => r is Duplicate,
        StepOutcome::Incomplete => r is Incomplete,
        StepOutcome::Complete(t, p) => {
            &&& r matches ReassemblyResult::Complete(pk)
            &&& pk.wf()
            &&& pk.spec_type() == t
            &&& pk.spec_payload() == p
        },
        StepOutcome::TooLarge => r == ReassemblyResult::Error(ReassemblyError::ReassemblyTooLarge),
        StepOutcome::Corrupt => r == ReassemblyResult::Error(ReassemblyError::CorruptReassembly),
    }
}

/// The stateful core of the transport: collects the fragments of one
/// in-progress message (in any arrival order), detects completion, rejects
/// duplicates and stray fragments, enforces the configured maximum
/// assembled size, and reconstructs the byte-exact original packet.
pub struct PacketAssembler {
    buffer: Vec<Option<Vec<u8>>>,
    received: usize,
    max_packet_size: usize,
    assembled_packets: Vec<Tpm2Packet>,
}

impl PacketAssembler {
    /// The in-progress slot buffer, one entry per expected packet number
    /// (empty while no message is tracked).
    pub closed spec fn slots(self) -> Seq<Option<Seq<u8>>> {
        Seq::new(
            self.buffer@.len(),
            |i: int|
                match self.buffer@[i] {
                    Some(v) => Some(v@),
                    None => None,
                },
        )
    }

    /// The configured maximum encoded size of an assembled packet.
    pub closed spec fn max_size(self) -> int {
        self.max_packet_size as int
    }

    /// The completed packets, as (framing role, payload) pairs in completion
    /// order.
    pub closed spec fn assembled(self) -> Seq<(PacketType, Seq<u8>)> {
        Seq::new(
            self.assembled_packets@.len(),
            |i: int|
                (
                    self.assembled_packets@[i].spec_type(),
                    self.assembled_packets@[i].spec_payload(),
                ),
        )
    }

    /// Internal consistency: the fill counter agrees with the buffer, the
    /// buffer never outgrows a one-byte packet count, and every stored
    /// packet is well formed.
    pub closed spec fn wf(self) -> bool {
        &&& self.slots().len() <= 255
        &&& self.received == filled(self.slots())
        &&& forall|i: int|
            0 <= i < self.assembled_packets@.len() ==> (#[trigger] self.assembled_packets@[i]).wf()
    }

    /// A fresh reassembler with no tracked message and no completed packets.
    pub fn new(max_packet_size: usize) -> (r: PacketAssembler)
        ensures
            r.wf(),
            r.slots() == Seq::<Option<Seq<u8>>>::empty(),
            r.max_size() == max_packet_size as int,
            r.assembled() == Seq::<(PacketType, Seq<u8>)>::empty(),
    {
        let r = PacketAssembler {
            buffer: Vec::new(),
            received: 0,
            max_packet_size,
            assembled_packets: Vec::new(),
        };
        proof {
            assert(r.slots() =~= Seq::<Option<Seq<u8>>>::empty());
            assert(r.assembled() =~= Seq::<(PacketType, Seq<u8>)>::empty());
        }
        r
    }

    /// How many packets have been completed and queued so far.
    pub fn assembled_count(&self) -> (r: usize)
        ensures
            r == self.assembled().len(),
    {
        self.assembled_packets.len()
    }

    /// The `i`-th completed packet, in completion order.
    pub fn assembled_packet(&self, i: usize) -> (r: &Tpm2Packet)
        requires
            self.wf(),
            i < self.assembled().len(),
        ensures
            r.wf(),
            r.spec_type() == self.assembled()[i as int].0,
            r.spec_payload() == self.assembled()[i as int].1,
    {
        &self.assembled_packets[i]
    }

    /// Drops any partially collected message without touching the completed
    /// queue or the size limit. The protocol carries no timestamps, so
    /// evicting a message that will never complete (a lost fragment) is the
    /// caller's decision; this is the hook for it.
    pub fn reset(&mut self)
        requires
            old(self).wf(),
        ensures
            final(self).wf(),
            final(self).slots() == Seq::<Option<Seq<u8>>>::empty(),
            final(self).max_size() == old(self).max_size(),
            final(self).assembled() == old(self).assembled(),
    {
        self.buffer = Vec::new();
        self.received = 0;
        proof {
            assert(self.slots() =~= Seq::<Option<Seq<u8>>>::empty());
            assert(self.assembled() =~= old(self).assembled());
        }
    }

    /// Ingests one fragment and reports exactly what happened, following
    /// the ghost transition `step_outcome` / `step_slots`: the tracked
    /// message's buffer is updated (or cleared) accordingly, the size limit
    /// is kept, and a completed packet is both queued and yielded.
    pub fn assemble_packet(&mut self, packet: NetPacket) -> (r: ReassemblyResult)
        requires
            old(self).wf(),
        ensures
            final(self).wf(),
            final(self).max_size() == old(self).max_size(),
            final(self).slots() == step_slots(
                old(self).slots(),
                packet.packet_number as int,
                packet.packet_count as int,
                packet.payload@,
                old(self).max_size(),
            ),
            matches_outcome(
                r,
                step_outcome(
                    old(self).slots(),
                    packet.packet_number as int,
                    packet.packet_count as int,
                    packet.payload@,
                    old(self).max_size(),
                ),
            ),
            (step_outcome(
                old(self).slots(),
                packet.packet_number as int,
                packet.packet_count as int,
                packet.payload@,
                old(self).max_size(),
            ) matches StepOutcome::Complete(t, p) ==> final(self).assembled() == old(
                self,
            ).assembled().push((t, p))),
            !(step_outcome(
                old(self).slots(),
                packet.packet_number as int,
                packet.packet_count as int,
                packet.payload@,
                old(self).max_size(),
            ) is Complete) ==> final(self).assembled() == old(self).assembled(),
    {
        let ghost slots0 = self.slots();
        let ghost pn_g = packet.packet_number as int;
        let ghost pc_g = packet.packet_count as int;
        let ghost data_g = packet.payload@;
        let pn = packet.packet_number;
        let pc = packet.packet_count;
        if pn == 0 || pn > pc {
            return ReassemblyResult::Mismatched;
        }
        if self.buffer.len() != 0 && pc as usize != self.buffer.len() {
            return ReassemblyResult::Mismatched;
        }
        proof {
            assert(frag_in_range(slots0, pn_g, pc_g));
        }
        if self.buffer.len() == 0 {
            let mut k: usize = 0;
            while k < pc as usize
                invariant
                    0 <= k <= pc,
                    self.buffer@.len() == k,
                    self.received == old(self).received,
                    self.max_packet_size == old(self).max_packet_size,
                    self.assembled_packets == old(self).assembled_packets,
                    forall|i: int| 0 <= i < k ==> (#[trigger] self.buffer@[i]) is None,
                decreases pc - k,
            {
                self.buffer.push(None);
                k = k + 1;
            }
            proof {
                assert(self.slots() =~= Seq::new(pc_g as nat, |i: int| None::<Seq<u8>>));
                lemma_filled_all_none(self.slots());
                assert(self.received == filled(self.slots()));
            }
        }
        let ghost base = self.slots();
        let idx: usize = (pn - 1) as usize;
        let duplicate = match &self.buffer[idx] {
            Some(_) => true,
            None => false,
        };
        if duplicate {
            proof {
                assert(slots0.len() != 0 && slots0[pn_g - 1] is Some);
            }
            return ReassemblyResult::Duplicate;
        }
        proof {
            assert(base[pn_g - 1] is None);
        }
        self.buffer[idx] = Some(packet.payload);
        proof {
            assert(self.slots() =~= base.update(pn_g - 1, Some(data_g)));
            assert(self.slots() =~= slots_after_store(slots0, pn_g, pc_g, data_g));
            lemma_filled_update(base, pn_g - 1, data_g);
        }
        proof {
            lemma_filled_le_len(base);
            assert(base.len() <= 255);
        }
        self.received = self.received + 1;
        let count = self.buffer.len();
        if self.received < count {
            return ReassemblyResult::Incomplete;
        }
        let ghost stored = self.slots();
        proof {
            lemma_filled_le_len(stored);
            assert(filled(stored) == stored.len());
            lemma_filled_full(stored);
        }
        let mut joined: Vec<u8> = Vec::new();
        let mut i: usize = 0;
        while i < count
            invariant
                0 <= i <= count,
                count == self.buffer@.len(),
                stored == self.slots(),
                forall|j: int| 0 <= j < count ==> (#[trigger] stored[j]) is Some,
                joined@ == concat_slots(stored.take(i as int)),
            decreases count - i,
        {
            proof {
                assert(stored.take(i + 1).drop_last() =~= stored.take(i as int));
                assert(stored.take(i + 1).last() == stored[i as int]);
            }
            match &self.buffer[i] {
                Some(v) => {
                    push_bytes(&mut joined, v);
                },
                None => {
                    proof {
                        assert(stored[i as int] is Some);
                    }
                    unreached::<()>();
                },
            };
            i = i + 1;
        }
        proof {
            assert(stored.take(count as int) =~= stored);
            assert(joined@ == concat_slots(stored));
        }
        self.buffer = Vec::new();
        self.received = 0;
        proof {
            assert(self.slots() =~= Seq::<Option<Seq<u8>>>::empty());
        }
        match Tpm2Packet::parse(joined.as_slice()) {
            Err(_) => ReassemblyResult::Error(ReassemblyError::CorruptReassembly),
            Ok((p, rest)) => {
                if rest.len() != 0 {
                    return ReassemblyResult::Error(ReassemblyError::CorruptReassembly);
                }
                proof {
                    assert(parsed_rest(joined@) =~= Seq::<u8>::empty());
                }
                if joined.len() > self.max_packet_size {
                    return ReassemblyResult::Error(ReassemblyError::ReassemblyTooLarge);
                }
                let queued = Tpm2Packet::new(p.packet_type(), slice_to_vec(p.payload().as_slice()));
                self.assembled_packets.push(queued);
                proof {
                    assert(self.assembled() =~= old(self).assembled().push(
                        (parsed_type(joined@), parsed_payload(joined@)),
                    ));
                }
                ReassemblyResult::Complete(p)
            },
        }
    }
}

/// Copies the bytes of `src` onto the end of `dst`.
fn push_bytes(dst: &mut Vec<u8>, src: &Vec<u8>)
    ensures
        final(dst)@ == old(dst)@ + src@,
{
    let n: usize = src.len();
    let mut i: usize = 0;
    while i < n
        invariant
            n == src@.len(),
            0 <= i <= n,
            dst@ == old(dst)@ + src@.take(i as int),
        decreases n - i,
    {
        dst.push(src[i]);
        proof {
            assert(old(dst)@ + src@.take(i + 1) =~= (old(dst)@ + src@.take(i as int)).push(
                src@[i as int],
            ));
        }
        i = i + 1;
    }
    proof {
        assert(src@.take(n as int) =~= src@);
    }
}

/// Duplicate rejection: ingesting a fragment whose `packet_number` is
/// already buffered for the tracked message reports `Duplicate` and leaves
/// every stored payload exactly as it was.
pub proof fn lemma_duplicate_rejected(
    slots: Seq<Option<Seq<u8>>>,
    pn: int,
    pc: int,
    data: Seq<u8>,
    max: int,
)
    requires
        frag_in_range(slots, pn, pc),
        slots.len() != 0,
        slots[pn - 1] is Some,
    ensures
        step_outcome(slots, pn, pc, data, max) == StepOutcome::Duplicate,
        step_slots(slots, pn, pc, data, max) == slots,
{
}

/// Size limit: when the last missing fragment arrives but the reconstructed
/// packet's encoded length exceeds the configured maximum, the step reports
/// `ReassemblyTooLarge` and the in-progress state is cleared.
pub proof fn lemma_size_limit(
    slots: Seq<Option<Seq<u8>>>,
    pn: int,
    pc: int,
    data: Seq<u8>,
    max: int,
)
    requires
        frag_in_range(slots, pn, pc),
        slots.len() == 0 || slots[pn - 1] is None,
        filled(slots_after_store(slots, pn, pc, data)) == slots_after_store(
            slots,
            pn,
            pc,
            data,
        ).len(),
        parse_ok(concat_slots(slots_after_store(slots, pn, pc, data))),
        parsed_rest(concat_slots(slots_after_store(slots, pn, pc, data))) == Seq::<u8>::empty(),
        concat_slots(slots_after_store(slots, pn, pc, data)).len() > max,
    ensures
        step_outcome(slots, pn, pc, data, max) == StepOutcome::TooLarge,
        step_slots(slots, pn, pc, data, max) == Seq::<Option<Seq<u8>>>::empty(),
{
}

/// Whether fragment index `j` occurs among the first `k` entries of an
/// arrival order.
pub open spec fn seen(order: Seq<int>, k: int, j: int) -> bool {
    exists|l: int| 0 <= l < k && order[l] == j
}

/// The in-progress buffer after ingesting, into a fresh reassembler, the
/// fragments of a split packet in the arrival order given by `order` (each
/// entry a 0-based fragment index).
pub open spec fn run_slots(
    bytes: Seq<u8>,
    m: int,
    cnt: int,
    order: Seq<int>,
    max: int,
) -> Seq<Option<Seq<u8>>>
    decreases order.len(),
{
    if order.len() == 0 {
        Seq::empty()
    } else {
        step_slots(
            run_slots(bytes, m, cnt, order.drop_last(), max),
            order.last() + 1,
            cnt,
            spec_chunk(bytes, m, order.last()),
            max,
        )
    }
}

/// The first `k` chunks of a byte sequence, concatenated in order, are its
/// first `min(k * m, len)` bytes.
proof fn lemma_concat_chunks(bytes: Seq<u8>, m: int, k: int)
    requires
        m >= 1,
        bytes.len() >= 1,
        0 <= k <= spec_num_fragments(bytes.len() as int, m),
    ensures
        concat_slots(Seq::new(k as nat, |i: int| Some(spec_chunk(bytes, m, i)))) == bytes.take(
            if k * m <= bytes.len() {
                k * m
            } else {
                bytes.len() as int
            },
        ),
    decreases k,
{
    let len = bytes.len() as int;
    let cnt = spec_num_fragments(len, m);
    let s_k = Seq::new(k as nat, |i: int| Some(spec_chunk(bytes, m, i)));
    if k == 0 {
        assert(s_k =~= Seq::<Option<Seq<u8>>>::empty());
        assert(concat_slots(s_k) =~= bytes.take(0));
    } else {
        lemma_concat_chunks(bytes, m, k - 1);
        let s_prev = Seq::new((k - 1) as nat, |i: int| Some(spec_chunk(bytes, m, i)));
        assert(s_k.drop_last() =~= s_prev);
        assert((k - 1) * m < len) by (nonlinear_arith)
            requires
                1 <= k <= cnt,
                m >= 1,
                len >= 1,
                cnt == len / m + if len % m == 0 {
                    0int
                } else {
                    1int
                },
        {
            vstd::arithmetic::div_mod::lemma_fundamental_div_mod(len, m);
        }
        assert((k - 1) * m == k * m - m) by (nonlinear_arith);
        let prev_end = (k - 1) * m;
        let end = if k * m <= len {
            k * m
        } else {
            len
        };
        assert(concat_slots(s_k) == bytes.take(prev_end) + bytes.subrange(prev_end, end));
        assert(bytes.take(prev_end) + bytes.subrange(prev_end, end) =~= bytes.take(end));
    }
}

/// After any `k` distinct fragments of a split packet have been ingested
/// (with `k` short of the full count), the reassembler holds exactly those
/// fragments' chunks, each under its own number, every step so far having
/// reported `Incomplete`.
proof fn lemma_run_partial(bytes: Seq<u8>, m: int, cnt: int, max: int, order: Seq<int>, k: int)
    requires
        m >= 1,
        bytes.len() >= 1,
        cnt == spec_num_fragments(bytes.len() as int, m),
        cnt <= 255,
        order.len() == cnt,
        forall|l: int| 0 <= l < cnt ==> 0 <= #[trigger] order[l] < cnt,
        forall|l1: int, l2: int| 0 <= l1 < l2 < cnt ==> order[l1] != order[l2],
        0 <= k <= cnt - 1,
    ensures
        run_slots(bytes, m, cnt, order.take(k), max).len() == (if k == 0 {
            0int
        } else {
            cnt
        }),
        filled(run_slots(bytes, m, cnt, order.take(k), max)) == k,
        forall|j: int|
            0 <= j < run_slots(bytes, m, cnt, order.take(k), max).len()
                ==> #[trigger] run_slots(bytes, m, cnt, order.take(k), max)[j] == (if seen(
                order,
                k,
                j,
            ) {
                Some(spec_chunk(bytes, m, j))
            } else {
                None::<Seq<u8>>
            }),
        k >= 1 ==> step_outcome(
            run_slots(bytes, m, cnt, order.take(k - 1), max),
            order[k - 1] + 1,
            cnt,
            spec_chunk(bytes, m, order[k - 1]),
            max,
        ) is Incomplete,
    decreases k,
{
    if k == 0 {
        assert(order.take(0) =~= Seq::<int>::empty());
        assert(run_slots(bytes, m, cnt, order.take(0), max) =~= Seq::<Option<Seq<u8>>>::empty());
    } else {
        lemma_run_partial(bytes, m, cnt, max, order, k - 1);
        let prev = run_slots(bytes, m, cnt, order.take(k - 1), max);
        let i = order[k - 1];
        assert(order.take(k).drop_last() =~= order.take(k - 1));
        assert(order.take(k).last() == i);
        let base = if prev.len() == 0 {
            Seq::new(cnt as nat, |j: int| None::<Seq<u8>>)
        } else {
            prev
        };
        assert(!seen(order, k - 1, i));
        if prev.len() != 0 {
            assert(prev[i] is None);
        }
        let stored = slots_after_store(prev, i + 1, cnt, spec_chunk(bytes, m, i));
        assert(stored == base.update(i, Some(spec_chunk(bytes, m, i))));
        if k == 1 {
            lemma_filled_all_none(base);
        }
        assert(base[i] is None);
        lemma_filled_update(base, i, spec_chunk(bytes, m, i));
        assert(filled(stored) == k);
        assert(filled(stored) < stored.len());
        assert(step_outcome(prev, i + 1, cnt, spec_chunk(bytes, m, i), max)
            is Incomplete);
        assert(run_slots(bytes, m, cnt, order.take(k), max) == stored);
        assert forall|j: int| 0 <= j < cnt implies #[trigger] stored[j] == (if seen(order, k, j) {
            Some(spec_chunk(bytes, m, j))
        } else {
            None::<Seq<u8>>
        }) by {
            if j == i {
                assert(0 <= k - 1 < k && order[k - 1] == j);
                assert(seen(order, k, j));
            } else {
                if seen(order, k, j) {
                    let l = choose|l: int| 0 <= l < k && order[l] == j;
                    assert(l != k - 1);
                    assert(seen(order, k - 1, j));
                }
                if seen(order, k - 1, j) {
                    let l = choose|l: int| 0 <= l < k - 1 && order[l] == j;
                    assert(0 <= l < k && order[l] == j);
                    assert(seen(order, k, j));
                }
            }
        }
    }
}

/// Fragmentation round-trip: splitting a packet and feeding the fragments
/// to a fresh reassembler in any arrival order (any permutation of the
/// fragment indices) reports `Incomplete` for every fragment but the last
/// and `Complete` with the original packet's type and payload at the last,
/// leaving the reassembler empty again. Requires a splittable packet (the
/// fragment count must fit the one-byte count field and each fragment the
/// two-byte size field) and a size limit that admits the packet.
pub proof fn lemma_fragment_reassembly_roundtrip(
    t: PacketType,
    payload: Seq<u8>,
    m: int,
    max: int,
    order: Seq<int>,
)
    requires
        payload.len() <= 0xFFFF,
        spec_can_split(spec_encode(t, payload).len() as int, m),
        spec_encode(t, payload).len() <= max,
        order.len() == spec_num_fragments(spec_encode(t, payload).len() as int, m),
        forall|l: int|
            0 <= l < order.len() ==> 0 <= #[trigger] order[l] < order.len(),
        forall|l1: int, l2: int| 0 <= l1 < l2 < order.len() ==> order[l1] != order[l2],
    ensures
        ({
            let bytes = spec_encode(t, payload);
            let cnt = order.len() as int;
            &&& forall|k: int|
                0 <= k < cnt - 1 ==> step_outcome(
                    run_slots(bytes, m, cnt, order.take(k), max),
                    order[k] + 1,
                    cnt,
                    spec_chunk(bytes, m, order[k]),
                    max,
                ) is Incomplete
            &&& step_outcome(
                run_slots(bytes, m, cnt, order.take(cnt - 1), max),
                order[cnt - 1] + 1,
                cnt,
                spec_chunk(bytes, m, order[cnt - 1]),
                max,
            ) == StepOutcome::Complete(t, payload)
            &&& run_slots(bytes, m, cnt, order, max) == Seq::<Option<Seq<u8>>>::empty()
        }),
{
    let bytes = spec_encode(t, payload);
    let len = bytes.len() as int;
    let cnt = spec_num_fragments(len, m);
    assert(len >= 1);
    assert(cnt >= 1) by (nonlinear_arith)
        requires
            m >= 1,
            len >= 1,
            cnt == len / m + if len % m == 0 {
                0int
            } else {
                1int
            },
    {
        vstd::arithmetic::div_mod::lemma_fundamental_div_mod(len, m);
    }
    assert forall|k: int| 0 <= k < cnt - 1 implies step_outcome(
        run_slots(bytes, m, cnt, order.take(k), max),
        order[k] + 1,
        cnt,
        spec_chunk(bytes, m, order[k]),
        max,
    ) is Incomplete by {
        lemma_run_partial(bytes, m, cnt, max, order, k + 1);
    }
    lemma_run_partial(bytes, m, cnt, max, order, cnt - 1);
    let prev = run_slots(bytes, m, cnt, order.take(cnt - 1), max);
    let i = order[cnt - 1];
    assert(!seen(order, cnt - 1, i));
    if prev.len() != 0 {
        assert(prev[i] is None);
    }
    let base = if prev.len() == 0 {
        Seq::new(cnt as nat, |j: int| None::<Seq<u8>>)
    } else {
        prev
    };
    let stored = slots_after_store(prev, i + 1, cnt, spec_chunk(bytes, m, i));
    assert(stored == base.update(i, Some(spec_chunk(bytes, m, i))));
    if cnt == 1 {
        lemma_filled_all_none(base);
    }
    assert(base[i] is None);
    lemma_filled_update(base, i, spec_chunk(bytes, m, i));
    assert(filled(stored) == cnt == stored.len());
    lemma_filled_full(stored);
    assert forall|j: int| 0 <= j < cnt implies #[trigger] stored[j] == Some(
        spec_chunk(bytes, m, j),
    ) by {
        if j == i {
        } else if cnt == 1 {
            assert(false);
        } else {
            assert(stored[j] == prev[j]);
            assert(stored[j] is Some);
            assert(prev[j] == (if seen(order, cnt - 1, j) {
                Some(spec_chunk(bytes, m, j))
            } else {
                None::<Seq<u8>>
            }));
        }
    }
    assert(stored =~= Seq::new(cnt as nat, |j: int| Some(spec_chunk(bytes, m, j))));
    lemma_concat_chunks(bytes, m, cnt);
    assert(cnt * m >= len) by (nonlinear_arith)
        requires
            m >= 1,
            len >= 1,
            cnt == len / m + if len % m == 0 {
                0int
            } else {
                1int
            },
    {
        vstd::arithmetic::div_mod::lemma_fundamental_div_mod(len, m);
    }
    let joined = concat_slots(stored);
    assert(joined == bytes.take(len));
    assert(bytes.take(len) =~= bytes);
    crate::tpm2::lemma_encode_parse_roundtrip(t, payload);
    assert(step_outcome(prev, i + 1, cnt, spec_chunk(bytes, m, i), max)
        == StepOutcome::Complete(t, payload));
    assert(order.take(cnt as int) =~= order);
    assert(run_slots(bytes, m, cnt, order, max) =~= Seq::<Option<Seq<u8>>>::empty());
}

/// A buffer of empty slots holds nothing.
proof fn lemma_filled_all_none(slots: Seq<Option<Seq<u8>>>)
    requires
        forall|i: int| 0 <= i < slots.len() ==> (#[trigger] slots[i]) is None,
    ensures
        filled(slots) == 0,
    decreases slots.len(),
{
    if slots.len() > 0 {
        lemma_filled_all_none(slots.drop_last());
    }
}

/// The fill count never exceeds the slot count.
proof fn lemma_filled_le_len(slots: Seq<Option<Seq<u8>>>)
    ensures
        0 <= filled(slots) <= slots.len(),
    decreases slots.len(),
{
    if slots.len() > 0 {
        lemma_filled_le_len(slots.drop_last());
    }
}

/// Storing a payload in an empty slot raises the fill count by one.
proof fn lemma_filled_update(slots: Seq<Option<Seq<u8>>>, j: int, data: Seq<u8>)
    requires
        0 <= j < slots.len(),
        slots[j] is None,
    ensures
        filled(slots.update(j, Some(data))) == filled(slots) + 1,
    decreases slots.len(),
{
    let updated = slots.update(j, Some(data));
    if j == slots.len() - 1 {
        assert(updated.drop_last() =~= slots.drop_last());
    } else {
        assert(updated.drop_last() =~= slots.drop_last().update(j, Some(data)));
        lemma_filled_update(slots.drop_last(), j, data);
    }
}

/// A fully filled buffer has a payload in every slot.
proof fn lemma_filled_full(slots: Seq<Option<Seq<u8>>>)
    requires
        filled(slots) == slots.len(),
    ensures
        forall|i: int| 0 <= i < slots.len() ==> (#[trigger] slots[i]) is Some,
    decreases slots.len(),
{
    if slots.len() > 0 {
        lemma_filled_le_len(slots.drop_last());
        lemma_filled_full(slots.drop_last());
        assert(forall|i: int|
            0 <= i < slots.len() - 1 ==> #[trigger] slots[i] == slots.drop_last()[i]);
    }
}

} // verus!
