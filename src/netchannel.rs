//! Reassembly of subchannel payloads out of the bit stream of a stateful packet.
//!
//! A subchannel frame is: a present bit; a multi-block bit; then either a single block
//! (a compressed bit, a varint byte length and the bytes) or a slice of a multi-block
//! payload (an 18-bit start block, a 3-bit block count, on the first slice the file and
//! compressed flags and the 26-bit payload length, then the blocks).
use crate::bits::{bits_of, byte_at, rd_bytes, rd_uint, rd_varint, read_varint, uint_of, BitReader};
use crate::client::{fragments_for, joined, tail_size, total_size, NetChannel, FRAGMENT_SIZE};
use crate::messages::{decode_msgs, msgs_view, process_messages, rd_string, read_string, Messages, Msg};
use vstd::prelude::*;

verus! {

broadcast use vstd::string::group_string_axioms;

/// Reason sent to a client whose subchannel payload is compressed.
pub const COMPRESSED_REASON: &'static str =
    "Your client sent data we couldn't understand. We will try to fix this soon!";

/// The reply to a compressed subchannel payload.
pub open spec fn compressed_reply() -> Seq<Msg> {
    seq![Msg::Disconnect(COMPRESSED_REASON@)]
}

/// The flag bit at `pos`, if the stream holds it.
pub open spec fn flag_at(bits: Seq<bool>, pos: int) -> Option<bool> {
    if 0 <= pos < bits.len() {
        Some(bits[pos])
    } else {
        None
    }
}

/// The messages of a byte payload read as a fresh bit stream.
pub open spec fn payload_msgs(bytes: Seq<u8>) -> Option<Seq<Msg>> {
    decode_msgs(bits_of(bytes), 0)
}

/// What a subchannel frame gives.
pub enum Frame {
    /// Messages completed by the frame (none, a single no-op for progress, or the
    /// decoded payload).
    Delivered(Vec<Messages>),
    /// The payload is compressed and is refused.
    Refused,
}

/// What a subchannel frame gives, as values.
pub enum FrameView {
    Delivered(Seq<Msg>),
    Refused,
}

pub open spec fn frame_view(f: Frame) -> FrameView {
    match f {
        Frame::Delivered(v) => FrameView::Delivered(msgs_view(v@)),
        Frame::Refused => FrameView::Refused,
    }
}

/// The messages a frame hands on: a refusal as the disconnect that answers it.
pub open spec fn frame_msgs(f: FrameView) -> Seq<Msg> {
    match f {
        FrameView::Delivered(ms) => ms,
        FrameView::Refused => compressed_reply(),
    }
}

/// A reassembly stream as values: its slots and its payload length.
pub struct ChanView {
    pub slots: Seq<Seq<u8>>,
    pub length: nat,
}

pub open spec fn chan_of(nc: NetChannel) -> ChanView {
    ChanView { slots: nc.slots(), length: nc.length as nat }
}

/// A stream reset for a payload of `length` bytes: every slot empty.
pub open spec fn fresh_chan(length: nat) -> ChanView {
    ChanView { slots: Seq::new(fragments_for(length), |i: int| Seq::<u8>::empty()), length }
}

/// The `size` bytes at `pos`.
pub open spec fn block_at(bits: Seq<bool>, pos: int, size: nat) -> Seq<u8> {
    Seq::new(size, |j: int| byte_at(bits, pos + 8 * j))
}

/// Slots after `count` full blocks read from `pos` on are written into slots `start ..`.
pub open spec fn with_blocks(slots: Seq<Seq<u8>>, bits: Seq<bool>, pos: int, start: int, count: nat) -> Seq<Seq<u8>> {
    Seq::new(
        slots.len(),
        |i: int|
            if start <= i < start + count {
                block_at(bits, pos + 2048 * (i - start), 256)
            } else {
                slots[i]
            },
    )
}

/// Slots after `count` full blocks and then, if `last` is given, one block of that size
/// are read from `pos` on into slots `start ..`.
pub open spec fn blocks_written(slots: Seq<Seq<u8>>, bits: Seq<bool>, pos: int, start: int, count: nat, last: Option<nat>) -> Seq<Seq<u8>> {
    match last {
        Some(n) => with_blocks(slots, bits, pos, start, count).update(
            start + count,
            block_at(bits, pos + 2048 * count, n),
        ),
        None => with_blocks(slots, bits, pos, start, count),
    }
}

/// Every slot is filled.
pub open spec fn all_full(slots: Seq<Seq<u8>>) -> bool {
    forall|i: int| 0 <= i < slots.len() ==> (#[trigger] slots[i]).len() > 0
}

/// What a multi-block slice hands on once written: the decoded payload when every slot
/// is filled, else a single no-op for progress; the reader then stands at `pos`.
pub open spec fn finished(ch: ChanView, pos: int) -> Option<(FrameView, ChanView, int)> {
    if all_full(ch.slots) {
        match payload_msgs(joined(ch.slots)) {
            Some(ms) => Some((FrameView::Delivered(ms), ch, pos)),
            None => None,
        }
    } else {
        Some((FrameView::Delivered(seq![Msg::Nop]), ch, pos))
    }
}

/// The single-block path from its compressed flag at `q`: a refusal after the 26-bit
/// declared length when compressed; else a varint byte length and that many bytes,
/// decoded as a fresh bit stream. Gives the frame and where the reader ends.
pub open spec fn single_spec(bits: Seq<bool>, q: int) -> Option<(FrameView, int)> {
    match flag_at(bits, q) {
        None => None,
        Some(true) => match rd_uint(bits, q + 1, 26) {
            Some((_, q2)) => Some((FrameView::Refused, q2)),
            None => None,
        },
        Some(false) => match rd_varint(bits, q + 1) {
            None => None,
            Some((n, q2)) => if n * 8 + 64 > usize::MAX {
                None
            } else {
                match rd_bytes(bits, q2, n) {
                    None => None,
                    Some((bytes, q3)) => match payload_msgs(bytes) {
                        Some(ms) => Some((FrameView::Delivered(ms), q3)),
                        None => None,
                    },
                }
            },
        },
    }
}

/// Where the compressed flag of a first slice stands, its file flag being at `q`: next,
/// or after the 32-bit transfer id and the file name when the file flag is set.
pub open spec fn compressed_flag_pos(bits: Seq<bool>, q: int) -> Option<int> {
    match flag_at(bits, q) {
        None => None,
        Some(false) => Some(q + 1),
        Some(true) => match rd_uint(bits, q + 1, 32) {
            None => None,
            Some((_, q1)) => match rd_string(bits, q1) {
                None => None,
                Some((_, q2)) => Some(q2),
            },
        },
    }
}

/// The first slice (start block 0) of `num` blocks, its file flag at `q`. A compressed
/// payload is refused, the stream untouched. Else the stream is reset for the 26-bit
/// payload length; a slice of more blocks than the payload has gives nothing; else its
/// blocks fill the first slots in stream order.
pub open spec fn first_spec(bits: Seq<bool>, q: int, num: nat, ch: ChanView) -> Option<(FrameView, ChanView, int)> {
    match compressed_flag_pos(bits, q) {
        None => None,
        Some(c) => match flag_at(bits, c) {
            None => None,
            Some(true) => Some(
                (
                    FrameView::Refused,
                    ch,
                    if c + 27 <= bits.len() {
                        c + 27
                    } else {
                        c + 1
                    },
                ),
            ),
            Some(false) => match rd_uint(bits, c + 1, 26) {
                None => None,
                Some((len, q3)) => {
                    let fresh = fresh_chan(len);
                    if fragments_for(len) < num {
                        Some((FrameView::Delivered(Seq::empty()), fresh, q3))
                    } else if q3 + 2048 * num > bits.len() {
                        None
                    } else {
                        finished(
                            ChanView { slots: with_blocks(fresh.slots, bits, q3, 0, num), length: len },
                            q3 + 2048 * num,
                        )
                    }
                },
            },
        },
    }
}

/// A later slice of `num` blocks from block `start`, its blocks at `q`. A slice ending
/// at the last slot reads its last block at the payload's tail size (a full block when
/// the length is a multiple of 256); an empty one there, or one reaching past the
/// slots, gives nothing and leaves the stream as it was.
pub open spec fn next_spec(bits: Seq<bool>, q: int, start: nat, num: nat, ch: ChanView) -> Option<(FrameView, ChanView, int)> {
    let n = ch.slots.len();
    if start + num == n {
        if num == 0 {
            Some((FrameView::Delivered(Seq::empty()), ch, q))
        } else {
            let t = tail_size(ch.length);
            let end = q + 2048 * (num - 1) + 8 * t;
            if end > bits.len() {
                None
            } else {
                finished(
                    ChanView {
                        slots: blocks_written(ch.slots, bits, q, start as int, (num - 1) as nat, Some(t)),
                        length: ch.length,
                    },
                    end,
                )
            }
        }
    } else if n < start + num {
        Some((FrameView::Delivered(Seq::empty()), ch, q))
    } else if q + 2048 * num > bits.len() {
        None
    } else {
        finished(ChanView { slots: with_blocks(ch.slots, bits, q, start as int, num), length: ch.length }, q + 2048 * num)
    }
}

/// Parsing the subchannel frame at `p` against stream `ch`: the frame, the stream after
/// it and where the reader ends; `None` when the frame is cut short or malformed. An
/// absent subchannel takes one bit and gives nothing.
#[verifier::opaque]
pub open spec fn frame_spec(bits: Seq<bool>, p: int, ch: ChanView) -> Option<(FrameView, ChanView, int)> {
    match flag_at(bits, p) {
        None => None,
        Some(false) => Some((FrameView::Delivered(Seq::empty()), ch, p + 1)),
        Some(true) => match flag_at(bits, p + 1) {
            None => None,
            Some(false) => match single_spec(bits, p + 2) {
                Some((f, q)) => Some((f, ch, q)),
                None => None,
            },
            Some(true) => match rd_uint(bits, p + 2, 18) {
                None => None,
                Some((start, _)) => match rd_uint(bits, p + 20, 3) {
                    None => None,
                    Some((num, _)) => if start == 0 {
                        first_spec(bits, p + 23, num, ch)
                    } else {
                        next_spec(bits, p + 23, start, num, ch)
                    },
                },
            },
        },
    }
}

/// The exec result `r`, the stream `nc` and the reader position `pos` after a parse
/// are what the spec result `s` says.
pub open spec fn frame_matches(r: Option<Frame>, s: Option<(FrameView, ChanView, int)>, nc: NetChannel, pos: int) -> bool {
    match s {
        Some((f, ch, q)) => r matches Some(x) && frame_view(x) == f && chan_of(nc) == ch && pos == q,
        None => r is None,
    }
}

proof fn lemma_one_bit(bits: Seq<bool>, pos: int)
    requires
        0 <= pos < bits.len(),
    ensures
        rd_uint(bits, pos, 1) == Some(((if bits[pos] { 1nat } else { 0nat }), pos + 1)),
{
    let s = bits.subrange(pos, pos + 1);
    assert(s.drop_last() =~= Seq::<bool>::empty());
    assert(uint_of(s.drop_last()) == 0);
    assert(s.last() == bits[pos]);
    vstd::arithmetic::power2::lemma2_to64();
}

/// The disconnect that answers a compressed payload.
pub fn compressed_refusal() -> (r: Vec<Messages>)
    ensures
        msgs_view(r@) == compressed_reply(),
{
    let mut v: Vec<Messages> = Vec::new();
    v.push(Messages::NET_DISCONNECT { reason: COMPRESSED_REASON.to_string() });
    proof {
        assert(msgs_view(v@) =~= compressed_reply());
    }
    v
}

/// A single no-op: progress with nothing to hand on.
fn progress_only() -> (r: Vec<Messages>)
    ensures
        msgs_view(r@) == seq![Msg::Nop],
{
    let mut v: Vec<Messages> = Vec::new();
    v.push(Messages::NET_NOP);
    proof {
        assert(msgs_view(v@) =~= seq![Msg::Nop]);
    }
    v
}

/// Decodes a byte payload as a fresh bit stream.
fn decode_payload(bytes: &[u8]) -> (r: Option<Frame>)
    requires
        bytes@.len() * 8 + 64 <= usize::MAX,
    ensures
        match payload_msgs(bytes@) {
            Some(ms) => r matches Some(Frame::Delivered(v)) && msgs_view(v@) == ms,
            None => r is None,
        },
{
    let mut reader = BitReader::from_bytes(bytes);
    match process_messages(&mut reader) {
        Some(v) => Some(Frame::Delivered(v)),
        None => None,
    }
}

/// All blocks, one after the other.
fn join_fragments(nc: &NetChannel) -> (r: Vec<u8>)
    requires
        nc.wf(),
    ensures
        r@ == joined(nc.slots()),
        r@.len() <= 256 * nc.fragments@.len(),
{
    let mut out: Vec<u8> = Vec::new();
    let mut i: usize = 0;
    proof {
        assert(nc.slots().take(0) =~= Seq::<Seq<u8>>::empty());
    }
    while i < nc.fragments.len()
        invariant
            nc.wf(),
            i <= nc.fragments@.len(),
            out@ == joined(nc.slots().take(i as int)),
            out@.len() <= 256 * i,
        decreases nc.fragments@.len() - i,
    {
        let f = &nc.fragments[i];
        let mut j: usize = 0;
        let ghost before = out@;
        while j < f.len()
            invariant
                j <= f@.len(),
                out@ == before + f@.take(j as int),
            decreases f@.len() - j,
        {
            out.push(f[j]);
            proof {
                assert(f@.take(j + 1) =~= f@.take(j as int).push(f@[j as int]));
                assert(out@ =~= before + f@.take(j + 1));
            }
            j = j + 1;
        }
        proof {
            assert(f@.take(f@.len() as int) =~= f@);
            let t = nc.slots().take(i + 1);
            assert(t.drop_last() =~= nc.slots().take(i as int));
            assert(t.last() == f@);
            assert(nc.fragments@[i as int]@.len() <= 256);
        }
        i = i + 1;
    }
    proof {
        assert(nc.slots().take(nc.fragments@.len() as int) =~= nc.slots());
    }
    out
}

/// Whether every slot is filled.
fn all_filled(nc: &NetChannel) -> (r: bool)
    ensures
        r == nc.complete(),
{
    let mut i: usize = 0;
    while i < nc.fragments.len()
        invariant
            i <= nc.fragments@.len(),
            forall|k: int| 0 <= k < i ==> #[trigger] nc.fragments@[k]@.len() > 0,
        decreases nc.fragments@.len() - i,
    {
        if nc.fragments[i].len() == 0 {
            return false;
        }
        i = i + 1;
    }
    true
}

/// A stream reset for a payload of `length` bytes, with every slot empty.
fn reset_channel(length: usize) -> (r: NetChannel)
    requires
        length < 0x400_0000,
    ensures
        r.wf(),
        r.length == length,
        forall|i: int| 0 <= i < r.fragments@.len() ==> (#[trigger] r.fragments@[i])@.len() == 0,
        chan_of(r) == fresh_chan(length as nat),
{
    let mut total = length / FRAGMENT_SIZE;
    if length % FRAGMENT_SIZE != 0 {
        total = total + 1;
    }
    let mut fragments: Vec<Vec<u8>> = Vec::new();
    let mut i: usize = 0;
    while i < total
        invariant
            i <= total,
            fragments@.len() == i,
            forall|k: int| 0 <= k < i ==> (#[trigger] fragments@[k])@.len() == 0,
        decreases total - i,
    {
        fragments.push(Vec::new());
        i = i + 1;
    }
    let r = NetChannel { fragments, num_fragments: total, length };
    proof {
        assert forall|i: int| 0 <= i < r.slots().len() implies r.slots()[i] =~= Seq::<u8>::empty() by {
            assert(r.fragments@[i]@.len() == 0);
        }
        assert(r.slots() =~= fresh_chan(length as nat).slots);
    }
    r
}

/// Reads a flag bit.
fn read_flag(reader: &mut BitReader) -> (r: Option<bool>)
    requires
        old(reader).wf(),
    ensures
        final(reader).wf(),
        final(reader).bits@ == old(reader).bits@,
        r == flag_at(old(reader).bits@, old(reader).pos as int),
        r is Some ==> final(reader).pos == old(reader).pos + 1,
{
    proof {
        if old(reader).pos < old(reader).bits@.len() {
            lemma_one_bit(old(reader).bits@, old(reader).pos as int);
        }
    }
    reader.read_bool()
}

/// Reads `count` blocks of `FRAGMENT_SIZE` bytes into slots `start ..`, then, if `last`
/// is given, one block of that size into the next slot; `false` when the stream ends
/// first.
fn read_blocks(reader: &mut BitReader, nc: &mut NetChannel, start: usize, count: usize, last: Option<usize>) -> (r: bool)
    requires
        old(reader).wf(),
        old(nc).wf(),
        start + count + (if last is Some { 1int } else { 0 }) <= old(nc).fragments@.len(),
        last matches Some(n) ==> start + count + 1 == old(nc).fragments@.len() && n == tail_size(
            old(nc).length as nat,
        ),
    ensures
        final(reader).wf(),
        final(reader).bits@ == old(reader).bits@,
        final(nc).wf(),
        final(nc).length == old(nc).length,
        final(nc).num_fragments == old(nc).num_fragments,
        ({
            let end = old(reader).pos + 2048 * count + match last {
                Some(n) => 8 * n,
                None => 0,
            };
            &&& r == (end <= old(reader).bits@.len())
            &&& r ==> final(reader).pos == end && final(nc).slots() == blocks_written(
                old(nc).slots(),
                old(reader).bits@,
                old(reader).pos as int,
                start as int,
                count as nat,
                match last {
                    Some(n) => Some(n as nat),
                    None => None,
                },
            )
        }),
{
    let ghost p = reader.pos as int;
    let ghost b = reader.bits@;
    let mut i: usize = 0;
    proof {
        assert(nc.slots() =~= with_blocks(old(nc).slots(), b, p, start as int, 0));
    }
    while i < count
        invariant
            reader.wf(),
            reader.bits@ == b,
            b == old(reader).bits@,
            p == old(reader).pos,
            reader.pos == p + 2048 * i,
            old(nc).wf(),
            nc.wf(),
            nc.length == old(nc).length,
            nc.num_fragments == old(nc).num_fragments,
            start + count <= nc.fragments@.len(),
            i <= count,
            nc.slots() == with_blocks(old(nc).slots(), b, p, start as int, i as nat),
        decreases count - i,
    {
        let block = match reader.read_bytes(FRAGMENT_SIZE) {
            Some(b) => b,
            None => return false,
        };
        let ghost old_nc = *nc;
        nc.fragments.set(start + i, block);
        proof {
            assert forall|k: int| 0 <= k < nc.num_fragments implies {
                let n = #[trigger] nc.fragments@[k]@.len();
                n == 0 || n == 256 || (k == nc.num_fragments - 1 && n == tail_size(nc.length as nat))
            } by {
                if k != start + i {
                    assert(nc.fragments@[k] == old_nc.fragments@[k]);
                }
            }
            assert(block@ =~= block_at(b, p + 2048 * i, 256));
            let w = with_blocks(old(nc).slots(), b, p, start as int, (i + 1) as nat);
            assert forall|k: int| 0 <= k < nc.slots().len() implies nc.slots()[k] == w[k] by {
                assert(nc.slots()[k] == nc.fragments@[k]@);
                if k != start + i {
                    assert(old_nc.slots()[k] == old_nc.fragments@[k]@);
                    assert(nc.fragments@[k] == old_nc.fragments@[k]);
                }
            }
            assert(nc.slots() =~= w);
        }
        i = i + 1;
    }
    if let Some(n) = last {
        let block = match reader.read_bytes(n) {
            Some(b) => b,
            None => return false,
        };
        let ghost old_nc = *nc;
        nc.fragments.set(start + count, block);
        proof {
            assert forall|k: int| 0 <= k < nc.num_fragments implies {
                let n = #[trigger] nc.fragments@[k]@.len();
                n == 0 || n == 256 || (k == nc.num_fragments - 1 && n == tail_size(nc.length as nat))
            } by {
                if k != start + count {
                    assert(nc.fragments@[k] == old_nc.fragments@[k]);
                }
            }
            assert(block@ =~= block_at(b, p + 2048 * count, n as nat));
            let w = blocks_written(old(nc).slots(), b, p, start as int, count as nat, Some(n as nat));
            assert forall|k: int| 0 <= k < nc.slots().len() implies nc.slots()[k] == w[k] by {
                assert(nc.slots()[k] == nc.fragments@[k]@);
                if k != start + count {
                    assert(old_nc.slots()[k] == old_nc.fragments@[k]@);
                    assert(nc.fragments@[k] == old_nc.fragments@[k]);
                }
            }
            assert(nc.slots() =~= blocks_written(old(nc).slots(), b, p, start as int, count as nat, Some(n as nat)));
        }
    }
    true
}

/// After a slice is written: the decoded payload when every slot is filled, else a
/// single no-op.
fn finish_slice(netchannel: &NetChannel, Ghost(pos): Ghost<int>) -> (r: Option<Frame>)
    requires
        netchannel.wf(),
    ensures
        frame_matches(r, finished(chan_of(*netchannel), pos), *netchannel, pos),
{
    let full = all_filled(netchannel);
    proof {
        assert(full == all_full(netchannel.slots())) by {
            if all_full(netchannel.slots()) {
                assert forall|i: int| 0 <= i < netchannel.fragments@.len() implies #[trigger] netchannel.fragments@[i]@.len() > 0 by {
                    assert(netchannel.slots()[i] == netchannel.fragments@[i]@);
                }
            }
            if netchannel.complete() {
                assert forall|i: int| 0 <= i < netchannel.slots().len() implies (#[trigger] netchannel.slots()[i]).len() > 0 by {
                    assert(netchannel.slots()[i] == netchannel.fragments@[i]@);
                }
            }
        }
    }
    if full {
        let data = join_fragments(netchannel);
        proof {
            assert(data@.len() <= 256 * fragments_for(netchannel.length as nat));
        }
        decode_payload(data.as_slice())
    } else {
        Some(Frame::Delivered(progress_only()))
    }
}

/// The single-block path, from the compressed flag on.
fn parse_single(reader: &mut BitReader) -> (r: Option<Frame>)
    requires
        old(reader).wf(),
    ensures
        final(reader).wf(),
        final(reader).bits@ == old(reader).bits@,
        match single_spec(old(reader).bits@, old(reader).pos as int) {
            Some((f, q)) => r matches Some(x) && frame_view(x) == f && final(reader).pos == q,
            None => r is None,
        },
{
    let compressed = match read_flag(reader) {
        Some(x) => x,
        None => return None,
    };
    if compressed {
        return match reader.read_uint(26) {
            Some(_) => Some(Frame::Refused),
            None => None,
        };
    }
    let len = match read_varint(reader) {
        Some(n) => n,
        None => return None,
    };
    if len > (usize::MAX - 64) / 8 {
        return None;
    }
    let msg = match reader.read_bytes(len) {
        Some(m) => m,
        None => return None,
    };
    decode_payload(msg.as_slice())
}

/// The first slice of a multi-block payload, from the file flag on.
fn parse_first_slice(reader: &mut BitReader, netchannel: &mut NetChannel, num: usize) -> (r: Option<Frame>)
    requires
        old(reader).wf(),
        old(netchannel).wf(),
        num < 8,
    ensures
        final(reader).wf(),
        final(reader).bits@ == old(reader).bits@,
        final(netchannel).wf(),
        frame_matches(
            r,
            first_spec(old(reader).bits@, old(reader).pos as int, num as nat, chan_of(*old(netchannel))),
            *final(netchannel),
            final(reader).pos as int,
        ),
{
    let ghost b = reader.bits@;
    let is_file = match read_flag(reader) {
        Some(x) => x,
        None => return None,
    };
    if is_file {
        match reader.read_uint(32) {
            Some(_) => {},
            None => return None,
        }
        match read_string(reader) {
            Some(_) => {},
            None => return None,
        }
    }
    let compressed = match read_flag(reader) {
        Some(x) => x,
        None => return None,
    };
    if compressed {
        let _ = reader.read_uint(26);
        return Some(Frame::Refused);
    }
    let total_length = match reader.read_uint(26) {
        Some(x) => x as usize,
        None => return None,
    };
    proof {
        vstd::arithmetic::power2::lemma2_to64();
        vstd::arithmetic::power2::lemma2_to64_rest();
    }
    *netchannel = reset_channel(total_length);
    if netchannel.num_fragments < num {
        let v: Vec<Messages> = Vec::new();
        proof {
            assert(msgs_view(v@) =~= Seq::<Msg>::empty());
        }
        return Some(Frame::Delivered(v));
    }
    if !read_blocks(reader, netchannel, 0, num, None) {
        return None;
    }
    finish_slice(netchannel, Ghost(reader.pos as int))
}

/// A later slice of a multi-block payload, after its start and count.
fn parse_next_slice(reader: &mut BitReader, netchannel: &mut NetChannel, start: usize, num: usize) -> (r: Option<Frame>)
    requires
        old(reader).wf(),
        old(netchannel).wf(),
        num < 8,
        start < 0x40000,
    ensures
        final(reader).wf(),
        final(reader).bits@ == old(reader).bits@,
        final(netchannel).wf(),
        frame_matches(
            r,
            next_spec(old(reader).bits@, old(reader).pos as int, start as nat, num as nat, chan_of(*old(netchannel))),
            *final(netchannel),
            final(reader).pos as int,
        ),
{
    if start + num == netchannel.num_fragments {
        if num == 0 {
            let v: Vec<Messages> = Vec::new();
            proof {
                assert(msgs_view(v@) =~= Seq::<Msg>::empty());
            }
            return Some(Frame::Delivered(v));
        }
        let tail = if netchannel.length % FRAGMENT_SIZE == 0 {
            FRAGMENT_SIZE
        } else {
            netchannel.length % FRAGMENT_SIZE
        };
        if !read_blocks(reader, netchannel, start, num - 1, Some(tail)) {
            return None;
        }
    } else {
        if netchannel.fragments.len() < start + num {
            let v: Vec<Messages> = Vec::new();
            proof {
                assert(msgs_view(v@) =~= Seq::<Msg>::empty());
            }
            return Some(Frame::Delivered(v));
        }
        if !read_blocks(reader, netchannel, start, num, None) {
            return None;
        }
    }
    finish_slice(netchannel, Ghost(reader.pos as int))
}

/// Parses one subchannel frame against its stream and tells what it gives.
///
/// An absent subchannel takes one bit and gives nothing. A compressed payload is
/// refused and leaves the stream as it was. A single block is decoded at once. A slice
/// of a multi-block payload is written into its slots: the first slice (start 0)
/// resets the stream for the declared length, the slice ending at the last slot reads
/// its last block at the size of the payload's tail. When every slot is filled the
/// blocks are decoded together; otherwise a single no-op reports progress. A slice
/// that does not fit the stream gives no messages. `None` when the frame is cut short
/// or what it carries is malformed. See `frame_spec`.
pub fn parse_subchannel_frame(reader: &mut BitReader, netchannel: &mut NetChannel) -> (r: Option<Frame>)
    requires
        old(reader).wf(),
        old(netchannel).wf(),
    ensures
        final(reader).wf(),
        final(reader).bits@ == old(reader).bits@,
        final(netchannel).wf(),
        frame_matches(
            r,
            frame_spec(old(reader).bits@, old(reader).pos as int, chan_of(*old(netchannel))),
            *final(netchannel),
            final(reader).pos as int,
        ),
{
    reveal(frame_spec);
    let present = match read_flag(reader) {
        Some(x) => x,
        None => return None,
    };
    if !present {
        let v: Vec<Messages> = Vec::new();
        proof {
            assert(msgs_view(v@) =~= Seq::<Msg>::empty());
        }
        return Some(Frame::Delivered(v));
    }
    let multi = match read_flag(reader) {
        Some(x) => x,
        None => return None,
    };
    if !multi {
        return parse_single(reader);
    }
    let start = match reader.read_uint(18) {
        Some(x) => x as usize,
        None => return None,
    };
    let num = match reader.read_uint(3) {
        Some(x) => x as usize,
        None => return None,
    };
    proof {
        vstd::arithmetic::power2::lemma2_to64();
    }
    if start == 0 {
        parse_first_slice(reader, netchannel, num)
    } else {
        parse_next_slice(reader, netchannel, start, num)
    }
}

/// Parses one subchannel frame and returns the messages it completes, a refused
/// compressed payload as the one disconnect that answers it.
pub fn parse_subchannel(reader: &mut BitReader, netchannel: &mut NetChannel) -> (r: Option<Vec<Messages>>)
    requires
        old(reader).wf(),
        old(netchannel).wf(),
    ensures
        final(reader).wf(),
        final(reader).bits@ == old(reader).bits@,
        final(netchannel).wf(),
        match frame_spec(old(reader).bits@, old(reader).pos as int, chan_of(*old(netchannel))) {
            Some((f, ch, q)) => r matches Some(v) && msgs_view(v@) == frame_msgs(f) && chan_of(*final(netchannel))
                == ch && final(reader).pos == q,
            None => r is None,
        },
{
    match parse_subchannel_frame(reader, netchannel) {
        Some(Frame::Delivered(v)) => Some(v),
        Some(Frame::Refused) => Some(compressed_refusal()),
        None => None,
    }
}

proof fn lemma_full_prefix(frags: Seq<Seq<u8>>, k: int)
    requires
        0 <= k <= frags.len(),
        forall|i: int| 0 <= i < k ==> (#[trigger] frags[i]).len() == 256,
    ensures
        total_size(frags.take(k)) == 256 * k,
    decreases k,
{
    if k > 0 {
        assert(frags.take(k).drop_last() =~= frags.take(k - 1));
        lemma_full_prefix(frags, k - 1);
    }
}

/// Once every slot of a multi-block stream is filled, and its last slot holds the
/// payload's tail, every block before the last is a full 256 bytes and the blocks add
/// up to the payload length.
pub proof fn lemma_complete_sizes(nc: NetChannel)
    requires
        nc.wf(),
        nc.complete(),
        nc.num_fragments > 0,
        nc.fragments@.last()@.len() == tail_size(nc.length as nat),
    ensures
        forall|i: int| 0 <= i < nc.num_fragments - 1 ==> (#[trigger] nc.slots()[i]).len() == 256,
        total_size(nc.slots()) == nc.length,
{
    let s = nc.slots();
    let n = nc.num_fragments as int;
    assert forall|i: int| 0 <= i < n - 1 implies (#[trigger] s[i]).len() == 256 by {
        assert(nc.fragments@[i]@.len() > 0);
    }
    lemma_full_prefix(s, n - 1);
    assert(s.drop_last() =~= s.take(n - 1));
    let len = nc.length as int;
    assert(256 * (n - 1) + tail_size(len as nat) == len) by (nonlinear_arith)
        requires
            n == (len + 255) / 256,
            len >= 0,
            n > 0,
            tail_size(len as nat) == if len % 256 == 0 { 256 } else { len % 256 },
    ;
}

} // verus!
