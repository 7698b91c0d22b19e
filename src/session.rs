//! The stateful netchannel path: the client table, the per-peer message rules and the
//! reply packet.
use crate::bits::{bits_of, is_packing, uint_of, BitReader};
use crate::checksum::{valve_checksum, valve_checksum_of};
use crate::client::{state_rank, Client, ClientState, NetChannel};
use crate::messages::{decode_msgs, encode_messages, encode_msgs, msgs_view, process_messages, Messages, Msg};
use crate::netchannel::{
    chan_of, compressed_refusal, compressed_reply, frame_spec, frame_view, parse_subchannel_frame, ChanView, Frame,
    FrameView,
};
use crate::bits::rd_uint;
use crate::stateless::{le16, le32, push_le16, push_le32, read_u32_le, u32_at};
use vstd::prelude::*;
use vstd::string::{StringExecFns, StringSliceAdditionalSpecFns};

verus! {

broadcast use vstd::string::group_string_axioms;

/// A peer's UDP endpoint: its address (IPv4 addresses in their IPv6-mapped form) and port.
#[derive(Clone, Copy, Debug, PartialEq, Eq, Structural)]
pub struct Endpoint {
    pub ip: u128,
    pub port: u16,
}

/// The sessions, one per endpoint.
pub struct Clients {
    pub entries: Vec<(Endpoint, Client)>,
}

impl Clients {
    /// Endpoints are unique and every session is well formed.
    pub open spec fn wf(&self) -> bool {
        &&& forall|i: int| 0 <= i < self.entries@.len() ==> (#[trigger] self.entries@[i]).1.wf()
        &&& forall|i: int, j: int|
            0 <= i < j < self.entries@.len() ==> (#[trigger] self.entries@[i]).0 != (#[trigger] self.entries@[j]).0
    }

    /// Whether a session exists for `ep`.
    pub open spec fn has(&self, ep: Endpoint) -> bool {
        exists|i: int| 0 <= i < self.entries@.len() && (#[trigger] self.entries@[i]).0 == ep
    }

    /// No sessions.
    pub fn new() -> (r: Clients)
        ensures
            r.wf(),
            r.entries@.len() == 0,
    {
        Clients { entries: Vec::new() }
    }

    /// Number of sessions.
    pub fn len(&self) -> (r: usize)
        ensures
            r == self.entries@.len(),
    {
        self.entries.len()
    }

    /// The position of the session of `ep`.
    pub fn find(&self, ep: &Endpoint) -> (r: Option<usize>)
        ensures
            r matches Some(i) ==> i < self.entries@.len() && self.entries@[i as int].0 == *ep,
            r is None ==> !self.has(*ep),
    {
        let mut i: usize = 0;
        while i < self.entries.len()
            invariant
                i <= self.entries@.len(),
                forall|k: int| 0 <= k < i ==> (#[trigger] self.entries@[k]).0 != *ep,
            decreases self.entries@.len() - i,
        {
            if self.entries[i].0 == *ep {
                return Some(i);
            }
            i = i + 1;
        }
        None
    }

    /// The session of `ep`, if there is one.
    pub fn get(&self, ep: &Endpoint) -> (r: Option<&Client>)
        ensures
            r is None <==> !self.has(*ep),
            r matches Some(c) ==> exists|i: int|
                0 <= i < self.entries@.len() && (#[trigger] self.entries@[i]).0 == *ep && self.entries@[i].1 == *c,
    {
        match self.find(ep) {
            Some(i) => Some(&self.entries[i].1),
            None => None,
        }
    }

    /// Takes the session at `k` out, leaving a fresh one in its place.
    fn take_at(&mut self, k: usize) -> (r: Client)
        requires
            k < old(self).entries@.len(),
        ensures
            r == old(self).entries@[k as int].1,
            final(self).entries@.len() == old(self).entries@.len(),
            final(self).entries@[k as int].0 == old(self).entries@[k as int].0,
            forall|j: int|
                0 <= j < old(self).entries@.len() && j != k ==> final(self).entries@[j] == old(self).entries@[j],
    {
        let (ep, c) = self.entries.remove(k);
        self.entries.insert(k, (ep, placeholder_client()));
        c
    }

    /// Puts `c` back as the session at `k`.
    fn put_at(&mut self, k: usize, c: Client)
        requires
            k < old(self).entries@.len(),
        ensures
            final(self).entries@.len() == old(self).entries@.len(),
            final(self).entries@[k as int] == (old(self).entries@[k as int].0, c),
            forall|j: int|
                0 <= j < old(self).entries@.len() && j != k ==> final(self).entries@[j] == old(self).entries@[j],
    {
        let ep = self.entries[k].0;
        self.entries.set(k, (ep, c));
    }

    /// Queues `command` for the confirmed client at `k` and marks it redirected.
    pub fn redirect_at(&mut self, k: usize, command: String)
        requires
            old(self).wf(),
            k < old(self).entries@.len(),
        ensures
            final(self).wf(),
            final(self).entries@.len() == old(self).entries@.len(),
            final(self).entries@[k as int].0 == old(self).entries@[k as int].0,
            final(self).entries@[k as int].1.state == ClientState::Redirected,
            msgs_view(final(self).entries@[k as int].1.queued@) == msgs_view(old(self).entries@[k as int].1.queued@).push(
                Msg::StringCmd(command@),
            ),
            final(self).entries@[k as int].1.joined == old(self).entries@[k as int].1.joined,
            final(self).entries@[k as int].1.name == old(self).entries@[k as int].1.name,
            final(self).entries@[k as int].1.reliable == old(self).entries@[k as int].1.reliable,
            final(self).entries@[k as int].1.sequence == old(self).entries@[k as int].1.sequence,
            final(self).entries@[k as int].1.netchannels == old(self).entries@[k as int].1.netchannels,
            forall|j: int|
                0 <= j < old(self).entries@.len() && j != k ==> final(self).entries@[j] == old(self).entries@[j],
    {
        let mut c = self.take_at(k);
        let ghost q = c.queued@;
        c.queued.push(Messages::SVC_STRING_CMD { command });
        c.state = ClientState::Redirected;
        proof {
            assert(msgs_view(c.queued@) =~= msgs_view(q).push(Msg::StringCmd(command@)));
        }
        self.put_at(k, c);
        proof {
            assert forall|i: int, j: int|
                0 <= i < j < final(self).entries@.len() implies (#[trigger] final(self).entries@[i]).0
                != (#[trigger] final(self).entries@[j]).0 by {
                assert(final(self).entries@[i].0 == old(self).entries@[i].0);
                assert(final(self).entries@[j].0 == old(self).entries@[j].0);
            }
        }
    }
}

/// A session record that only holds a place while the real one is worked on.
fn placeholder_client() -> (r: Client) {
    Client {
        joined: 0,
        name: None,
        queued: Vec::new(),
        reliable: 0,
        sequence: 0,
        netchannels: [NetChannel::new(), NetChannel::new()],
        state: ClientState::Fresh,
    }
}

// ---------------------------------------------------------------------------------------
// Per-peer message rules
/// Reason sent to a client that did not join from the favorites tab.
pub const FAVORITES_REASON: &'static str = "You must join this server from the favorites tab!";
/// The join method of a client that joined from the favorites tab.
pub const FAVORITES_METHOD: &'static str = "serverbrowser_favorites";

/// The value of the last pair with key `k`.
pub open spec fn lookup(c: Seq<(Seq<char>, Seq<char>)>, k: Seq<char>) -> Option<Seq<char>>
    decreases c.len(),
{
    if c.len() == 0 {
        None
    } else if c.last().0 == k {
        Some(c.last().1)
    } else {
        lookup(c.drop_last(), k)
    }
}

/// What handling inbound messages has made so far: the state, the name and the replies.
pub struct Handled {
    pub state: ClientState,
    pub name: Option<Seq<char>>,
    pub replies: Seq<Msg>,
}

/// Handling one inbound message. Console variables set the name when they carry one,
/// and confirm a fresh client whose join method is the favorites tab; any other join
/// method gets a disconnect reply. Other messages need no reply.
pub open spec fn handle_step(h: Handled, m: Msg) -> Handled {
    match m {
        Msg::SetConvars(c) => {
            let favorites = lookup(c, "cl_connectmethod"@) == Some(FAVORITES_METHOD@);
            Handled {
                state: if favorites && h.state == ClientState::Fresh {
                    ClientState::Confirmed
                } else {
                    h.state
                },
                name: match lookup(c, "name"@) {
                    Some(n) => Some(n),
                    None => h.name,
                },
                replies: if favorites {
                    h.replies
                } else {
                    h.replies.push(Msg::Disconnect(FAVORITES_REASON@))
                },
            }
        },
        _ => h,
    }
}

/// Handling inbound messages in order.
pub open spec fn handle_all(h: Handled, ms: Seq<Msg>) -> Handled
    decreases ms.len(),
{
    if ms.len() == 0 {
        h
    } else {
        handle_step(handle_all(h, ms.drop_last()), ms.last())
    }
}

pub open spec fn name_view(n: Option<String>) -> Option<Seq<char>> {
    match n {
        Some(s) => Some(s@),
        None => None,
    }
}

/// Where handling starts for a client.
pub open spec fn handling_start(c: Client) -> Handled {
    Handled { state: c.state, name: name_view(c.name), replies: Seq::empty() }
}

/// The state only moves forward while messages are handled.
pub proof fn lemma_handle_all_monotone(h: Handled, ms: Seq<Msg>)
    ensures
        state_rank(handle_all(h, ms).state) >= state_rank(h.state),
    decreases ms.len(),
{
    if ms.len() > 0 {
        lemma_handle_all_monotone(h, ms.drop_last());
    }
}

/// The position of the last pair whose key is `key`.
fn find_convar(convars: &Vec<(String, String)>, key: &String) -> (r: Option<usize>)
    ensures
        match lookup(crate::messages::convars_view(convars@), key@) {
            Some(v) => r matches Some(i) && i < convars@.len() && convars@[i as int].1@ == v,
            None => r is None,
        },
{
    let ghost cv = crate::messages::convars_view(convars@);
    let mut found: Option<usize> = None;
    let mut i: usize = 0;
    proof {
        assert(cv.take(0) =~= Seq::<(Seq<char>, Seq<char>)>::empty());
    }
    while i < convars.len()
        invariant
            i <= convars@.len(),
            cv == crate::messages::convars_view(convars@),
            match lookup(cv.take(i as int), key@) {
                Some(v) => found matches Some(j) && j < convars@.len() && convars@[j as int].1@ == v,
                None => found is None,
            },
        decreases convars@.len() - i,
    {
        proof {
            assert(cv.take(i + 1).drop_last() =~= cv.take(i as int));
            assert(cv.take(i + 1).last() == cv[i as int]);
        }
        if convars[i].0 == *key {
            found = Some(i);
        }
        i = i + 1;
    }
    proof {
        assert(cv.take(convars@.len() as int) =~= cv);
    }
    found
}

/// Handles the inbound messages of a packet for `client` and returns the replies: those
/// the rules give, in order, then the oldest queued message if one is waiting (it
/// leaves the queue).
pub fn handle_messages(client: &mut Client, messages: Vec<Messages>) -> (r: Vec<Messages>)
    ensures
        ({
            let h = handle_all(handling_start(*old(client)), msgs_view(messages@));
            &&& final(client).state == h.state
            &&& name_view(final(client).name) == h.name
            &&& old(client).queued@.len() == 0 ==> msgs_view(r@) == h.replies && final(client).queued@.len() == 0
            &&& old(client).queued@.len() > 0 ==> msgs_view(r@) == h.replies.push(old(client).queued@[0]@)
                && final(client).queued@ == old(client).queued@.drop_first()
        }),
        final(client).joined == old(client).joined,
        final(client).netchannels == old(client).netchannels,
        final(client).reliable == old(client).reliable,
        final(client).sequence == old(client).sequence,
{
    let ghost ms = msgs_view(messages@);
    let ghost start = handling_start(*old(client));
    let mut results: Vec<Messages> = Vec::new();
    let name_key = String::from_str("name");
    let method_key = String::from_str("cl_connectmethod");
    let favorites = String::from_str(FAVORITES_METHOD);
    let mut i: usize = 0;
    proof {
        assert(ms.take(0) =~= Seq::<Msg>::empty());
        assert(msgs_view(results@) =~= Seq::<Msg>::empty());
    }
    while i < messages.len()
        invariant
            i <= messages@.len(),
            ms == msgs_view(messages@),
            name_key@ == "name"@,
            method_key@ == "cl_connectmethod"@,
            favorites@ == FAVORITES_METHOD@,
            ({
                let h = handle_all(start, ms.take(i as int));
                &&& client.state == h.state
                &&& name_view(client.name) == h.name
                &&& msgs_view(results@) == h.replies
            }),
            client.queued == old(client).queued,
            client.joined == old(client).joined,
            client.netchannels == old(client).netchannels,
            client.reliable == old(client).reliable,
            client.sequence == old(client).sequence,
        decreases messages@.len() - i,
    {
        proof {
            assert(ms.take(i + 1).drop_last() =~= ms.take(i as int));
            assert(ms.take(i + 1).last() == messages@[i as int]@);
        }
        if let Messages::NET_SET_CONVARS { convars } = &messages[i] {
            match find_convar(convars, &name_key) {
                Some(j) => {
                    client.set_name(convars[j].1.clone());
                },
                None => {},
            }
            let is_favorites = match find_convar(convars, &method_key) {
                Some(j) => convars[j].1 == favorites,
                None => false,
            };
            if is_favorites {
                if client.state == ClientState::Fresh {
                    client.state = ClientState::Confirmed;
                }
            } else {
                let ghost before = results@;
                results.push(Messages::NET_DISCONNECT { reason: FAVORITES_REASON.to_string() });
                proof {
                    assert(msgs_view(results@) =~= msgs_view(before).push(Msg::Disconnect(FAVORITES_REASON@)));
                }
            }
        }
        i = i + 1;
    }
    proof {
        assert(ms.take(messages@.len() as int) =~= ms);
    }
    if client.queued.len() > 0 {
        let ghost before = results@;
        let r = client.queued.remove(0);
        results.push(r);
        proof {
            assert(msgs_view(results@) =~= msgs_view(before).push(old(client).queued@[0]@));
            assert(client.queued@ =~= old(client).queued@.drop_first());
        }
    }
    results
}

// ---------------------------------------------------------------------------------------
// Reply packets
/// Flags byte of every reply: a challenge follows.
pub const REPLY_FLAGS: u8 = 0x20;

/// The body of a reply: reliable state, challenge, encoded messages.
pub open spec fn reply_body(rel: u8, challenge: u32, payload: Seq<u8>) -> Seq<u8> {
    seq![rel] + le32(challenge) + payload
}

/// A reply packet: sequence, acknowledged sequence, flags, checksum of the body, body.
pub open spec fn packet_of(seq: u32, ack: u32, rel: u8, challenge: u32, payload: Seq<u8>) -> Seq<u8> {
    let body = reply_body(rel, challenge, payload);
    le32(seq) + le32(ack) + seq![REPLY_FLAGS] + le16(valve_checksum_of(body)) + body
}

/// The reply packet carries `messages` encoded after its 16 header bytes.
pub open spec fn is_reply(p: Seq<u8>, seq: u32, ack: u32, rel: u8, challenge: u32, messages: Seq<Msg>) -> bool {
    &&& p.len() >= 16
    &&& is_packing(p.subrange(16, p.len() as int), encode_msgs(messages))
    &&& p == packet_of(seq, ack, rel, challenge, p.subrange(16, p.len() as int))
}

/// Builds the one reply packet for `messages`: the outbound sequence `seq` goes up by
/// one and numbers it, `ack` acknowledges the peer's sequence, `rel` is the reliable
/// state and `challenge` is echoed.
pub fn build_packets(messages: Vec<Messages>, seq: &mut u32, ack: u32, rel: u8, challenge: u32) -> (r: Vec<Vec<u8>>)
    requires
        *old(seq) < u32::MAX,
    ensures
        *final(seq) == *old(seq) + 1,
        r@.len() == 1,
        is_reply(r@[0]@, *final(seq), ack, rel, challenge, msgs_view(messages@)),
{
    *seq = *seq + 1;
    let payload = encode_messages(&messages);
    let mut body: Vec<u8> = Vec::new();
    body.push(rel);
    push_le32(&mut body, challenge);
    body.extend_from_slice(payload.as_slice());
    let mut packet: Vec<u8> = Vec::new();
    push_le32(&mut packet, *seq);
    push_le32(&mut packet, ack);
    packet.push(REPLY_FLAGS);
    push_le16(&mut packet, valve_checksum(body.as_slice()));
    packet.extend_from_slice(body.as_slice());
    proof {
        assert(body@ =~= reply_body(rel, challenge, payload@));
        assert(packet@.subrange(16, packet@.len() as int) =~= payload@);
        assert(packet@ =~= packet_of(*seq, ack, rel, challenge, payload@));
    }
    let mut packets: Vec<Vec<u8>> = Vec::new();
    packets.push(packet);
    packets
}

// ---------------------------------------------------------------------------------------
// Stateful datagrams
/// The frame that welcomes a new peer to the netchannel.
pub open spec fn welcome_frame() -> Seq<u8> {
    seq![0xFFu8, 0xFFu8, 0xFFu8, 0xFFu8, 0x42u8] + "00000000000000\0".spec_bytes()
}

/// Flag: a choked byte follows the reliable state.
pub const FLAG_CHOKED: u8 = 0x10;
/// Flag: a challenge follows.
pub const FLAG_CHALLENGE: u8 = 0x20;
/// Flag: subchannel frames open the bit stream.
pub const FLAG_RELIABLE: u8 = 0x01;
/// Length of the fixed header of a stateful datagram, up to the reliable state.
pub const HEADER_LEN: usize = 11;
/// Shortest stateful datagram.
pub const MIN_STATEFUL_LEN: usize = 16;

/// Position of the challenge in a stateful datagram.
pub open spec fn challenge_pos(data: Seq<u8>) -> int {
    if data[8] & FLAG_CHOKED != 0 {
        13
    } else {
        12
    }
}

/// The checksum of a stateful datagram matches its payload.
pub open spec fn checksum_ok(data: Seq<u8>) -> bool {
    &&& data.len() >= MIN_STATEFUL_LEN
    &&& valve_checksum_of(data.subrange(HEADER_LEN as int, data.len() as int)) == data[9] + 256 * data[10]
}

/// A stateful datagram that may be answered: its checksum matches and it carries a
/// challenge.
pub open spec fn answerable(data: Seq<u8>) -> bool {
    &&& checksum_ok(data)
    &&& data[8] & FLAG_CHALLENGE != 0
    &&& data.len() >= challenge_pos(data) + 4
}

/// The bit stream of an answerable datagram, after its challenge.
pub open spec fn stream_of(data: Seq<u8>) -> Seq<bool> {
    bits_of(data.subrange(challenge_pos(data) + 4, data.len() as int))
}

/// The replies to inbound messages `inbound` for client `c`, the oldest queued message last.
pub open spec fn replies_for(c: Client, inbound: Seq<Msg>) -> Seq<Msg> {
    let h = handle_all(handling_start(c), inbound);
    if c.queued@.len() > 0 {
        h.replies.push(c.queued@[0]@)
    } else {
        h.replies
    }
}

/// The disconnect that opens the replies when a subchannel payload was refused.
pub open spec fn refusal_of(refused: bool) -> Seq<Msg> {
    if refused {
        compressed_reply()
    } else {
        Seq::empty()
    }
}

/// The messages a frame adds to the inbound ones (a refusal adds none).
pub open spec fn delivered(f: FrameView) -> Seq<Msg> {
    match f {
        FrameView::Delivered(ms) => ms,
        FrameView::Refused => Seq::empty(),
    }
}

/// What parsing a datagram's bit stream gives: the inbound messages, whether a
/// subchannel payload was refused, the reliable state and the two streams.
pub struct StreamView {
    pub inbound: Seq<Msg>,
    pub refused: bool,
    pub reliable: u8,
    pub ch0: ChanView,
    pub ch1: ChanView,
}

/// Parsing a datagram's bit stream with reliable state `rel` and streams `ch0`, `ch1`.
/// With the reliable flag: a 3-bit selector of the toggle to flip, then the two
/// subchannel frames; then, with or without it, the messages that follow. `None` when
/// any part is malformed.
pub open spec fn stream_spec(bits: Seq<bool>, reliable_flag: bool, rel: u8, ch0: ChanView, ch1: ChanView) -> Option<StreamView> {
    if !reliable_flag {
        match decode_msgs(bits, 0) {
            Some(ms) => Some(StreamView { inbound: ms, refused: false, reliable: rel, ch0, ch1 }),
            None => None,
        }
    } else {
        match rd_uint(bits, 0, 3) {
            None => None,
            Some((sel, p0)) => match frame_spec(bits, p0, ch0) {
                None => None,
                Some((f0, c0, p1)) => match frame_spec(bits, p1, ch1) {
                    None => None,
                    Some((f1, c1, p2)) => match decode_msgs(bits, p2) {
                        None => None,
                        Some(rest) => Some(
                            StreamView {
                                inbound: delivered(f0) + delivered(f1) + rest,
                                refused: f0 is Refused || f1 is Refused,
                                reliable: rel ^ (1u8 << (sel as u8)),
                                ch0: c0,
                                ch1: c1,
                            },
                        ),
                    },
                },
            },
        }
    }
}

/// What the bit stream of datagram `data` gives for client `c`.
pub open spec fn parsed_of(c: Client, data: Seq<u8>) -> Option<StreamView> {
    stream_spec(
        stream_of(data),
        data[8] & FLAG_RELIABLE != 0,
        c.reliable,
        chan_of(c.netchannels[0]),
        chan_of(c.netchannels[1]),
    )
}

/// Client `c` owes datagram `data` a reply: it is answerable, its bit stream parses and
/// the outbound sequence is not exhausted.
pub open spec fn owes_reply(c: Client, data: Seq<u8>) -> bool {
    &&& answerable(data)
    &&& parsed_of(c, data) is Some
    &&& c.sequence < u32::MAX
}

/// How one stateful datagram takes a client from `before` to `after`, with `reply` the
/// packet sent back, if any. Without a reply owed nothing is sent and nothing changes.
/// With one, exactly one packet goes back: the next sequence number, the new reliable
/// state, the echoed challenge, and the refusal disconnect (if a subchannel payload was
/// compressed), the replies the rules give and the oldest queued message; the streams,
/// reliable state, state, name and queue move on accordingly.
pub open spec fn stateful_step(before: Client, after: Client, data: Seq<u8>, reply: Option<Seq<u8>>) -> bool {
    &&& after.joined == before.joined
    &&& if !owes_reply(before, data) {
        reply is None && after == before
    } else {
        let s = parsed_of(before, data)->0;
        let h = handle_all(handling_start(before), s.inbound);
        &&& reply is Some
        &&& is_reply(
            reply->0,
            after.sequence,
            u32_at(data, 0),
            s.reliable,
            u32_at(data, challenge_pos(data)),
            refusal_of(s.refused) + replies_for(before, s.inbound),
        )
        &&& after.sequence == before.sequence + 1
        &&& after.reliable == s.reliable
        &&& chan_of(after.netchannels[0]) == s.ch0
        &&& chan_of(after.netchannels[1]) == s.ch1
        &&& after.state == h.state
        &&& name_view(after.name) == h.name
        &&& before.queued@.len() == 0 ==> after.queued@.len() == 0
        &&& before.queued@.len() > 0 ==> after.queued@ == before.queued@.drop_first()
    }
}

/// The datagram at `k`, if there is one.
pub open spec fn datagram_at(r: Seq<Vec<u8>>, k: int) -> Option<Seq<u8>> {
    if 0 <= k < r.len() {
        Some(r[k]@)
    } else {
        None
    }
}

/// A client as it is made for a new peer.
pub open spec fn is_fresh(c: Client) -> bool {
    &&& c.wf()
    &&& c.name is None
    &&& c.queued@.len() == 0
    &&& c.reliable == 0
    &&& c.sequence == 0
    &&& c.state == ClientState::Fresh
    &&& c.netchannels[0].fragments@.len() == 0
    &&& c.netchannels[0].length == 0
    &&& c.netchannels[1].fragments@.len() == 0
    &&& c.netchannels[1].length == 0
}

/// The welcome frame for a new peer.
fn welcome() -> (r: Vec<u8>)
    ensures
        r@ == welcome_frame(),
{
    let mut buffer: Vec<u8> = Vec::new();
    buffer.extend_from_slice(&[0xFF, 0xFF, 0xFF, 0xFF, 0x42]);
    buffer.extend_from_slice("00000000000000\0".as_bytes());
    proof {
        assert(buffer@ =~= welcome_frame());
    }
    buffer
}

/// A copy of a reassembly stream.
fn copy_channel(nc: &NetChannel) -> (r: NetChannel)
    requires
        nc.wf(),
    ensures
        r.wf(),
        chan_of(r) == chan_of(*nc),
        r.num_fragments == nc.num_fragments,
{
    let mut fragments: Vec<Vec<u8>> = Vec::new();
    let mut i: usize = 0;
    while i < nc.fragments.len()
        invariant
            i <= nc.fragments@.len(),
            fragments@.len() == i,
            forall|k: int| 0 <= k < i ==> (#[trigger] fragments@[k])@ == nc.fragments@[k]@,
        decreases nc.fragments@.len() - i,
    {
        fragments.push(vstd::slice::slice_to_vec(nc.fragments[i].as_slice()));
        i = i + 1;
    }
    let r = NetChannel { fragments, num_fragments: nc.num_fragments, length: nc.length };
    proof {
        assert(r.slots() =~= nc.slots());
    }
    r
}

/// What parsing the bit stream of a datagram gave: the inbound messages, whether a
/// subchannel payload was refused, the reliable state and the two streams.
struct Parsed {
    messages: Vec<Messages>,
    refused: bool,
    reliable: u8,
    channels: [NetChannel; 2],
}

/// Adds what a subchannel frame gave to the inbound messages, or records its refusal.
fn take_frame(frame: Frame, messages: &mut Vec<Messages>, refused: &mut bool)
    ensures
        msgs_view(final(messages)@) == msgs_view(old(messages)@) + delivered(frame_view(frame)),
        *final(refused) == (*old(refused) || frame is Refused),
{
    let ghost before = messages@;
    match frame {
        Frame::Delivered(mut v) => {
            let ghost vv = v@;
            messages.append(&mut v);
            proof {
                assert(msgs_view(messages@) =~= msgs_view(before) + msgs_view(vv));
            }
        },
        Frame::Refused => {
            *refused = true;
            proof {
                assert(msgs_view(messages@) =~= msgs_view(before) + Seq::<Msg>::empty());
            }
        },
    }
}

/// Parses the bit stream of a datagram for client `c`: with the reliable flag, a 3-bit
/// selector of the reliable toggle to flip and the two subchannel frames; then the
/// messages that follow. `None` when anything in it is malformed.
fn parse_stream(c: &Client, stream: &[u8], reliable_flag: bool) -> (r: Option<Parsed>)
    requires
        c.wf(),
        stream@.len() * 8 + 64 <= usize::MAX,
    ensures
        match stream_spec(
            bits_of(stream@),
            reliable_flag,
            c.reliable,
            chan_of(c.netchannels[0]),
            chan_of(c.netchannels[1]),
        ) {
            Some(sv) => r matches Some(p) && p.channels[0].wf() && p.channels[1].wf() && msgs_view(p.messages@)
                == sv.inbound && p.refused == sv.refused && p.reliable == sv.reliable && chan_of(p.channels[0])
                == sv.ch0 && chan_of(p.channels[1]) == sv.ch1,
            None => r is None,
        },
{
    let mut reader = BitReader::from_bytes(stream);
    let mut messages: Vec<Messages> = Vec::new();
    let mut refused = false;
    let mut reliable = c.reliable;
    let mut ch0 = copy_channel(&c.netchannels[0]);
    let mut ch1 = copy_channel(&c.netchannels[1]);
    if reliable_flag {
        let sel = match reader.read_uint(3) {
            Some(x) => x,
            None => return None,
        };
        proof {
            vstd::arithmetic::power2::lemma2_to64();
        }
        reliable = reliable ^ (1u8 << (sel as u8));
        match parse_subchannel_frame(&mut reader, &mut ch0) {
            Some(f) => take_frame(f, &mut messages, &mut refused),
            None => return None,
        }
        match parse_subchannel_frame(&mut reader, &mut ch1) {
            Some(f) => take_frame(f, &mut messages, &mut refused),
            None => return None,
        }
    }
    let mut rest = match process_messages(&mut reader) {
        Some(v) => v,
        None => return None,
    };
    let ghost before = messages@;
    let ghost rv = rest@;
    messages.append(&mut rest);
    proof {
        assert(msgs_view(messages@) =~= msgs_view(before) + msgs_view(rv));
        assert(msgs_view(before) + msgs_view(rv) =~= msgs_view(rv) || reliable_flag);
    }
    Some(Parsed { messages, refused, reliable, channels: [ch0, ch1] })
}

/// Answers a stateful datagram for client `c`: `None`, with `c` left as it was, when
/// the datagram is shorter than 16 bytes, its checksum does not match its payload, it
/// carries no challenge, its bit stream is malformed, or the outbound sequence is
/// exhausted; else the reply packet.
fn serve(c: &mut Client, data: &[u8]) -> (r: Option<Vec<u8>>)
    requires
        old(c).wf(),
        data@.len() * 8 + 64 <= usize::MAX,
    ensures
        final(c).wf(),
        r is None ==> *final(c) == *old(c),
        stateful_step(*old(c), *final(c), data@, match r {
            Some(p) => Some(p@),
            None => None,
        }),
{
    if data.len() < MIN_STATEFUL_LEN {
        return None;
    }
    let seq = read_u32_le(data, 0);
    let flags = data[8];
    let checksum: u16 = data[9] as u16 + 256 * data[10] as u16;
    if valve_checksum(vstd::slice::slice_subrange(data, HEADER_LEN, data.len())) != checksum {
        return None;
    }
    let pos: usize = if flags & FLAG_CHOKED != 0 {
        13
    } else {
        12
    };
    if flags & FLAG_CHALLENGE == 0 || data.len() < pos + 4 {
        return None;
    }
    let challenge = read_u32_le(data, pos);
    let stream = vstd::slice::slice_subrange(data, pos + 4, data.len());
    let parsed = match parse_stream(c, stream, flags & FLAG_RELIABLE != 0) {
        Some(p) => p,
        None => return None,
    };
    if c.sequence == u32::MAX {
        return None;
    }
    let ghost before = *c;
    let Parsed { messages, refused, reliable, channels } = parsed;
    c.netchannels = channels;
    c.reliable = reliable;
    let ghost inbound = msgs_view(messages@);
    let ghost mid = *c;
    let mut replies = if refused {
        compressed_refusal()
    } else {
        Vec::new()
    };
    let mut handled = handle_messages(c, messages);
    replies.append(&mut handled);
    proof {
        lemma_handle_all_monotone(handling_start(mid), inbound);
        assert(handling_start(mid) == handling_start(before));
    }
    let packets = build_packets(replies, &mut c.sequence, seq, c.reliable, challenge);
    let packet = packets[0].clone();
    proof {
        assert(packet@ == packets@[0]@);
        assert(answerable(data@));
        assert(msgs_view(replies@) =~= refusal_of(refused) + replies_for(before, inbound));
        assert(is_reply(packet@, c.sequence, u32_at(data@, 0), c.reliable, u32_at(data@, challenge_pos(data@)), refusal_of(refused) + replies_for(before, inbound)));
    }
    Some(packet)
}

/// What handling a stateful datagram `data` from `ep` does to the sessions, `r` being
/// the datagrams sent back: the welcome frame first for a new peer, then at most one
/// reply packet, as `stateful_step` tells for the peer's session; the other sessions
/// are left as they are.
pub open spec fn stateful_outcome(old: Clients, new: Clients, ep: Endpoint, data: Seq<u8>, r: Seq<Vec<u8>>) -> bool {
    &&& new.wf()
    &&& new.has(ep)
    &&& new.entries@.len() == old.entries@.len() + if old.has(ep) {
        0int
    } else {
        1int
    }
    &&& forall|j: int|
        0 <= j < old.entries@.len() && (#[trigger] old.entries@[j]).0 != ep ==> new.entries@[j] == old.entries@[j]
    &&& forall|j: int| 0 <= j < old.entries@.len() ==> (#[trigger] new.entries@[j]).0 == old.entries@[j].0
    &&& old.has(ep) ==> r.len() <= 1
    &&& !old.has(ep) ==> r.len() >= 1 && r[0]@ == welcome_frame() && new.entries@.last().0 == ep && exists|c0: Client|
        is_fresh(c0) && #[trigger] stateful_step(c0, new.entries@.last().1, data, datagram_at(r, 1))
    &&& r.len() <= 2
    &&& forall|j: int|
        0 <= j < old.entries@.len() && (#[trigger] old.entries@[j]).0 == ep ==> stateful_step(
            old.entries@[j].1,
            new.entries@[j].1,
            data,
            datagram_at(r, 0),
        )
    &&& !answerable(data) ==> r.len() == if old.has(ep) {
        0int
    } else {
        1int
    }
}

/// Handles a stateful datagram from `ep` and returns the datagrams to send back, in
/// order.
///
/// A peer without a session gets one, and the welcome frame first. Nothing more comes
/// of a datagram shorter than 16 bytes, one whose checksum does not match its payload,
/// one without a challenge, or one whose bit stream is malformed: the session is left
/// as it was. Otherwise the inbound messages are handled and one reply packet, with
/// the next outbound sequence number, goes back.
pub fn handle_stateful(clients: &mut Clients, ep: Endpoint, data: &[u8]) -> (r: Vec<Vec<u8>>)
    requires
        old(clients).wf(),
        data@.len() * 8 + 64 <= usize::MAX,
    ensures
        stateful_outcome(*old(clients), *final(clients), ep, data@, r@),
{
    let mut out: Vec<Vec<u8>> = Vec::new();
    let idx = match clients.find(&ep) {
        Some(i) => i,
        None => {
            out.push(welcome());
            let ghost before = clients.entries@;
            let fresh = Client::new();
            proof {
                assert(is_fresh(fresh));
            }
            clients.entries.push((ep, fresh));
            proof {
                assert(clients.entries@.last() == (ep, fresh));
                assert forall|i: int, j: int|
                    0 <= i < j < clients.entries@.len() implies (#[trigger] clients.entries@[i]).0
                    != (#[trigger] clients.entries@[j]).0 by {
                    if j == before.len() {
                        assert(before[i] == clients.entries@[i]);
                    } else {
                        assert(before[i] == clients.entries@[i]);
                        assert(before[j] == clients.entries@[j]);
                    }
                }
                assert(clients.entries@[before.len() as int].0 == ep);
            }
            clients.entries.len() - 1
        },
    };
    proof {
        assert(clients.has(ep));
        assert(clients.entries@[idx as int].1.wf());
    }
    let ghost pre = clients.entries@;
    let ghost out_before = out@;
    let mut c = clients.take_at(idx);
    let reply = serve(&mut c, data);
    clients.put_at(idx, c);
    match reply {
        Some(p) => out.push(p),
        None => {},
    }
    proof {
        assert forall|i: int, j: int|
            0 <= i < j < clients.entries@.len() implies (#[trigger] clients.entries@[i]).0
            != (#[trigger] clients.entries@[j]).0 by {
            assert(clients.entries@[i].0 == pre[i].0);
            assert(clients.entries@[j].0 == pre[j].0);
        }
        assert forall|i: int| 0 <= i < clients.entries@.len() implies (#[trigger] clients.entries@[i]).0 == pre[i].0 by {
            if i != idx {
                assert(clients.entries@[i] == pre[i]);
            }
        }
        assert forall|i: int| 0 <= i < clients.entries@.len() implies (#[trigger] clients.entries@[i]).1.wf() by {
            if i != idx {
                assert(clients.entries@[i] == pre[i]);
            }
        }
        assert(datagram_at(out@, out_before.len() as int) == match reply {
            Some(p) => Some(p@),
            None => None,
        });
        if !old(clients).has(ep) {
            assert(is_fresh(pre[idx as int].1));
            assert(stateful_step(pre[idx as int].1, clients.entries@.last().1, data@, datagram_at(out@, 1)));
        }
    }
    out
}

// ---------------------------------------------------------------------------------------
// Laws of the stateful path
/// A stateful datagram whose checksum does not match its payload gets no reply packet
/// (only a new peer's welcome frame) and changes no existing session.
pub proof fn lemma_checksum_required(old: Clients, new: Clients, ep: Endpoint, data: Seq<u8>, r: Seq<Vec<u8>>)
    requires
        stateful_outcome(old, new, ep, data, r),
        !checksum_ok(data),
    ensures
        r.len() == if old.has(ep) {
            0int
        } else {
            1int
        },
        forall|j: int| 0 <= j < old.entries@.len() ==> #[trigger] new.entries@[j] == old.entries@[j],
{
    assert forall|j: int| 0 <= j < old.entries@.len() implies #[trigger] new.entries@[j] == old.entries@[j] by {
        assert(!answerable(data));
        if old.entries@[j].0 == ep {
            assert(old.has(ep));
            assert(r.len() == 0);
            assert(datagram_at(r, 0) is None);
            assert(stateful_step(old.entries@[j].1, new.entries@[j].1, data, datagram_at(r, 0)));
        } else {
            assert(new.entries@[j] == old.entries@[j]);
        }
    }
}

/// A session's state only moves forward, Fresh, then Confirmed, then Redirected, as
/// stateful datagrams are handled.
pub proof fn lemma_stateful_monotone(before: Client, after: Client, data: Seq<u8>, reply: Option<Seq<u8>>)
    requires
        stateful_step(before, after, data, reply),
    ensures
        state_rank(after.state) >= state_rank(before.state),
{
    if owes_reply(before, data) {
        lemma_handle_all_monotone(handling_start(before), parsed_of(before, data)->0.inbound);
    }
}

/// The sequence number a packet opens with.
pub open spec fn packet_seq(p: Seq<u8>) -> int {
    u32_at(p, 0) as int
}

proof fn lemma_le32_roundtrip(v: u32)
    ensures
        u32_at(le32(v), 0) == v,
{
    let b = le32(v);
    let a0 = v % 256;
    let q0 = v / 256;
    let a1 = q0 % 256;
    let q1 = q0 / 256;
    let a2 = q1 % 256;
    let q2 = q1 / 256;
    assert(v == 256 * q0 + a0);
    assert(q0 == 256 * q1 + a1);
    assert(q1 == 256 * q2 + a2);
    assert(q1 == v / 65536) by {
        vstd::arithmetic::div_mod::lemma_div_denominator(v as int, 256, 256);
    }
    assert(q2 == v / 16777216) by {
        vstd::arithmetic::div_mod::lemma_div_denominator(v as int, 65536, 256);
    }
    assert(q2 < 256);
    assert(b[0] == a0 && b[1] == a1 && b[2] == a2 && b[3] == q2);
}

/// Handling a datagram never lowers a session's outbound sequence.
pub proof fn lemma_sequence_kept(before: Client, after: Client, data: Seq<u8>, reply: Option<Seq<u8>>)
    requires
        stateful_step(before, after, data, reply),
    ensures
        after.sequence >= before.sequence,
        reply matches Some(p) ==> packet_seq(p) == after.sequence,
{
    if let Some(p) = reply {
        lemma_le32_roundtrip(after.sequence);
        assert(p.subrange(0, 4) == le32(after.sequence));
        assert(p[0] == le32(after.sequence)[0]);
        assert(p[1] == le32(after.sequence)[1]);
        assert(p[2] == le32(after.sequence)[2]);
        assert(p[3] == le32(after.sequence)[3]);
    }
}

/// Of two packets sent to a peer one after the other, the later one carries the higher
/// sequence number, whatever was handled in between without a reply (`between` being
/// the session as the second datagram finds it, its sequence not lowered since the
/// first packet).
pub proof fn lemma_sequence_increases(
    c0: Client,
    c1: Client,
    between: Client,
    c2: Client,
    d1: Seq<u8>,
    d2: Seq<u8>,
    p1: Seq<u8>,
    p2: Seq<u8>,
)
    requires
        stateful_step(c0, c1, d1, Some(p1)),
        between.sequence >= c1.sequence,
        stateful_step(between, c2, d2, Some(p2)),
    ensures
        packet_seq(p2) > packet_seq(p1),
{
    lemma_sequence_kept(c0, c1, d1, Some(p1));
    lemma_sequence_kept(between, c2, d2, Some(p2));
}

} // verus!
