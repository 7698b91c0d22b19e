//! Per-peer session records.
use crate::messages::Messages;
use vstd::prelude::*;

verus! {

/// Size of a full fragment block of a multi-block subchannel payload.
pub const FRAGMENT_SIZE: usize = 256;

/// Number of fragment blocks that a payload of `length` bytes takes.
pub open spec fn fragments_for(length: nat) -> nat {
    (length + 255) / 256
}

/// Size of the last fragment block of a payload of `length` bytes.
pub open spec fn tail_size(length: nat) -> nat {
    if length % 256 == 0 {
        256
    } else {
        length % 256
    }
}

/// The total size of a run of fragment blocks.
pub open spec fn total_size(frags: Seq<Seq<u8>>) -> nat
    decreases frags.len(),
{
    if frags.len() == 0 {
        0
    } else {
        total_size(frags.drop_last()) + frags.last().len()
    }
}

/// The fragment blocks one after the other.
pub open spec fn joined(frags: Seq<Seq<u8>>) -> Seq<u8>
    decreases frags.len(),
{
    if frags.len() == 0 {
        Seq::empty()
    } else {
        joined(frags.drop_last()) + frags.last()
    }
}

/// One of the two reassembly streams of a peer.
pub struct NetChannel {
    /// One slot per fragment block; a slot is filled when it is not empty.
    pub fragments: Vec<Vec<u8>>,
    pub num_fragments: usize,
    /// Byte length of the whole payload.
    pub length: usize,
}

impl NetChannel {
    pub open spec fn slots(&self) -> Seq<Seq<u8>> {
        self.fragments@.map_values(|f: Vec<u8>| f@)
    }

    /// The slots match the payload length: one per block, each empty or of the size
    /// of its block (the last one may hold a full block too).
    pub open spec fn wf(&self) -> bool {
        &&& self.fragments@.len() == self.num_fragments
        &&& self.num_fragments == fragments_for(self.length as nat)
        &&& self.length < 0x400_0000
        &&& forall|i: int|
            0 <= i < self.num_fragments ==> {
                let n = #[trigger] self.fragments@[i]@.len();
                n == 0 || n == 256 || (i == self.num_fragments - 1 && n == tail_size(self.length as nat))
            }
    }

    /// Every slot is filled.
    pub open spec fn complete(&self) -> bool {
        forall|i: int| 0 <= i < self.fragments@.len() ==> #[trigger] self.fragments@[i]@.len() > 0
    }

    /// An empty stream.
    pub fn new() -> (r: NetChannel)
        ensures
            r.wf(),
            r.fragments@.len() == 0,
            r.length == 0,
    {
        NetChannel { fragments: Vec::new(), num_fragments: 0, length: 0 }
    }
}

/// Where a client stands in the join process. It only moves forward.
#[derive(PartialEq, Eq, Structural, Clone, Copy, Debug)]
pub enum ClientState {
    /// New client, not confirmed yet.
    Fresh,
    /// Confirmed to have joined from the favorites tab.
    Confirmed,
    /// Sent on to a backend server.
    Redirected,
}

/// The position of a state in the order Fresh < Confirmed < Redirected.
pub open spec fn state_rank(s: ClientState) -> nat {
    match s {
        ClientState::Fresh => 0,
        ClientState::Confirmed => 1,
        ClientState::Redirected => 2,
    }
}

/// A peer's session.
pub struct Client {
    /// When the client was first seen, in milliseconds since the Unix epoch.
    pub joined: u64,
    pub name: Option<String>,
    /// The two subchannel reassembly streams, in parse order.
    pub netchannels: [NetChannel; 2],
    /// Messages waiting to go out, oldest first.
    pub queued: Vec<Messages>,
    /// Eight reliable-state toggles.
    pub reliable: u8,
    /// Sequence number of the last packet sent to the client.
    pub sequence: u32,
    pub state: ClientState,
}

/// Milliseconds since the Unix epoch, as far as the system clock tells.
///
/// Relies on std's `SystemTime::now` and `duration_since(UNIX_EPOCH)`; a clock set
/// before the epoch reads as 0.
#[verifier::external_body]
pub(crate) fn unix_millis() -> (r: u64) {
    std::time::SystemTime::now().duration_since(std::time::UNIX_EPOCH).map(|d| d.as_millis() as u64).unwrap_or(0)
}

impl Client {
    pub open spec fn wf(&self) -> bool {
        &&& self.netchannels[0].wf()
        &&& self.netchannels[1].wf()
    }

    /// Flips bit `n` of the reliable state.
    pub fn flip_rel(&mut self, n: usize)
        requires
            n < 8,
        ensures
            final(self).reliable == old(self).reliable ^ (1u8 << n),
            final(self).joined == old(self).joined,
            final(self).name == old(self).name,
            final(self).netchannels == old(self).netchannels,
            final(self).queued == old(self).queued,
            final(self).sequence == old(self).sequence,
            final(self).state == old(self).state,
    {
        self.reliable = self.reliable ^ (1u8 << n);
    }

    /// When the client was first seen, in milliseconds since the Unix epoch.
    pub fn joined(&self) -> (r: u64)
        ensures
            r == self.joined,
    {
        self.joined
    }

    /// The client's name, once it has told it.
    pub fn name(&self) -> (r: Option<String>)
        ensures
            r matches Some(s) ==> self.name matches Some(t) && s@ == t@,
            r is None <==> self.name is None,
    {
        match &self.name {
            Some(s) => Some(s.clone()),
            None => None,
        }
    }

    /// A fresh client first seen now.
    pub fn new() -> (r: Client)
        ensures
            r.wf(),
            r.name is None,
            r.queued@.len() == 0,
            r.reliable == 0,
            r.sequence == 0,
            r.state == ClientState::Fresh,
            r.netchannels[0].fragments@.len() == 0,
            r.netchannels[1].fragments@.len() == 0,
    {
        Client {
            joined: unix_millis(),
            name: None,
            queued: Vec::new(),
            reliable: 0,
            sequence: 0,
            netchannels: [NetChannel::new(), NetChannel::new()],
            state: ClientState::Fresh,
        }
    }

    /// Sets the client's name.
    pub fn set_name(&mut self, name: String)
        ensures
            final(self).name == Some(name),
            final(self).joined == old(self).joined,
            final(self).netchannels == old(self).netchannels,
            final(self).queued == old(self).queued,
            final(self).reliable == old(self).reliable,
            final(self).sequence == old(self).sequence,
            final(self).state == old(self).state,
    {
        self.name = Some(name);
    }
}

} // verus!
