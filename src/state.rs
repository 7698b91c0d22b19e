//! Sequence and reliable-state bookkeeping of a netchannel endpoint.
use vstd::prelude::*;

verus! {

pub struct State {
    pub acknowledged: u32,
    pub client_sequence: u32,
    /// The last remote reliable state.
    pub client_reliable: u8,
    pub server_sequence: u32,
    /// Our current reliable state.
    pub server_reliable: u8,
}

impl State {
    /// Flips bit `n` of our reliable state.
    pub fn flip_rel(&mut self, n: usize)
        requires
            n < 8,
        ensures
            final(self).server_reliable == old(self).server_reliable ^ (1u8 << n),
            final(self).client_reliable == old(self).client_reliable,
            final(self).acknowledged == old(self).acknowledged,
            final(self).client_sequence == old(self).client_sequence,
            final(self).server_sequence == old(self).server_sequence,
    {
        self.server_reliable = self.server_reliable ^ (1u8 << n);
    }

    /// The last remote reliable state.
    pub fn get_rel(&self) -> (r: u8)
        ensures
            r == self.client_reliable,
    {
        self.client_reliable
    }

    /// A state before any packet: sequences at 1, nothing acknowledged, all toggles clear.
    pub fn new() -> (r: State)
        ensures
            r.acknowledged == 0,
            r.client_sequence == 1,
            r.client_reliable == 0,
            r.server_sequence == 1,
            r.server_reliable == 0,
    {
        State { acknowledged: 0, client_sequence: 1, client_reliable: 0, server_sequence: 1, server_reliable: 0 }
    }

    /// Records the remote reliable state.
    pub fn set_rel(&mut self, rel: u8)
        ensures
            final(self).client_reliable == rel,
            final(self).server_reliable == old(self).server_reliable,
            final(self).acknowledged == old(self).acknowledged,
            final(self).client_sequence == old(self).client_sequence,
            final(self).server_sequence == old(self).server_sequence,
    {
        self.client_reliable = rel;
    }

    /// Our current reliable state.
    pub fn rel(&self) -> (r: u8)
        ensures
            r == self.server_reliable,
    {
        self.server_reliable
    }
}

} // verus!
