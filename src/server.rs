//! Routing of incoming datagrams by their first four bytes.
use crate::matchmaking::MatchmakingConfig;
use crate::session::{handle_stateful, stateful_outcome, Clients, Endpoint};
use crate::stateless::{handle_stateless, read_u32_le, stateless_reply, u32_at};
use vstd::prelude::*;

verus! {

/// Header of a connectionless datagram.
pub const CONNECTIONLESS: u32 = 0xFFFF_FFFF;
/// Header of a split datagram, which is dropped.
pub const SPLIT: u32 = 0xFFFF_FFFE;
/// Header of a Snappy-compressed stateful datagram.
pub const COMPRESSED: u32 = 0xFFFF_FFFD;
/// Where the compressed body of a compressed datagram starts.
pub const COMPRESSED_BODY: usize = 8;

/// The raw (unframed) Snappy decompression of `data`, `None` when it is not valid
/// Snappy data.
pub uninterp spec fn snappy_decompressed(data: Seq<u8>) -> Option<Seq<u8>>;

#[verifier::external_type_specification]
#[verifier::external_body]
pub struct ExSnapError(snap::Error);

/// Relies on snap's `raw::Decoder::decompress_vec`, which decompresses a raw Snappy
/// block, or fails when the bytes are not one.
#[verifier::external_body]
fn snappy_decompress(data: &[u8]) -> (r: Result<Vec<u8>, snap::Error>)
    ensures
        match r {
            Ok(v) => snappy_decompressed(data@) == Some(v@),
            Err(_) => snappy_decompressed(data@) is None,
        },
{
    snap::raw::Decoder::new().decompress_vec(data)
}

/// Why a datagram could not be handled.
#[derive(Clone, Copy, Debug, PartialEq, Eq, Structural)]
pub enum RequestError {
    /// The body of a compressed datagram is not valid Snappy data.
    Decompress,
}

/// The stateful datagram that a compressed one carries, when it can be handled.
pub open spec fn inflated(data: Seq<u8>) -> Option<Seq<u8>> {
    if data.len() < COMPRESSED_BODY {
        None
    } else {
        snappy_decompressed(data.subrange(COMPRESSED_BODY as int, data.len() as int))
    }
}

/// The datagrams a connectionless reply makes: none when it is empty.
pub open spec fn replies_of(reply: Seq<u8>, r: Seq<Vec<u8>>) -> bool {
    if reply.len() == 0 {
        r.len() == 0
    } else {
        r.len() == 1 && r[0]@ == reply
    }
}

/// The datagrams to send of a result: none on an error.
pub open spec fn sent(r: Result<Vec<Vec<u8>>, RequestError>) -> Seq<Vec<u8>> {
    match r {
        Ok(v) => v@,
        Err(_) => Seq::empty(),
    }
}

/// Handles one datagram from `ep` and returns the datagrams to send back, in order.
///
/// Datagrams of 4 bytes or fewer and split datagrams are dropped. Connectionless ones
/// are answered for the configured host. A compressed one is handled as the stateful
/// datagram its Snappy body past byte 8 holds (an error when that body is not Snappy
/// data; dropped when it is shorter than 8 bytes or inflates past what a bit stream
/// can address). Any other is a stateful datagram.
pub fn handle_request(config: &MatchmakingConfig, clients: &mut Clients, ep: Endpoint, data: &[u8]) -> (r: Result<Vec<Vec<u8>>, RequestError>)
    requires
        old(clients).wf(),
        data@.len() * 8 + 64 <= usize::MAX,
    ensures
        final(clients).wf(),
        data@.len() <= 4 || u32_at(data@, 0) == SPLIT ==> r is Ok && sent(r).len() == 0 && *final(clients)
            == *old(clients),
        data@.len() > 4 && u32_at(data@, 0) == CONNECTIONLESS ==> *final(clients) == *old(clients) && r is Ok
            && exists|server: u32|
            replies_of(stateless_reply(config.matchmaking.hostname@, config.matchmaking.port, data@, server), sent(r)),
        data@.len() > 4 && u32_at(data@, 0) != CONNECTIONLESS && u32_at(data@, 0) != SPLIT && u32_at(data@, 0)
            != COMPRESSED ==> r is Ok && stateful_outcome(*old(clients), *final(clients), ep, data@, sent(r)),
        data@.len() > 4 && u32_at(data@, 0) == COMPRESSED ==> match inflated(data@) {
            Some(body) => r is Ok && (body.len() * 8 + 64 <= usize::MAX ==> stateful_outcome(
                *old(clients),
                *final(clients),
                ep,
                body,
                sent(r),
            )) && (body.len() * 8 + 64 > usize::MAX ==> sent(r).len() == 0 && *final(clients) == *old(clients)),
            None => *final(clients) == *old(clients) && (data@.len() >= COMPRESSED_BODY ==> r == Err::<
                Vec<Vec<u8>>,
                RequestError,
            >(RequestError::Decompress)) && (data@.len() < COMPRESSED_BODY ==> r is Ok && sent(r).len() == 0),
        },
{
    let mut out: Vec<Vec<u8>> = Vec::new();
    if data.len() <= 4 {
        return Ok(out);
    }
    let header = read_u32_le(data, 0);
    if header == CONNECTIONLESS {
        let reply = handle_stateless(config, data);
        if reply.len() > 0 {
            out.push(reply);
        }
        return Ok(out);
    } else if header == COMPRESSED {
        if data.len() < COMPRESSED_BODY {
            return Ok(out);
        }
        let body = match snappy_decompress(vstd::slice::slice_subrange(data, COMPRESSED_BODY, data.len())) {
            Ok(b) => b,
            Err(_) => return Err(RequestError::Decompress),
        };
        if body.len() > (usize::MAX - 64) / 8 {
            return Ok(out);
        }
        return Ok(handle_stateful(clients, ep, body.as_slice()));
    } else if header == SPLIT {
        return Ok(out);
    }
    Ok(handle_stateful(clients, ep, data))
}

} // verus!
