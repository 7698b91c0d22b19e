//! Connectionless queries: server info, players, rules, challenges and connects.
//!
//! A connectionless datagram starts with `FF FF FF FF` and a type byte; so does its reply.
use crate::client::unix_millis;
use crate::matchmaking::MatchmakingConfig;
use vstd::prelude::*;
use vstd::string::StringSliceAdditionalSpecFns;
use vstd::utf8::encode_utf8;

verus! {

/// Server info request.
pub const A2S_INFO: u8 = 0x54;
/// Player list request.
pub const A2S_PLAYER: u8 = 0x55;
/// Rules request.
pub const A2S_RULES: u8 = 0x56;
/// Connect request.
pub const C2S_CONNECT: u8 = 0x6B;
/// Challenge request.
pub const A2S_GETCHALLENGE: u8 = 0x71;
/// The challenge value a client sends when it has none yet.
pub const NO_CHALLENGE: u32 = 0xFFFF_FFFF;
/// Game id of Team Fortress 2.
pub const APP_ID: u16 = 440;
/// Player count advertised as the maximum.
pub const ADVERTISED_MAX_PLAYERS: u8 = 24;
/// Magic version in a challenge reply.
pub const CHALLENGE_MAGIC: u32 = 0x5A4F_4933;
/// Authentication method announced in a challenge reply.
pub const AUTH_METHOD: u32 = 3;

/// Little-endian bytes of a 16-bit value.
pub open spec fn le16(v: u16) -> Seq<u8> {
    seq![(v % 256) as u8, (v / 256) as u8]
}

/// Little-endian bytes of a 32-bit value.
pub open spec fn le32(v: u32) -> Seq<u8> {
    seq![(v % 256) as u8, ((v / 256) % 256) as u8, ((v / 65536) % 256) as u8, (v / 16777216) as u8]
}

/// Little-endian bytes of a 64-bit value.
pub open spec fn le64(v: u64) -> Seq<u8> {
    le32((v % 0x1_0000_0000) as u32) + le32((v / 0x1_0000_0000) as u32)
}

/// The little-endian 32-bit value of the 4 bytes at `i`.
pub open spec fn u32_at(data: Seq<u8>, i: int) -> u32 {
    (data[i] + 256 * data[i + 1] + 65536 * data[i + 2] + 16777216 * data[i + 3]) as u32
}

/// The big-endian 32-bit value of the 4 bytes at `i`.
pub open spec fn u32_be_at(data: Seq<u8>, i: int) -> u32 {
    (16777216 * data[i] + 65536 * data[i + 1] + 256 * data[i + 2] + data[i + 3]) as u32
}

/// The header of a connectionless reply of type `t`.
pub open spec fn connectionless(t: u8) -> Seq<u8> {
    seq![0xFFu8, 0xFFu8, 0xFFu8, 0xFFu8, t]
}

/// The server info reply.
pub open spec fn info_reply(hostname: Seq<char>, port: u16) -> Seq<u8> {
    connectionless(0x49) + seq![0x11u8] + encode_utf8(hostname) + seq![0u8] + "matchmaking\0".spec_bytes()
        + "tf\0".spec_bytes() + "Team Fortress 2\0".spec_bytes() + le16(APP_ID) + seq![
        0u8,
        ADVERTISED_MAX_PLAYERS,
        0u8,
        0x64u8,
        0x6Cu8,
        0u8,
        0u8,
    ] + "0\0".spec_bytes() + seq![0xA1u8] + le16(port) + "breadpudding,matchmaking\0".spec_bytes() + le64(
        APP_ID as u64,
    )
}

/// The reply to a player or rules request carrying `client`: a new challenge of type
/// `challenge_type` when the client has none, else an empty list of type `list_type`.
pub open spec fn list_reply(client: u32, challenge_type: u8, list_type: u8, server: u32) -> Seq<u8> {
    if client == NO_CHALLENGE {
        connectionless(challenge_type) + le32(server)
    } else {
        connectionless(list_type) + seq![0u8]
    }
}

/// The reply to a challenge request carrying `client` (the request's challenge bytes
/// read most significant first, so that they come back in reverse order).
pub open spec fn challenge_reply(client: u32, server: u32) -> Seq<u8> {
    connectionless(0x41) + le32(CHALLENGE_MAGIC) + le32(server) + le32(client) + le32(AUTH_METHOD)
        + le16(0) + le64(0) + seq![1u8] + "000000\0".spec_bytes()
}

/// The reply to a connect request carrying `client`.
pub open spec fn connect_reply(client: u32) -> Seq<u8> {
    connectionless(0x42) + le32(client) + "0000000000\0".spec_bytes()
}

/// The reply to a connectionless datagram (empty: no reply), `server` being the
/// challenge handed out if one is needed. A request too short to hold the challenge
/// it must carry gets no reply.
pub open spec fn stateless_reply(hostname: Seq<char>, port: u16, data: Seq<u8>, server: u32) -> Seq<u8> {
    if data.len() < 5 {
        Seq::empty()
    } else if data[4] == A2S_INFO {
        info_reply(hostname, port)
    } else if data[4] == A2S_PLAYER || data[4] == A2S_RULES {
        if data.len() < 9 {
            Seq::empty()
        } else if data[4] == A2S_PLAYER {
            list_reply(u32_at(data, 5), 0x41, 0x44, server)
        } else {
            list_reply(u32_at(data, 5), 0x4A, 0x45, server)
        }
    } else if data[4] == C2S_CONNECT {
        if data.len() < 21 {
            Seq::empty()
        } else {
            connect_reply(u32_at(data, 17))
        }
    } else if data[4] == A2S_GETCHALLENGE {
        if data.len() < 9 {
            Seq::empty()
        } else {
            challenge_reply(u32_be_at(data, 5), server)
        }
    } else {
        Seq::empty()
    }
}

pub fn push_le16(out: &mut Vec<u8>, v: u16)
    ensures
        final(out)@ == old(out)@ + le16(v),
{
    out.push((v % 256) as u8);
    out.push((v / 256) as u8);
    proof {
        assert(final(out)@ =~= old(out)@ + le16(v));
    }
}

pub fn push_le32(out: &mut Vec<u8>, v: u32)
    ensures
        final(out)@ == old(out)@ + le32(v),
{
    out.push((v % 256) as u8);
    out.push(((v / 256) % 256) as u8);
    out.push(((v / 65536) % 256) as u8);
    out.push((v / 16777216) as u8);
    proof {
        assert(final(out)@ =~= old(out)@ + le32(v));
    }
}

pub fn push_le64(out: &mut Vec<u8>, v: u64)
    ensures
        final(out)@ == old(out)@ + le64(v),
{
    push_le32(out, (v % 0x1_0000_0000) as u32);
    push_le32(out, (v / 0x1_0000_0000) as u32);
    proof {
        assert(final(out)@ =~= old(out)@ + le64(v));
    }
}

/// The little-endian 32-bit value of the 4 bytes at `i`.
pub fn read_u32_le(data: &[u8], i: usize) -> (r: u32)
    requires
        i + 4 <= data@.len(),
    ensures
        r == u32_at(data@, i as int),
{
    let v: u64 = data[i] as u64 + 256 * data[i + 1] as u64 + 65536 * data[i + 2] as u64 + 16777216
        * data[i + 3] as u64;
    v as u32
}

/// The big-endian 32-bit value of the 4 bytes at `i`.
pub fn read_u32_be(data: &[u8], i: usize) -> (r: u32)
    requires
        i + 4 <= data@.len(),
    ensures
        r == u32_be_at(data@, i as int),
{
    let v: u64 = 16777216 * data[i] as u64 + 65536 * data[i + 1] as u64 + 256 * data[i + 2] as u64
        + data[i + 3] as u64;
    v as u32
}

/// The challenge handed out at `secs` seconds since the Unix epoch: their low 32 bits.
pub fn challenge_from_secs(secs: u64) -> (r: u32)
    ensures
        r == secs % 0x1_0000_0000,
{
    (secs % 0x1_0000_0000) as u32
}

/// A new challenge: the low 32 bits of the current Unix time in seconds.
pub fn generate_challenge() -> (r: u32) {
    challenge_from_secs(unix_millis() / 1000)
}

/// The reply to a connectionless datagram of host `hostname` on `port`, `server` being
/// the challenge handed out if one is needed; empty when there is none.
pub fn stateless_response(hostname: &String, port: u16, data: &[u8], server: u32) -> (r: Vec<u8>)
    ensures
        r@ == stateless_reply(hostname@, port, data@, server),
{
    let mut response: Vec<u8> = Vec::new();
    if data.len() < 5 {
        return response;
    }
    let kind = data[4];
    if kind == A2S_INFO {
        response.extend_from_slice(&[0xFF, 0xFF, 0xFF, 0xFF, 0x49, 0x11]);
        response.extend_from_slice(hostname.as_str().as_bytes());
        response.push(0);
        response.extend_from_slice("matchmaking\0".as_bytes());
        response.extend_from_slice("tf\0".as_bytes());
        response.extend_from_slice("Team Fortress 2\0".as_bytes());
        push_le16(&mut response, APP_ID);
        response.extend_from_slice(&[0, ADVERTISED_MAX_PLAYERS, 0, 0x64, 0x6C, 0, 0]);
        response.extend_from_slice("0\0".as_bytes());
        response.push(0xA1);
        push_le16(&mut response, port);
        response.extend_from_slice("breadpudding,matchmaking\0".as_bytes());
        push_le64(&mut response, APP_ID as u64);
        proof {
            assert(response@ =~= info_reply(hostname@, port));
        }
    } else if kind == A2S_PLAYER || kind == A2S_RULES {
        if data.len() < 9 {
            return response;
        }
        let client = read_u32_le(data, 5);
        if client == NO_CHALLENGE {
            response.extend_from_slice(&[0xFF, 0xFF, 0xFF, 0xFF, if kind == A2S_PLAYER { 0x41 } else { 0x4A }]);
            push_le32(&mut response, server);
        } else {
            response.extend_from_slice(&[0xFF, 0xFF, 0xFF, 0xFF, if kind == A2S_PLAYER { 0x44 } else { 0x45 }, 0]);
        }
        proof {
            assert(response@ =~= stateless_reply(hostname@, port, data@, server));
        }
    } else if kind == C2S_CONNECT {
        if data.len() < 21 {
            return response;
        }
        let client = read_u32_le(data, 17);
        response.extend_from_slice(&[0xFF, 0xFF, 0xFF, 0xFF, 0x42]);
        push_le32(&mut response, client);
        response.extend_from_slice("0000000000\0".as_bytes());
        proof {
            assert(response@ =~= connect_reply(client));
        }
    } else if kind == A2S_GETCHALLENGE {
        if data.len() < 9 {
            return response;
        }
        let client = read_u32_be(data, 5);
        response.extend_from_slice(&[0xFF, 0xFF, 0xFF, 0xFF, 0x41]);
        push_le32(&mut response, CHALLENGE_MAGIC);
        push_le32(&mut response, server);
        push_le32(&mut response, client);
        push_le32(&mut response, AUTH_METHOD);
        push_le16(&mut response, 0);
        push_le64(&mut response, 0);
        response.push(1);
        response.extend_from_slice("000000\0".as_bytes());
        proof {
            assert(response@ =~= challenge_reply(client, server));
        }
    }
    response
}

/// Answers a connectionless datagram for the configured host; the reply is empty
/// when none is due. A challenge that the reply needs is made from the current time.
pub fn handle_stateless(config: &MatchmakingConfig, data: &[u8]) -> (r: Vec<u8>)
    ensures
        exists|server: u32| r@ == stateless_reply(config.matchmaking.hostname@, config.matchmaking.port, data@, server),
{
    let server = generate_challenge();
    stateless_response(&config.matchmaking.hostname, config.matchmaking.port, data, server)
}

} // verus!
