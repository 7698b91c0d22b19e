//! The netchannel messages and their bit-level encoding.
//!
//! Each message is a 6-bit type tag followed by a body whose layout depends on the tag.
//! Strings are NUL-terminated UTF-8 byte sequences and need not be byte-aligned.
use crate::bits::{
    bits_of, byte_at, cstring_bits, cstring_from, is_packing, lemma_byte_roundtrip, lemma_split_run, lemma_uint_of_uint_bits, lemma_uint_of_zeros,
    rd_cstring, rd_uint, uint_bits, uint_of, zero_bits, BitReader, BitWriter,
};
use vstd::prelude::*;
use vstd::utf8::{decode_utf8, encode_utf8, valid_utf8};

verus! {

broadcast use vstd::utf8::encode_utf8_valid_utf8, vstd::utf8::encode_utf8_decode_utf8;

/// Type tag of `NET_NOP`.
pub const TAG_NOP: u32 = 0;
/// Type tag of `NET_DISCONNECT`.
pub const TAG_DISCONNECT: u32 = 1;
/// Type tag of `NET_TICK`.
pub const TAG_TICK: u32 = 3;
/// Type tag of `SVC_STRING_CMD`.
pub const TAG_STRING_CMD: u32 = 4;
/// Type tag of `NET_SET_CONVARS`.
pub const TAG_SET_CONVARS: u32 = 5;
/// Type tag of `NET_SIGNON_STATE`.
pub const TAG_SIGNON_STATE: u32 = 6;
/// Type tag of `SVC_PRINT`.
pub const TAG_PRINT: u32 = 7;
/// Type tag of `SVC_SERVER_INFO`.
pub const TAG_SERVER_INFO: u32 = 8;
/// Type tag of `SVC_CREATE_STRING_TABLE`.
pub const TAG_CREATE_STRING_TABLE: u32 = 12;
/// Type tag of `CLC_CmdKeyValues`.
pub const TAG_CMD_KEY_VALUES: u32 = 16;
/// Width in bits of a type tag.
pub const TAG_BITS: usize = 6;

/// A netchannel message.
#[allow(non_camel_case_types)]
pub enum Messages {
    NET_NOP,
    NET_DISCONNECT { reason: String },
    /// A tick; the two frame times are in units of 1/100000 s.
    NET_TICK { tick: u32, host_frame_time: u16, host_frame_time_std_dev: u16 },
    SVC_STRING_CMD { command: String },
    /// Console variables, in the order they were sent.
    NET_SET_CONVARS { convars: Vec<(String, String)> },
    NET_SIGNON_STATE { state: u8, spawn_count: i32 },
    SVC_PRINT { message: String },
    /// Server information; `tick_interval` holds the bits of a 32-bit float and `os`
    /// the platform letter.
    SVC_SERVER_INFO {
        protocol: u16,
        server_count: u32,
        hltv: bool,
        dedicated: bool,
        max_classes: u16,
        md5_map: [u8; 16],
        player_slot: u8,
        max_clients: u8,
        tick_interval: u32,
        os: u8,
        game_dir: String,
        map_name: String,
        sky_name: String,
        host_name: String,
        replay: bool,
    },
    /// A string table definition; its body is not interpreted and ends the stream.
    SVC_CREATE_STRING_TABLE,
    /// A key-values blob; its body is not interpreted and ends the stream.
    CLC_CmdKeyValues,
}

/// What a message means, with strings as characters.
pub enum Msg {
    Nop,
    Disconnect(Seq<char>),
    Tick(u32, u16, u16),
    StringCmd(Seq<char>),
    SetConvars(Seq<(Seq<char>, Seq<char>)>),
    SignonState(u8, i32),
    Print(Seq<char>),
    ServerInfo(ServerInfoMsg),
    CreateStringTable,
    CmdKeyValues,
}

/// The fields of a server information message.
pub struct ServerInfoMsg {
    pub protocol: u16,
    pub server_count: u32,
    pub hltv: bool,
    pub dedicated: bool,
    pub max_classes: u16,
    pub md5_map: Seq<u8>,
    pub player_slot: u8,
    pub max_clients: u8,
    pub tick_interval: u32,
    pub os: u8,
    pub game_dir: Seq<char>,
    pub map_name: Seq<char>,
    pub sky_name: Seq<char>,
    pub host_name: Seq<char>,
    pub replay: bool,
}

/// Kinds of values in a key-values blob.
pub enum KeyValueTypes {
    TypeNone,
    TypeString,
    TypeInt,
    TypeFloat,
    TypePtr,
    TypeWstring,
    TypeColor,
    TypeUint64,
    TypeNumtypes,
}

pub open spec fn convars_view(c: Seq<(String, String)>) -> Seq<(Seq<char>, Seq<char>)> {
    c.map_values(|p: (String, String)| (p.0@, p.1@))
}

impl View for Messages {
    type V = Msg;

    open spec fn view(&self) -> Msg {
        match self {
            Messages::NET_NOP => Msg::Nop,
            Messages::NET_DISCONNECT { reason } => Msg::Disconnect(reason@),
            Messages::NET_TICK { tick, host_frame_time, host_frame_time_std_dev } => Msg::Tick(
                *tick,
                *host_frame_time,
                *host_frame_time_std_dev,
            ),
            Messages::SVC_STRING_CMD { command } => Msg::StringCmd(command@),
            Messages::NET_SET_CONVARS { convars } => Msg::SetConvars(convars_view(convars@)),
            Messages::NET_SIGNON_STATE { state, spawn_count } => Msg::SignonState(*state, *spawn_count),
            Messages::SVC_PRINT { message } => Msg::Print(message@),
            Messages::SVC_SERVER_INFO {
                protocol,
                server_count,
                hltv,
                dedicated,
                max_classes,
                md5_map,
                player_slot,
                max_clients,
                tick_interval,
                os,
                game_dir,
                map_name,
                sky_name,
                host_name,
                replay,
            } => Msg::ServerInfo(
                ServerInfoMsg {
                    protocol: *protocol,
                    server_count: *server_count,
                    hltv: *hltv,
                    dedicated: *dedicated,
                    max_classes: *max_classes,
                    md5_map: md5_map@,
                    player_slot: *player_slot,
                    max_clients: *max_clients,
                    tick_interval: *tick_interval,
                    os: *os,
                    game_dir: game_dir@,
                    map_name: map_name@,
                    sky_name: sky_name@,
                    host_name: host_name@,
                    replay: *replay,
                },
            ),
            Messages::SVC_CREATE_STRING_TABLE => Msg::CreateStringTable,
            Messages::CLC_CmdKeyValues => Msg::CmdKeyValues,
        }
    }
}

pub open spec fn msgs_view(s: Seq<Messages>) -> Seq<Msg> {
    s.map_values(|m: Messages| m@)
}

// ---------------------------------------------------------------------------------------
// Decoding
/// Reading a NUL-terminated UTF-8 string at `pos`.
pub open spec fn rd_string(bits: Seq<bool>, pos: int) -> Option<(Seq<char>, int)> {
    match rd_cstring(bits, pos) {
        Some((b, p)) => if valid_utf8(b) {
            Some((decode_utf8(b), p))
        } else {
            None
        },
        None => None,
    }
}

/// Reading `n` more key/value string pairs, `acc` holding those read so far.
pub open spec fn rd_convars(bits: Seq<bool>, pos: int, n: nat, acc: Seq<(Seq<char>, Seq<char>)>) -> Option<
    (Seq<(Seq<char>, Seq<char>)>, int),
>
    decreases n,
{
    if n == 0 {
        Some((acc, pos))
    } else {
        match rd_string(bits, pos) {
            Some((k, p1)) => match rd_string(bits, p1) {
                Some((v, p2)) => rd_convars(bits, p2, (n - 1) as nat, acc.push((k, v))),
                None => None,
            },
            None => None,
        }
    }
}

/// Width in bits of the fixed-size fields that open a server information body.
pub const SERVER_INFO_FIXED_BITS: usize = 282;

/// The unsigned value of the `n` bits at `pos + off`.
pub open spec fn field(bits: Seq<bool>, pos: int, off: int, n: nat) -> nat {
    uint_of(bits.subrange(pos + off, pos + off + n))
}

/// Reading a server information body at `pos`: protocol (16 bits), server count (32),
/// HLTV and dedicated flags, a deprecated 32-bit CRC that is skipped, class count (16),
/// map MD5 (16 bytes), player slot and client count (8 each), tick interval (32), OS
/// letter (8), then game directory, map, sky and host names, and a replay flag.
pub open spec fn rd_server_info(bits: Seq<bool>, pos: int) -> Option<(Msg, int)> {
    if pos < 0 || pos + SERVER_INFO_FIXED_BITS > bits.len() {
        None
    } else {
        match rd_string(bits, pos + SERVER_INFO_FIXED_BITS) {
            Some((game_dir, p1)) => match rd_string(bits, p1) {
                Some((map_name, p2)) => match rd_string(bits, p2) {
                    Some((sky_name, p3)) => match rd_string(bits, p3) {
                        Some((host_name, p4)) => match rd_uint(bits, p4, 1) {
                            Some((replay, p5)) => Some(
                                (
                                    Msg::ServerInfo(
                                        ServerInfoMsg {
                                            protocol: field(bits, pos, 0, 16) as u16,
                                            server_count: field(bits, pos, 16, 32) as u32,
                                            hltv: field(bits, pos, 48, 1) == 1,
                                            dedicated: field(bits, pos, 49, 1) == 1,
                                            max_classes: field(bits, pos, 82, 16) as u16,
                                            md5_map: Seq::new(16, |j: int| byte_at(bits, pos + 98 + 8 * j)),
                                            player_slot: field(bits, pos, 226, 8) as u8,
                                            max_clients: field(bits, pos, 234, 8) as u8,
                                            tick_interval: field(bits, pos, 242, 32) as u32,
                                            os: field(bits, pos, 274, 8) as u8,
                                            game_dir,
                                            map_name,
                                            sky_name,
                                            host_name,
                                            replay: replay == 1,
                                        },
                                    ),
                                    p5,
                                ),
                            ),
                            None => None,
                        },
                        None => None,
                    },
                    None => None,
                },
                None => None,
            },
            None => None,
        }
    }
}

/// What reading a message body gives.
pub enum Body {
    /// A message, and the position after its body.
    Read(Msg, int),
    /// A tag whose body is not interpreted: decoding ends with the messages so far.
    Stop,
    /// A tag outside the message set: the whole stream is dropped.
    Unknown,
    /// The stream ended inside the body, or a string in it is not UTF-8.
    Short,
}

/// Reading the body of a message with type tag `tag` at `pos`.
pub open spec fn decode_body(bits: Seq<bool>, pos: int, tag: nat) -> Body {
    if tag == TAG_NOP {
        Body::Read(Msg::Nop, pos)
    } else if tag == TAG_DISCONNECT || tag == TAG_STRING_CMD || tag == TAG_PRINT {
        match rd_string(bits, pos) {
            Some((s, p)) => Body::Read(
                if tag == TAG_DISCONNECT {
                    Msg::Disconnect(s)
                } else if tag == TAG_STRING_CMD {
                    Msg::StringCmd(s)
                } else {
                    Msg::Print(s)
                },
                p,
            ),
            None => Body::Short,
        }
    } else if tag == TAG_TICK {
        match rd_uint(bits, pos, 32) {
            Some((t, p1)) => match rd_uint(bits, p1, 16) {
                Some((f, p2)) => match rd_uint(bits, p2, 16) {
                    Some((d, p3)) => Body::Read(Msg::Tick(t as u32, f as u16, d as u16), p3),
                    None => Body::Short,
                },
                None => Body::Short,
            },
            None => Body::Short,
        }
    } else if tag == TAG_SET_CONVARS {
        match rd_uint(bits, pos, 8) {
            Some((n, p1)) => match rd_convars(bits, p1, n, Seq::empty()) {
                Some((c, p2)) => Body::Read(Msg::SetConvars(c), p2),
                None => Body::Short,
            },
            None => Body::Short,
        }
    } else if tag == TAG_SIGNON_STATE {
        match rd_uint(bits, pos, 8) {
            Some((st, p1)) => match rd_uint(bits, p1, 32) {
                Some((c, p2)) => Body::Read(Msg::SignonState(st as u8, (c as u32) as i32), p2),
                None => Body::Short,
            },
            None => Body::Short,
        }
    } else if tag == TAG_SERVER_INFO {
        match rd_server_info(bits, pos) {
            Some((m, p)) => Body::Read(m, p),
            None => Body::Short,
        }
    } else if tag == TAG_CREATE_STRING_TABLE || tag == TAG_CMD_KEY_VALUES {
        Body::Stop
    } else {
        Body::Unknown
    }
}

/// Decoding messages from `pos` on, `acc` holding those decoded so far: messages are read
/// while at least a tag's width of bits is left.
pub open spec fn decode_from(bits: Seq<bool>, pos: int, acc: Seq<Msg>) -> Option<Seq<Msg>>
    decreases bits.len() - pos,
{
    if pos < 0 || pos > bits.len() {
        None
    } else if bits.len() - pos < TAG_BITS {
        Some(acc)
    } else {
        let tag = uint_of(bits.subrange(pos, pos + TAG_BITS));
        match decode_body(bits, pos + TAG_BITS, tag) {
            Body::Read(m, p) => if pos < p <= bits.len() {
                decode_from(bits, p, acc.push(m))
            } else {
                None
            },
            Body::Stop => Some(acc),
            Body::Unknown => Some(Seq::empty()),
            Body::Short => None,
        }
    }
}

/// The messages of a bit stream from `pos` on; `None` when the stream is malformed.
pub open spec fn decode_msgs(bits: Seq<bool>, pos: int) -> Option<Seq<Msg>> {
    decode_from(bits, pos, Seq::empty())
}

/// The characters of UTF-8 bytes, `None` when they are not valid UTF-8.
///
/// Relies on std's `String::from_utf8`, which succeeds exactly on valid UTF-8 and then
/// holds the characters that the bytes encode.
#[verifier::external_body]
fn utf8_string(bytes: Vec<u8>) -> (r: Option<String>)
    ensures
        r is Some <==> valid_utf8(bytes@),
        r matches Some(s) ==> s@ == decode_utf8(bytes@),
{
    String::from_utf8(bytes).ok()
}

/// Reads a NUL-terminated UTF-8 string.
pub fn read_string(reader: &mut BitReader) -> (r: Option<String>)
    requires
        old(reader).wf(),
    ensures
        final(reader).wf(),
        final(reader).bits@ == old(reader).bits@,
        final(reader).pos >= old(reader).pos,
        match rd_string(old(reader).bits@, old(reader).pos as int) {
            Some((s, p)) => r matches Some(x) && x@ == s && final(reader).pos == p,
            None => r is None,
        },
{
    match reader.read_cstring() {
        Some(b) => utf8_string(b),
        None => None,
    }
}

/// What the decoding of one message body gave.
pub enum Decoded {
    Read(Messages),
    Stop,
    Unknown,
    Short,
}

pub open spec fn decoded_as(d: Decoded, b: Body, pos: int) -> bool {
    match b {
        Body::Read(m, p) => d matches Decoded::Read(x) && x@ == m && pos == p,
        Body::Stop => d is Stop,
        Body::Unknown => d is Unknown,
        Body::Short => d is Short,
    }
}

fn read_convars(reader: &mut BitReader, n: u32) -> (r: Option<Vec<(String, String)>>)
    requires
        old(reader).wf(),
    ensures
        final(reader).wf(),
        final(reader).bits@ == old(reader).bits@,
        final(reader).pos >= old(reader).pos,
        match rd_convars(old(reader).bits@, old(reader).pos as int, n as nat, Seq::empty()) {
            Some((c, p)) => r matches Some(x) && convars_view(x@) == c && final(reader).pos == p,
            None => r is None,
        },
{
    let mut out: Vec<(String, String)> = Vec::new();
    let mut i: u32 = 0;
    proof {
        assert(convars_view(out@) =~= Seq::empty());
    }
    while i < n
        invariant
            reader.wf(),
            reader.bits@ == old(reader).bits@,
            reader.pos >= old(reader).pos,
            i <= n,
            rd_convars(old(reader).bits@, old(reader).pos as int, n as nat, Seq::empty())
                == rd_convars(reader.bits@, reader.pos as int, (n - i) as nat, convars_view(out@)),
        decreases n - i,
    {
        let k = match read_string(reader) {
            Some(k) => k,
            None => return None,
        };
        let v = match read_string(reader) {
            Some(v) => v,
            None => return None,
        };
        let ghost before = out@;
        out.push((k, v));
        proof {
            assert(convars_view(out@) =~= convars_view(before).push((k@, v@)));
        }
        i = i + 1;
    }
    Some(out)
}

/// Reads a server information body.
fn read_server_info(reader: &mut BitReader) -> (r: Option<Messages>)
    requires
        old(reader).wf(),
    ensures
        final(reader).wf(),
        final(reader).bits@ == old(reader).bits@,
        final(reader).pos >= old(reader).pos,
        match rd_server_info(old(reader).bits@, old(reader).pos as int) {
            Some((m, p)) => r matches Some(x) && x@ == m && final(reader).pos == p,
            None => r is None,
        },
{
    if reader.bits_left() < SERVER_INFO_FIXED_BITS {
        return None;
    }
    proof {
        vstd::arithmetic::power2::lemma2_to64();
    }
    let protocol = reader.read_uint(16).unwrap() as u16;
    let server_count = reader.read_uint(32).unwrap();
    let hltv = reader.read_uint(1).unwrap() == 1;
    let dedicated = reader.read_uint(1).unwrap() == 1;
    let _crc = reader.read_uint(32).unwrap();
    let max_classes = reader.read_uint(16).unwrap() as u16;
    let md5 = reader.read_bytes(16).unwrap();
    let mut md5_map = [0u8; 16];
    let mut i: usize = 0;
    while i < 16
        invariant
            i <= 16,
            md5@.len() == 16,
            forall|k: int| 0 <= k < i ==> md5_map@[k] == md5@[k],
        decreases 16 - i,
    {
        md5_map[i] = md5[i];
        i = i + 1;
    }
    proof {
        assert(md5_map@ =~= md5@);
    }
    let player_slot = reader.read_uint(8).unwrap() as u8;
    let max_clients = reader.read_uint(8).unwrap() as u8;
    let tick_interval = reader.read_uint(32).unwrap();
    let os = reader.read_uint(8).unwrap() as u8;
    let game_dir = match read_string(reader) {
        Some(x) => x,
        None => return None,
    };
    let map_name = match read_string(reader) {
        Some(x) => x,
        None => return None,
    };
    let sky_name = match read_string(reader) {
        Some(x) => x,
        None => return None,
    };
    let host_name = match read_string(reader) {
        Some(x) => x,
        None => return None,
    };
    let replay = match reader.read_uint(1) {
        Some(x) => x == 1,
        None => return None,
    };
    Some(
        Messages::SVC_SERVER_INFO {
            protocol,
            server_count,
            hltv,
            dedicated,
            max_classes,
            md5_map,
            player_slot,
            max_clients,
            tick_interval,
            os,
            game_dir,
            map_name,
            sky_name,
            host_name,
            replay,
        },
    )
}

/// Reads the body of a message with type tag `tag`.
fn decode_body_exec(reader: &mut BitReader, tag: u32) -> (r: Decoded)
    requires
        old(reader).wf(),
    ensures
        final(reader).pos <= final(reader).bits@.len(),
        final(reader).wf(),
        final(reader).bits@ == old(reader).bits@,
        final(reader).pos >= old(reader).pos,
        decoded_as(r, decode_body(old(reader).bits@, old(reader).pos as int, tag as nat), final(reader).pos as int),
{
    proof {
        vstd::arithmetic::power2::lemma2_to64();
    }
    if tag == TAG_NOP {
        Decoded::Read(Messages::NET_NOP)
    } else if tag == TAG_DISCONNECT || tag == TAG_STRING_CMD || tag == TAG_PRINT {
        match read_string(reader) {
            Some(s) => Decoded::Read(
                if tag == TAG_DISCONNECT {
                    Messages::NET_DISCONNECT { reason: s }
                } else if tag == TAG_STRING_CMD {
                    Messages::SVC_STRING_CMD { command: s }
                } else {
                    Messages::SVC_PRINT { message: s }
                },
            ),
            None => Decoded::Short,
        }
    } else if tag == TAG_TICK {
        let t = match reader.read_uint(32) {
            Some(t) => t,
            None => return Decoded::Short,
        };
        let f = match reader.read_uint(16) {
            Some(f) => f,
            None => return Decoded::Short,
        };
        let d = match reader.read_uint(16) {
            Some(d) => d,
            None => return Decoded::Short,
        };
        proof {
            vstd::arithmetic::power2::lemma2_to64();
        }
        Decoded::Read(
            Messages::NET_TICK { tick: t, host_frame_time: f as u16, host_frame_time_std_dev: d as u16 },
        )
    } else if tag == TAG_SET_CONVARS {
        let n = match reader.read_uint(8) {
            Some(n) => n,
            None => return Decoded::Short,
        };
        match read_convars(reader, n) {
            Some(c) => Decoded::Read(Messages::NET_SET_CONVARS { convars: c }),
            None => Decoded::Short,
        }
    } else if tag == TAG_SIGNON_STATE {
        let st = match reader.read_uint(8) {
            Some(st) => st,
            None => return Decoded::Short,
        };
        let c = match reader.read_uint(32) {
            Some(c) => c,
            None => return Decoded::Short,
        };
        proof {
            vstd::arithmetic::power2::lemma2_to64();
        }
        Decoded::Read(Messages::NET_SIGNON_STATE { state: st as u8, spawn_count: c as i32 })
    } else if tag == TAG_SERVER_INFO {
        match read_server_info(reader) {
            Some(m) => Decoded::Read(m),
            None => Decoded::Short,
        }
    } else if tag == TAG_CREATE_STRING_TABLE || tag == TAG_CMD_KEY_VALUES {
        Decoded::Stop
    } else {
        Decoded::Unknown
    }
}

/// Decodes the messages of a bit stream from the reader's position on.
///
/// Messages are read while at least 6 bits are left. A string-table or key-values
/// message ends the stream; an unknown tag drops everything decoded from it; a body cut
/// short, or a string that is not UTF-8, makes the stream malformed (`None`).
pub fn process_messages(reader: &mut BitReader) -> (r: Option<Vec<Messages>>)
    requires
        old(reader).wf(),
    ensures
        final(reader).wf(),
        final(reader).bits@ == old(reader).bits@,
        match decode_msgs(old(reader).bits@, old(reader).pos as int) {
            Some(ms) => r matches Some(v) && msgs_view(v@) == ms,
            None => r is None,
        },
{
    let mut out: Vec<Messages> = Vec::new();
    proof {
        assert(msgs_view(out@) =~= Seq::<Msg>::empty());
    }
    loop
        invariant
            reader.wf(),
            reader.bits@ == old(reader).bits@,
            decode_msgs(old(reader).bits@, old(reader).pos as int) == decode_from(
                reader.bits@,
                reader.pos as int,
                msgs_view(out@),
            ),
        decreases reader.bits@.len() - reader.pos,
    {
        if reader.bits_left() < TAG_BITS {
            return Some(out);
        }
        proof {
            vstd::arithmetic::power2::lemma2_to64();
        }
        let tag = match reader.read_uint(TAG_BITS) {
            Some(t) => t,
            None => return None,
        };
        match decode_body_exec(reader, tag) {
            Decoded::Read(m) => {
                let ghost before = out@;
                out.push(m);
                proof {
                    assert(msgs_view(out@) =~= msgs_view(before).push(m@));
                }
            },
            Decoded::Stop => return Some(out),
            Decoded::Unknown => return Some(Vec::new()),
            Decoded::Short => return None,
        }
    }
}

// ---------------------------------------------------------------------------------------
// Encoding
/// The bits of one outbound message: the tag and the NUL-terminated UTF-8 text of a
/// disconnect, a print or a string command; nothing for any other message.
pub open spec fn encode_msg(m: Msg) -> Seq<bool> {
    match m {
        Msg::Disconnect(s) => uint_bits(TAG_DISCONNECT as nat, 6) + cstring_bits(encode_utf8(s)),
        Msg::StringCmd(s) => uint_bits(TAG_STRING_CMD as nat, 6) + cstring_bits(encode_utf8(s)),
        Msg::Print(s) => uint_bits(TAG_PRINT as nat, 6) + cstring_bits(encode_utf8(s)),
        _ => Seq::empty(),
    }
}

/// The bits of a run of outbound messages, one after the other.
pub open spec fn encode_msgs(ms: Seq<Msg>) -> Seq<bool>
    decreases ms.len(),
{
    if ms.len() == 0 {
        Seq::empty()
    } else {
        encode_msg(ms[0]) + encode_msgs(ms.drop_first())
    }
}

pub proof fn lemma_encode_msgs_push(ms: Seq<Msg>, m: Msg)
    ensures
        encode_msgs(ms.push(m)) == encode_msgs(ms) + encode_msg(m),
    decreases ms.len(),
{
    if ms.len() == 0 {
        assert(ms.push(m).drop_first() =~= Seq::<Msg>::empty());
        assert(ms.push(m)[0] == m);
        assert(encode_msgs(ms.push(m).drop_first()) == Seq::<bool>::empty());
        assert(encode_msgs(ms.push(m)) =~= encode_msgs(ms) + encode_msg(m));
    } else {
        assert(ms.push(m).drop_first() =~= ms.drop_first().push(m));
        lemma_encode_msgs_push(ms.drop_first(), m);
        assert(encode_msgs(ms.push(m)) =~= encode_msgs(ms) + encode_msg(m));
    }
}

/// Encodes outbound messages into bytes: for each disconnect, print or string command,
/// in order, its 6-bit tag and its NUL-terminated text; other messages add nothing. The
/// last byte is filled up with zero bits.
pub fn encode_messages(messages: &Vec<Messages>) -> (r: Vec<u8>)
    ensures
        is_packing(r@, encode_msgs(msgs_view(messages@))),
{
    let mut w = BitWriter::new();
    let mut i: usize = 0;
    proof {
        assert(msgs_view(messages@).take(0) =~= Seq::<Msg>::empty());
    }
    while i < messages.len()
        invariant
            i <= messages@.len(),
            w.bits@ == encode_msgs(msgs_view(messages@).take(i as int)),
        decreases messages@.len() - i,
    {
        proof {
            assert(msgs_view(messages@).take(i + 1) =~= msgs_view(messages@).take(i as int).push(messages@[i as int]@));
            lemma_encode_msgs_push(msgs_view(messages@).take(i as int), messages@[i as int]@);
        }
        match &messages[i] {
            Messages::NET_DISCONNECT { reason } => {
                w.write_uint(TAG_DISCONNECT, TAG_BITS);
                w.write_cstring(reason.as_str().as_bytes());
            },
            Messages::SVC_STRING_CMD { command } => {
                w.write_uint(TAG_STRING_CMD, TAG_BITS);
                w.write_cstring(command.as_str().as_bytes());
            },
            Messages::SVC_PRINT { message } => {
                w.write_uint(TAG_PRINT, TAG_BITS);
                w.write_cstring(message.as_str().as_bytes());
            },
            _ => {},
        }
        proof {
            assert(w.bits@ =~= encode_msgs(msgs_view(messages@).take(i + 1)));
        }
        i = i + 1;
    }
    proof {
        assert(msgs_view(messages@).take(messages@.len() as int) =~= msgs_view(messages@));
    }
    w.finish()
}

// ---------------------------------------------------------------------------------------
// Encoding followed by decoding
/// A message that the encoder writes out and the decoder reads back: a no-op, or a
/// disconnect, print or string command whose UTF-8 text holds no NUL byte.
pub open spec fn is_outbound(m: Msg) -> bool {
    match m {
        Msg::Nop => true,
        Msg::Disconnect(s) => !encode_utf8(s).contains(0u8),
        Msg::StringCmd(s) => !encode_utf8(s).contains(0u8),
        Msg::Print(s) => !encode_utf8(s).contains(0u8),
        _ => false,
    }
}

/// The messages without the no-ops.
pub open spec fn drop_nops(ms: Seq<Msg>) -> Seq<Msg>
    decreases ms.len(),
{
    if ms.len() == 0 {
        Seq::empty()
    } else if ms[0] is Nop {
        drop_nops(ms.drop_first())
    } else {
        seq![ms[0]] + drop_nops(ms.drop_first())
    }
}

proof fn lemma_decode_cstring(bits: Seq<bool>, pos: int, s: Seq<u8>, acc: Seq<u8>)
    requires
        0 <= pos,
        pos + cstring_bits(s).len() <= bits.len(),
        bits.subrange(pos, pos + cstring_bits(s).len()) == cstring_bits(s),
        !s.contains(0u8),
    ensures
        cstring_bits(s).len() == 8 * (s.len() + 1),
        cstring_from(bits, pos, acc) == Some((acc + s, pos + 8 * (s.len() + 1))),
    decreases s.len(),
{
    let c = cstring_bits(s);
    if s.len() == 0 {
        lemma_byte_roundtrip(0);
        assert(bits.subrange(pos, pos + 8) =~= c);
        assert(acc + s =~= acc);
    } else {
        let rest = s.drop_first();
        let cr = cstring_bits(rest);
        lemma_byte_roundtrip(s[0]);
        assert(bits.subrange(pos + 8, pos + 8 + cr.len()) =~= c.subrange(8, c.len() as int));
        assert(c.subrange(8, c.len() as int) =~= cr);
        assert(bits.subrange(pos, pos + 8) =~= c.subrange(0, 8));
        assert(c.subrange(0, 8) =~= uint_bits(s[0] as nat, 8));
        assert(!rest.contains(0u8)) by {
            if rest.contains(0u8) {
                let j = choose|j: int| 0 <= j < rest.len() && rest[j] == 0u8;
                assert(s[j + 1] == 0u8);
            }
        }
        assert(s[0] != 0u8) by {
            assert(s.contains(s[0]) || s.len() == 0);
        }
        lemma_decode_cstring(bits, pos + 8, rest, acc.push(s[0]));
        assert(acc.push(s[0]) + rest =~= acc + s);
    }
}

proof fn lemma_decode_run(bits: Seq<bool>, pos: int, ms: Seq<Msg>, acc: Seq<Msg>)
    requires
        0 <= pos,
        pos + encode_msgs(ms).len() <= bits.len(),
        bits.subrange(pos, pos + encode_msgs(ms).len()) == encode_msgs(ms),
        forall|i: int| 0 <= i < ms.len() ==> is_outbound(#[trigger] ms[i]),
    ensures
        decode_from(bits, pos, acc) == decode_from(bits, pos + encode_msgs(ms).len(), acc + drop_nops(ms)),
    decreases ms.len(),
{
    if ms.len() == 0 {
        assert(acc + drop_nops(ms) =~= acc);
    } else {
        let m = ms[0];
        let rest = ms.drop_first();
        let e = encode_msg(m);
        let er = encode_msgs(rest);
        assert(is_outbound(m));
        assert forall|i: int| 0 <= i < rest.len() implies is_outbound(#[trigger] rest[i]) by {
            assert(rest[i] == ms[i + 1]);
        }
        assert(encode_msgs(ms) == e + er);
        lemma_split_run(bits, pos, e, er);
        if m is Nop {
            lemma_decode_run(bits, pos, rest, acc);
        } else {
            let (tag, text) = match m {
                Msg::Disconnect(t) => (TAG_DISCONNECT as nat, t),
                Msg::StringCmd(t) => (TAG_STRING_CMD as nat, t),
                Msg::Print(t) => (TAG_PRINT as nat, t),
                _ => (0nat, Seq::empty()),
            };
            let b = encode_utf8(text);
            assert(e == uint_bits(tag, 6) + cstring_bits(b));
            lemma_split_run(bits, pos, uint_bits(tag, 6), cstring_bits(b));
            lemma_uint_of_uint_bits(tag, 6);
            vstd::arithmetic::power2::lemma2_to64();
            lemma_decode_cstring(bits, pos + 6, b, Seq::empty());
            assert(Seq::<u8>::empty() + b =~= b);
            lemma_decode_run(bits, pos + e.len(), rest, acc.push(m));
            assert(acc.push(m) + drop_nops(rest) =~= acc + drop_nops(ms));
        }
    }
}

/// Decoding what the encoder wrote gives back the disconnects, prints and string
/// commands that went in, in order, without the no-ops (they encode to nothing). When
/// the zero bits that fill up the last byte are 6 or more, the decoder reads them as
/// one more no-op.
pub proof fn lemma_encode_decode(ms: Seq<Msg>, bytes: Seq<u8>)
    requires
        forall|i: int| 0 <= i < ms.len() ==> is_outbound(#[trigger] ms[i]),
        is_packing(bytes, encode_msgs(ms)),
    ensures
        decode_msgs(bits_of(bytes), 0) == Some(
            drop_nops(ms) + if bytes.len() * 8 - encode_msgs(ms).len() >= 6 {
                seq![Msg::Nop]
            } else {
                Seq::empty()
            },
        ),
{
    let e = encode_msgs(ms);
    let bits = bits_of(bytes);
    let pad = (bytes.len() * 8 - e.len()) as nat;
    assert(bits.subrange(0, e.len() as int) =~= e);
    lemma_decode_run(bits, 0, ms, Seq::empty());
    assert(Seq::<Msg>::empty() + drop_nops(ms) =~= drop_nops(ms));
    let acc = drop_nops(ms);
    if pad >= 6 {
        assert(bits.subrange(e.len() as int, e.len() + 6int) =~= zero_bits(6));
        lemma_uint_of_zeros(6);
        assert(decode_body(bits, e.len() + 6int, 0) == Body::Read(Msg::Nop, e.len() + 6int));
        assert(decode_from(bits, e.len() + 6int, acc.push(Msg::Nop)) == Some(acc.push(Msg::Nop)));
        assert(acc + seq![Msg::Nop] =~= acc.push(Msg::Nop));
    } else {
        assert(acc + Seq::<Msg>::empty() =~= acc);
    }
}

} // verus!
