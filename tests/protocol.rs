use bitbuffer::{BitReadBuffer, BitReadStream, BitWriteStream, LittleEndian};
use matchmaker::bits::{read_varint, BitReader};
use matchmaker::checksum::{fold_checksum, valve_checksum};
use matchmaker::client::{Client, ClientState, NetChannel};
use matchmaker::matchmaking::{
    best_candidate, matchmaking_tick, redirect_command, GenericOptions, MatchmakingConfig, Server, ServerError,
    ServerInfo,
};
use matchmaker::messages::{encode_messages, process_messages, Messages};
use matchmaker::netchannel::{parse_subchannel, COMPRESSED_REASON};
use matchmaker::server::{handle_request, RequestError};
use matchmaker::session::{build_packets, handle_messages, handle_stateful, Clients, Endpoint, FAVORITES_REASON};
use matchmaker::state::State;
use matchmaker::stateless::{challenge_from_secs, handle_stateless, stateless_response};

fn config(servers: Vec<(String, Server)>) -> MatchmakingConfig {
    MatchmakingConfig {
        matchmaking: GenericOptions { address: [127, 0, 0, 1], hostname: "Test Host".to_string(), port: 27015 },
        servers,
    }
}

fn peer() -> Endpoint {
    Endpoint { ip: 0xffff_0a00_0002, port: 27005 }
}

/// Bits written through bitbuffer: (value, width) pairs and NUL-terminated strings.
enum Field<'a> {
    Int(u64, usize),
    Str(&'a str),
    Bytes(&'a [u8]),
}

fn bits(fields: &[Field]) -> Vec<u8> {
    let mut out = Vec::new();
    {
        let mut w = BitWriteStream::new(&mut out, LittleEndian);
        for f in fields {
            match f {
                Field::Int(v, n) => w.write_int(*v, *n).unwrap(),
                Field::Str(s) => w.write_string(s, None).unwrap(),
                Field::Bytes(b) => w.write_bytes(b).unwrap(),
            }
        }
    }
    out
}

/// A stateful datagram with a challenge, and the given flags and bit stream.
fn stateful(seq: u32, flags: u8, challenge: u32, stream: &[u8]) -> Vec<u8> {
    let mut body = vec![0u8];
    if flags & 0x10 != 0 {
        body.push(0);
    }
    body.extend_from_slice(&challenge.to_le_bytes());
    body.extend_from_slice(stream);
    let mut d = Vec::new();
    d.extend_from_slice(&seq.to_le_bytes());
    d.extend_from_slice(&0u32.to_le_bytes());
    d.push(flags);
    d.extend_from_slice(&valve_checksum(&body).to_le_bytes());
    d.extend_from_slice(&body);
    d
}

fn convars_stream(pairs: &[(&str, &str)]) -> Vec<u8> {
    let mut fields = vec![Field::Int(5, 6), Field::Int(pairs.len() as u64, 8)];
    for (k, v) in pairs {
        fields.push(Field::Str(k));
        fields.push(Field::Str(v));
    }
    bits(&fields)
}

fn reply_messages(packet: &[u8]) -> Vec<Messages> {
    let mut reader = BitReader::from_bytes(&packet[16..]);
    process_messages(&mut reader).expect("reply payload decodes")
}

fn has_disconnect(msgs: &[Messages], reason: &str) -> bool {
    msgs.iter().any(|m| matches!(m, Messages::NET_DISCONNECT { reason: r } if r == reason))
}

#[test]
fn s1_a2s_info_reply() {
    let cfg = config(vec![]);
    let reply = handle_stateless(&cfg, &[0xFF, 0xFF, 0xFF, 0xFF, 0x54, 1, 2, 3]);
    let mut head = vec![0xFF, 0xFF, 0xFF, 0xFF, 0x49, 0x11];
    head.extend_from_slice(b"Test Host\0matchmaking\0tf\0Team Fortress 2\0");
    head.extend_from_slice(&[0xB8, 0x01]);
    assert_eq!(&reply[..head.len()], &head[..]);
    assert_eq!(&reply[reply.len() - 8..], &440u64.to_le_bytes());
    let rest = &reply[head.len()..];
    assert_eq!(&rest[..7], &[0, 24, 0, 0x64, 0x6C, 0, 0]);
    assert_eq!(&rest[7..9], b"0\0");
    assert_eq!(rest[9], 0xA1);
    assert_eq!(&rest[10..12], &27015u16.to_le_bytes());
    assert_eq!(&rest[12..37], b"breadpudding,matchmaking\0");
}

#[test]
fn s2_getchallenge_reply() {
    let reply = stateless_response(&"h".to_string(), 1, &[0xFF, 0xFF, 0xFF, 0xFF, 0x71, 0xDE, 0xAD, 0xBE, 0xEF], 0x01020304);
    let mut expected = vec![0xFF, 0xFF, 0xFF, 0xFF, 0x41, 0x33, 0x49, 0x4F, 0x5A, 0x04, 0x03, 0x02, 0x01];
    expected.extend_from_slice(&[0xEF, 0xBE, 0xAD, 0xDE, 0x03, 0, 0, 0, 0, 0, 0, 0, 0, 0, 0, 0, 0, 0, 0x01]);
    expected.extend_from_slice(b"000000\0");
    assert_eq!(reply, expected);
}

#[test]
fn getchallenge_through_time_challenge() {
    let cfg = config(vec![]);
    let reply = handle_stateless(&cfg, &[0xFF, 0xFF, 0xFF, 0xFF, 0x71, 0xDE, 0xAD, 0xBE, 0xEF]);
    assert_eq!(&reply[..9], &[0xFF, 0xFF, 0xFF, 0xFF, 0x41, 0x33, 0x49, 0x4F, 0x5A]);
    assert_eq!(&reply[13..17], &[0xEF, 0xBE, 0xAD, 0xDE]);
    assert_eq!(reply.len(), 39);
}

#[test]
fn player_and_rules_requests() {
    let h = "h".to_string();
    let none = [0xFF, 0xFF, 0xFF, 0xFF, 0x55, 0xFF, 0xFF, 0xFF, 0xFF];
    assert_eq!(stateless_response(&h, 1, &none, 7), vec![0xFF, 0xFF, 0xFF, 0xFF, 0x41, 7, 0, 0, 0]);
    let some = [0xFF, 0xFF, 0xFF, 0xFF, 0x55, 1, 0, 0, 0];
    assert_eq!(stateless_response(&h, 1, &some, 7), vec![0xFF, 0xFF, 0xFF, 0xFF, 0x44, 0]);
    let rules_none = [0xFF, 0xFF, 0xFF, 0xFF, 0x56, 0xFF, 0xFF, 0xFF, 0xFF];
    assert_eq!(stateless_response(&h, 1, &rules_none, 9), vec![0xFF, 0xFF, 0xFF, 0xFF, 0x4A, 9, 0, 0, 0]);
    let rules = [0xFF, 0xFF, 0xFF, 0xFF, 0x56, 0, 0, 0, 0];
    assert_eq!(stateless_response(&h, 1, &rules, 9), vec![0xFF, 0xFF, 0xFF, 0xFF, 0x45, 0]);
}

#[test]
fn connect_echoes_challenge() {
    let mut d = vec![0xFF, 0xFF, 0xFF, 0xFF, 0x6B];
    d.extend_from_slice(&[0; 12]);
    d.extend_from_slice(&0xCAFEBABEu32.to_le_bytes());
    let mut expected = vec![0xFF, 0xFF, 0xFF, 0xFF, 0x42, 0xBE, 0xBA, 0xFE, 0xCA];
    expected.extend_from_slice(b"0000000000\0");
    assert_eq!(stateless_response(&"h".to_string(), 1, &d, 0), expected);
}

#[test]
fn unknown_or_short_connectionless_gets_nothing() {
    let h = "h".to_string();
    assert!(stateless_response(&h, 1, &[0xFF, 0xFF, 0xFF, 0xFF, 0x20, 1, 2, 3, 4], 0).is_empty());
    assert!(stateless_response(&h, 1, &[0xFF, 0xFF, 0xFF, 0xFF, 0x55, 1], 0).is_empty());
    assert!(stateless_response(&h, 1, &[0xFF, 0xFF, 0xFF, 0xFF, 0x6B, 1, 2, 3, 4, 5], 0).is_empty());
}

#[test]
fn challenge_is_low_bits_of_seconds() {
    assert_eq!(challenge_from_secs(0x1_0000_0005), 5);
    assert_eq!(challenge_from_secs(1_700_000_000), 1_700_000_000);
}

#[test]
fn s3_first_stateful_contact() {
    let mut clients = Clients::new();
    let d = stateful(1, 0x20, 0x1234, &[]);
    let out = handle_stateful(&mut clients, peer(), &d);
    let mut welcome = vec![0xFF, 0xFF, 0xFF, 0xFF, 0x42];
    welcome.extend_from_slice(b"00000000000000\0");
    assert_eq!(out[0], welcome);
    assert_eq!(clients.len(), 1);
    assert_eq!(out.len(), 2);
    let out2 = handle_stateful(&mut clients, peer(), &d);
    assert_eq!(clients.len(), 1);
    assert_eq!(out2.len(), 1);
    assert_ne!(out2[0], welcome);
}

#[test]
fn s4_favorites_join_confirms() {
    let mut clients = Clients::new();
    let stream = convars_stream(&[("name", "alice"), ("cl_connectmethod", "serverbrowser_favorites")]);
    let out = handle_stateful(&mut clients, peer(), &stateful(1, 0x20, 7, &stream));
    assert_eq!(out.len(), 2);
    let c = clients.get(&peer()).unwrap();
    assert_eq!(c.state, ClientState::Confirmed);
    assert_eq!(c.name(), Some("alice".to_string()));
    assert!(!reply_messages(&out[1]).iter().any(|m| matches!(m, Messages::NET_DISCONNECT { .. })));
}

#[test]
fn s5_wrong_join_source_disconnects() {
    let mut clients = Clients::new();
    let stream = convars_stream(&[("name", "alice"), ("cl_connectmethod", "quickplay")]);
    let out = handle_stateful(&mut clients, peer(), &stateful(1, 0x20, 7, &stream));
    let msgs = reply_messages(&out[1]);
    assert!(has_disconnect(&msgs, "You must join this server from the favorites tab!"));
    assert_eq!(FAVORITES_REASON, "You must join this server from the favorites tab!");
    assert_eq!(clients.get(&peer()).unwrap().state, ClientState::Fresh);
}

#[test]
fn missing_join_method_disconnects() {
    let mut clients = Clients::new();
    let stream = convars_stream(&[("name", "bob")]);
    let out = handle_stateful(&mut clients, peer(), &stateful(1, 0x20, 7, &stream));
    assert!(has_disconnect(&reply_messages(&out[1]), FAVORITES_REASON));
}

#[test]
fn s6_redirect_after_tick() {
    let cfg = config(vec![("one".to_string(), Server { address: [10, 0, 0, 5], port: 27016 })]);
    let mut clients = Clients::new();
    let stream = convars_stream(&[("name", "alice"), ("cl_connectmethod", "serverbrowser_favorites")]);
    handle_stateful(&mut clients, peer(), &stateful(1, 0x20, 7, &stream));
    let mut last = 100u64;
    let probes = vec![Some(ServerInfo { players: 10, max_players: 24, bots: 0 })];
    matchmaking_tick(&cfg, &mut last, 101, &mut clients, &probes);
    assert_eq!(last, 101);
    assert_eq!(clients.get(&peer()).unwrap().state, ClientState::Redirected);
    let out = handle_stateful(&mut clients, peer(), &stateful(2, 0x20, 7, &[]));
    let msgs = reply_messages(&out[0]);
    assert!(msgs
        .iter()
        .any(|m| matches!(m, Messages::SVC_STRING_CMD { command } if command == "redirect 10.0.0.5:27016")));
    assert_eq!(clients.get(&peer()).unwrap().state, ClientState::Redirected);
    let again = handle_stateful(&mut clients, peer(), &stateful(3, 0x20, 7, &[]));
    assert!(!reply_messages(&again[0]).iter().any(|m| matches!(m, Messages::SVC_STRING_CMD { .. })));
}

#[test]
fn tick_not_due_or_no_candidate_changes_nothing() {
    let cfg = config(vec![("one".to_string(), Server { address: [10, 0, 0, 5], port: 27016 })]);
    let mut clients = Clients::new();
    let stream = convars_stream(&[("cl_connectmethod", "serverbrowser_favorites")]);
    handle_stateful(&mut clients, peer(), &stateful(1, 0x20, 7, &stream));
    let mut last = 100u64;
    let full = vec![Some(ServerInfo { players: 24, max_players: 24, bots: 0 })];
    matchmaking_tick(&cfg, &mut last, 100, &mut clients, &full);
    assert_eq!(last, 100);
    matchmaking_tick(&cfg, &mut last, 105, &mut clients, &full);
    assert_eq!(last, 105);
    assert_eq!(clients.get(&peer()).unwrap().state, ClientState::Confirmed);
    matchmaking_tick(&cfg, &mut last, 106, &mut clients, &vec![None]);
    assert_eq!(clients.get(&peer()).unwrap().state, ClientState::Confirmed);
}

#[test]
fn best_candidate_picks_first_highest() {
    let s = Server { address: [1, 2, 3, 4], port: 1 };
    let cfg = config(vec![("a".into(), s), ("b".into(), s), ("c".into(), s), ("d".into(), s)]);
    let probes = vec![
        Some(ServerInfo { players: 3, max_players: 24, bots: 0 }),
        Some(ServerInfo { players: 8, max_players: 24, bots: 1 }),
        None,
        Some(ServerInfo { players: 7, max_players: 24, bots: 0 }),
    ];
    assert_eq!(best_candidate(&cfg, &probes), Some(1));
    let tie = vec![
        Some(ServerInfo { players: 7, max_players: 24, bots: 0 }),
        Some(ServerInfo { players: 7, max_players: 24, bots: 0 }),
        None,
        None,
    ];
    assert_eq!(best_candidate(&cfg, &tie), Some(0));
    assert_eq!(best_candidate(&cfg, &vec![None, None, None, None]), None);
}

#[test]
fn score_formula() {
    let s = Server { address: [1, 2, 3, 4], port: 1 };
    assert_eq!(s.score(&ServerInfo { players: 10, max_players: 24, bots: 2 }), Ok(8));
    assert_eq!(s.score(&ServerInfo { players: 5, max_players: 32, bots: 0 }), Ok(-8));
    assert_eq!(s.score(&ServerInfo { players: 6, max_players: 20, bots: 1 }), Ok(1));
    assert_eq!(s.score(&ServerInfo { players: 24, max_players: 24, bots: 0 }), Err(ServerError::ServerFull));
}

#[test]
fn redirect_command_text() {
    assert_eq!(redirect_command(&Server { address: [192, 168, 0, 10], port: 27015 }), "redirect 192.168.0.10:27015");
    assert_eq!(redirect_command(&Server { address: [0, 0, 0, 0], port: 0 }), "redirect 0.0.0.0:0");
}

#[test]
fn split_header_is_ignored() {
    let cfg = config(vec![]);
    let mut clients = Clients::new();
    let mut d = vec![0xFE, 0xFF, 0xFF, 0xFF];
    d.extend_from_slice(&[0; 20]);
    let out = handle_request(&cfg, &mut clients, peer(), &d).unwrap();
    assert!(out.is_empty());
    assert_eq!(clients.len(), 0);
    let short = handle_request(&cfg, &mut clients, peer(), &[1, 2, 3, 4]).unwrap();
    assert!(short.is_empty());
    assert_eq!(clients.len(), 0);
}

#[test]
fn checksum_mismatch_gets_no_reply() {
    let mut clients = Clients::new();
    let stream = convars_stream(&[("cl_connectmethod", "serverbrowser_favorites")]);
    let mut d = stateful(1, 0x20, 7, &stream);
    d[9] ^= 0xFF;
    let out = handle_stateful(&mut clients, peer(), &d);
    assert_eq!(out.len(), 1);
    assert_eq!(clients.get(&peer()).unwrap().state, ClientState::Fresh);
    let again = handle_stateful(&mut clients, peer(), &d);
    assert!(again.is_empty());
    assert_eq!(clients.get(&peer()).unwrap().sequence, 0);
}

#[test]
fn missing_challenge_gets_no_reply() {
    let mut clients = Clients::new();
    let mut d = stateful(1, 0x00, 7, &[]);
    d[8] = 0x00;
    let out = handle_stateful(&mut clients, peer(), &d);
    assert_eq!(out.len(), 1);
}

#[test]
fn stateful_routing_through_request() {
    let cfg = config(vec![]);
    let mut clients = Clients::new();
    let d = stateful(1, 0x20, 7, &[]);
    let out = handle_request(&cfg, &mut clients, peer(), &d).unwrap();
    assert_eq!(out.len(), 2);
    let info = handle_request(&cfg, &mut clients, peer(), &[0xFF, 0xFF, 0xFF, 0xFF, 0x54]).unwrap();
    assert_eq!(info.len(), 1);
    assert_eq!(info[0][4], 0x49);
}

#[test]
fn compressed_datagram_is_inflated() {
    let cfg = config(vec![]);
    let mut clients = Clients::new();
    let inner = stateful(1, 0x20, 7, &convars_stream(&[("cl_connectmethod", "serverbrowser_favorites")]));
    let packed = snap::raw::Encoder::new().compress_vec(&inner).unwrap();
    let mut d = vec![0xFD, 0xFF, 0xFF, 0xFF, 0, 0, 0, 0];
    d.extend_from_slice(&packed);
    let out = handle_request(&cfg, &mut clients, peer(), &d).unwrap();
    assert_eq!(out.len(), 2);
    assert_eq!(clients.get(&peer()).unwrap().state, ClientState::Confirmed);
    let mut bad = vec![0xFD, 0xFF, 0xFF, 0xFF, 0, 0, 0, 0];
    bad.extend_from_slice(&[0xFF, 0xFF, 0xFF, 0xFF, 0xFF]);
    assert_eq!(handle_request(&cfg, &mut clients, peer(), &bad), Err(RequestError::Decompress));
}

#[test]
fn sequence_increases_per_reply() {
    let mut clients = Clients::new();
    let first = handle_stateful(&mut clients, peer(), &stateful(40, 0x20, 7, &[]));
    let second = handle_stateful(&mut clients, peer(), &stateful(41, 0x20, 7, &[]));
    let s1 = u32::from_le_bytes(first[1][0..4].try_into().unwrap());
    let s2 = u32::from_le_bytes(second[0][0..4].try_into().unwrap());
    assert_eq!(s1, 1);
    assert_eq!(s2, 2);
    assert_eq!(u32::from_le_bytes(second[0][4..8].try_into().unwrap()), 41);
    assert_eq!(second[0][8], 0x20);
}

#[test]
fn reply_packet_layout() {
    let mut seq = 9u32;
    let msgs = vec![Messages::SVC_PRINT { message: "hi".to_string() }];
    let packets = build_packets(msgs, &mut seq, 77, 0x05, 0xAABBCCDD);
    assert_eq!(seq, 10);
    assert_eq!(packets.len(), 1);
    let p = &packets[0];
    assert_eq!(&p[0..4], &10u32.to_le_bytes());
    assert_eq!(&p[4..8], &77u32.to_le_bytes());
    assert_eq!(p[8], 0x20);
    let body = &p[11..];
    assert_eq!(&p[9..11], &valve_checksum(body).to_le_bytes());
    assert_eq!(body[0], 0x05);
    assert_eq!(&body[1..5], &0xAABBCCDDu32.to_le_bytes());
    let expected = bits(&[Field::Int(7, 6), Field::Str("hi")]);
    assert_eq!(&body[5..], &expected[..]);
}

#[test]
fn encode_then_decode_round_trip() {
    let msgs = vec![
        Messages::NET_DISCONNECT { reason: "bye".to_string() },
        Messages::NET_NOP,
        Messages::SVC_PRINT { message: "héllo".to_string() },
        Messages::SVC_STRING_CMD { command: "redirect 1.2.3.4:5".to_string() },
    ];
    let bytes = encode_messages(&msgs);
    let mut reader = BitReader::from_bytes(&bytes);
    let back = process_messages(&mut reader).unwrap();
    // 3 * 6 + 8 * (4 + 7 + 19) bits = 258: 6 padding bits, read as one more no-op
    assert_eq!(back.len(), 4);
    assert!(matches!(&back[0], Messages::NET_DISCONNECT { reason } if reason == "bye"));
    assert!(matches!(&back[1], Messages::SVC_PRINT { message } if message == "héllo"));
    assert!(matches!(&back[2], Messages::SVC_STRING_CMD { command } if command == "redirect 1.2.3.4:5"));
    assert!(matches!(&back[3], Messages::NET_NOP));
    let plain = encode_messages(&vec![Messages::NET_DISCONNECT { reason: "a".to_string() }]);
    let mut r2 = BitReader::from_bytes(&plain);
    let back2 = process_messages(&mut r2).unwrap();
    assert_eq!(back2.len(), 1);
}

#[test]
fn encode_matches_bitbuffer_writer() {
    let msgs = vec![Messages::SVC_STRING_CMD { command: "x".to_string() }, Messages::NET_DISCONNECT { reason: "yz".to_string() }];
    let expected = bits(&[Field::Int(4, 6), Field::Str("x"), Field::Int(1, 6), Field::Str("yz")]);
    assert_eq!(encode_messages(&msgs), expected);
}

#[test]
fn decoder_message_kinds() {
    let data = bits(&[
        Field::Int(3, 6),
        Field::Int(123456, 32),
        Field::Int(1500, 16),
        Field::Int(20, 16),
        Field::Int(6, 6),
        Field::Int(2, 8),
        Field::Int(0xFFFF_FFFE, 32),
        Field::Int(0, 6),
    ]);
    let mut reader = BitReader::from_bytes(&data);
    let msgs = process_messages(&mut reader).unwrap();
    assert!(matches!(msgs[0], Messages::NET_TICK { tick: 123456, host_frame_time: 1500, host_frame_time_std_dev: 20 }));
    assert!(matches!(msgs[1], Messages::NET_SIGNON_STATE { state: 2, spawn_count: -2 }));
    assert!(matches!(msgs[2], Messages::NET_NOP));
}

#[test]
fn decoder_unknown_tag_drops_stream() {
    let data = bits(&[Field::Int(7, 6), Field::Str("a"), Field::Int(9, 6), Field::Int(0, 8)]);
    let mut reader = BitReader::from_bytes(&data);
    assert_eq!(process_messages(&mut reader).unwrap().len(), 0);
}

#[test]
fn decoder_uninterpreted_tag_stops_stream() {
    let data = bits(&[Field::Int(7, 6), Field::Str("a"), Field::Int(12, 6), Field::Int(0xFF, 8)]);
    let mut reader = BitReader::from_bytes(&data);
    assert_eq!(process_messages(&mut reader).unwrap().len(), 1);
}

#[test]
fn decoder_truncated_string_is_malformed() {
    let data = bits(&[Field::Int(1, 6), Field::Bytes(b"abc")]);
    let mut reader = BitReader::from_bytes(&data);
    assert!(process_messages(&mut reader).is_none());
}

#[test]
fn varint_over_unaligned_bits() {
    let data = bits(&[Field::Int(1, 3), Field::Int(0xAC, 8), Field::Int(0x02, 8)]);
    let mut reader = BitReader::from_bytes(&data);
    assert_eq!(reader.read_uint(3), Some(1));
    assert_eq!(read_varint(&mut reader), Some(300));
    let mut short = BitReader::from_bytes(&[0x80]);
    assert_eq!(read_varint(&mut short), None);
}

#[test]
fn bit_reader_matches_bitbuffer() {
    let data = [0b1011_0101u8, 0b0110_1010, 0xFF];
    let mut ours = BitReader::from_bytes(&data);
    let mut theirs = BitReadStream::new(BitReadBuffer::new(&data, LittleEndian));
    for n in [3usize, 5, 7, 1, 8] {
        assert_eq!(ours.read_uint(n), Some(theirs.read_int::<u32>(n).unwrap()));
    }
    assert_eq!(ours.read_uint(1), None);
}

#[test]
fn checksum_folds_crc32() {
    assert_eq!(fold_checksum(0xCBF4_3926), 0xF2D2);
    assert_eq!(valve_checksum(b"123456789"), 0xF2D2);
    assert_eq!(valve_checksum(b""), 0);
}

fn single_block(payload: &[u8]) -> Vec<u8> {
    let mut fields = vec![Field::Int(1, 1), Field::Int(0, 1), Field::Int(0, 1), Field::Int(payload.len() as u64, 8)];
    fields.push(Field::Bytes(payload));
    bits(&fields)
}

#[test]
fn single_block_subchannel() {
    let payload = bits(&[Field::Int(7, 6), Field::Str("hey")]);
    let data = single_block(&payload);
    let mut reader = BitReader::from_bytes(&data);
    let mut nc = NetChannel::new();
    let msgs = parse_subchannel(&mut reader, &mut nc).unwrap();
    assert_eq!(msgs.len(), 1);
    assert!(matches!(&msgs[0], Messages::SVC_PRINT { message } if message == "hey"));
    let mut absent = BitReader::from_bytes(&[0]);
    assert_eq!(parse_subchannel(&mut absent, &mut nc).unwrap().len(), 0);
}

#[test]
fn compressed_subchannel_is_refused() {
    let data = bits(&[Field::Int(1, 1), Field::Int(0, 1), Field::Int(1, 1), Field::Int(1000, 26)]);
    let mut reader = BitReader::from_bytes(&data);
    let mut nc = NetChannel::new();
    let msgs = parse_subchannel(&mut reader, &mut nc).unwrap();
    assert_eq!(msgs.len(), 1);
    assert!(has_disconnect(&msgs, COMPRESSED_REASON));
    assert_eq!(nc.fragments.len(), 0);
    assert_eq!(nc.length, 0);
}

#[test]
fn compressed_multi_block_is_refused_in_reply() {
    let sub = bits(&[
        Field::Int(0, 3),
        Field::Int(1, 1),
        Field::Int(1, 1),
        Field::Int(0, 18),
        Field::Int(1, 3),
        Field::Int(0, 1),
        Field::Int(1, 1),
        Field::Int(500, 26),
        Field::Int(0, 1),
    ]);
    let mut clients = Clients::new();
    let out = handle_stateful(&mut clients, peer(), &stateful(1, 0x21, 7, &sub));
    let msgs = reply_messages(&out[1]);
    let count = msgs.iter().filter(|m| matches!(m, Messages::NET_DISCONNECT { .. })).count();
    assert_eq!(count, 1);
    assert!(has_disconnect(&msgs, "Your client sent data we couldn't understand. We will try to fix this soon!"));
    assert_eq!(clients.get(&peer()).unwrap().netchannels[0].fragments.len(), 0);
}

#[test]
fn multi_block_reassembly() {
    let payload = vec![0u8; 300];
    let first = bits(&[
        Field::Int(1, 1),
        Field::Int(1, 1),
        Field::Int(0, 18),
        Field::Int(1, 3),
        Field::Int(0, 1),
        Field::Int(0, 1),
        Field::Int(300, 26),
        Field::Bytes(&payload[..256]),
    ]);
    let mut nc = NetChannel::new();
    let mut r1 = BitReader::from_bytes(&first);
    let m1 = parse_subchannel(&mut r1, &mut nc).unwrap();
    assert_eq!(m1.len(), 1);
    assert!(matches!(m1[0], Messages::NET_NOP));
    assert_eq!(nc.num_fragments, 2);
    assert_eq!(nc.length, 300);
    let last = bits(&[Field::Int(1, 1), Field::Int(1, 1), Field::Int(1, 18), Field::Int(1, 3), Field::Bytes(&payload[256..])]);
    let mut r2 = BitReader::from_bytes(&last);
    let m2 = parse_subchannel(&mut r2, &mut nc).unwrap();
    assert_eq!(nc.fragments[0].len(), 256);
    assert_eq!(nc.fragments[1].len(), 44);
    assert_eq!(nc.fragments.iter().map(|f| f.len()).sum::<usize>(), 300);
    assert_eq!(m2.len(), 400);
}

#[test]
fn multi_block_exact_multiple_tail_is_full() {
    let payload = vec![0u8; 512];
    let first = bits(&[
        Field::Int(1, 1),
        Field::Int(1, 1),
        Field::Int(0, 18),
        Field::Int(1, 3),
        Field::Int(0, 1),
        Field::Int(0, 1),
        Field::Int(512, 26),
        Field::Bytes(&payload[..256]),
    ]);
    let mut nc = NetChannel::new();
    parse_subchannel(&mut BitReader::from_bytes(&first), &mut nc).unwrap();
    let last = bits(&[Field::Int(1, 1), Field::Int(1, 1), Field::Int(1, 18), Field::Int(1, 3), Field::Bytes(&payload[256..])]);
    let m2 = parse_subchannel(&mut BitReader::from_bytes(&last), &mut nc).unwrap();
    assert_eq!(nc.fragments[1].len(), 256);
    assert!(!m2.is_empty());
}

#[test]
fn slice_beyond_stream_gives_nothing() {
    let mut nc = NetChannel::new();
    let slice = bits(&[Field::Int(1, 1), Field::Int(1, 1), Field::Int(5, 18), Field::Int(2, 3)]);
    let msgs = parse_subchannel(&mut BitReader::from_bytes(&slice), &mut nc).unwrap();
    assert!(msgs.is_empty());
}

#[test]
fn redirected_client_is_not_downgraded() {
    let mut c = Client::new();
    c.state = ClientState::Redirected;
    let mut convars = Vec::new();
    convars.push(("cl_connectmethod".to_string(), "serverbrowser_favorites".to_string()));
    let replies = handle_messages(&mut c, vec![Messages::NET_SET_CONVARS { convars }]);
    assert_eq!(c.state, ClientState::Redirected);
    assert!(replies.is_empty());
}

#[test]
fn queued_messages_leave_oldest_first() {
    let mut c = Client::new();
    c.queued.push(Messages::SVC_PRINT { message: "one".to_string() });
    c.queued.push(Messages::SVC_PRINT { message: "two".to_string() });
    let r1 = handle_messages(&mut c, vec![]);
    assert!(matches!(&r1[0], Messages::SVC_PRINT { message } if message == "one"));
    let r2 = handle_messages(&mut c, vec![Messages::NET_NOP]);
    assert!(matches!(&r2[0], Messages::SVC_PRINT { message } if message == "two"));
    assert!(handle_messages(&mut c, vec![]).is_empty());
}

#[test]
fn last_convar_wins() {
    let mut c = Client::new();
    let convars = vec![
        ("name".to_string(), "first".to_string()),
        ("cl_connectmethod".to_string(), "quickplay".to_string()),
        ("name".to_string(), "second".to_string()),
        ("cl_connectmethod".to_string(), "serverbrowser_favorites".to_string()),
    ];
    let replies = handle_messages(&mut c, vec![Messages::NET_SET_CONVARS { convars }]);
    assert_eq!(c.name(), Some("second".to_string()));
    assert_eq!(c.state, ClientState::Confirmed);
    assert!(replies.is_empty());
}

#[test]
fn client_reliable_bits_flip() {
    let mut c = Client::new();
    c.flip_rel(0);
    c.flip_rel(7);
    assert_eq!(c.reliable, 0b1000_0001);
    c.flip_rel(0);
    assert_eq!(c.reliable, 0b1000_0000);
    assert!(c.joined() > 0);
    assert_eq!(c.name(), None);
    c.set_name("zed".to_string());
    assert_eq!(c.name(), Some("zed".to_string()));
}

#[test]
fn reliable_selector_flips_bit() {
    let mut clients = Clients::new();
    let stream = bits(&[Field::Int(3, 3), Field::Int(0, 1), Field::Int(0, 1)]);
    let out = handle_stateful(&mut clients, peer(), &stateful(1, 0x21, 7, &stream));
    assert_eq!(out.len(), 2);
    assert_eq!(clients.get(&peer()).unwrap().reliable, 0b1000);
    assert_eq!(out[1][11], 0b1000);
}

#[test]
fn state_record() {
    let mut s = State::new();
    assert_eq!(s.rel(), 0);
    assert_eq!(s.get_rel(), 0);
    s.flip_rel(2);
    assert_eq!(s.rel(), 4);
    s.set_rel(9);
    assert_eq!(s.get_rel(), 9);
    assert_eq!(s.client_sequence, 1);
    assert_eq!(s.server_sequence, 1);
}

#[test]
fn config_accessors() {
    let cfg = config(vec![]);
    assert_eq!(cfg.bind_addr(), ([127, 0, 0, 1], 27015));
    assert_eq!(cfg.hostname(), "Test Host");
}

#[test]
fn decoder_server_info() {
    let md5: Vec<u8> = (1..=16).collect();
    let data = bits(&[
        Field::Int(8, 6),
        Field::Int(24, 16),
        Field::Int(7, 32),
        Field::Int(0, 1),
        Field::Int(1, 1),
        Field::Int(0xDEAD_BEEF, 32),
        Field::Int(30, 16),
        Field::Bytes(&md5),
        Field::Int(3, 8),
        Field::Int(24, 8),
        Field::Int(0x3C88_8889, 32),
        Field::Int(b'l' as u64, 8),
        Field::Str("tf"),
        Field::Str("ctf_2fort"),
        Field::Str("sky"),
        Field::Str("host"),
        Field::Int(1, 1),
    ]);
    let mut reader = BitReader::from_bytes(&data);
    let msgs = process_messages(&mut reader).unwrap();
    match &msgs[0] {
        Messages::SVC_SERVER_INFO {
            protocol,
            server_count,
            hltv,
            dedicated,
            max_classes,
            md5_map,
            player_slot,
            max_clients,
            tick_interval,
            os,
            game_dir,
            map_name,
            sky_name,
            host_name,
            replay,
        } => {
            assert_eq!(*protocol, 24);
            assert_eq!(*server_count, 7);
            assert!(!*hltv);
            assert!(*dedicated);
            assert_eq!(*max_classes, 30);
            assert_eq!(&md5_map[..], &md5[..]);
            assert_eq!(*player_slot, 3);
            assert_eq!(*max_clients, 24);
            assert_eq!(*tick_interval, 0x3C88_8889);
            assert_eq!(*os, b'l');
            assert_eq!(game_dir, "tf");
            assert_eq!(map_name, "ctf_2fort");
            assert_eq!(sky_name, "sky");
            assert_eq!(host_name, "host");
            assert!(*replay);
        },
        _ => panic!("expected server info"),
    }
}

#[test]
fn exhausted_sequence_gets_no_reply() {
    let mut clients = Clients::new();
    handle_stateful(&mut clients, peer(), &stateful(1, 0x20, 7, &[]));
    clients.entries[0].1.sequence = u32::MAX;
    let out = handle_stateful(&mut clients, peer(), &stateful(2, 0x20, 7, &[]));
    assert!(out.is_empty());
    assert_eq!(clients.entries[0].1.sequence, u32::MAX);
}

#[test]
fn varint_up_to_ten_groups() {
    let data = [0x80u8, 0x80, 0x80, 0x80, 0x80, 0x01];
    let mut reader = BitReader::from_bytes(&data);
    assert_eq!(read_varint(&mut reader), Some(1usize << 35));
    assert_eq!(reader.pos, 48);
    let max = [0xFFu8, 0xFF, 0xFF, 0xFF, 0x0F];
    assert_eq!(read_varint(&mut BitReader::from_bytes(&max)), Some(u32::MAX as usize));
    let mut ten = vec![0x80u8; 9];
    ten.push(0x01);
    assert_eq!(read_varint(&mut BitReader::from_bytes(&ten)), Some(1usize << 63));
    let mut eleven = vec![0x80u8; 10];
    eleven.push(0x01);
    let mut r = BitReader::from_bytes(&eleven);
    assert_eq!(read_varint(&mut r), None);
    assert_eq!(r.pos, 0);
}

#[test]
fn choked_byte_is_skipped() {
    let mut clients = Clients::new();
    let stream = convars_stream(&[("cl_connectmethod", "serverbrowser_favorites")]);
    let out = handle_stateful(&mut clients, peer(), &stateful(1, 0x30, 0xABCD, &stream));
    assert_eq!(out.len(), 2);
    assert_eq!(&out[1][12..16], &0xABCDu32.to_le_bytes());
    assert_eq!(clients.get(&peer()).unwrap().state, ClientState::Confirmed);
}

#[test]
fn malformed_reliable_stream_changes_nothing() {
    let mut clients = Clients::new();
    handle_stateful(&mut clients, peer(), &stateful(1, 0x20, 7, &[]));
    // selector, then a present single block whose length runs past the stream
    let stream = bits(&[Field::Int(5, 3), Field::Int(1, 1), Field::Int(0, 1), Field::Int(0, 1), Field::Int(90, 8)]);
    let out = handle_stateful(&mut clients, peer(), &stateful(2, 0x21, 7, &stream));
    assert!(out.is_empty());
    let c = clients.get(&peer()).unwrap();
    assert_eq!(c.reliable, 0);
    assert_eq!(c.sequence, 1);
}

#[test]
fn absent_subchannel_takes_one_bit() {
    let mut nc = NetChannel::new();
    let mut reader = BitReader::from_bytes(&[0b10]);
    assert_eq!(parse_subchannel(&mut reader, &mut nc).unwrap().len(), 0);
    assert_eq!(reader.pos, 1);
    let single = single_block(&bits(&[Field::Int(7, 6), Field::Str("a")]));
    let mut r2 = BitReader::from_bytes(&single);
    parse_subchannel(&mut r2, &mut nc).unwrap();
    assert_eq!(r2.pos, 3 + 8 + 8 * 3);
}
