use std::collections::HashSet;

use eggine::network::address::SocketAddress;
use eggine::network::client::client::{Client, ClientError};
use eggine::network::client::ntp_client::{NtpClient, NtpClientError};
use eggine::network::error::NetworkError;
use eggine::network::handshake::{Handshake, Version};
use eggine::network::log::{Log, LogLevel};
use eggine::network::network_stream::{NetworkReadStream, NetworkWriteStream};
use eggine::network::ntp::corrected_time::CorrectedTime;
use eggine::network::ntp::server::{ntp_magic_number, ntp_response, NtpReply, NtpServer, NtpServerError};
use eggine::network::ntp::times::Times;
use eggine::network::ntp::times_shift_register::TimesShiftRegister;
use eggine::network::payload::acknowledge_mask::AcknowledgeMask;
use eggine::network::payload::disconnect_reason::DisconnectionReason;
use eggine::network::payload::packet::{
    can_decode, decode_extensions, encode_extensions, Packet, PacketError, PacketExtension, EXTENSIONS_COUNT,
    EXTENSION_U32_COUNT,
};
use eggine::network::payload::payload::SubPayload;
use eggine::network::server::ntp_server::{BoxedNetworkError, NtpServerWhitelist};
use eggine::network::server::server::{Server, ServerError, SocketErrorKind};

// write extension flags to a stream, returning the flags that were written
fn generate_flags_stream(stream: &mut NetworkWriteStream, set_all_continue_bits: bool) -> HashSet<PacketExtension> {
    let mut flags = HashSet::new();
    for n in 0..EXTENSION_U32_COUNT {
        let mut number: u32 = 0;
        for i in 0..31 {
            let flag = PacketExtension::try_into(i + n * 31);
            if let Ok(flag) = flag {
                flags.insert(flag);
                number |= 1 << i;
            }
        }

        // incorrectly set all continue bits to 1, or set continue bits if there's `u32`s following the one we're about
        // to write
        if set_all_continue_bits {
            number |= 1 << 31;
        } else if n != EXTENSION_U32_COUNT - 1 {
            number |= 1 << 31;
        }

        stream.write_u32(number).expect("Could not write number to stream");
    }

    return flags;
}

// generate a flags hash set
fn generate_valid_hashset() -> HashSet<PacketExtension> {
    let mut flags = HashSet::new();
    for i in 0..EXTENSIONS_COUNT {
        if i % 2 == 0 {
            continue;
        }

        let flag = PacketExtension::try_into(i);
        if let Ok(flag) = flag {
            flags.insert(flag);
        }
    }

    return flags;
}

/// Ensure that decoding detects incorrect continue bit set.
#[test]
fn extension_flags_decode1() {
    let mut write_stream = NetworkWriteStream::new();
    generate_flags_stream(&mut write_stream, true);

    // write garbage after flags
    let garbage = 0xBEEF_BEEF_BEEF_BEEF;
    write_stream.write_u64(garbage).expect("Could not write padding to stream");

    // read the data we just wrote
    let mut read_stream = NetworkReadStream::new();
    read_stream.import(write_stream.export().expect("Could not export test stream")).expect("Could not import test stream");

    // decode the extensions. since we set the continue bit incorrectly, it should emit an error
    let result = decode_extensions(&mut read_stream);
    assert_eq!(result.unwrap_err(), NetworkError::Packet(PacketError::InvalidContinueBit));

    // check to see if the garbage is preserved
    assert_eq!(read_stream.read_u64().expect("Could not read number").0, garbage);
}

/// Ensure that decoding produces correct extension flags.
#[test]
fn extension_flags_decode2() {
    let mut write_stream = NetworkWriteStream::new();
    let flags = generate_flags_stream(&mut write_stream, false);

    // write garbage after flags
    let garbage = 0xBEEF_BEEF_BEEF_BEEF;
    write_stream.write_u64(garbage).expect("Could not write padding to stream");

    // read the data we just wrote
    let mut read_stream = NetworkReadStream::new();
    read_stream.import(write_stream.export().expect("Could not export test stream")).expect("Could not import test stream");

    // decode the extensions, and test them against the flags we wrote
    let result = decode_extensions(&mut read_stream);
    let decoded: HashSet<PacketExtension> = result.expect("Could not unwrap result").into_iter().collect();
    assert_eq!(decoded, flags);

    // check to see if the garbage is preserved
    assert_eq!(read_stream.read_u64().expect("Could not read number").0, garbage);
}

/// Ensure that encoding produces correct extension flags upon decode.
#[test]
fn extension_flags_encode1() {
    // encode the flags into the stream
    let flags = generate_valid_hashset();
    let listed: Vec<PacketExtension> = flags.iter().cloned().collect();
    let mut write_stream = NetworkWriteStream::new();
    for number in encode_extensions(&listed) {
        write_stream.write_u32(number).expect("Could not write number to stream");
    }

    // write garbage after flags
    let garbage = 0xBEEF_BEEF_BEEF_BEEF;
    write_stream.write_u64(garbage).expect("Could not write padding to stream");

    // read the data we just wrote
    let mut read_stream = NetworkReadStream::new();
    read_stream.import(write_stream.export().expect("Could not export test stream")).expect("Could not import test stream");

    // decode the extensions, and test them against the flags we wrote
    let result = decode_extensions(&mut read_stream);
    let decoded: HashSet<PacketExtension> = result.expect("Could not unwrap result").into_iter().collect();
    assert_eq!(decoded, flags);

    // check to see if the garbage is preserved
    assert_eq!(read_stream.read_u64().expect("Could not read number").0, garbage);
}

#[test]
fn extension_flags_encode_mega_packet() {
    let words = encode_extensions(&vec![PacketExtension::MegaPacket]);
    assert_eq!(words, [1]);
    assert_eq!(encode_extensions(&vec![]), [0]);
}

fn client_handshake(checksum: [u8; 16], ntp_id: u32) -> Handshake {
    Handshake {
        checksum,
        ntp_id,
        sequences: (0, 0),
        version: Version { branch: "master".to_string(), major: 0, minor: 0, revision: 0 },
    }
}

fn encoded<T: eggine::carton::stream::Encode>(object: &T) -> Vec<u8> {
    let mut stream = NetworkWriteStream::new();
    stream.encode(object).unwrap();
    stream.export().unwrap()
}

#[test]
fn packet_roundtrip_keeps_header_and_sub_payloads() {
    let mut packet = Packet::new(5, 3);
    packet.add_sub_payload(SubPayload::Ping(7));
    packet.add_sub_payload(SubPayload::Disconnect(DisconnectionReason::Timeout));
    let bytes = encoded(&packet);
    assert!(can_decode(&bytes));
    let mut stream = NetworkReadStream::new();
    stream.import(bytes.clone()).unwrap();
    let (decoded, position) = stream.decode::<Packet>().unwrap();
    assert_eq!(position as usize, bytes.len());
    assert_eq!(decoded.sequence_number, 5);
    assert_eq!(decoded.highest_acknowledged_sequence, 3);
    assert_eq!(decoded.get_sub_payloads(), &vec![SubPayload::Ping(7), SubPayload::Disconnect(DisconnectionReason::Timeout)]);
}

#[test]
fn packet_with_reserved_sub_payload_is_not_decodable() {
    let packet = Packet::new(1, 0);
    let mut bytes = encoded(&packet);
    assert!(can_decode(&bytes));
    bytes.push(1);
    assert!(!can_decode(&bytes));
    bytes.pop();
    bytes.push(9);
    assert!(can_decode(&bytes));
}

#[test]
fn packet_next_resets_payload() {
    let mut packet = Packet::new(5, 3);
    packet.add_sub_payload(SubPayload::Ping(7));
    packet.next(9);
    assert_eq!(packet.sequence_number, 6);
    assert_eq!(packet.highest_acknowledged_sequence, 9);
    assert!(packet.get_sub_payloads().is_empty());
}

#[test]
fn handshake_roundtrip_and_compatibility() {
    let handshake = Handshake {
        checksum: [1; 16],
        ntp_id: 9,
        sequences: (1, 2),
        version: Version { branch: "release".to_string(), major: 1, minor: 2, revision: 3 },
    };
    let bytes = encoded(&handshake);
    let mut stream = NetworkReadStream::new();
    stream.import(bytes).unwrap();
    let (decoded, _) = stream.decode::<Handshake>().unwrap();
    assert_eq!(decoded.checksum, [1; 16]);
    assert_eq!(decoded.ntp_id, 9);
    assert_eq!(decoded.sequences, (1, 2));
    assert_eq!(decoded.version.branch, "release");
    assert_eq!((decoded.version.major, decoded.version.minor, decoded.version.revision), (1, 2, 3));
    assert!(decoded.is_compatible(&handshake));
    assert!(!decoded.is_compatible(&client_handshake([0; 16], 9)));
}

#[test]
fn acknowledge_mask_shift_set_and_test() {
    let mut mask = AcknowledgeMask::from_words(1, 0);
    mask.shift(1);
    assert_eq!(mask.get_words(), (2, 0));
    mask.shift(63);
    assert_eq!(mask.get_words(), (0, 1));
    mask.set_first();
    assert_eq!(mask.get_words(), (1, 1));
    assert_eq!(mask.test(0), Some(true));
    assert_eq!(mask.test(64), Some(true));
    assert_eq!(mask.test(1), Some(false));
    assert_eq!(mask.test(128), None);
    let mut far = AcknowledgeMask::from_words(1, 0);
    far.shift(200);
    assert_eq!(far.get_words(), (0, 0));
}

#[test]
fn acknowledge_mask_roundtrip_and_composed_shifts() {
    let mask = AcknowledgeMask::from_words(0x8000_0000_0000_0001, 5);
    let bytes = encoded(&mask);
    assert_eq!(bytes.len(), 16);
    let mut stream = NetworkReadStream::new();
    stream.import(bytes).unwrap();
    let (decoded, position) = stream.decode::<AcknowledgeMask>().unwrap();
    assert_eq!(position, 16);
    assert_eq!(decoded.get_words(), (0x8000_0000_0000_0001, 5));

    let mut twice = AcknowledgeMask::from_words(0b1011, 0);
    twice.shift(3);
    twice.shift(70);
    let mut once = AcknowledgeMask::from_words(0b1011, 0);
    once.shift(73);
    assert_eq!(twice.get_words(), once.get_words());
    assert_eq!(once.get_words(), (0, 0b1011 << 9));
    assert_eq!(once.test(73), Some(true));
    assert_eq!(once.test(72), Some(false));
}

#[test]
fn acknowledge_mask_prints_bits_highest_first() {
    let text = AcknowledgeMask::from_words(1, 1 << 63).to_bit_string();
    assert_eq!(text, format!("[1{}1]", "0".repeat(126)));
    let text = AcknowledgeMask::from_words(0b10, 0).to_bit_string();
    assert_eq!(text, format!("[{}10]", "0".repeat(126)));
}

#[test]
fn log_record_formats_lines() {
    let mut log = Log::default();
    assert_eq!(log.record(LogLevel::Error, "hi".to_string(), 1), "  ! hi");
    assert_eq!(log.record(LogLevel::Info, "ok".to_string(), 0), ". ok");
    assert_eq!(log.record(LogLevel::Blacklist, "no".to_string(), 0), "@ no");
}

#[test]
fn times_exact_values() {
    let times = Times::new(110, 10, 5, 50, 60);
    assert_eq!(times.delay(), 90);
    assert_eq!(times.time_offset(), -5);
    assert_eq!(times.server_processing(), 10);
    assert_eq!(times.estimate_first_leg() + times.estimate_second_leg(), times.delay());
    assert!(times.can_compute_delay());
    assert!(times.can_compute_time_offset());
    let huge = Times::new(i128::MAX, i128::MIN, 0, 0, 0);
    assert!(!huge.can_compute_delay());
}

#[test]
fn corrected_time_adds_offset() {
    let corrected = CorrectedTime::new(1000, -25);
    assert_eq!(corrected.time(), 975);
    assert_eq!(corrected.offset(), -25);
    assert_eq!(corrected.system_time(), 1000);
}

#[test]
fn shift_register_picks_smallest_delay() {
    let mut register = TimesShiftRegister::new(300, 0);
    register.add_time(Times::new(110, 10, 0, 50, 60));
    register.add_time(Times::new(40, 10, 0, 20, 25));
    register.add_time(Times::new(200, 10, 0, 50, 60));
    assert_eq!(register.len(), 3);
    assert_eq!(register.best().unwrap().delay(), 25);
    assert!(register.last_best().is_some());
}

fn peer(port: u16) -> SocketAddress {
    SocketAddress::V6(1, port)
}

#[test]
fn ntp_server_answers_requests_and_records_responses() {
    let mut client_side = NtpServer::new(peer(9001), Some(peer(9000)), 7);
    let mut server_side = NtpServer::new(peer(9000), None, 11);
    server_side.add_to_whitelist(1);
    client_side.add_to_whitelist(1);
    assert!(server_side.is_whitelisted(1));
    assert!(!server_side.is_whitelisted(2));

    let (target, request) = client_side.sync_time(None, 100).unwrap();
    assert_eq!(target, peer(9000));
    assert_eq!(request.len(), 13);
    assert_eq!(request[12], 1);

    assert!(server_side.can_process(peer(9001), &request, request.len(), 150));
    let reply = server_side.process(peer(9001), &request, request.len(), 150, 160).unwrap();
    let answer = match reply {
        NtpReply::Respond(address, bytes) => {
            assert_eq!(address, peer(9001));
            bytes
        },
        NtpReply::Recorded(_) => panic!("a request is answered"),
    };
    assert_eq!(answer, ntp_response(1, 150, 11, 160));
    assert_eq!(answer.len(), 53);

    assert!(client_side.can_process(peer(9000), &answer, answer.len(), 210));
    let reply = client_side.process(peer(9000), &answer, answer.len(), 210, 220).unwrap();
    assert!(matches!(reply, NtpReply::Recorded(address) if address == peer(9000)));
}

#[test]
fn ntp_server_refuses_strangers() {
    let mut server = NtpServer::new(peer(9000), None, 11);
    let bytes = [9u8, 0];
    assert!(matches!(server.process(SocketAddress::V4(1, 2), &bytes, 2, 0, 0), Err(NtpServerError::InvalidIP)));
    assert!(matches!(server.process(peer(5), &bytes, 2, 0, 0), Err(NtpServerError::NotWhitelisted(_))));
    server.add_to_whitelist(1);
    let big = [0u8; 60];
    assert!(matches!(server.process(peer(5), &big, 60, 0, 0), Err(NtpServerError::PacketTooBig(_))));
    assert!(!NtpServerError::InvalidIP.is_fatal());
    assert_eq!(ntp_magic_number(), "EGGINENTP");
}

#[test]
fn server_accepts_compatible_handshake() {
    let mut server = Server::new(peer(4000), 0);
    let handshake = encoded(&client_handshake([0; 16], 77));
    assert!(server.can_receive(peer(5000), &handshake, handshake.len()));
    server.recv(peer(5000), &handshake, handshake.len(), 10, 20).unwrap();
    let sent = server.take_outgoing();
    assert_eq!(sent.len(), 1);
    assert_eq!(sent[0].0, peer(5000));
    let mut stream = NetworkReadStream::new();
    stream.import(sent[0].1.clone()).unwrap();
    let (answer, _) = stream.decode::<Handshake>().unwrap();
    assert_eq!(answer.sequences, (500, 1000));

    // a ping from the new client gets a pong back on the next tick
    let mut packet = Packet::new(1000, 500);
    packet.add_sub_payload(SubPayload::Ping(1));
    let bytes = encoded(&packet);
    server.tick(&vec![(peer(5000), bytes)], 11, 33, 1000).unwrap();
    assert!(server.take_outgoing().is_empty());

    // NTP requests go to the port after the client's
    let ntp = server.take_ntp_outgoing();
    assert_eq!(ntp.len(), 1);
    assert_eq!(ntp[0].0, peer(5001));

    server.tick(&vec![], 12, 40, 1001).unwrap();
    let sent = server.take_outgoing();
    assert_eq!(sent.len(), 1);
    let mut stream = NetworkReadStream::new();
    stream.import(sent[0].1.clone()).unwrap();
    let (pong, _) = stream.decode::<Packet>().unwrap();
    assert_eq!(pong.get_sub_payloads(), &vec![SubPayload::Pong(33)]);
    assert_eq!(pong.sequence_number, 501);
    assert_eq!(pong.highest_acknowledged_sequence, 0);
}

#[test]
fn server_refuses_bad_senders() {
    let mut server = Server::new(peer(4000), 0);
    assert!(matches!(server.recv(SocketAddress::V4(1, 1), &[0], 1, 0, 0), Err(ServerError::InvalidIP)));
    let big = vec![0u8; 1401];
    assert!(matches!(server.recv(peer(5000), &big, 1401, 0, 0), Err(ServerError::PacketTooBig(_))));
    assert!(matches!(server.recv(peer(5001), &[0], 1, 0, 0), Err(ServerError::Blacklisted(_))));
    let other = SocketAddress::V6(2, 7);
    let stranger = encoded(&client_handshake([3; 16], 1));
    assert!(matches!(server.recv(other, &stranger, stranger.len(), 0, 0), Err(ServerError::ClientCreation)));
    assert!(matches!(server.recv(other, &[0], 1, 0, 0), Err(ServerError::Blacklisted(_))));
    assert!(matches!(server.ping(peer(1), 0), Err(ServerError::CouldNotFindClient)));
    assert!(ServerError::Socket(SocketErrorKind::Other).is_fatal());
    assert!(!ServerError::ClientCreation.is_fatal());
}

#[test]
fn server_disconnects_silent_clients() {
    let mut server = Server::new(peer(4000), 0);
    let handshake = encoded(&client_handshake([0; 16], 77));
    server.recv(peer(5000), &handshake, handshake.len(), 10, 20).unwrap();
    let _ = server.take_outgoing();
    server.tick(&vec![], 10 + 30_000_001, 0, 0).unwrap();
    let sent = server.take_outgoing();
    assert_eq!(sent.len(), 1);
    let mut stream = NetworkReadStream::new();
    stream.import(sent[0].1.clone()).unwrap();
    let (packet, _) = stream.decode::<Packet>().unwrap();
    assert_eq!(packet.get_sub_payloads(), &vec![SubPayload::Disconnect(DisconnectionReason::Timeout)]);
    assert!(matches!(server.ping(peer(5000), 0), Err(ServerError::CouldNotFindClient)));
}

#[test]
fn client_connects_and_pings() {
    let mut client = Client::new(0);
    client.ping(5).unwrap();
    assert!(!client.is_connection_valid());
    client.initialize_connection(peer(6000), peer(4000), 0).unwrap();
    let sent = client.take_outgoing();
    assert_eq!(sent.len(), 1);

    let mut answer = client_handshake([0; 16], 42);
    answer.sequences = (500, 1000);
    let bytes = encoded(&answer);
    client.recv(&bytes, bytes.len(), 1, 2).unwrap();
    assert!(client.is_connection_valid());

    client.ping(5).unwrap();
    client.tick(&vec![], 3, 4, 3).unwrap();
    let sent = client.take_outgoing();
    assert_eq!(sent.len(), 1);
    let mut stream = NetworkReadStream::new();
    stream.import(sent[0].clone()).unwrap();
    let (packet, _) = stream.decode::<Packet>().unwrap();
    assert_eq!(packet.sequence_number, 1001);
    assert_eq!(packet.highest_acknowledged_sequence, 500);
    assert_eq!(packet.get_sub_payloads(), &vec![SubPayload::Ping(5)]);

    let ntp = client.take_ntp_outgoing();
    assert_eq!(ntp.len(), 1);
    assert_eq!(ntp[0].0, peer(4001));
}

#[test]
fn server_takes_in_a_client_of_this_library() {
    let mut client = Client::new(0);
    client.initialize_connection(peer(6000), peer(4000), 0).unwrap();
    let sent = client.take_outgoing();
    let mut server = Server::new(peer(4000), 0);
    assert!(server.can_receive(peer(6000), &sent[0], sent[0].len()));
    server.recv(peer(6000), &sent[0], sent[0].len(), 10, 20).unwrap();
    let answers = server.take_outgoing();
    assert_eq!(answers.len(), 1);
    assert_eq!(answers[0].0, peer(6000));

    // the server's answer completes the client's connection
    client.recv(&answers[0].1, answers[0].1.len(), 1, 2).unwrap();
    assert!(client.is_connection_valid());
}

#[test]
fn client_reports_disconnects_and_bad_handshakes() {
    let mut client = Client::new(0);
    let wrong = encoded(&client_handshake([1; 16], 42));
    assert!(matches!(client.recv(&wrong, wrong.len(), 1, 2), Err(ClientError::Handshake)));
    let right = encoded(&client_handshake([0; 16], 42));
    client.recv(&right, right.len(), 1, 2).unwrap();
    let mut packet = Packet::new(1, 0);
    packet.add_sub_payload(SubPayload::Ping(3));
    packet.add_sub_payload(SubPayload::Disconnect(DisconnectionReason::Requested));
    let bytes = encoded(&packet);
    assert!(matches!(client.recv(&bytes, bytes.len(), 1, 2), Err(ClientError::Disconnected(DisconnectionReason::Requested))));
    assert!(matches!(client.recv(&[0u8; 1401], 1401, 1, 2), Err(ClientError::PacketTooBig)));
    assert!(ClientError::Handshake.is_fatal());
    assert!(!ClientError::WouldBlock.is_fatal());
}

#[test]
fn ntp_client_measures_offsets() {
    let mut client = NtpClient::new(peer(7001), 0);
    let request = client.sync_time(100);
    assert_eq!(request.len(), 13);
    assert_eq!(request[12], 1);
    let answer = ntp_response(1, 150, 3, 160);
    assert!(client.can_process(&answer, answer.len(), 210));
    client.process(&answer, answer.len(), 210).unwrap();
    assert_eq!(client.get_shift_register().len(), 1);
    assert!(client.can_correct());
    let corrected = client.get_corrected_time(1000);
    assert_eq!(corrected.offset(), 0);
    let unknown = ntp_response(9, 150, 3, 160);
    assert!(matches!(client.process(&unknown, unknown.len(), 210), Err(NtpClientError::InvalidIndex)));
    assert!(matches!(client.process(&[0u8; 1401], 1401, 210), Err(NtpClientError::PacketTooBig)));
    assert!(!NtpClientError::InvalidIndex.is_fatal());
}

#[test]
fn old_ntp_server_checks_senders() {
    let mut server = eggine::network::server::ntp_server::NtpServer::new(peer(1), NtpServerWhitelist { list: vec![2] });
    assert!(matches!(server.recv(SocketAddress::V4(1, 1), &[0], 1, 1, 2), Err(BoxedNetworkError::NtpServer(_))));
    assert!(matches!(
        server.recv(SocketAddress::V6(3, 1), &[0], 1, 1, 2),
        Err(BoxedNetworkError::NtpServer(eggine::network::server::ntp_server::NtpServerError::NotWhitelisted(_)))
    ));
    assert!(matches!(server.recv(SocketAddress::V6(2, 1), &[0u8; 6], 6, 1, 2), Err(BoxedNetworkError::NtpServer(_))));
    assert!(matches!(server.recv(SocketAddress::V6(2, 1), &[0u8; 4], 4, 1, 2), Err(BoxedNetworkError::Stream(_))));
}

#[test]
fn server_tick_goes_on_past_refused_datagrams() {
    let mut server = Server::new(peer(4000), 0);
    let handshake = encoded(&client_handshake([0; 16], 77));
    let arrived = vec![(SocketAddress::V4(1, 1), vec![0u8]), (peer(5000), handshake)];
    server.tick(&arrived, 10, 20, 30).unwrap();
    let sent = server.take_outgoing();
    assert_eq!(sent.len(), 1);
    assert_eq!(sent[0].0, peer(5000));
    let ntp = server.take_ntp_outgoing();
    assert_eq!(ntp.len(), 1);
    assert_eq!(ntp[0].0, peer(5001));
}

#[test]
fn client_tick_stops_at_a_disconnect() {
    let mut client = Client::new(0);
    client.initialize_connection(peer(6000), peer(4000), 0).unwrap();
    let _ = client.take_outgoing();
    let mut answer = client_handshake([0; 16], 42);
    answer.sequences = (500, 1000);
    let handshake = encoded(&answer);
    let mut packet = Packet::new(501, 1000);
    packet.add_sub_payload(SubPayload::Disconnect(DisconnectionReason::Timeout));
    let disconnect = encoded(&packet);
    let arrived = vec![handshake, disconnect, vec![0u8; 2000]];
    let result = client.tick(&arrived, 5, 6, 7);
    assert!(matches!(result, Err(ClientError::Disconnected(DisconnectionReason::Timeout))));
    assert!(client.is_connection_valid());
    assert!(client.take_ntp_outgoing().is_empty());
}

#[test]
fn ntp_server_keeps_a_register_for_an_unreadable_response() {
    let mut server = NtpServer::new(peer(9001), Some(peer(9000)), 7);
    server.add_to_whitelist(1);
    let answer = ntp_response(1, 150, 11, 160);
    let truncated = answer[..20].to_vec();
    assert!(server.get_shift_register(peer(9000)).is_none());
    assert!(server.can_process(peer(9000), &truncated, truncated.len(), 210));
    let result = server.process(peer(9000), &truncated, truncated.len(), 210, 220);
    assert!(matches!(result, Err(NtpServerError::NetworkStreamError(_))));
    let register = server.get_shift_register(peer(9000)).unwrap();
    assert_eq!(register.len(), 0);
    assert_eq!(register.get_precision(), 7);

    // a request that cannot be read keeps no register
    let request = [9u8, 0, b'E', b'G', b'G', b'I', b'N', b'E', b'N', b'T', b'P', 0];
    let result = server.process(peer(9002), &request, request.len(), 210, 220);
    assert!(matches!(result, Err(NtpServerError::NetworkStreamError(_))));
    assert!(server.get_shift_register(peer(9002)).is_none());
}
