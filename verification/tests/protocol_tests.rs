use sea::assemble::{Assembler, ReassemblyError};
use sea::chunk::ChunkingConfigError;
use sea::codec::{Message, MessageParseError, MessageType};

fn decode(line: &str) -> Result<Message, MessageParseError> {
    Message::from_string(line.to_string())
}

#[test]
fn encode_resource_request() {
    let m = Message::make_resource_request("JANLILI", "SERVER1", "/helloworld.txt");
    assert_eq!(m.to_line(), "\\sea.0 SERVER1 JANLILI req %/helloworld.txt");
}

#[test]
fn round_trip_single() {
    let m = Message::make_resource_request("JANLILI", "SERVER1", "/helloworld.txt");
    let line = m.to_line();
    let back = decode(&line).ok().unwrap();
    assert_eq!(back.sender(), "JANLILI");
    assert_eq!(back.reciever(), "SERVER1");
    match back.message_type() {
        MessageType::Sea0 { action, payload } => {
            assert_eq!(action, "req");
            assert_eq!(payload.as_deref(), Some("/helloworld.txt"));
        }
        _ => panic!("wrong variant"),
    }
}

#[test]
fn round_trip_announcement_line() {
    let line = "\\sea.1 JANLILI SERVER1 2 VRBF765RTAK res";
    let m = decode(line).ok().unwrap();
    assert_eq!(m.sender(), "SERVER1");
    assert_eq!(m.reciever(), "JANLILI");
    match m.message_type() {
        MessageType::Sea1 { action, id, parts } => {
            assert_eq!(action, "res");
            assert_eq!(id, "VRBF765RTAK");
            assert_eq!(parts, 2);
        }
        _ => panic!("wrong variant"),
    }
    assert_eq!(m.to_line(), line);
}

#[test]
fn round_trip_part_line() {
    let line = "\\sea.2 JANLILI SERVER1 00000001 VRBF765RTAK % world";
    let m = decode(line).ok().unwrap();
    match m.message_type() {
        MessageType::Sea2 { part, id, payload } => {
            assert_eq!(part, 1);
            assert_eq!(id, "VRBF765RTAK");
            assert_eq!(payload, " world");
        }
        _ => panic!("wrong variant"),
    }
    assert_eq!(m.to_line(), line);
}

#[test]
fn payload_escaping_round_trips() {
    let nasty = "line one\nline\\two\rwith % marker and %% more";
    let m = Message::make_resource_request("a", "b", nasty);
    let line = m.to_line();
    assert!(!line.contains('\n'));
    assert!(!line.contains('\r'));
    let back = decode(&line).ok().unwrap();
    match back.message_type() {
        MessageType::Sea0 { payload, .. } => assert_eq!(payload.as_deref(), Some(nasty)),
        _ => panic!("wrong variant"),
    }
}

#[test]
fn empty_payload_round_trips() {
    let m = Message::make_resource_request("a", "b", "");
    let back = decode(&m.to_line()).ok().unwrap();
    match back.message_type() {
        MessageType::Sea0 { action, payload } => {
            assert_eq!(action, "req");
            assert_eq!(payload.as_deref(), Some(""));
        }
        _ => panic!("wrong variant"),
    }
}

#[test]
fn marker_presence_is_preserved() {
    // no marker: no payload, and the re-encoded line carries no marker
    let bare = decode("\\sea.0 SERVER1 JANLILI ty").ok().unwrap();
    match bare.message_type() {
        MessageType::Sea0 { action, payload } => {
            assert_eq!(action, "ty");
            assert_eq!(payload, None);
        }
        _ => panic!("wrong variant"),
    }
    assert_eq!(bare.to_line(), "\\sea.0 SERVER1 JANLILI ty");

    // a bare marker: a present but empty payload, kept on re-encode
    let empty = decode("\\sea.0 SERVER1 JANLILI res %").ok().unwrap();
    match empty.message_type() {
        MessageType::Sea0 { payload, .. } => assert_eq!(payload.as_deref(), Some("")),
        _ => panic!("wrong variant"),
    }
    assert_eq!(empty.to_line(), "\\sea.0 SERVER1 JANLILI res %");
}

#[test]
fn garbage_gives_unknown_prelude() {
    let r = decode("garbage text with no prelude");
    assert_eq!(r.err().unwrap(), MessageParseError::UnknownSeaDotProtocol);
}

#[test]
fn empty_line_gives_empty_content() {
    assert_eq!(decode("").err().unwrap(), MessageParseError::EmptyMessageContent);
    assert_eq!(decode("   ").err().unwrap(), MessageParseError::EmptyMessageContent);
}

#[test]
fn missing_fields_give_incomplete_header() {
    assert_eq!(decode("\\sea.0 R S").err().unwrap(), MessageParseError::IncompleteHeader);
    assert_eq!(decode("\\sea.1 R S 5 id").err().unwrap(), MessageParseError::IncompleteHeader);
    assert_eq!(decode("\\sea.2 R S 00000000").err().unwrap(), MessageParseError::IncompleteHeader);
}

#[test]
fn part_without_marker_is_incomplete() {
    assert_eq!(
        decode("\\sea.2 R S 00000000 id").err().unwrap(),
        MessageParseError::IncompleteHeader
    );
}

#[test]
fn bad_numbers_give_parse_int_error() {
    assert_eq!(decode("\\sea.1 R S xx id act").err().unwrap(), MessageParseError::ParseIntError);
    assert_eq!(decode("\\sea.1 R S 0 id act").err().unwrap(), MessageParseError::ParseIntError);
    assert_eq!(
        decode("\\sea.1 R S 4294967296 id act").err().unwrap(),
        MessageParseError::ParseIntError
    );
    assert_eq!(decode("\\sea.2 R S 00x id %p").err().unwrap(), MessageParseError::ParseIntError);
}

#[test]
fn leading_zeros_parse() {
    let m = decode("\\sea.1 R S 004 id act").ok().unwrap();
    match m.message_type() {
        MessageType::Sea1 { parts, .. } => assert_eq!(parts, 4),
        _ => panic!("wrong variant"),
    }
}

#[test]
fn prelude_tokens() {
    let m = Message::make_resource_request("a", "b", "c");
    assert_eq!(m.message_type().prelude(), "\\sea.0");
}

#[test]
fn split_small_payload_is_single() {
    let v = Message::split("S", "R", "res", "Hello World!", 510).ok().unwrap();
    assert_eq!(v.len(), 1);
    match v[0].message_type() {
        MessageType::Sea0 { action, payload } => {
            assert_eq!(action, "res");
            assert_eq!(payload.as_deref(), Some("Hello World!"));
        }
        _ => panic!("wrong variant"),
    }
    assert!(v[0].to_line().len() < 510);
}

#[test]
fn split_chunked_concatenates_back() {
    // With a three-character id the empty-part framing takes 25 characters,
    // so a limit of 28 leaves two characters of payload per part.
    let v = Message::split_with_id("S", "R", "res", "Hello World!", 28, "tid").ok().unwrap();
    match v[0].message_type() {
        MessageType::Sea1 { action, id, parts } => {
            assert_eq!(action, "res");
            assert_eq!(id, "tid");
            assert_eq!(parts, 6);
        }
        _ => panic!("expected announcement first"),
    }
    assert_eq!(v.len(), 7);
    let mut joined = String::new();
    for (i, m) in v.iter().skip(1).enumerate() {
        match m.message_type() {
            MessageType::Sea2 { part, id, payload } => {
                assert_eq!(part as usize, i);
                assert_eq!(id, "tid");
                joined.push_str(&payload);
            }
            _ => panic!("expected part"),
        }
    }
    assert_eq!(joined, "Hello World!");
    // no oversized frames
    for m in &v {
        assert!(m.to_line().chars().count() < 28);
    }
}

#[test]
fn split_exact_multiple_has_no_empty_part() {
    // capacity is 2 as above; twelve characters make exactly six parts
    let v = Message::split_with_id("S", "R", "res", "abcdefghijkl", 28, "tid").ok().unwrap();
    assert_eq!(v.len(), 7);
    for m in v.iter().skip(1) {
        match m.message_type() {
            MessageType::Sea2 { payload, .. } => assert_eq!(payload.len(), 2),
            _ => panic!("expected part"),
        }
    }
}

#[test]
fn split_refuses_hopeless_limit() {
    let r = Message::split_with_id("SENDER", "RECEIVER", "res", "payload-too-big-to-fit", 10, "t");
    assert_eq!(r.err().unwrap(), ChunkingConfigError::CapacityNonPositive);
}

#[test]
fn make_resource_response_round_trips() {
    let mut payload = String::new();
    for i in 0..600 {
        payload.push((b'a' + (i % 26) as u8) as char);
    }
    let v = Message::make_resource_response("SERVER1", "JANLILI", &payload).ok().unwrap();
    assert!(v.len() > 1);
    for m in &v {
        assert!(m.to_line().chars().count() < 510);
    }
    // run the frames through the codec and the assembler
    let mut table = Assembler::new();
    let mut got = None;
    for m in &v {
        let decoded = decode(&m.to_line()).ok().unwrap();
        if let Some(done) = table.accept(&decoded, 0).ok().unwrap() {
            got = Some(done);
        }
    }
    let done = got.expect("transfer should complete");
    assert_eq!(done.action, "res");
    assert_eq!(done.payload, payload);
    assert_eq!(table.pending_transfers(), 0);
}

#[test]
fn out_of_order_delivery_assembles_in_index_order() {
    let mut table = Assembler::new();
    table.announce("peer", "t1", "res", 3, 0);
    assert_eq!(table.deliver_part("peer", "t1", 2, "cc").ok().unwrap(), None);
    assert_eq!(table.deliver_part("peer", "t1", 0, "aa").ok().unwrap(), None);
    let done = table.deliver_part("peer", "t1", 1, "bb").ok().unwrap().unwrap();
    assert_eq!(done.payload, "aabbcc");
    assert_eq!(done.action, "res");
    assert_eq!(table.pending_transfers(), 0);
}

#[test]
fn duplicate_part_is_idempotent() {
    let mut table = Assembler::new();
    table.announce("peer", "t1", "res", 2, 0);
    assert_eq!(table.deliver_part("peer", "t1", 0, "xx").ok().unwrap(), None);
    assert_eq!(table.deliver_part("peer", "t1", 0, "xx").ok().unwrap(), None);
    let done = table.deliver_part("peer", "t1", 1, "yy").ok().unwrap().unwrap();
    assert_eq!(done.payload, "xxyy");
    // after completion the transfer is gone: a late duplicate is rejected
    // and the payload was emitted exactly once
    let late = table.deliver_part("peer", "t1", 1, "yy");
    assert_eq!(late.err().unwrap(), ReassemblyError::UnknownTransfer);
    assert_eq!(table.pending_transfers(), 0);
}

#[test]
fn unknown_transfer_leaves_state_unchanged() {
    let mut table = Assembler::new();
    table.announce("peer", "known", "res", 2, 0);
    let r = table.deliver_part("peer", "missing", 0, "zz");
    assert_eq!(r.err().unwrap(), ReassemblyError::UnknownTransfer);
    let r2 = table.deliver_part("other-peer", "known", 0, "zz");
    assert_eq!(r2.err().unwrap(), ReassemblyError::UnknownTransfer);
    assert_eq!(table.pending_transfers(), 1);
    // the known transfer still completes normally
    assert_eq!(table.deliver_part("peer", "known", 0, "aa").ok().unwrap(), None);
    let done = table.deliver_part("peer", "known", 1, "bb").ok().unwrap().unwrap();
    assert_eq!(done.payload, "aabb");
}

#[test]
fn index_out_of_range_rejects_frame_only() {
    let mut table = Assembler::new();
    table.announce("peer", "t1", "res", 2, 0);
    let r = table.deliver_part("peer", "t1", 5, "zz");
    assert_eq!(r.err().unwrap(), ReassemblyError::IndexOutOfRange);
    assert_eq!(table.deliver_part("peer", "t1", 0, "aa").ok().unwrap(), None);
    let done = table.deliver_part("peer", "t1", 1, "bb").ok().unwrap().unwrap();
    assert_eq!(done.payload, "aabb");
}

#[test]
fn duplicate_announcement_keeps_existing_transfer() {
    let mut table = Assembler::new();
    table.announce("peer", "t1", "res", 2, 0);
    assert_eq!(table.deliver_part("peer", "t1", 0, "aa").ok().unwrap(), None);
    table.announce("peer", "t1", "res", 5, 9);
    let done = table.deliver_part("peer", "t1", 1, "bb").ok().unwrap().unwrap();
    assert_eq!(done.payload, "aabb");
}

#[test]
fn idle_transfers_are_evicted() {
    let mut table = Assembler::new();
    table.announce("peer", "old", "res", 2, 0);
    table.announce("peer", "new", "res", 2, 90);
    table.evict_idle(100, 50);
    assert_eq!(table.pending_transfers(), 1);
    let r = table.deliver_part("peer", "old", 0, "aa");
    assert_eq!(r.err().unwrap(), ReassemblyError::UnknownTransfer);
    assert_eq!(table.deliver_part("peer", "new", 0, "aa").ok().unwrap(), None);
}

#[test]
fn fresh_ids_make_decodable_frames() {
    // a long payload forces a random transfer id onto the wire; every frame
    // must survive the codec and the ids must agree across frames
    let payload = "x".repeat(1200);
    let v = Message::make_resource_response("SRV", "CLI", &payload).ok().unwrap();
    let mut ids = Vec::new();
    for m in &v {
        let back = decode(&m.to_line()).ok().unwrap();
        match back.message_type() {
            MessageType::Sea1 { id, .. } => ids.push(id),
            MessageType::Sea2 { id, .. } => ids.push(id),
            _ => panic!("unexpected single frame"),
        }
    }
    assert!(ids.len() > 1);
    for id in &ids {
        assert_eq!(id, &ids[0]);
        assert!(!id.is_empty());
    }
}

#[test]
fn accept_delivers_single_frames_immediately() {
    let mut table = Assembler::new();
    let m = decode("\\sea.0 R S res %hi there").ok().unwrap();
    let done = table.accept(&m, 0).ok().unwrap().unwrap();
    assert_eq!(done.action, "res");
    assert_eq!(done.payload, "hi there");
    assert_eq!(table.pending_transfers(), 0);
}
