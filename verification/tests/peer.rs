use rustorrent::peer::{
    build_handshake, build_handshake_with_hybrid_upgrade, decode_message, encode_hash_request_payload,
    encode_message, parse_handshake, read_handshake, read_message, write_handshake, write_message,
    Error, HashRequest, Message, MessageReader, MAX_MESSAGE_LEN,
};
use std::io::{Cursor, Read};

struct OneByteReader {
    bytes: Vec<u8>,
    offset: usize,
    reads: usize,
}

impl Read for OneByteReader {
    fn read(&mut self, buf: &mut [u8]) -> std::io::Result<usize> {
        self.reads += 1;
        if self.offset == self.bytes.len() {
            return Ok(0);
        }
        buf[0] = self.bytes[self.offset];
        self.offset += 1;
        Ok(1)
    }
}

struct SingleChunkReader {
    bytes: Option<Vec<u8>>,
    reads: usize,
}

impl Read for SingleChunkReader {
    fn read(&mut self, buf: &mut [u8]) -> std::io::Result<usize> {
        self.reads += 1;
        let bytes = self
            .bytes
            .take()
            .expect("buffered message parsing performed an extra read");
        buf[..bytes.len()].copy_from_slice(&bytes);
        Ok(bytes.len())
    }
}

#[test]
fn handshake_roundtrip() {
    let info_hash = [1u8; 20];
    let peer_id = [2u8; 20];
    let bytes = build_handshake(info_hash, peer_id, true);
    let parsed = parse_handshake(&bytes).unwrap();
    assert_eq!(parsed.info_hash, info_hash);
    assert_eq!(parsed.peer_id, peer_id);
    assert!(parsed.supports_extensions());
    assert!(!parsed.supports_hybrid_v2_upgrade());
}

#[test]
fn hybrid_upgrade_handshake_sets_only_the_bep52_reserved_bit() {
    let bytes = build_handshake_with_hybrid_upgrade([1u8; 20], [2u8; 20], true, true);
    let parsed = parse_handshake(&bytes).unwrap();
    assert!(parsed.supports_extensions());
    assert!(parsed.supports_hybrid_v2_upgrade());
    assert_eq!(parsed.reserved, [0, 0, 0, 0, 0, 0x10, 0, 0x10]);
}

#[test]
fn message_roundtrip() {
    let hash_request = HashRequest {
        pieces_root: [9u8; 32],
        base_layer: 2,
        index: 0,
        length: 2,
        proof_layers: 3,
    };
    let messages = vec![
        Message::KeepAlive,
        Message::Choke,
        Message::Interested,
        Message::Have(42),
        Message::Request {
            index: 1,
            begin: 2,
            length: 3,
        },
        Message::Piece {
            index: 4,
            begin: 8,
            block: vec![1, 2, 3, 4],
        },
        Message::Extended {
            ext_id: 2,
            payload: b"hello".to_vec(),
        },
        Message::HashRequest(hash_request),
        Message::Hashes {
            request: hash_request,
            hashes: vec![[1u8; 32], [2u8; 32], [3u8; 32]],
        },
        Message::HashReject(hash_request),
    ];

    for msg in messages {
        let data = encode_message(&msg);
        let mut cursor = Cursor::new(data);
        let decoded = read_message(&mut cursor).unwrap();
        assert_eq!(decoded, msg);
    }
}

#[test]
fn parse_handshake_rejects_wrong_protocol() {
    let mut bytes = build_handshake([1u8; 20], [2u8; 20], false);
    bytes[1] = b'X';
    assert!(matches!(
        parse_handshake(&bytes),
        Err(Error::InvalidProtocol)
    ));
}

#[test]
fn read_message_rejects_oversized_length() {
    let len = (MAX_MESSAGE_LEN as u32).saturating_add(1);
    let data = len.to_be_bytes();
    let mut cursor = Cursor::new(data);
    assert!(matches!(
        read_message(&mut cursor),
        Err(Error::InvalidLength)
    ));
}

#[test]
fn write_message_rejects_oversized_payload() {
    let message = Message::Extended {
        ext_id: 1,
        payload: vec![0; MAX_MESSAGE_LEN],
    };
    let mut out = Vec::new();
    assert!(matches!(
        write_message(&mut out, &message),
        Err(Error::InvalidLength)
    ));
    assert!(out.is_empty());
}

#[test]
fn hash_messages_use_bep52_ids_and_fixed_header() {
    let request = HashRequest {
        pieces_root: [0xabu8; 32],
        base_layer: 4,
        index: 8,
        length: 4,
        proof_layers: 5,
    };
    let request_bytes = encode_message(&Message::HashRequest(request));
    assert_eq!(
        u32::from_be_bytes(request_bytes[..4].try_into().unwrap()),
        49
    );
    assert_eq!(request_bytes[4], 21);
    assert_eq!(&request_bytes[5..37], &[0xabu8; 32]);

    let hashes = vec![[1u8; 32], [2u8; 32], [3u8; 32], [4u8; 32]];
    let hashes_bytes = encode_message(&Message::Hashes {
        request,
        hashes: hashes.clone(),
    });
    assert_eq!(hashes_bytes[4], 22);
    assert_eq!(hashes_bytes.len(), 4 + 49 + hashes.len() * 32);

    let reject_bytes = encode_message(&Message::HashReject(request));
    assert_eq!(reject_bytes[4], 23);
}

#[test]
fn hash_message_decoder_enforces_request_and_response_bounds() {
    let request = HashRequest {
        pieces_root: [7u8; 32],
        base_layer: 0,
        index: 0,
        length: 2,
        proof_layers: 1,
    };

    let mut invalid_length = encode_hash_request_payload(21, &request);
    invalid_length[41..45].copy_from_slice(&513u32.to_be_bytes());
    assert!(matches!(
        decode_message(&invalid_length),
        Err(Error::InvalidMessage)
    ));

    let mut misaligned = encode_hash_request_payload(21, &request);
    misaligned[37..41].copy_from_slice(&1u32.to_be_bytes());
    assert!(matches!(
        decode_message(&misaligned),
        Err(Error::InvalidMessage)
    ));

    let too_few_hashes = encode_hash_request_payload(22, &request);
    assert!(matches!(
        decode_message(&too_few_hashes),
        Err(Error::InvalidMessage)
    ));

    let too_many_hashes = Message::Hashes {
        request,
        hashes: vec![[0u8; 32]; 4],
    };
    let mut out = Vec::new();
    assert!(matches!(
        write_message(&mut out, &too_many_hashes),
        Err(Error::InvalidLength)
    ));
    assert!(out.is_empty());
}

#[test]
fn decode_message_rejects_unsupported_id() {
    assert!(matches!(
        decode_message(&[99]),
        Err(Error::UnsupportedMessage(99))
    ));
}

#[test]
fn message_reader_parses_incremental_frames() {
    let mut reader = MessageReader::new();
    reader.push_bytes(&encode_message(&Message::KeepAlive));
    reader.push_bytes(&encode_message(&Message::Have(7)));

    let first = reader.try_parse().unwrap();
    let second = reader.try_parse().unwrap();
    let third = reader.try_parse().unwrap();

    assert_eq!(first, Some(Message::KeepAlive));
    assert_eq!(second, Some(Message::Have(7)));
    assert_eq!(third, None);
}

#[test]
fn message_reader_returns_after_each_slow_trickle_read() {
    let mut source = OneByteReader {
        bytes: encode_message(&Message::Interested),
        offset: 0,
        reads: 0,
    };
    let mut reader = MessageReader::new();

    for expected_reads in 1..=4 {
        assert_eq!(reader.read_message(&mut source).unwrap(), None);
        assert_eq!(source.reads, expected_reads);
    }
    assert_eq!(
        reader.read_message(&mut source).unwrap(),
        Some(Message::Interested)
    );
    assert_eq!(source.reads, 5);
}

#[test]
fn message_reader_parses_buffered_followup_without_another_read() {
    let mut bytes = encode_message(&Message::KeepAlive);
    bytes.extend_from_slice(&encode_message(&Message::Have(11)));
    let mut source = SingleChunkReader {
        bytes: Some(bytes),
        reads: 0,
    };
    let mut reader = MessageReader::new();

    assert_eq!(
        reader.read_message(&mut source).unwrap(),
        Some(Message::KeepAlive)
    );
    assert_eq!(
        reader.read_message(&mut source).unwrap(),
        Some(Message::Have(11))
    );
    assert_eq!(source.reads, 1);
}

#[test]
fn every_message_kind_survives_a_frame_roundtrip() {
    let request = HashRequest {
        pieces_root: [3u8; 32],
        base_layer: 1,
        index: 4,
        length: 4,
        proof_layers: 2,
    };
    let messages = vec![
        Message::Unchoke,
        Message::NotInterested,
        Message::Bitfield(vec![0xff, 0x01]),
        Message::Cancel { index: 9, begin: 16384, length: 16384 },
        Message::Port(6881),
        Message::SuggestPiece(3),
        Message::HaveAll,
        Message::HaveNone,
        Message::RejectRequest { index: 1, begin: 0, length: 1 },
        Message::AllowedFast(0xdead_beef),
        Message::Hashes { request, hashes: vec![[5u8; 32]; 6] },
    ];
    for msg in messages {
        let data = encode_message(&msg);
        let mut reader = MessageReader::new();
        reader.push_bytes(&data);
        reader.push_bytes(&[0, 0]);
        assert_eq!(reader.try_parse().unwrap(), Some(msg));
        assert_eq!(reader.try_parse().unwrap(), None);
    }
}

#[test]
fn exact_wire_bytes_of_simple_messages() {
    assert_eq!(encode_message(&Message::KeepAlive), vec![0, 0, 0, 0]);
    assert_eq!(encode_message(&Message::Choke), vec![0, 0, 0, 1, 0]);
    assert_eq!(encode_message(&Message::Have(0x01020304)), vec![0, 0, 0, 5, 4, 1, 2, 3, 4]);
    assert_eq!(encode_message(&Message::Port(0x1ae1)), vec![0, 0, 0, 3, 9, 0x1a, 0xe1]);
}

#[test]
fn decoder_rejects_malformed_payloads() {
    assert!(matches!(decode_message(&[]), Err(Error::InvalidMessage)));
    assert!(matches!(decode_message(&[0, 1]), Err(Error::InvalidMessage)));
    assert!(matches!(decode_message(&[4, 0, 0, 1]), Err(Error::InvalidMessage)));
    assert!(matches!(decode_message(&[7, 0, 0, 0, 1, 0, 0, 0]), Err(Error::InvalidMessage)));
    assert!(matches!(decode_message(&[9, 1]), Err(Error::InvalidMessage)));
    assert!(matches!(decode_message(&[20]), Err(Error::InvalidMessage)));
    assert_eq!(
        decode_message(&[7, 0, 0, 0, 1, 0, 0, 0, 2]).unwrap(),
        Message::Piece { index: 1, begin: 2, block: vec![] }
    );
}

#[test]
fn reader_rejects_oversized_frame_header_without_consuming_it() {
    let mut reader = MessageReader::new();
    reader.push_bytes(&((MAX_MESSAGE_LEN as u32) + 1).to_be_bytes());
    assert!(matches!(reader.try_parse(), Err(Error::InvalidLength)));
    assert!(matches!(reader.try_parse(), Err(Error::InvalidLength)));
}

#[test]
fn handshake_io_roundtrip_through_a_buffer() {
    let mut out = Vec::new();
    write_handshake(&mut out, [4u8; 20], [5u8; 20], false).unwrap();
    assert_eq!(out.len(), 68);
    let parsed = read_handshake(&mut Cursor::new(out)).unwrap();
    assert_eq!(parsed.info_hash, [4u8; 20]);
    assert_eq!(parsed.peer_id, [5u8; 20]);
    assert!(!parsed.supports_extensions());
    assert!(matches!(read_handshake(&mut Cursor::new(vec![19u8; 10])), Err(Error::Io(_))));
    let mut short = build_handshake([0u8; 20], [0u8; 20], true);
    short[0] = 18;
    assert!(matches!(parse_handshake(&short), Err(Error::InvalidHandshake)));
    assert!(matches!(parse_handshake(&short[..67]), Err(Error::InvalidHandshake)));
}

#[test]
fn reader_reports_closed_stream_as_io_error() {
    let mut reader = MessageReader::new();
    let mut empty = Cursor::new(Vec::<u8>::new());
    assert!(matches!(reader.read_message(&mut empty), Err(Error::Io(_))));
}
