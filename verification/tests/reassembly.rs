use tpm2net::split_packet;
use tpm2net::{
    FragmentError, NetPacket, PacketAssembler, PacketType, ReassemblyError, ReassemblyResult,
    Tpm2Packet,
};

fn complete_packet(r: ReassemblyResult) -> Tpm2Packet {
    match r {
        ReassemblyResult::Complete(p) => p,
        other => panic!("expected Complete, got {:?}", other),
    }
}

#[test]
fn split_produces_numbered_chunks() {
    let p = Tpm2Packet::new(PacketType::Command, vec![1, 2, 3, 4, 5]);
    // Encoded length is 10; chunks of 4 bytes -> 3 fragments.
    let frags = split_packet(&p, 4).unwrap();
    assert_eq!(frags.len(), 3);
    let bytes = p.bytes();
    assert_eq!(frags[0].packet_number, 1);
    assert_eq!(frags[1].packet_number, 2);
    assert_eq!(frags[2].packet_number, 3);
    for f in &frags {
        assert_eq!(f.packet_count, 3);
        assert_eq!(f.frame_size as usize, f.payload.len() + 2);
        assert!(matches!(f.packet_type, PacketType::Command));
    }
    assert_eq!(frags[0].payload, bytes[0..4].to_vec());
    assert_eq!(frags[1].payload, bytes[4..8].to_vec());
    assert_eq!(frags[2].payload, bytes[8..10].to_vec());
}

#[test]
fn split_zero_bound_rejected() {
    let p = Tpm2Packet::new(PacketType::Command, vec![1]);
    assert_eq!(
        split_packet(&p, 0).unwrap_err(),
        FragmentError::InvalidFragmentSize
    );
}

#[test]
fn split_bound_too_small_for_count_rejected() {
    // 65535 payload bytes encode to 65540 bytes; 1-byte fragments would
    // need more than 255 fragments.
    let p = Tpm2Packet::new(PacketType::DataFrame, vec![0; 65535]);
    assert_eq!(
        split_packet(&p, 1).unwrap_err(),
        FragmentError::InvalidFragmentSize
    );
}

#[test]
fn reassemble_in_order() {
    let p = Tpm2Packet::new(PacketType::DataFrame, vec![1, 2, 3, 4, 5, 6, 7, 8, 9]);
    let frags = split_packet(&p, 5).unwrap();
    let mut assembler = PacketAssembler::new(4096);
    let n = frags.len();
    let mut completed = None;
    for (i, f) in frags.into_iter().enumerate() {
        match assembler.assemble_packet(f) {
            ReassemblyResult::Incomplete => assert!(i + 1 < n),
            ReassemblyResult::Complete(q) => {
                assert_eq!(i + 1, n);
                completed = Some(q);
            }
            other => panic!("unexpected result {:?}", other),
        }
    }
    let q = completed.unwrap();
    assert_eq!(q.bytes(), p.bytes());
    assert_eq!(q, p);
}

#[test]
fn reassemble_any_permutation() {
    let p = Tpm2Packet::new(PacketType::Command, vec![10, 11, 12, 13, 14, 15, 16]);
    let frags = split_packet(&p, 3).unwrap();
    assert_eq!(frags.len(), 4);
    // Feed the fragments in a scrambled arrival order.
    let order = [2usize, 0, 3, 1];
    let mut assembler = PacketAssembler::new(4096);
    let mut frags: Vec<Option<NetPacket>> = frags.into_iter().map(Some).collect();
    let mut completed = None;
    for (step, &i) in order.iter().enumerate() {
        let f = frags[i].take().unwrap();
        match assembler.assemble_packet(f) {
            ReassemblyResult::Incomplete => assert!(step + 1 < order.len()),
            ReassemblyResult::Complete(q) => {
                assert_eq!(step + 1, order.len());
                completed = Some(q);
            }
            other => panic!("unexpected result {:?}", other),
        }
    }
    assert_eq!(completed.unwrap().bytes(), p.bytes());
}

#[test]
fn single_fragment_message_completes_at_once() {
    let p = Tpm2Packet::new(PacketType::RequestedResponse, vec![42]);
    let frags = split_packet(&p, 1000).unwrap();
    assert_eq!(frags.len(), 1);
    let mut assembler = PacketAssembler::new(1000);
    let q = complete_packet(assembler.assemble_packet(frags.into_iter().next().unwrap()));
    assert_eq!(q, p);
}

#[test]
fn duplicate_fragment_rejected_and_state_kept() {
    let p = Tpm2Packet::new(PacketType::DataFrame, vec![1, 2, 3, 4, 5, 6]);
    let frags = split_packet(&p, 4).unwrap();
    assert_eq!(frags.len(), 3);
    let mut assembler = PacketAssembler::new(4096);

    let f0 = NetPacket {
        payload: frags[0].payload.clone(),
        ..copy_meta(&frags[0])
    };
    assert!(matches!(
        assembler.assemble_packet(f0),
        ReassemblyResult::Incomplete
    ));

    // Same packet_number again, even with different bytes: rejected, and the
    // stored payload for that number is not overwritten.
    let forged = NetPacket {
        payload: vec![0xEE; frags[0].payload.len()],
        ..copy_meta(&frags[0])
    };
    assert!(matches!(
        assembler.assemble_packet(forged),
        ReassemblyResult::Duplicate
    ));

    let f1 = NetPacket {
        payload: frags[1].payload.clone(),
        ..copy_meta(&frags[1])
    };
    assert!(matches!(
        assembler.assemble_packet(f1),
        ReassemblyResult::Incomplete
    ));
    let f2 = NetPacket {
        payload: frags[2].payload.clone(),
        ..copy_meta(&frags[2])
    };
    let q = complete_packet(assembler.assemble_packet(f2));
    // The reconstruction used the first payload, not the forged duplicate.
    assert_eq!(q.bytes(), p.bytes());
}

fn copy_meta(f: &NetPacket) -> NetPacket {
    NetPacket {
        packet_type: f.packet_type,
        frame_size: f.frame_size,
        packet_number: f.packet_number,
        packet_count: f.packet_count,
        payload: Vec::new(),
    }
}

#[test]
fn mismatched_count_rejected() {
    let p = Tpm2Packet::new(PacketType::DataFrame, vec![1, 2, 3, 4, 5, 6]);
    let frags = split_packet(&p, 4).unwrap();
    let mut assembler = PacketAssembler::new(4096);
    let mut it = frags.into_iter();
    assert!(matches!(
        assembler.assemble_packet(it.next().unwrap()),
        ReassemblyResult::Incomplete
    ));
    // A fragment declaring a different total does not belong to this message.
    let stray = NetPacket {
        packet_type: PacketType::DataFrame,
        frame_size: 3,
        packet_number: 2,
        packet_count: 7,
        payload: vec![0],
    };
    assert!(matches!(
        assembler.assemble_packet(stray),
        ReassemblyResult::Mismatched
    ));
}

#[test]
fn out_of_range_number_rejected() {
    let mut assembler = PacketAssembler::new(4096);
    let zero = NetPacket {
        packet_type: PacketType::DataFrame,
        frame_size: 3,
        packet_number: 0,
        packet_count: 2,
        payload: vec![1],
    };
    assert!(matches!(
        assembler.assemble_packet(zero),
        ReassemblyResult::Mismatched
    ));
    let beyond = NetPacket {
        packet_type: PacketType::DataFrame,
        frame_size: 3,
        packet_number: 3,
        packet_count: 2,
        payload: vec![1],
    };
    assert!(matches!(
        assembler.assemble_packet(beyond),
        ReassemblyResult::Mismatched
    ));
}

#[test]
fn oversized_reconstruction_reported_and_state_cleared() {
    let p = Tpm2Packet::new(PacketType::Command, vec![1, 2, 3, 4, 5, 6, 7, 8]);
    // Encoded length 13 exceeds the configured maximum of 10.
    let frags = split_packet(&p, 5).unwrap();
    let mut assembler = PacketAssembler::new(10);
    let mut results = Vec::new();
    for f in frags {
        results.push(assembler.assemble_packet(f));
    }
    assert!(matches!(
        results.last().unwrap(),
        ReassemblyResult::Error(ReassemblyError::ReassemblyTooLarge)
    ));
    assert_eq!(assembler.assembled_count(), 0);

    // The in-progress state was cleared: a small message assembles cleanly
    // afterwards.
    let small = Tpm2Packet::new(PacketType::Command, vec![9]);
    let frags = split_packet(&small, 3).unwrap();
    let mut last = None;
    for f in frags {
        last = Some(assembler.assemble_packet(f));
    }
    let q = complete_packet(last.unwrap());
    assert_eq!(q, small);
    assert_eq!(assembler.assembled_count(), 1);
}

#[test]
fn corrupt_reconstruction_reported() {
    // Two fragments whose concatenation is not a packet encoding.
    let mut assembler = PacketAssembler::new(4096);
    let a = NetPacket {
        packet_type: PacketType::DataFrame,
        frame_size: 4,
        packet_number: 1,
        packet_count: 2,
        payload: vec![0x00, 0x01],
    };
    let b = NetPacket {
        packet_type: PacketType::DataFrame,
        frame_size: 4,
        packet_number: 2,
        packet_count: 2,
        payload: vec![0x02, 0x03],
    };
    assert!(matches!(
        assembler.assemble_packet(a),
        ReassemblyResult::Incomplete
    ));
    assert!(matches!(
        assembler.assemble_packet(b),
        ReassemblyResult::Error(ReassemblyError::CorruptReassembly)
    ));
    // The failed message was discarded; the reassembler accepts a new one.
    let p = Tpm2Packet::new(PacketType::DataFrame, vec![5, 6]);
    let frags = split_packet(&p, 100).unwrap();
    let q = complete_packet(assembler.assemble_packet(frags.into_iter().next().unwrap()));
    assert_eq!(q, p);
}

#[test]
fn trailing_bytes_after_reconstruction_are_corrupt() {
    // A valid encoding followed by one stray byte is not exactly one packet.
    let mut bytes = Tpm2Packet::new(PacketType::Command, vec![1]).bytes();
    bytes.push(0x00);
    let mut assembler = PacketAssembler::new(4096);
    let f = NetPacket {
        packet_type: PacketType::Command,
        frame_size: (bytes.len() + 2) as u16,
        packet_number: 1,
        packet_count: 1,
        payload: bytes,
    };
    assert!(matches!(
        assembler.assemble_packet(f),
        ReassemblyResult::Error(ReassemblyError::CorruptReassembly)
    ));
}

#[test]
fn reset_discards_partial_message_only() {
    let p = Tpm2Packet::new(PacketType::DataFrame, vec![1, 2, 3, 4, 5, 6]);
    let frags = split_packet(&p, 4).unwrap();
    let mut assembler = PacketAssembler::new(4096);
    assert!(matches!(
        assembler.assemble_packet(frags.into_iter().next().unwrap()),
        ReassemblyResult::Incomplete
    ));

    // Evict the stalled message; a fresh message with a different fragment
    // count is then accepted.
    assembler.reset();
    let q = Tpm2Packet::new(PacketType::Command, vec![7, 8]);
    let frags = split_packet(&q, 100).unwrap();
    let got = complete_packet(assembler.assemble_packet(frags.into_iter().next().unwrap()));
    assert_eq!(got, q);
    assert_eq!(assembler.assembled_count(), 1);
    assert_eq!(assembler.assembled_packet(0), &q);
}

#[test]
fn fragments_survive_the_wire() {
    // Full datagram path: split, encode each fragment, decode it on the far
    // side, and reassemble the byte-exact packet.
    let p = Tpm2Packet::new(PacketType::DataFrame, vec![3, 1, 4, 1, 5, 9, 2, 6, 5, 3, 5]);
    let frags = split_packet(&p, 6).unwrap();
    let mut assembler = PacketAssembler::new(4096);
    let mut completed = None;
    for f in frags {
        let datagram = f.bytes();
        let received = NetPacket::parse(&datagram).unwrap();
        assert_eq!(received, f);
        if let ReassemblyResult::Complete(q) = assembler.assemble_packet(received) {
            completed = Some(q);
        }
    }
    assert_eq!(completed.unwrap(), p);
}
