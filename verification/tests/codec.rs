use fec::de::{FecDecoder, Group};
use fec::en::FecEncoder;
use fec::proto::{
    data_mss, data_to_symbol, decode_data_symbol_hdr, decode_hdr, encode_data_symbol_hdr,
    encode_hdr, symbol_size, symbol_to_data, PacketHeader, ParityHeader, SymbolGlobalId,
};

#[test]
fn en_de_data() {
    const MSS: usize = 16;
    let symbol_size = symbol_size(MSS).unwrap();
    let data_mss = data_mss(MSS).unwrap();
    let mut en = FecEncoder::new(symbol_size);
    let mut de = FecDecoder::new(32, symbol_size, 20);
    assert_eq!(en.group_data_count(), 0);
    let data = &[0, 1, 2];
    assert!(data.len() <= data_mss);
    let mut buf = vec![0u8; 14];
    let n = en.encode_data(data, &mut buf);
    let pkt = &buf[..n];
    let mut recovered: Vec<Vec<u8>> = vec![];
    let n = de.decode(pkt, &mut recovered).unwrap();
    assert!(recovered.is_empty());
    let data_ = &pkt[n..];
    assert_eq!(data, data_);
}

#[test]
fn en_de_parity() {
    const MSS: usize = 16;
    let symbol_size = symbol_size(MSS).unwrap();
    let data_mss = data_mss(MSS).unwrap();
    let mut en = FecEncoder::new(symbol_size);
    let mut de = FecDecoder::new(32, symbol_size, 20);
    assert_eq!(en.group_data_count(), 0);
    let data = &[0, 1, 2];
    assert!(data.len() <= data_mss);
    let mut buf = vec![0u8; MSS];
    let n = en.encode_data(data, &mut buf);
    let _lost_pkt = &buf[..n];
    assert_eq!(en.group_data_count(), 1);
    let mut parity_en = en.flush_parities(1);
    let n = parity_en.encode_parity(&mut buf).unwrap();
    let pkt = &buf[..n];
    let mut recovered: Vec<Vec<u8>> = vec![];
    assert!(de.decode(pkt, &mut recovered).is_none());
    assert_eq!(recovered.len(), 1);
    let data_ = &recovered[0];
    assert_eq!(&data[..], &data_[..]);
}

#[test]
fn test_data_symbol_conversion() {
    let data = &[1, 2, 3, 4, 5];
    let symbol_size = 1024;
    let symbol = data_to_symbol(data, symbol_size);
    assert_eq!(symbol.len(), symbol_size);
    let mut data_buf = vec![0u8; 5];
    let n = symbol_to_data(&symbol, &mut data_buf).unwrap();
    assert_eq!(data, &data_buf[..n]);
}

#[test]
fn test_data_symbol_hdr() {
    let mut buf = vec![0u8; 10];
    let n = encode_data_symbol_hdr(3, &mut buf);
    let (n_, data_size) = decode_data_symbol_hdr(&buf).unwrap();
    assert_eq!(n, n_);
    assert_eq!(data_size, 3);
}

#[test]
fn test_hdr() {
    let hdrs = &[
        PacketHeader {
            symbol_global_id: SymbolGlobalId {
                group_id: 2,
                symbol_id: 3,
            },
            parity: None,
        },
        PacketHeader {
            symbol_global_id: SymbolGlobalId {
                group_id: 2,
                symbol_id: 3,
            },
            parity: Some(ParityHeader {
                data_count: 4,
                parity_count: 5,
            }),
        },
    ];
    for hdr in hdrs {
        let mut buf = vec![0u8; 1024];
        let n = encode_hdr(*hdr, &mut buf);
        let (hdr_, n_) = decode_hdr(&buf).unwrap();
        assert_eq!(*hdr, hdr_);
        assert_eq!(n, n_);
    }
}

#[test]
fn header_bytes_are_big_endian_and_fixed_size() {
    let hdr = PacketHeader {
        symbol_global_id: SymbolGlobalId {
            group_id: 0x0102030405060708,
            symbol_id: 9,
        },
        parity: Some(ParityHeader {
            data_count: 1,
            parity_count: 2,
        }),
    };
    let mut buf = vec![0u8; 11];
    let n = encode_hdr(hdr, &mut buf);
    assert_eq!(n, 11);
    assert_eq!(buf, vec![1, 2, 3, 4, 5, 6, 7, 8, 9, 1, 2]);

    let data_hdr = PacketHeader {
        symbol_global_id: SymbolGlobalId {
            group_id: 7,
            symbol_id: 0,
        },
        parity: None,
    };
    let n = encode_hdr(data_hdr, &mut buf);
    assert_eq!(n, 11);
    assert_eq!(buf, vec![0, 0, 0, 0, 0, 0, 0, 7, 0, 0, 0]);
}

#[test]
fn data_symbol_layout_is_exact() {
    let symbol = data_to_symbol(&[7], 5);
    assert_eq!(symbol, vec![0, 1, 7, 0, 0]);
}

#[test]
fn data_passthrough_offset_is_header_size() {
    let symbol_size = symbol_size(16).unwrap();
    let mut en = FecEncoder::new(symbol_size);
    let mut de = FecDecoder::new(32, symbol_size, 20);
    let mut buf = vec![0u8; 14];
    let n = en.encode_data(&[0, 1, 2], &mut buf);
    assert_eq!(n, 14);
    let mut recovered: Vec<Vec<u8>> = vec![];
    let n = de.decode(&buf[..14], &mut recovered);
    assert_eq!(n, Some(11));
    assert!(recovered.is_empty());
    assert_eq!(&buf[11..14], &[0, 1, 2]);
}

#[test]
fn mss_too_small_is_rejected() {
    assert_eq!(symbol_size(10), None);
    assert_eq!(symbol_size(11), Some(0));
    assert_eq!(symbol_size(16), Some(5));
    assert_eq!(data_mss(12), None);
    assert_eq!(data_mss(13), Some(0));
    assert_eq!(data_mss(16), Some(3));
}

#[test]
fn short_header_yields_none() {
    let symbol_size = symbol_size(16).unwrap();
    let mut en = FecEncoder::new(symbol_size);
    let mut de = FecDecoder::new(32, symbol_size, 20);
    let mut buf = vec![0u8; 14];
    let n = en.encode_data(&[0, 1, 2], &mut buf);
    assert_eq!(n, 14);
    let mut recovered: Vec<Vec<u8>> = vec![];
    assert!(de.decode(&buf[..10], &mut recovered).is_none());
    assert!(recovered.is_empty());
    assert!(decode_hdr(&buf[..10]).is_none());
}

#[test]
fn oversize_symbol_id_is_rejected() {
    let symbol_size = symbol_size(16).unwrap();
    let mut de = FecDecoder::new(32, symbol_size, 4);
    let hdr = PacketHeader {
        symbol_global_id: SymbolGlobalId {
            group_id: 0,
            symbol_id: 4,
        },
        parity: None,
    };
    let mut pkt = vec![0u8; 14];
    let n = encode_hdr(hdr, &mut pkt);
    assert_eq!(n, 11);
    pkt[11] = 1;
    let mut recovered: Vec<Vec<u8>> = vec![];
    assert!(de.decode(&pkt, &mut recovered).is_none());
    assert!(recovered.is_empty());
}

#[test]
fn parity_only_group_is_not_decodable() {
    let symbol_size = symbol_size(16).unwrap();
    let mut de = FecDecoder::new(32, symbol_size, 20);
    let hdr = PacketHeader {
        symbol_global_id: SymbolGlobalId {
            group_id: 0,
            symbol_id: 3,
        },
        parity: Some(ParityHeader {
            data_count: 3,
            parity_count: 1,
        }),
    };
    let mut pkt = vec![0u8; 16];
    let n = encode_hdr(hdr, &mut pkt);
    assert_eq!(n, 11);
    let mut recovered: Vec<Vec<u8>> = vec![];
    assert!(de.decode(&pkt, &mut recovered).is_none());
    assert!(recovered.is_empty());
}

#[test]
fn window_eviction_drops_old_groups() {
    const MSS: usize = 16;
    let symbol_size = symbol_size(MSS).unwrap();
    let mut en = FecEncoder::new(symbol_size);
    let mut de = FecDecoder::new(2, symbol_size, 4);
    let mut buf = vec![0u8; MSS];

    // Group 0: two data symbols, one parity.  Deliver only the first data
    // symbol and keep the parity packet for later.
    let n = en.encode_data(&[1], &mut buf);
    let d0_g0 = buf[..n].to_vec();
    let _ = en.encode_data(&[2], &mut buf);
    let mut parity_en = en.flush_parities(1);
    let n = parity_en.encode_parity(&mut buf).unwrap();
    let parity_g0 = buf[..n].to_vec();

    // Groups 1 and 2 are flushed so that the next data packet is group 3.
    let n = en.encode_data(&[3], &mut buf);
    let d0_g1 = buf[..n].to_vec();
    let _ = en.flush_parities(1);
    let _ = en.encode_data(&[4], &mut buf);
    let _ = en.flush_parities(1);
    let n = en.encode_data(&[5], &mut buf);
    let d0_g3 = buf[..n].to_vec();

    let mut recovered: Vec<Vec<u8>> = vec![];
    assert!(de.decode(&d0_g0, &mut recovered).is_some());
    assert!(de.decode(&d0_g1, &mut recovered).is_some());
    // Admitting group 3 slides the window past group 0.
    assert!(de.decode(&d0_g3, &mut recovered).is_some());
    // The late parity for group 0 finds no retained data symbol: nothing is
    // recovered.
    assert!(de.decode(&parity_g0, &mut recovered).is_none());
    assert!(recovered.is_empty());
}

#[test]
fn lost_data_symbol_is_recovered_from_parity() {
    const MSS: usize = 16;
    let symbol_size = symbol_size(MSS).unwrap();
    let mut en = FecEncoder::new(symbol_size);
    let mut de = FecDecoder::new(32, symbol_size, 20);
    let mut buf = vec![0u8; MSS];

    let _ = en.encode_data(&[10, 20], &mut buf);
    let lost = vec![10u8, 20];
    let n = en.encode_data(&[30, 40, 50], &mut buf);
    let d1 = buf[..n].to_vec();
    let mut parity_en = en.flush_parities(1);
    let n = parity_en.encode_parity(&mut buf).unwrap();
    let parity = buf[..n].to_vec();
    assert!(parity_en.encode_parity(&mut buf).is_none());

    let mut recovered: Vec<Vec<u8>> = vec![];
    assert!(de.decode(&d1, &mut recovered).is_some());
    assert!(recovered.is_empty());
    assert!(de.decode(&parity, &mut recovered).is_none());
    assert_eq!(recovered, vec![lost]);
}

#[test]
fn duplicate_parity_recovers_only_once() {
    const MSS: usize = 16;
    let symbol_size = symbol_size(MSS).unwrap();
    let mut en = FecEncoder::new(symbol_size);
    let mut de = FecDecoder::new(32, symbol_size, 20);
    let mut buf = vec![0u8; MSS];
    let _ = en.encode_data(&[0, 1, 2], &mut buf);
    let mut parity_en = en.flush_parities(1);
    let n = parity_en.encode_parity(&mut buf).unwrap();
    let pkt = buf[..n].to_vec();
    let mut recovered: Vec<Vec<u8>> = vec![];
    assert!(de.decode(&pkt, &mut recovered).is_none());
    assert_eq!(recovered.len(), 1);
    assert_eq!(recovered[0], vec![0, 1, 2]);
    assert!(de.decode(&pkt, &mut recovered).is_none());
    assert_eq!(recovered.len(), 1);
}

#[test]
fn group_recovers_single_data_symbol() {
    const MSS: usize = 16;
    let symbol_size = symbol_size(MSS).unwrap();
    let mut en = FecEncoder::new(symbol_size);
    let mut buf = vec![0u8; MSS];
    let _ = en.encode_data(&[0, 1, 2], &mut buf);
    let mut parity_en = en.flush_parities(1);
    let n = parity_en.encode_parity(&mut buf).unwrap();
    let parity_symbol = buf[11..n].to_vec();

    let mut group = Group::new();
    group.push(1, parity_symbol);
    let symbols = group.recover(1, 1);
    assert_eq!(symbols.len(), 1);
    let mut data_buf = vec![0u8; symbol_size];
    let n = symbol_to_data(&symbols[0], &mut data_buf).unwrap();
    assert_eq!(&data_buf[..n], &[0, 1, 2]);

    // Running the same recovery again reports nothing new.
    let symbols = group.recover(1, 1);
    assert!(symbols.is_empty());
}

#[test]
fn two_lost_data_symbols_are_recovered_from_two_parities() {
    const MSS: usize = 16;
    let symbol_size = symbol_size(MSS).unwrap();
    let mut en = FecEncoder::new(symbol_size);
    let mut de = FecDecoder::new(32, symbol_size, 20);
    let mut buf = vec![0u8; MSS];

    let _ = en.encode_data(&[1, 2], &mut buf);
    let _ = en.encode_data(&[3], &mut buf);
    let mut parity_en = en.flush_parities(2);
    let n = parity_en.encode_parity(&mut buf).unwrap();
    let p_a = buf[..n].to_vec();
    let n = parity_en.encode_parity(&mut buf).unwrap();
    let p_b = buf[..n].to_vec();
    assert!(parity_en.encode_parity(&mut buf).is_none());

    // Both data packets are lost; the two parities alone rebuild them, in
    // slot order, when the last needed parity arrives.
    let mut recovered: Vec<Vec<u8>> = vec![];
    assert!(de.decode(&p_a, &mut recovered).is_none());
    assert!(recovered.is_empty());
    assert!(de.decode(&p_b, &mut recovered).is_none());
    assert_eq!(recovered, vec![vec![1, 2], vec![3]]);
}

#[test]
fn duplicate_data_packet_is_idempotent() {
    const MSS: usize = 16;
    let symbol_size = symbol_size(MSS).unwrap();
    let mut en = FecEncoder::new(symbol_size);
    let mut de = FecDecoder::new(32, symbol_size, 20);
    let mut buf = vec![0u8; MSS];
    let n = en.encode_data(&[6, 7], &mut buf);
    let pkt = buf[..n].to_vec();
    let mut recovered: Vec<Vec<u8>> = vec![];
    assert_eq!(de.decode(&pkt, &mut recovered), Some(11));
    assert_eq!(de.decode(&pkt, &mut recovered), Some(11));
    assert!(recovered.is_empty());
}

#[test]
fn full_window_admits_resident_group_only() {
    const MSS: usize = 16;
    let symbol_size = symbol_size(MSS).unwrap();
    let mut en = FecEncoder::new(symbol_size);
    let mut de = FecDecoder::new(1, symbol_size, 20);
    let mut buf = vec![0u8; MSS];

    let n = en.encode_data(&[1], &mut buf);
    let d0_g0 = buf[..n].to_vec();
    let n = en.encode_data(&[2], &mut buf);
    let d1_g0 = buf[..n].to_vec();
    let _ = en.flush_parities(1);
    let n = en.encode_data(&[3], &mut buf);
    let d0_g1 = buf[..n].to_vec();

    let mut recovered: Vec<Vec<u8>> = vec![];
    assert_eq!(de.decode(&d0_g0, &mut recovered), Some(11));
    // The window is full, but group 0 is resident, so its packets still land.
    assert_eq!(de.decode(&d1_g0, &mut recovered), Some(11));
    // A packet for a new group inside the window finds no free slot.
    assert_eq!(de.decode(&d0_g1, &mut recovered), None);
    assert!(recovered.is_empty());
}

#[test]
fn truncated_symbol_prefix_is_rejected() {
    // A symbol shorter than its length prefix claims is dropped.
    let mut data_buf = vec![0u8; 8];
    assert_eq!(symbol_to_data(&[0], &mut data_buf), None);
    assert_eq!(symbol_to_data(&[0, 9, 1, 2], &mut data_buf), None);
    // A short output buffer receives a prefix of the datagram.
    let symbol = data_to_symbol(&[1, 2, 3, 4], 16);
    let mut small = vec![0u8; 2];
    assert_eq!(symbol_to_data(&symbol, &mut small), Some(2));
    assert_eq!(small, vec![1, 2]);
}
