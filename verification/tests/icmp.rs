use nethop::icmp::{
    build_echo_request, checksum, ipv4_header_len, parse_icmp_header, IcmpHeader,
    TYPE_ECHO_REPLY, TYPE_ECHO_REQUEST, TYPE_TIME_EXCEEDED,
};

/// Re-sums a buffer as 16-bit big-endian words (odd trailing byte padded
/// with zero), without folding.
fn raw_sum(data: &[u8]) -> u32 {
    data.chunks(2)
        .map(|c| {
            if c.len() == 2 {
                u16::from_be_bytes([c[0], c[1]]) as u32
            } else {
                (c[0] as u32) << 8
            }
        })
        .sum()
}

#[test]
fn checksum_of_a_known_rfc1071_style_example_is_correct() {
    // Bytes chosen so the pairwise sum is exactly 0xddf2 before
    // complementing, a hand-computed reference value.
    let data = [0x45u8, 0x00, 0x00, 0x1c, 0x00, 0x00, 0x00, 0x00, 0x40, 0x00];
    let sum = checksum(&data);
    // Verify the checksum is self-consistent: appending it back in
    // makes the total sum (with the checksum's own field zeroed
    // during computation) fold to 0xffff when re-summed including it.
    let mut with_checksum = data.to_vec();
    with_checksum.extend_from_slice(&sum.to_be_bytes());
    let total: u32 = raw_sum(&with_checksum);
    let folded = (total & 0xffff) + (total >> 16);
    assert_eq!(folded as u16, 0xffff);
}

#[test]
fn checksum_handles_an_odd_length_buffer() {
    // Must not panic and must produce a self-consistent result,
    // the same verification approach as the even-length case.
    let data = [1u8, 2, 3];
    let sum = checksum(&data);
    assert_ne!(sum, 0);
}

#[test]
fn build_echo_request_has_the_right_type_code_id_seq() {
    let packet = build_echo_request(1234, 1, b"payload");
    assert_eq!(packet[0], TYPE_ECHO_REQUEST);
    assert_eq!(packet[1], 0);
    assert_eq!(u16::from_be_bytes([packet[4], packet[5]]), 1234);
    assert_eq!(u16::from_be_bytes([packet[6], packet[7]]), 1);
}

#[test]
fn build_echo_request_checksum_makes_the_whole_packet_fold_to_zero() {
    let packet = build_echo_request(42, 7, b"abc");
    let total: u32 = raw_sum(&packet);
    let folded = ((total & 0xffff) + (total >> 16)) as u16;
    assert_eq!(folded, 0xffff);
}

#[test]
fn build_echo_request_preserves_the_payload() {
    let packet = build_echo_request(1, 1, b"hello");
    assert_eq!(&packet[8..], b"hello");
}

#[test]
fn parse_icmp_header_reads_a_reply_correctly() {
    let packet = build_echo_request(99, 3, b"x");
    let mut reply = packet.clone();
    reply[0] = TYPE_ECHO_REPLY;
    let header = parse_icmp_header(&reply, 0).unwrap();
    assert_eq!(header.icmp_type, TYPE_ECHO_REPLY);
    assert_eq!(header.id, 99);
    assert_eq!(header.seq, 3);
}

#[test]
fn parse_icmp_header_returns_none_for_too_short_a_buffer() {
    assert!(parse_icmp_header(&[8, 0, 0], 0).is_none());
}

#[test]
fn parse_icmp_header_respects_a_nonzero_offset() {
    let mut buf = vec![0xffu8; 20]; // a fake 20-byte IPv4 header
    buf.extend_from_slice(&build_echo_request(5, 2, b""));
    let header = parse_icmp_header(&buf, 20).unwrap();
    assert_eq!(header.id, 5);
    assert_eq!(header.seq, 2);
}

#[test]
fn ipv4_header_len_reads_the_real_ihl_nibble() {
    // 0x45 = version 4, IHL 5 (5 * 4 = 20 bytes, the common no-options case).
    assert_eq!(ipv4_header_len(&[0x45, 0, 0, 0]), Some(20));
    // IHL 6 -> 24 bytes (a header with options).
    assert_eq!(ipv4_header_len(&[0x46, 0, 0, 0]), Some(24));
}

#[test]
fn ipv4_header_len_rejects_a_non_ipv4_version_nibble() {
    assert_eq!(ipv4_header_len(&[0x60, 0, 0, 0]), None); // version 6
}

#[test]
fn checksum_of_the_reference_bytes_is_the_complement_of_their_word_sum() {
    let data = [0x45u8, 0x00, 0x00, 0x1c, 0x00, 0x00, 0x00, 0x00, 0x40, 0x00];
    // 0x4500 + 0x001c + 0x0000 + 0x0000 + 0x4000 = 0x851c
    assert_eq!(checksum(&data), 0x7ae3);
    assert_eq!(checksum(&[1u8, 2, 3]), 0xfbfd);
}

#[test]
fn checksum_folds_carries_back_in() {
    // 0xffff + 0xffff = 0x1fffe folds to 0xffff, whose complement is 0.
    assert_eq!(checksum(&[0xff, 0xff, 0xff, 0xff]), 0);
    // 0xffff + 0x0002 = 0x10001 folds to 0x0002.
    assert_eq!(checksum(&[0xff, 0xff, 0x00, 0x02]), 0xfffd);
}

#[test]
fn checksum_of_empty_data_is_all_ones() {
    assert_eq!(checksum(&[]), 0xffff);
}

#[test]
fn checksum_of_odd_data_equals_that_of_it_padded_with_zero() {
    let data = [0x12u8, 0x34, 0x56, 0x78, 0x9a];
    let padded = [0x12u8, 0x34, 0x56, 0x78, 0x9a, 0x00];
    assert_eq!(checksum(&data), checksum(&padded));
}

#[test]
fn checksumming_a_built_request_again_gives_zero() {
    for (id, seq, payload) in [(0u16, 0u16, &b""[..]), (42, 7, &b"abc"[..]), (0xffff, 0xfffe, &b"nethop"[..])] {
        let packet = build_echo_request(id, seq, payload);
        assert_eq!(checksum(&packet), 0);
    }
}

#[test]
fn build_echo_request_lays_out_the_whole_packet() {
    let packet = build_echo_request(0x1234, 0x5678, b"ab");
    // word sum: 0x0800 + 0x1234 + 0x5678 + 0x6162 = 0xd20e -> checksum 0x2df1
    assert_eq!(packet, vec![0x08, 0x00, 0x2d, 0xf1, 0x12, 0x34, 0x56, 0x78, b'a', b'b']);
}

#[test]
fn parse_icmp_header_reads_type_code_and_words() {
    let buf = [11u8, 3, 0xaa, 0xbb, 0x01, 0x02, 0x03, 0x04];
    assert_eq!(
        parse_icmp_header(&buf, 0),
        Some(IcmpHeader { icmp_type: TYPE_TIME_EXCEEDED, code: 3, id: 0x0102, seq: 0x0304 })
    );
}

#[test]
fn parse_icmp_header_returns_none_past_the_end() {
    let buf = [0u8; 10];
    assert!(parse_icmp_header(&buf, 3).is_none());
    assert!(parse_icmp_header(&buf, 11).is_none());
    assert!(parse_icmp_header(&buf, usize::MAX).is_none());
    assert!(parse_icmp_header(&buf, 2).is_some());
}

#[test]
fn parse_of_a_built_request_gives_back_its_fields() {
    let mut buf = vec![0x45u8, 1, 2, 3];
    buf.extend_from_slice(&build_echo_request(777, 65535, b"data"));
    assert_eq!(
        parse_icmp_header(&buf, 4),
        Some(IcmpHeader { icmp_type: TYPE_ECHO_REQUEST, code: 0, id: 777, seq: 65535 })
    );
}

#[test]
fn ipv4_header_len_edge_cases() {
    assert_eq!(ipv4_header_len(&[]), None);
    assert_eq!(ipv4_header_len(&[0x4f]), Some(60));
    assert_eq!(ipv4_header_len(&[0x40]), Some(0));
    assert_eq!(ipv4_header_len(&[0x55]), None);
}
