//! ICMP echo request/reply construction, the Internet checksum (RFC 1071)
//! and header parsing (RFC 792). Pure byte logic: no socket access here.

use vstd::prelude::*;

verus! {

pub const TYPE_ECHO_REQUEST: u8 = 8;

pub const TYPE_ECHO_REPLY: u8 = 0;

pub const TYPE_TIME_EXCEEDED: u8 = 11;

/// Sum of `data` read as big-endian 16-bit words; a trailing odd byte
/// counts as the high byte of a word whose low byte is zero.
pub open spec fn word_sum(data: Seq<u8>) -> nat
    decreases data.len(),
{
    if data.len() == 0 {
        0
    } else if data.len() == 1 {
        data[0] as nat * 256
    } else {
        data[0] as nat * 256 + data[1] as nat + word_sum(data.skip(2))
    }
}

/// End-around-carry reduction of a sum to 16 bits: the carries above bit 16
/// are added back in until none is left.
pub open spec fn fold16(s: nat) -> nat
    decreases s,
{
    if s < 0x10000 {
        s
    } else {
        fold16(s % 0x10000 + s / 0x10000)
    }
}

/// The one's-complement sum of `data` in 16 bits.
pub open spec fn ones_complement_sum(data: Seq<u8>) -> nat {
    fold16(word_sum(data))
}

/// The Internet checksum of `data`: the one's complement of its
/// one's-complement sum.
pub open spec fn spec_checksum(data: Seq<u8>) -> u16 {
    (0xffff - ones_complement_sum(data)) as u16
}

proof fn lemma_fold16_bound(s: nat)
    ensures
        fold16(s) <= 0xffff,
    decreases s,
{
    if s >= 0x10000 {
        lemma_fold16_bound(s % 0x10000 + s / 0x10000);
    }
}

proof fn lemma_word_sum_step(data: Seq<u8>, i: int)
    requires
        0 <= i,
        i + 2 <= data.len(),
    ensures
        word_sum(data.skip(i)) == data[i] as nat * 256 + data[i + 1] as nat + word_sum(
            data.skip(i + 2),
        ),
{
    assert(data.skip(i).skip(2) =~= data.skip(i + 2));
}

/// A big-endian 16-bit word from its two bytes.
fn be_u16(hi: u8, lo: u8) -> (w: u16)
    ensures
        w == hi as nat * 256 + lo as nat,
{
    let w = ((hi as u16) << 8) | (lo as u16);
    assert(((hi as u16) << 8) | (lo as u16) == hi as u16 * 256 + lo as u16) by (bit_vector);
    w
}

/// The standard Internet checksum (RFC 1071): one's-complement sum of
/// 16-bit words, folded until it fits in 16 bits, then one's complemented.
pub fn checksum(data: &[u8]) -> (sum: u16)
    requires
        word_sum(data@) <= u32::MAX,
    ensures
        sum == spec_checksum(data@),
{
    let n = data.len();
    let mut sum: u32 = 0;
    let mut i: usize = 0;
    assert(data@.skip(0) =~= data@);
    while n - i >= 2
        invariant
            i <= n,
            n == data@.len(),
            sum + word_sum(data@.skip(i as int)) == word_sum(data@),
            word_sum(data@) <= u32::MAX,
        decreases n - i,
    {
        proof {
            lemma_word_sum_step(data@, i as int);
        }
        let w = be_u16(data[i], data[i + 1]);
        sum = sum + w as u32;
        i = i + 2;
    }
    if n - i == 1 {
        let last = data[i];
        assert(((last as u32) << 8) == (last as u32) * 256) by (bit_vector);
        sum = sum + ((last as u32) << 8);
    }
    assert(sum == word_sum(data@));
    while sum >> 16 != 0
        invariant
            fold16(sum as nat) == ones_complement_sum(data@),
        decreases sum,
    {
        assert((sum >> 16 != 0) == (sum >= 0x10000)) by (bit_vector);
        assert(sum & 0xffff == sum % 0x10000) by (bit_vector);
        assert(sum >> 16 == sum / 0x10000) by (bit_vector);
        sum = (sum & 0xffff) + (sum >> 16);
    }
    assert((sum >> 16 == 0) ==> sum < 0x10000) by (bit_vector);
    let folded = sum as u16;
    assert(!folded == 0xffff - folded) by (bit_vector);
    !folded
}


/// The two bytes of `x` in big-endian (network) order.
pub open spec fn be_bytes(x: u16) -> Seq<u8> {
    seq![(x / 256) as u8, (x % 256) as u8]
}

/// An echo request with a zero checksum field: type 8, code 0, checksum 0,
/// identifier, sequence number, then the payload.
pub open spec fn unchecksummed_echo_request(id: u16, seq_no: u16, payload: Seq<u8>) -> Seq<u8> {
    seq![TYPE_ECHO_REQUEST, 0u8, 0u8, 0u8] + be_bytes(id) + be_bytes(seq_no) + payload
}

/// A complete echo request: the checksum of the unchecksummed packet stands
/// in its field.
pub open spec fn echo_request(id: u16, seq_no: u16, payload: Seq<u8>) -> Seq<u8> {
    seq![TYPE_ECHO_REQUEST, 0u8] + be_bytes(
        spec_checksum(unchecksummed_echo_request(id, seq_no, payload)),
    ) + be_bytes(id) + be_bytes(seq_no) + payload
}

/// Builds a complete, checksummed ICMP echo request.
pub fn build_echo_request(id: u16, seq_no: u16, payload: &[u8]) -> (packet: Vec<u8>)
    requires
        payload@.len() + 8 <= usize::MAX,
        word_sum(unchecksummed_echo_request(id, seq_no, payload@)) <= u32::MAX,
    ensures
        packet@ == echo_request(id, seq_no, payload@),
        packet@.len() == 8 + payload@.len(),
        packet@[0] == TYPE_ECHO_REQUEST,
        packet@[1] == 0,
        packet@[4] * 256 + packet@[5] == id,
        packet@[6] * 256 + packet@[7] == seq_no,
        forall|i: int| 0 <= i < payload@.len() ==> packet@[8 + i] == payload@[i],
        packet@[2] * 256 + packet@[3] == spec_checksum(packet@.update(2, 0u8).update(3, 0u8)),
{
    let mut packet: Vec<u8> = Vec::with_capacity(8 + payload.len());
    packet.push(TYPE_ECHO_REQUEST);
    packet.push(0);  // code
    packet.push(0);  // checksum placeholder
    packet.push(0);
    packet.push((id / 256) as u8);
    packet.push((id % 256) as u8);
    packet.push((seq_no / 256) as u8);
    packet.push((seq_no % 256) as u8);
    let ghost header = packet@;
    packet.extend_from_slice(payload);
    assert(packet@ =~= unchecksummed_echo_request(id, seq_no, payload@)) by {
        assert forall|i: int| 8 <= i < packet@.len() implies packet@[i] == payload@[i - 8] by {
            assert(cloned::<u8>(payload@[i - 8], packet@[i]));
        }
    }
    let sum = checksum(packet.as_slice());
    packet.set(2, (sum / 256) as u8);
    packet.set(3, (sum % 256) as u8);
    assert(packet@ =~= echo_request(id, seq_no, payload@));
    proof {
        lemma_echo_request_layout(id, seq_no, payload@);
    }
    packet
}

/// An ICMP header: type, code, and the identifier and sequence number words.
#[derive(Debug, Clone, Copy, PartialEq, Eq, Structural)]
pub struct IcmpHeader {
    pub icmp_type: u8,
    pub code: u8,
    pub id: u16,
    pub seq: u16,
}

/// The big-endian word made of the bytes `hi` and `lo`.
pub open spec fn be_word(hi: u8, lo: u8) -> u16 {
    (hi as nat * 256 + lo as nat) as u16
}

/// The byte of `buf` that stands `k` places after `offset`.
pub open spec fn byte_at(buf: Seq<u8>, offset: usize, k: int) -> u8 {
    buf[offset + k]
}

/// The header read at `offset`, where at least eight bytes stand from there on.
pub open spec fn spec_parse_icmp_header(buf: Seq<u8>, offset: usize) -> Option<IcmpHeader> {
    if offset + 8 <= buf.len() {
        Some(
            IcmpHeader {
                icmp_type: byte_at(buf, offset, 0),
                code: byte_at(buf, offset, 1),
                id: be_word(byte_at(buf, offset, 4), byte_at(buf, offset, 5)),
                seq: be_word(byte_at(buf, offset, 6), byte_at(buf, offset, 7)),
            },
        )
    } else {
        None
    }
}

/// Parses the ICMP header at `offset` of a buffer that may still have
/// its IP header attached. For `TYPE_TIME_EXCEEDED`, the id/seq fields belong
/// to the echoed packet quoted after the ICMP header, not this
/// packet's own; read accordingly by the caller.
pub fn parse_icmp_header(buf: &[u8], offset: usize) -> (header: Option<IcmpHeader>)
    ensures
        header == spec_parse_icmp_header(buf@, offset),
        header is Some <==> offset + 8 <= buf@.len(),
        header matches Some(h) ==> {
            &&& h.icmp_type == buf@[offset + 0]
            &&& h.code == buf@[offset + 1]
            &&& h.id == buf@[offset + 4] * 256 + buf@[offset + 5]
            &&& h.seq == buf@[offset + 6] * 256 + buf@[offset + 7]
        },
{
    proof {
        lemma_parse_reads_header(buf@, offset);
    }
    if offset > buf.len() {
        return None;
    }
    if buf.len() - offset < 8 {
        return None;
    }
    let o = offset;
    Some(
        IcmpHeader {
            icmp_type: buf[o],
            code: buf[o + 1],
            id: be_u16(buf[o + 4], buf[o + 5]),
            seq: be_u16(buf[o + 6], buf[o + 7]),
        },
    )
}

/// The IPv4 header length that the first byte announces: its low nibble
/// (IHL) counts 32-bit words; `None` where the buffer is empty or the high
/// nibble (the version) is not 4.
pub open spec fn spec_ipv4_header_len(buf: Seq<u8>) -> Option<usize> {
    if buf.len() > 0 && buf[0] / 16 == 4 {
        Some(((buf[0] % 16) * 4) as usize)
    } else {
        None
    }
}

/// A real IPv4 header's length in bytes, from its first byte's low nibble
/// (IHL, in 32-bit words): where the ICMP payload starts in a raw-mode read.
pub fn ipv4_header_len(buf: &[u8]) -> (len: Option<usize>)
    ensures
        len == spec_ipv4_header_len(buf@),
        buf@.len() == 0 ==> len is None,
        buf@.len() > 0 ==> (len is Some <==> buf@[0] >> 4 == 4),
        len matches Some(l) ==> l == 4 * (buf@[0] & 0x0f),
{
    proof {
        lemma_ipv4_header_len_reads_ihl(buf@);
    }
    if buf.len() == 0 {
        return None;
    }
    let byte0 = buf[0];
    assert(byte0 >> 4 == byte0 / 16) by (bit_vector);
    assert(byte0 & 0x0f == byte0 % 16) by (bit_vector);
    if byte0 >> 4 != 4 {
        return None;  // not IPv4
    }
    Some(((byte0 & 0x0f) as usize) * 4)
}


proof fn lemma_word_sum_concat(a: Seq<u8>, b: Seq<u8>)
    requires
        a.len() % 2 == 0,
    ensures
        word_sum(a + b) == word_sum(a) + word_sum(b),
    decreases a.len(),
{
    if a.len() == 0 {
        assert(a + b =~= b);
    } else {
        assert((a + b).skip(2) =~= a.skip(2) + b);
        lemma_word_sum_concat(a.skip(2), b);
    }
}

proof fn lemma_word_sum_be_bytes(x: u16)
    ensures
        word_sum(be_bytes(x)) == x,
{
    reveal_with_fuel(word_sum, 2);
    assert(be_bytes(x).skip(2) =~= Seq::<u8>::empty());
}

proof fn lemma_fold16_congruent(s: nat)
    ensures
        fold16(s) % 0xffff == s % 0xffff,
        s > 0 ==> fold16(s) > 0,
    decreases s,
{
    if s >= 0x10000 {
        let q = s / 0x10000;
        let r = s % 0x10000;
        assert(s == 0xffff * q + (q + r));
        vstd::arithmetic::div_mod::lemma_mod_multiples_vanish(q as int, (q + r) as int, 0xffff);
        lemma_fold16_congruent(q + r);
    }
}

/// Adding the complement of a folded sum back to the sum folds to all ones.
proof fn lemma_fold16_complement(s: nat)
    ensures
        fold16(s + (0xffff - fold16(s)) as nat) == 0xffff,
{
    lemma_fold16_bound(s);
    lemma_fold16_congruent(s);
    let f = fold16(s);
    let t = (s + (0xffff - f)) as nat;
    assert(t % 0xffff == 0) by {
        vstd::arithmetic::div_mod::lemma_fundamental_div_mod(s as int, 0xffff);
        vstd::arithmetic::div_mod::lemma_fundamental_div_mod(f as int, 0xffff);
        let k = s / 0xffff - f / 0xffff + 1;
        assert(t == 0xffff * k);
        vstd::arithmetic::div_mod::lemma_mod_multiples_basic(k, 0xffff);
    }
    assert(t > 0);
    lemma_fold16_congruent(t);
    lemma_fold16_bound(t);
}

/// RFC 1071 self-consistency: where the checksum of a packet whose
/// word-aligned checksum field is zero is written into that field, the
/// one's-complement sum of the packet folds to exactly 0xffff. With an
/// empty `after`, this is the checksum appended to even-length data.
pub proof fn lemma_checksum_field_verifies(before: Seq<u8>, after: Seq<u8>)
    requires
        before.len() % 2 == 0,
    ensures
        ones_complement_sum(
            before + be_bytes(spec_checksum(before + seq![0u8, 0u8] + after)) + after,
        ) == 0xffff,
{
    let zeroed = before + seq![0u8, 0u8] + after;
    let c = spec_checksum(zeroed);
    let filled = before + be_bytes(c) + after;
    lemma_word_sum_concat(before, seq![0u8, 0u8]);
    lemma_word_sum_concat(before + seq![0u8, 0u8], after);
    assert(word_sum(seq![0u8, 0u8]) == 0) by {
        reveal_with_fuel(word_sum, 2);
        assert(seq![0u8, 0u8].skip(2) =~= Seq::<u8>::empty());
    }
    lemma_word_sum_concat(before, be_bytes(c));
    lemma_word_sum_concat(before + be_bytes(c), after);
    lemma_word_sum_be_bytes(c);
    lemma_fold16_bound(word_sum(zeroed));
    assert(word_sum(filled) == word_sum(zeroed) + (0xffff - fold16(word_sum(zeroed))));
    lemma_fold16_complement(word_sum(zeroed));
}

/// Checksumming odd-length data is checksumming it padded with one zero byte.
pub proof fn lemma_checksum_odd_pads_zero(data: Seq<u8>)
    requires
        data.len() % 2 == 1,
    ensures
        spec_checksum(data + seq![0u8]) == spec_checksum(data),
{
    let n = data.len() as int;
    let a = data.take(n - 1);
    let x = data[n - 1];
    assert(data =~= a + seq![x]);
    assert(data + seq![0u8] =~= a + seq![x, 0u8]);
    lemma_word_sum_concat(a, seq![x]);
    lemma_word_sum_concat(a, seq![x, 0u8]);
    reveal_with_fuel(word_sum, 2);
    assert(seq![x, 0u8].skip(2) =~= Seq::<u8>::empty());
}

/// A built echo request verifies: its one's-complement sum folds to 0xffff,
/// so checksumming the whole packet again gives 0.
pub proof fn lemma_echo_request_verifies(id: u16, seq_no: u16, payload: Seq<u8>)
    ensures
        ones_complement_sum(echo_request(id, seq_no, payload)) == 0xffff,
        spec_checksum(echo_request(id, seq_no, payload)) == 0,
{
    let before = seq![TYPE_ECHO_REQUEST, 0u8];
    let after = be_bytes(id) + be_bytes(seq_no) + payload;
    assert(unchecksummed_echo_request(id, seq_no, payload) =~= before + seq![0u8, 0u8] + after);
    let c = spec_checksum(unchecksummed_echo_request(id, seq_no, payload));
    assert(echo_request(id, seq_no, payload) =~= before + be_bytes(c) + after);
    lemma_checksum_field_verifies(before, after);
}

proof fn lemma_be_word_of_be_bytes(x: u16)
    ensures
        be_word(be_bytes(x)[0], be_bytes(x)[1]) == x,
{
}

/// A built echo request, wherever it stands in a buffer, parses back to its
/// type, code, identifier and sequence number.
pub proof fn lemma_parse_echo_request(
    prefix: Seq<u8>,
    offset: usize,
    id: u16,
    seq_no: u16,
    payload: Seq<u8>,
)
    requires
        prefix.len() == offset,
    ensures
        spec_parse_icmp_header(prefix + echo_request(id, seq_no, payload), offset) == Some(
            IcmpHeader { icmp_type: TYPE_ECHO_REQUEST, code: 0, id: id, seq: seq_no },
        ),
{
    let buf = prefix + echo_request(id, seq_no, payload);
    let p = echo_request(id, seq_no, payload);
    assert(byte_at(buf, offset, 0) == p[0]);
    assert(byte_at(buf, offset, 1) == p[1]);
    assert(byte_at(buf, offset, 4) == be_bytes(id)[0]);
    assert(byte_at(buf, offset, 5) == be_bytes(id)[1]);
    assert(byte_at(buf, offset, 6) == be_bytes(seq_no)[0]);
    assert(byte_at(buf, offset, 7) == be_bytes(seq_no)[1]);
    lemma_be_word_of_be_bytes(id);
    lemma_be_word_of_be_bytes(seq_no);
}


/// The layout of a built echo request: type 8, code 0, the identifier and
/// the sequence number big-endian at bytes 4..8, the whole payload from
/// byte 8 on, and at bytes 2..4 the checksum of the packet with that field
/// zeroed.
pub proof fn lemma_echo_request_layout(id: u16, seq_no: u16, payload: Seq<u8>)
    ensures
        echo_request(id, seq_no, payload).len() == 8 + payload.len(),
        echo_request(id, seq_no, payload)[0] == TYPE_ECHO_REQUEST,
        echo_request(id, seq_no, payload)[1] == 0,
        echo_request(id, seq_no, payload)[4] * 256 + echo_request(id, seq_no, payload)[5] == id,
        echo_request(id, seq_no, payload)[6] * 256 + echo_request(id, seq_no, payload)[7]
            == seq_no,
        forall|i: int|
            0 <= i < payload.len() ==> echo_request(id, seq_no, payload)[8 + i] == payload[i],
        echo_request(id, seq_no, payload)[2] * 256 + echo_request(id, seq_no, payload)[3]
            == spec_checksum(echo_request(id, seq_no, payload).update(2, 0u8).update(3, 0u8)),
{
    let p = echo_request(id, seq_no, payload);
    let base = unchecksummed_echo_request(id, seq_no, payload);
    let c = spec_checksum(base);
    assert(p.update(2, 0u8).update(3, 0u8) =~= base);
    lemma_be_word_of_be_bytes(id);
    lemma_be_word_of_be_bytes(seq_no);
    lemma_be_word_of_be_bytes(c);
    assert(p[2] == be_bytes(c)[0] && p[3] == be_bytes(c)[1]);
    assert(p[4] == be_bytes(id)[0] && p[5] == be_bytes(id)[1]);
    assert(p[6] == be_bytes(seq_no)[0] && p[7] == be_bytes(seq_no)[1]);
}

/// A header is read exactly where eight bytes stand from `offset` on,
/// whatever its type: type and code are the first two bytes, identifier and
/// sequence number the big-endian words at bytes 4..6 and 6..8.
pub proof fn lemma_parse_reads_header(buf: Seq<u8>, offset: usize)
    ensures
        spec_parse_icmp_header(buf, offset) is Some <==> offset + 8 <= buf.len(),
        spec_parse_icmp_header(buf, offset) matches Some(h) ==> {
            &&& h.icmp_type == buf[offset + 0]
            &&& h.code == buf[offset + 1]
            &&& h.id == buf[offset + 4] * 256 + buf[offset + 5]
            &&& h.seq == buf[offset + 6] * 256 + buf[offset + 7]
        },
{
}

/// A buffer announces an IPv4 header exactly when the high nibble of its
/// first byte is 4; the header then has four bytes per unit of the low nibble.
pub proof fn lemma_ipv4_header_len_reads_ihl(buf: Seq<u8>)
    ensures
        buf.len() == 0 ==> spec_ipv4_header_len(buf) is None,
        buf.len() > 0 ==> (spec_ipv4_header_len(buf) is Some <==> buf[0] >> 4 == 4),
        spec_ipv4_header_len(buf) matches Some(l) ==> l == 4 * (buf[0] & 0x0f),
{
    if buf.len() > 0 {
        let b = buf[0];
        assert(b >> 4 == b / 16) by (bit_vector);
        assert(b & 0x0f == b % 16) by (bit_vector);
    }
}


/// The word sum reads bytes as big-endian 16-bit words: a pair of bytes is
/// `hi * 256 + lo`, a lone trailing byte is the high byte of a word, and the
/// sum over data of even length followed by more data is the sum of the parts.
pub proof fn lemma_word_sum_reads_big_endian_words(a: Seq<u8>, b: Seq<u8>, hi: u8, lo: u8)
    ensures
        word_sum(Seq::empty()) == 0,
        word_sum(seq![hi, lo]) == hi * 256 + lo,
        word_sum(seq![hi]) == hi * 256,
        a.len() % 2 == 0 ==> word_sum(a + b) == word_sum(a) + word_sum(b),
{
    reveal_with_fuel(word_sum, 2);
    assert(seq![hi, lo].skip(2) =~= Seq::<u8>::empty());
    if a.len() % 2 == 0 {
        lemma_word_sum_concat(a, b);
    }
}

/// The end-around-carry fold of a sum is the one 16-bit value congruent to
/// it modulo 0xffff: 0 only for 0, otherwise in 1..=0xffff.
pub proof fn lemma_fold16_is_ones_complement_reduction(s: nat)
    ensures
        fold16(s) <= 0xffff,
        fold16(s) % 0xffff == s % 0xffff,
        s == 0 ==> fold16(s) == 0,
        s > 0 ==> fold16(s) > 0,
        s <= 0xffff ==> fold16(s) == s,
{
    lemma_fold16_bound(s);
    lemma_fold16_congruent(s);
}

} // verus!
