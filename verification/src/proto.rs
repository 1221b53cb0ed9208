//! Wire framing: the fixed-size packet header and the per-data-symbol length
//! prefix, together with the conversions between variable-length datagrams
//! and fixed-size symbols.

use vstd::arithmetic::div_mod::lemma_fundamental_div_mod;
use vstd::prelude::*;

verus! {

/// Size in bytes of the packet header; constant for both data and parity
/// packets so that MSS arithmetic has a closed form.
pub const HDR_SIZE: usize = 11;

/// Size in bytes of the length prefix stored inside every data symbol.
pub const DATA_SYMBOL_HDR_SIZE: usize = 2;

/// Position of a symbol on the wire: which group, and which slot within it.
#[derive(Debug, Clone, Copy, PartialEq, Eq)]
pub struct SymbolGlobalId {
    pub group_id: u64,
    pub symbol_id: u8,
}

/// Extra header fields carried only by parity packets.
#[derive(Debug, Clone, Copy, PartialEq, Eq)]
pub struct ParityHeader {
    pub data_count: u8,
    pub parity_count: u8,
}

/// Parsed packet header.  `parity` is `None` for data packets.
#[derive(Debug, Clone, Copy, PartialEq, Eq)]
pub struct PacketHeader {
    pub symbol_global_id: SymbolGlobalId,
    pub parity: Option<ParityHeader>,
}

impl PacketHeader {
    /// A parity header carries the group's data-symbol count, which is at
    /// least one; `data_count == 0` on the wire marks a data packet.
    pub open spec fn valid(self) -> bool {
        match self.parity {
            Some(p) => p.data_count >= 1,
            None => true,
        }
    }
}

pub open spec fn spec_symbol_size(mss: usize) -> Option<usize> {
    if mss >= HDR_SIZE {
        Some((mss - HDR_SIZE) as usize)
    } else {
        None
    }
}

/// Size of every symbol for a session with maximum segment size `mss`.
pub fn symbol_size(mss: usize) -> (r: Option<usize>)
    ensures
        r == spec_symbol_size(mss),
{
    if mss >= HDR_SIZE {
        Some(mss - HDR_SIZE)
    } else {
        None
    }
}

pub open spec fn spec_data_mss(mss: usize) -> Option<usize> {
    if mss >= HDR_SIZE + DATA_SYMBOL_HDR_SIZE {
        Some((mss - HDR_SIZE - DATA_SYMBOL_HDR_SIZE) as usize)
    } else {
        None
    }
}

/// Largest datagram a caller may hand to the encoder for segment size `mss`.
pub fn data_mss(mss: usize) -> (r: Option<usize>)
    ensures
        r == spec_data_mss(mss),
{
    if mss >= HDR_SIZE + DATA_SYMBOL_HDR_SIZE {
        Some(mss - HDR_SIZE - DATA_SYMBOL_HDR_SIZE)
    } else {
        None
    }
}

pub open spec fn spec_u64_to_be(g: u64) -> Seq<u8> {
    seq![
        (g >> 56) as u8,
        (g >> 48) as u8,
        (g >> 40) as u8,
        (g >> 32) as u8,
        (g >> 24) as u8,
        (g >> 16) as u8,
        (g >> 8) as u8,
        g as u8,
    ]
}

pub open spec fn spec_u64_from_be(b: Seq<u8>) -> u64
    recommends
        b.len() == 8,
{
    ((b[0] as u64) << 56) | ((b[1] as u64) << 48) | ((b[2] as u64) << 40) | ((b[3] as u64) << 32)
        | ((b[4] as u64) << 24) | ((b[5] as u64) << 16) | ((b[6] as u64) << 8) | (b[7] as u64)
}

proof fn lemma_u64_be_round_trip(g: u64)
    ensures
        spec_u64_from_be(spec_u64_to_be(g)) == g,
{
    assert((((((g >> 56) as u8) as u64) << 56) | ((((g >> 48) as u8) as u64) << 48) | ((((g
        >> 40) as u8) as u64) << 40) | ((((g >> 32) as u8) as u64) << 32) | ((((g >> 24) as u8)
        as u64) << 24) | ((((g >> 16) as u8) as u64) << 16) | ((((g >> 8) as u8) as u64) << 8) | ((
    g as u8) as u64)) == g) by (bit_vector);
}

/// The eleven header bytes of a packet, big-endian throughout.  Byte 9 is the
/// discriminator: zero for data packets, the data-symbol count for parity
/// packets.  Byte 10 pads data headers so the header size is uniform.
pub open spec fn spec_encode_hdr(hdr: PacketHeader) -> Seq<u8> {
    spec_u64_to_be(hdr.symbol_global_id.group_id) + seq![hdr.symbol_global_id.symbol_id]
        + match hdr.parity {
        Some(p) => seq![p.data_count, p.parity_count],
        None => seq![0u8, 0u8],
    }
}

/// Parse of the leading header bytes; `None` exactly when fewer than
/// `HDR_SIZE` bytes are present.
pub open spec fn spec_decode_hdr(b: Seq<u8>) -> Option<(PacketHeader, int)> {
    if b.len() < HDR_SIZE {
        None
    } else {
        let parity = if b[9] == 0 {
            None
        } else {
            Some(ParityHeader { data_count: b[9], parity_count: b[10] })
        };
        Some(
            (
                PacketHeader {
                    symbol_global_id: SymbolGlobalId {
                        group_id: spec_u64_from_be(b.subrange(0, 8)),
                        symbol_id: b[8],
                    },
                    parity,
                },
                HDR_SIZE as int,
            ),
        )
    }
}

/// Writes the header into the first `HDR_SIZE` bytes of `buf`.
pub fn encode_hdr(hdr: PacketHeader, buf: &mut Vec<u8>) -> (n: usize)
    requires
        old(buf)@.len() >= HDR_SIZE,
        hdr.valid(),
    ensures
        n == HDR_SIZE,
        final(buf)@.len() == old(buf)@.len(),
        final(buf)@.subrange(0, HDR_SIZE as int) == spec_encode_hdr(hdr),
        forall|i: int| HDR_SIZE <= i < final(buf)@.len() ==> final(buf)@[i] == old(buf)@[i],
{
    let g: u64 = hdr.symbol_global_id.group_id;
    buf[0] = #[verifier::truncate] ((g >> 56) as u8);
    buf[1] = #[verifier::truncate] ((g >> 48) as u8);
    buf[2] = #[verifier::truncate] ((g >> 40) as u8);
    buf[3] = #[verifier::truncate] ((g >> 32) as u8);
    buf[4] = #[verifier::truncate] ((g >> 24) as u8);
    buf[5] = #[verifier::truncate] ((g >> 16) as u8);
    buf[6] = #[verifier::truncate] ((g >> 8) as u8);
    buf[7] = #[verifier::truncate] (g as u8);
    buf[8] = hdr.symbol_global_id.symbol_id;
    match hdr.parity {
        Some(p) => {
            buf[9] = p.data_count;
            buf[10] = p.parity_count;
        },
        None => {
            buf[9] = 0;
            buf[10] = 0;
        },
    }
    proof {
        assert(buf@.subrange(0, HDR_SIZE as int) =~= spec_encode_hdr(hdr));
    }
    HDR_SIZE
}

/// Parses the packet header; `None` when the packet is too short.
pub fn decode_hdr(buf: &[u8]) -> (r: Option<(PacketHeader, usize)>)
    ensures
        match r {
            Some(p) => spec_decode_hdr(buf@) == Some((p.0, p.1 as int)) && p.1 == HDR_SIZE,
            None => spec_decode_hdr(buf@) is None,
        },
{
    if buf.len() < HDR_SIZE {
        return None;
    }
    let g: u64 = ((buf[0] as u64) << 56) | ((buf[1] as u64) << 48) | ((buf[2] as u64) << 40) | ((
    buf[3] as u64) << 32) | ((buf[4] as u64) << 24) | ((buf[5] as u64) << 16) | ((buf[6] as u64)
        << 8) | (buf[7] as u64);
    let dc: u8 = buf[9];
    let parity = if dc == 0 {
        None
    } else {
        Some(ParityHeader { data_count: dc, parity_count: buf[10] })
    };
    let hdr = PacketHeader {
        symbol_global_id: SymbolGlobalId { group_id: g, symbol_id: buf[8] },
        parity,
    };
    proof {
        assert(buf@.subrange(0, 8) =~= seq![
            buf@[0],
            buf@[1],
            buf@[2],
            buf@[3],
            buf@[4],
            buf@[5],
            buf@[6],
            buf@[7],
        ]);
    }
    Some((hdr, HDR_SIZE))
}

/// Header round trip: a valid header, encoded and decoded with any payload
/// behind it, parses back unchanged with the constant header length, and the
/// payload is exactly the bytes past the header.
pub proof fn lemma_hdr_round_trip_with_payload(hdr: PacketHeader, payload: Seq<u8>)
    requires
        hdr.valid(),
    ensures
        spec_decode_hdr(spec_encode_hdr(hdr) + payload) == Some((hdr, HDR_SIZE as int)),
        (spec_encode_hdr(hdr) + payload).skip(HDR_SIZE as int) == payload,
{
    let b = spec_encode_hdr(hdr) + payload;
    lemma_u64_be_round_trip(hdr.symbol_global_id.group_id);
    assert(b.subrange(0, 8) =~= spec_u64_to_be(hdr.symbol_global_id.group_id));
    assert(b.skip(HDR_SIZE as int) =~= payload);
    match hdr.parity {
        Some(p) => {
            assert(b[9] == p.data_count);
            assert(spec_decode_hdr(b) == Some((hdr, HDR_SIZE as int)));
        },
        None => {
            assert(b[9] == 0);
            assert(spec_decode_hdr(b) == Some((hdr, HDR_SIZE as int)));
        },
    }
}

/// Header round trip for a bare header.
pub proof fn lemma_hdr_round_trip(hdr: PacketHeader)
    requires
        hdr.valid(),
    ensures
        spec_decode_hdr(spec_encode_hdr(hdr)) == Some((hdr, HDR_SIZE as int)),
{
    lemma_hdr_round_trip_with_payload(hdr, Seq::empty());
    assert(spec_encode_hdr(hdr) + Seq::<u8>::empty() =~= spec_encode_hdr(hdr));
}

/// Length of the datagram stored inside a symbol, read from the two-byte
/// big-endian prefix.
pub open spec fn spec_symbol_data_len(symbol: Seq<u8>) -> int
    recommends
        symbol.len() >= DATA_SYMBOL_HDR_SIZE,
{
    symbol[0] as int * 256 + symbol[1] as int
}

/// The fixed-size symbol that stores `data`: a two-byte length prefix, the
/// datagram bytes that fit, and zero padding.
pub open spec fn spec_data_to_symbol(data: Seq<u8>, symbol_size: int) -> Seq<u8>
    recommends
        DATA_SYMBOL_HDR_SIZE <= symbol_size,
        data.len() <= 0xFFFF,
{
    let fit = if data.len() <= symbol_size - DATA_SYMBOL_HDR_SIZE {
        data.len() as int
    } else {
        symbol_size - DATA_SYMBOL_HDR_SIZE
    };
    seq![(data.len() / 256) as u8, (data.len() % 256) as u8] + data.take(fit) + Seq::new(
        (symbol_size - DATA_SYMBOL_HDR_SIZE - fit) as nat,
        |i: int| 0u8,
    )
}

/// The datagram a well-formed symbol carries; `None` when the symbol is too
/// short for its prefix, or the prefix overstates the stored bytes.
pub open spec fn spec_symbol_datagram(symbol: Seq<u8>) -> Option<Seq<u8>> {
    if symbol.len() >= DATA_SYMBOL_HDR_SIZE && spec_symbol_data_len(symbol)
        + DATA_SYMBOL_HDR_SIZE <= symbol.len() {
        Some(
            symbol.subrange(
                DATA_SYMBOL_HDR_SIZE as int,
                DATA_SYMBOL_HDR_SIZE + spec_symbol_data_len(symbol),
            ),
        )
    } else {
        None
    }
}

/// Writes the two-byte big-endian length prefix of a data symbol.
pub fn encode_data_symbol_hdr(data_size: u16, buf: &mut Vec<u8>) -> (n: usize)
    requires
        old(buf)@.len() >= DATA_SYMBOL_HDR_SIZE,
    ensures
        n == DATA_SYMBOL_HDR_SIZE,
        final(buf)@.len() == old(buf)@.len(),
        final(buf)@[0] == (data_size / 256) as u8,
        final(buf)@[1] == (data_size % 256) as u8,
        forall|i: int|
            DATA_SYMBOL_HDR_SIZE <= i < final(buf)@.len() ==> final(buf)@[i] == old(buf)@[i],
{
    buf[0] = (data_size / 256) as u8;
    buf[1] = (data_size % 256) as u8;
    DATA_SYMBOL_HDR_SIZE
}

/// Reads the two-byte big-endian length prefix of a data symbol; `None` when
/// fewer than two bytes are present.
pub fn decode_data_symbol_hdr(buf: &[u8]) -> (r: Option<(usize, u16)>)
    ensures
        match r {
            Some(p) => {
                &&& buf@.len() >= DATA_SYMBOL_HDR_SIZE
                &&& p.0 == DATA_SYMBOL_HDR_SIZE
                &&& p.1 as int == spec_symbol_data_len(buf@)
            },
            None => buf@.len() < DATA_SYMBOL_HDR_SIZE,
        },
{
    if buf.len() < DATA_SYMBOL_HDR_SIZE {
        return None;
    }
    let v: u16 = (buf[0] as u16) * 256 + (buf[1] as u16);
    Some((DATA_SYMBOL_HDR_SIZE, v))
}

/// Packs a datagram into a fresh fixed-size symbol: length prefix, datagram,
/// zero padding.
pub fn data_to_symbol(data: &[u8], symbol_size: usize) -> (symbol: Vec<u8>)
    requires
        DATA_SYMBOL_HDR_SIZE <= symbol_size,
        data@.len() <= 0xFFFF,
    ensures
        symbol@ == spec_data_to_symbol(data@, symbol_size as int),
        symbol@.len() == symbol_size,
{
    let mut symbol: Vec<u8> = vec![0u8; symbol_size];
    let len: usize = data.len();
    assert(len / 256 < 256);
    symbol[0] = (len / 256) as u8;
    symbol[1] = (len % 256) as u8;
    let fit: usize = if len <= symbol_size - DATA_SYMBOL_HDR_SIZE {
        len
    } else {
        symbol_size - DATA_SYMBOL_HDR_SIZE
    };
    let mut i: usize = 0;
    while i < fit
        invariant
            i <= fit,
            fit <= data@.len(),
            fit + DATA_SYMBOL_HDR_SIZE <= symbol@.len(),
            symbol@.len() == symbol_size,
            symbol@[0] == (data@.len() / 256) as u8,
            symbol@[1] == (data@.len() % 256) as u8,
            forall|j: int| 0 <= j < i ==> symbol@[DATA_SYMBOL_HDR_SIZE + j] == data@[j],
            forall|j: int|
                DATA_SYMBOL_HDR_SIZE + i <= j < symbol@.len() ==> symbol@[j] == 0u8,
        decreases fit - i,
    {
        symbol[DATA_SYMBOL_HDR_SIZE + i] = data[i];
        i += 1;
    }
    proof {
        assert(symbol@ =~= spec_data_to_symbol(data@, symbol_size as int));
    }
    symbol
}

/// Unpacks a symbol: reads the length prefix and copies the datagram bytes
/// that fit into `buf`, returning how many were copied.  `None` when the
/// symbol is malformed; `buf` is then untouched.
pub fn symbol_to_data(symbol: &[u8], buf: &mut Vec<u8>) -> (r: Option<usize>)
    ensures
        final(buf)@.len() == old(buf)@.len(),
        match spec_symbol_datagram(symbol@) {
            Some(d) => r matches Some(n) && n == (if d.len() <= old(buf)@.len() {
                d.len() as int
            } else {
                old(buf)@.len() as int
            }) && (forall|j: int| 0 <= j < n ==> final(buf)@[j] == d[j]) && (forall|j: int|
                n <= j < final(buf)@.len() ==> final(buf)@[j] == old(buf)@[j]),
            None => r is None && final(buf)@ == old(buf)@,
        },
{
    let (_, data_len16) = match decode_data_symbol_hdr(symbol) {
        Some(p) => p,
        None => {
            return None;
        },
    };
    let data_len: usize = data_len16 as usize;
    if symbol.len() - DATA_SYMBOL_HDR_SIZE < data_len {
        return None;
    }
    let n: usize = if data_len <= buf.len() {
        data_len
    } else {
        buf.len()
    };
    let mut j: usize = 0;
    while j < n
        invariant
            j <= n,
            n <= data_len,
            DATA_SYMBOL_HDR_SIZE + data_len <= symbol@.len(),
            symbol@.len() <= usize::MAX,
            buf@.len() == old(buf)@.len(),
            n <= buf@.len(),
            forall|k: int| 0 <= k < j ==> buf@[k] == symbol@[DATA_SYMBOL_HDR_SIZE + k],
            forall|k: int| j <= k < buf@.len() ==> buf@[k] == old(buf)@[k],
        decreases n - j,
    {
        buf[j] = symbol[DATA_SYMBOL_HDR_SIZE + j];
        j += 1;
    }
    Some(n)
}

/// Symbol round trip: a datagram that fits, packed into a symbol and
/// unpacked again, is returned exactly.
pub proof fn lemma_symbol_round_trip(data: Seq<u8>, symbol_size: int)
    requires
        DATA_SYMBOL_HDR_SIZE <= symbol_size,
        data.len() + DATA_SYMBOL_HDR_SIZE <= symbol_size,
        data.len() <= 0xFFFF,
    ensures
        spec_symbol_datagram(spec_data_to_symbol(data, symbol_size)) == Some(data),
{
    let s = spec_data_to_symbol(data, symbol_size);
    let n = data.len() as int;
    assert(data.len() / 256 < 256);
    lemma_fundamental_div_mod(n, 256);
    assert(spec_symbol_data_len(s) == n);
    assert(s.subrange(DATA_SYMBOL_HDR_SIZE as int, DATA_SYMBOL_HDR_SIZE + n) =~= data);
}

} // verus!
