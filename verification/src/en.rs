//! Encoder: accumulates the current group's data symbols and frames data and
//! parity packets for the wire.

use vstd::prelude::*;

use crate::proto::{
    data_to_symbol, encode_hdr, spec_data_to_symbol, spec_encode_hdr, PacketHeader, ParityHeader,
    SymbolGlobalId, DATA_SYMBOL_HDR_SIZE, HDR_SIZE,
};
use crate::rs::{rs_encode_parities, rs_parity_of};

verus! {

/// Sender-side codec state: the data symbols of the group being built.
#[derive(Debug)]
pub struct FecEncoder {
    group_id: u64,
    group_data: Vec<Vec<u8>>,
    symbol_size: usize,
}

impl FecEncoder {
    /// Every accumulated symbol has the session's symbol size.
    pub closed spec fn wf(&self) -> bool {
        &&& DATA_SYMBOL_HDR_SIZE <= self.symbol_size
        &&& forall|i: int|
            0 <= i < self.group_data@.len() ==> #[trigger] self.group_data@[i]@.len()
                == self.symbol_size
    }

    pub closed spec fn spec_group_id(&self) -> u64 {
        self.group_id
    }

    pub closed spec fn spec_group_data(&self) -> Seq<Seq<u8>> {
        self.group_data@.map_values(|s: Vec<u8>| s@)
    }

    pub closed spec fn spec_symbol_size(&self) -> usize {
        self.symbol_size
    }

    /// A fresh encoder for symbols of `symbol_size` bytes, starting at group
    /// zero with an empty group.
    pub fn new(symbol_size: usize) -> (r: Self)
        requires
            DATA_SYMBOL_HDR_SIZE <= symbol_size,
        ensures
            r.wf(),
            r.spec_group_id() == 0,
            r.spec_group_data().len() == 0,
            r.spec_symbol_size() == symbol_size,
    {
        FecEncoder { group_id: 0, group_data: Vec::new(), symbol_size }
    }

    /// How many data symbols the current group holds.
    pub fn group_data_count(&self) -> (n: usize)
        ensures
            n == self.spec_group_data().len(),
    {
        self.group_data.len()
    }

    /// Frames `data` as a data packet in `buf` (header, then the datagram
    /// bytes that fit) and appends the padded symbol to the current group.
    /// Returns the number of packet bytes written.
    pub fn encode_data(&mut self, data: &[u8], buf: &mut Vec<u8>) -> (n: usize)
        requires
            old(self).wf(),
            old(buf)@.len() >= HDR_SIZE,
            data@.len() + DATA_SYMBOL_HDR_SIZE <= old(self).spec_symbol_size(),
            data@.len() <= 0xFFFF,
            old(self).spec_group_data().len() < 256,
        ensures
            final(self).wf(),
            final(self).spec_group_id() == old(self).spec_group_id(),
            final(self).spec_symbol_size() == old(self).spec_symbol_size(),
            final(self).spec_group_data() == old(self).spec_group_data().push(
                spec_data_to_symbol(data@, old(self).spec_symbol_size() as int),
            ),
            n == HDR_SIZE + (if data@.len() <= old(buf)@.len() - HDR_SIZE {
                data@.len() as int
            } else {
                old(buf)@.len() - HDR_SIZE
            }),
            final(buf)@.len() == old(buf)@.len(),
            final(buf)@.subrange(0, HDR_SIZE as int) == spec_encode_hdr(
                PacketHeader {
                    symbol_global_id: SymbolGlobalId {
                        group_id: old(self).spec_group_id(),
                        symbol_id: old(self).spec_group_data().len() as u8,
                    },
                    parity: None,
                },
            ),
            forall|j: int| 0 <= j < n - HDR_SIZE ==> final(buf)@[HDR_SIZE + j] == data@[j],
            forall|j: int| n <= j < final(buf)@.len() ==> final(buf)@[j] == old(buf)@[j],
    {
        let symbol_id: u8 = self.group_data.len() as u8;
        let hdr = PacketHeader {
            symbol_global_id: SymbolGlobalId { group_id: self.group_id, symbol_id },
            parity: None,
        };
        let hdr_len = encode_hdr(hdr, buf);
        let avail: usize = buf.len() - hdr_len;
        let data_len: usize = if data.len() <= avail {
            data.len()
        } else {
            avail
        };
        let mut j: usize = 0;
        while j < data_len
            invariant
                j <= data_len,
                data_len <= data@.len(),
                hdr_len == HDR_SIZE,
                hdr_len + data_len <= buf@.len(),
                buf@.len() == old(buf)@.len(),
                buf@.len() <= usize::MAX,
                buf@.subrange(0, HDR_SIZE as int) == spec_encode_hdr(hdr),
                forall|k: int| 0 <= k < j ==> buf@[HDR_SIZE + k] == data@[k],
                forall|k: int| HDR_SIZE + j <= k < buf@.len() ==> buf@[k] == old(buf)@[k],
            decreases data_len - j,
        {
            buf[hdr_len + j] = data[j];
            j += 1;
        }
        let symbol = data_to_symbol(data, self.symbol_size);
        self.group_data.push(symbol);
        proof {
            assert(self.spec_group_data() =~= old(self).spec_group_data().push(
                spec_data_to_symbol(data@, old(self).spec_symbol_size() as int),
            ));
        }
        hdr_len + data_len
    }

    /// Seals the current group: computes `parity_count` parity symbols over
    /// the accumulated data symbols, clears the group, advances the group
    /// id, and hands back an emitter for the parity packets.
    pub fn flush_parities(&mut self, parity_count: u8) -> (r: FecParityEncoder)
        requires
            old(self).wf(),
            1 <= parity_count,
            1 <= old(self).spec_group_data().len(),
            old(self).spec_group_data().len() + parity_count <= 256,
            old(self).spec_group_id() < u64::MAX,
        ensures
            final(self).wf(),
            final(self).spec_symbol_size() == old(self).spec_symbol_size(),
            final(self).spec_group_id() == old(self).spec_group_id() + 1,
            final(self).spec_group_data().len() == 0,
            r.wf(),
            r.spec_group_id() == old(self).spec_group_id(),
            r.spec_data_count() == old(self).spec_group_data().len(),
            r.spec_parity_count() == parity_count,
            r.spec_symbol_size() == old(self).spec_symbol_size(),
            r.spec_left() == rs_parity_of(old(self).spec_group_data(), parity_count as int),
            r.spec_left().len() == parity_count,
            forall|i: int|
                0 <= i < r.spec_left().len() ==> (#[trigger] r.spec_left()[i]).len() == old(
                    self,
                ).spec_symbol_size(),
    {
        let data_count: u8 = self.group_data.len() as u8;
        let parities = rs_encode_parities(&self.group_data, parity_count, self.symbol_size);
        self.group_data.clear();
        let group_id = self.group_id;
        self.group_id = self.group_id + 1;
        FecParityEncoder {
            group_id,
            data_count,
            parity_count,
            left_parities: parities,
            symbol_size: self.symbol_size,
        }
    }
}

/// Emitter for the parity packets of one sealed group.
#[derive(Debug)]
pub struct FecParityEncoder {
    group_id: u64,
    data_count: u8,
    parity_count: u8,
    left_parities: Vec<Vec<u8>>,
    symbol_size: usize,
}

impl FecParityEncoder {
    pub closed spec fn wf(&self) -> bool {
        &&& 1 <= self.data_count
        &&& self.data_count + self.parity_count <= 256
        &&& self.left_parities@.len() <= self.parity_count
        &&& DATA_SYMBOL_HDR_SIZE <= self.symbol_size
        &&& forall|i: int|
            0 <= i < self.left_parities@.len() ==> #[trigger] self.left_parities@[i]@.len()
                == self.symbol_size
    }

    pub closed spec fn spec_group_id(&self) -> u64 {
        self.group_id
    }

    pub closed spec fn spec_data_count(&self) -> u8 {
        self.data_count
    }

    pub closed spec fn spec_parity_count(&self) -> u8 {
        self.parity_count
    }

    pub closed spec fn spec_symbol_size(&self) -> usize {
        self.symbol_size
    }

    /// The parity symbols not yet emitted.
    pub closed spec fn spec_left(&self) -> Seq<Seq<u8>> {
        self.left_parities@.map_values(|s: Vec<u8>| s@)
    }

    /// Frames the next remaining parity symbol as a parity packet in `buf`;
    /// `None` once all `parity_count` parities have been emitted.  Parity
    /// symbol `i` carries `symbol_id == data_count + i`.
    pub fn encode_parity(&mut self, buf: &mut Vec<u8>) -> (r: Option<usize>)
        requires
            old(self).wf(),
            old(self).spec_left().len() > 0 ==> old(buf)@.len() >= HDR_SIZE + old(
                self,
            ).spec_symbol_size(),
        ensures
            final(self).wf(),
            final(self).spec_group_id() == old(self).spec_group_id(),
            final(self).spec_data_count() == old(self).spec_data_count(),
            final(self).spec_parity_count() == old(self).spec_parity_count(),
            final(self).spec_symbol_size() == old(self).spec_symbol_size(),
            final(buf)@.len() == old(buf)@.len(),
            old(self).spec_left().len() == 0 ==> r is None && final(self).spec_left()
                == old(self).spec_left() && final(buf)@ == old(buf)@,
            old(self).spec_left().len() > 0 ==> ({
                let k = old(self).spec_left().len() - 1;
                let ss = old(self).spec_symbol_size() as int;
                &&& r matches Some(n) && n == HDR_SIZE + ss
                &&& final(self).spec_left() == old(self).spec_left().take(k)
                &&& final(buf)@.subrange(0, HDR_SIZE as int) == spec_encode_hdr(
                    PacketHeader {
                        symbol_global_id: SymbolGlobalId {
                            group_id: old(self).spec_group_id(),
                            symbol_id: (old(self).spec_data_count() + k) as u8,
                        },
                        parity: Some(
                            ParityHeader {
                                data_count: old(self).spec_data_count(),
                                parity_count: old(self).spec_parity_count(),
                            },
                        ),
                    },
                )
                &&& forall|j: int|
                    0 <= j < ss ==> final(buf)@[HDR_SIZE + j] == old(self).spec_left()[k][j]
                &&& forall|j: int|
                    HDR_SIZE + ss <= j < final(buf)@.len() ==> final(buf)@[j] == old(buf)@[j]
            }),
    {
        let parity = match self.left_parities.pop() {
            Some(p) => p,
            None => {
                return None;
            },
        };
        let buf_len: usize = buf.len();
        assert(buf_len >= HDR_SIZE + self.symbol_size);
        let i: usize = self.left_parities.len();
        let offset: u8 = i as u8;
        let symbol_id: u8 = self.data_count + offset;
        let hdr = PacketHeader {
            symbol_global_id: SymbolGlobalId { group_id: self.group_id, symbol_id },
            parity: Some(
                ParityHeader { data_count: self.data_count, parity_count: self.parity_count },
            ),
        };
        let hdr_len = encode_hdr(hdr, buf);
        let mut j: usize = 0;
        while j < parity.len()
            invariant
                j <= parity@.len(),
                hdr_len == HDR_SIZE,
                hdr_len + parity@.len() <= buf@.len(),
                buf@.len() == old(buf)@.len(),
                buf@.len() <= usize::MAX,
                buf@.subrange(0, HDR_SIZE as int) == spec_encode_hdr(hdr),
                forall|k: int| 0 <= k < j ==> buf@[HDR_SIZE + k] == parity@[k],
                forall|k: int| HDR_SIZE + j <= k < buf@.len() ==> buf@[k] == old(buf)@[k],
            decreases parity@.len() - j,
        {
            buf[hdr_len + j] = parity[j];
            j += 1;
        }
        proof {
            assert(self.spec_left() =~= old(self).spec_left().take(
                old(self).spec_left().len() - 1,
            ));
        }
        Some(hdr_len + parity.len())
    }
}

} // verus!
