//! Trusted interface to the Reed-Solomon erasure codec over GF(2^8).

use vstd::prelude::*;

verus! {

/// The parity shards that systematic Reed-Solomon coding over GF(2^8)
/// derives from the given data shards: a pure function of the data shards
/// and the parity count.
pub uninterp spec fn rs_parity_of(data: Seq<Seq<u8>>, parity_count: int) -> Seq<Seq<u8>>;

/// The data shards that Reed-Solomon erasure reconstruction computes from a
/// sparse shard vector: a pure function of the present shards, their
/// positions, and the shard counts.
pub uninterp spec fn rs_reconstructed(
    shards: Seq<Option<Seq<u8>>>,
    data_count: int,
    parity_count: int,
) -> Seq<Seq<u8>>;

/// Mathematical contents of a sparse shard vector.
pub open spec fn shards_model(v: Seq<Option<Vec<u8>>>) -> Seq<Option<Seq<u8>>> {
    v.map_values(
        |o: Option<Vec<u8>>|
            match o {
                Some(s) => Some(s@),
                None => None,
            },
    )
}

/// How many shard slots are present.
pub open spec fn present_count(g: Seq<Option<Seq<u8>>>) -> int
    decreases g.len(),
{
    if g.len() == 0 {
        0
    } else {
        present_count(g.drop_last()) + if g.last() is Some {
            1int
        } else {
            0int
        }
    }
}

/// Every present shard has the same nonzero length.
pub open spec fn shards_sized(g: Seq<Option<Seq<u8>>>) -> bool {
    &&& forall|i: int| 0 <= i < g.len() && g[i] is Some ==> #[trigger] g[i].unwrap().len() >= 1
    &&& forall|i: int, j: int|
        0 <= i < g.len() && 0 <= j < g.len() && g[i] is Some && g[j] is Some
            ==> #[trigger] g[i].unwrap().len() == #[trigger] g[j].unwrap().len()
}

/// Exactly when erasure reconstruction of the data shards succeeds: valid
/// shard counts for GF(2^8), a slot vector of exactly the total shard count,
/// consistent shard sizes, and at least `data_count` present shards.
pub open spec fn spec_can_reconstruct(g: Seq<Option<Seq<u8>>>, dc: int, pc: int) -> bool {
    &&& 1 <= dc
    &&& 1 <= pc
    &&& dc + pc <= 256
    &&& g.len() == dc + pc
    &&& shards_sized(g)
    &&& present_count(g) >= dc
}

/// The slot vector after a successful data reconstruction: missing data
/// slots are filled with the reconstructed shards, all other slots are kept.
pub open spec fn spec_reconstructed_group(
    g: Seq<Option<Seq<u8>>>,
    dc: int,
    pc: int,
) -> Seq<Option<Seq<u8>>> {
    Seq::new(
        g.len(),
        |i: int|
            if 0 <= i < dc && g[i] is None {
                Some(rs_reconstructed(g, dc, pc)[i])
            } else {
                g[i]
            },
    )
}

/// The present shards of `g` agree with the data shards `d` and the parity
/// shards derived from them.
pub open spec fn group_consistent_with(
    g: Seq<Option<Seq<u8>>>,
    d: Seq<Seq<u8>>,
    pc: int,
) -> bool {
    &&& g.len() == d.len() + pc
    &&& forall|i: int| 0 <= i < d.len() && g[i] is Some ==> #[trigger] g[i].unwrap() == d[i]
    &&& forall|j: int|
        0 <= j < pc && g[d.len() + j] is Some ==> #[trigger] g[d.len() + j].unwrap()
            == rs_parity_of(d, pc)[j]
}

/// Relies on `reed_solomon_erasure::galois_8::ReedSolomon::{new, encode_sep}`:
/// with at least one data shard, at least one parity shard, at most 256
/// shards in total and all data shards of the same nonzero length, it fills
/// the parity buffers with the systematic parity shards, a pure function of
/// the data shards and the parity count.
#[verifier::external_body]
pub(crate) fn rs_encode_parities(data: &Vec<Vec<u8>>, parity_count: u8, symbol_size: usize) -> (r:
    Vec<Vec<u8>>)
    requires
        1 <= data@.len(),
        1 <= parity_count,
        data@.len() + parity_count <= 256,
        1 <= symbol_size,
        forall|i: int| 0 <= i < data@.len() ==> #[trigger] data@[i]@.len() == symbol_size,
    ensures
        r@.len() == parity_count as int,
        forall|j: int| 0 <= j < r@.len() ==> #[trigger] r@[j]@.len() == symbol_size,
        r@.map_values(|p: Vec<u8>| p@) == rs_parity_of(
            data@.map_values(|s: Vec<u8>| s@),
            parity_count as int,
        ),
{
    let rs = reed_solomon_erasure::galois_8::ReedSolomon::new(data.len(), parity_count as usize)
        .unwrap();
    let mut parities: Vec<Vec<u8>> = Vec::new();
    for _ in 0..parity_count {
        parities.push(vec![0u8; symbol_size]);
    }
    rs.encode_sep(data.as_slice(), parities.as_mut_slice()).unwrap();
    parities
}

/// Relies on `reed_solomon_erasure::galois_8::ReedSolomon::{new,
/// reconstruct_data}`: reconstruction succeeds exactly under
/// `spec_can_reconstruct`; on success the missing data slots are filled in
/// place and every other slot is kept, on any error nothing is touched, and
/// a slot vector whose present shards agree with data shards `d` and their
/// parities is rebuilt to `d` exactly.  The shard counts must not overflow
/// when summed: `ReedSolomon::new` adds them before its range check.
#[verifier::external_body]
pub(crate) fn rs_reconstruct_data(
    symbols: &mut Vec<Option<Vec<u8>>>,
    data_count: usize,
    parity_count: usize,
) -> (ok: bool)
    requires
        data_count + parity_count <= usize::MAX,
    ensures
        final(symbols)@.len() == old(symbols)@.len(),
        ok == spec_can_reconstruct(
            shards_model(old(symbols)@),
            data_count as int,
            parity_count as int,
        ),
        ok ==> rs_reconstructed(
            shards_model(old(symbols)@),
            data_count as int,
            parity_count as int,
        ).len() == data_count as int,
        ok ==> shards_model(final(symbols)@) == spec_reconstructed_group(
            shards_model(old(symbols)@),
            data_count as int,
            parity_count as int,
        ),
        !ok ==> final(symbols)@ == old(symbols)@,
        forall|d: Seq<Seq<u8>>|
            ok && d.len() == data_count && group_consistent_with(
                shards_model(old(symbols)@),
                d,
                parity_count as int,
            ) ==> forall|i: int|
                0 <= i < data_count ==> #[trigger] shards_model(final(symbols)@)[i] == Some(d[i]),
{
    let rs = match reed_solomon_erasure::galois_8::ReedSolomon::new(data_count, parity_count) {
        Ok(rs) => rs,
        Err(_) => return false,
    };
    rs.reconstruct_data(symbols.as_mut_slice()).is_ok()
}

} // verus!
