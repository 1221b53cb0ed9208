//! Decoder: a bounded sliding window of symbol groups, with Reed-Solomon
//! erasure recovery as soon as a parity symbol makes a group decodable.

use vstd::prelude::*;
use vstd::slice::{slice_subrange, slice_to_vec};

use crate::proto::{
    data_to_symbol, decode_hdr, spec_data_to_symbol, spec_decode_hdr, spec_symbol_datagram,
    symbol_to_data, DATA_SYMBOL_HDR_SIZE, HDR_SIZE,
};
use crate::rs::{
    group_consistent_with, rs_reconstruct_data, shards_model, spec_can_reconstruct,
    spec_reconstructed_group,
};

verus! {

/// One group's sparse symbol slots; `None` marks a missing (erased) symbol.
#[derive(Debug)]
pub struct Group {
    symbols: Vec<Option<Vec<u8>>>,
}

impl View for Group {
    type V = Seq<Option<Seq<u8>>>;

    closed spec fn view(&self) -> Seq<Option<Seq<u8>>> {
        shards_model(self.symbols@)
    }
}

/// `g` grown with empty slots to at least `n` entries.
pub open spec fn spec_group_grow(g: Seq<Option<Seq<u8>>>, n: int) -> Seq<Option<Seq<u8>>> {
    if g.len() >= n {
        g
    } else {
        g + Seq::new((n - g.len()) as nat, |i: int| None::<Seq<u8>>)
    }
}

/// `g` with `symbol` stored in slot `symbol_id`, growing as needed.
pub open spec fn spec_group_push(
    g: Seq<Option<Seq<u8>>>,
    symbol_id: int,
    symbol: Seq<u8>,
) -> Seq<Option<Seq<u8>>> {
    spec_group_grow(g, symbol_id + 1).update(symbol_id, Some(symbol))
}

/// The data-slot indices below `dc` that are empty, in ascending order.
pub open spec fn spec_missing_data(g: Seq<Option<Seq<u8>>>, dc: int) -> Seq<int>
    decreases dc,
{
    if dc <= 0 {
        Seq::empty()
    } else if g[dc - 1] is None {
        spec_missing_data(g, dc - 1).push(dc - 1)
    } else {
        spec_missing_data(g, dc - 1)
    }
}

/// One recovery attempt: the group grown to the full shard count, then, if
/// reconstruction succeeds, the rebuilt group together with the symbols
/// rebuilt into previously missing data slots, in slot order.
pub open spec fn spec_group_recover(g: Seq<Option<Seq<u8>>>, dc: int, pc: int) -> (
    Seq<Option<Seq<u8>>>,
    Seq<Seq<u8>>,
) {
    let grown = spec_group_grow(g, dc + pc);
    if spec_can_reconstruct(grown, dc, pc) {
        let g2 = spec_reconstructed_group(grown, dc, pc);
        (g2, spec_missing_data(grown, dc).map_values(|i: int| g2[i].unwrap()))
    } else {
        (grown, Seq::empty())
    }
}

impl Group {
    /// A fresh group with no symbols.
    pub fn new() -> (g: Group)
        ensures
            g@ == Seq::<Option<Seq<u8>>>::empty(),
    {
        let g = Group { symbols: Vec::new() };
        proof {
            assert(g@ =~= Seq::<Option<Seq<u8>>>::empty());
        }
        g
    }

    /// Stores `symbol` in slot `symbol_id`; a later arrival in the same slot
    /// overwrites the earlier one.
    pub fn push(&mut self, symbol_id: usize, symbol: Vec<u8>)
        requires
            symbol_id < usize::MAX,
        ensures
            final(self)@ == spec_group_push(old(self)@, symbol_id as int, symbol@),
    {
        while self.symbols.len() <= symbol_id
            invariant
                symbol_id < usize::MAX,
                self.symbols@.len() >= old(self).symbols@.len(),
                self.symbols@.len() <= (if old(self).symbols@.len() >= symbol_id + 1 {
                    old(self).symbols@.len() as int
                } else {
                    symbol_id + 1
                }),
                forall|i: int|
                    0 <= i < old(self).symbols@.len() ==> self.symbols@[i] == old(
                        self,
                    ).symbols@[i],
                forall|i: int|
                    old(self).symbols@.len() <= i < self.symbols@.len() ==> self.symbols@[i]
                        is None,
            decreases symbol_id + 1 - self.symbols@.len(),
        {
            self.symbols.push(None);
        }
        self.symbols[symbol_id] = Some(symbol);
        proof {
            assert(final(self)@ =~= spec_group_push(old(self)@, symbol_id as int, symbol@));
        }
    }

    /// Attempts erasure recovery with the counts carried by a parity packet.
    /// Returns the symbols rebuilt into previously missing data slots, in
    /// slot order; empty when the group is not (or no longer) decodable.
    /// Recovered slots stay present, so repeating a recovery is a no-op.
    pub fn recover(&mut self, data_count: usize, parity_count: usize) -> (r: Vec<Vec<u8>>)
        requires
            data_count + parity_count <= usize::MAX,
        ensures
            final(self)@ == spec_group_recover(
                old(self)@,
                data_count as int,
                parity_count as int,
            ).0,
            r@.map_values(|s: Vec<u8>| s@) == spec_group_recover(
                old(self)@,
                data_count as int,
                parity_count as int,
            ).1,
            forall|d: Seq<Seq<u8>>|
                spec_can_reconstruct(
                    spec_group_grow(old(self)@, data_count + parity_count),
                    data_count as int,
                    parity_count as int,
                ) && d.len() == data_count && group_consistent_with(
                    spec_group_grow(old(self)@, data_count + parity_count),
                    d,
                    parity_count as int,
                ) ==> forall|i: int|
                    0 <= i < data_count ==> #[trigger] final(self)@[i] == Some(d[i]),
    {
        let total: usize = data_count + parity_count;
        while self.symbols.len() < total
            invariant
                total <= usize::MAX,
                self.symbols@.len() >= old(self).symbols@.len(),
                self.symbols@.len() <= (if old(self).symbols@.len() >= total {
                    old(self).symbols@.len() as int
                } else {
                    total as int
                }),
                forall|i: int|
                    0 <= i < old(self).symbols@.len() ==> self.symbols@[i] == old(
                        self,
                    ).symbols@[i],
                forall|i: int|
                    old(self).symbols@.len() <= i < self.symbols@.len() ==> self.symbols@[i]
                        is None,
            decreases total - self.symbols@.len(),
        {
            self.symbols.push(None);
        }
        let ghost grown = spec_group_grow(old(self)@, data_count + parity_count);
        proof {
            assert(self@ =~= grown);
        }
        let mut missing: Vec<usize> = Vec::new();
        let mut i: usize = 0;
        while i < data_count
            invariant
                i <= data_count,
                self@ == grown,
                data_count <= self.symbols@.len(),
                self.symbols@.len() == grown.len(),
                missing@.map_values(|u: usize| u as int) == spec_missing_data(grown, i as int),
                forall|k: int| 0 <= k < missing@.len() ==> #[trigger] missing@[k] < i,
            decreases data_count - i,
        {
            proof {
                assert(grown[i as int] == shards_model(self.symbols@)[i as int]);
                assert(grown[i as int] is None <==> self.symbols@[i as int] is None);
            }
            if self.symbols[i].is_none() {
                missing.push(i);
            }
            proof {
                assert(missing@.map_values(|u: usize| u as int) =~= spec_missing_data(
                    grown,
                    i + 1,
                ));
            }
            i += 1;
        }
        let ok = rs_reconstruct_data(&mut self.symbols, data_count, parity_count);
        let mut out: Vec<Vec<u8>> = Vec::new();
        if !ok {
            proof {
                assert(out@.map_values(|s: Vec<u8>| s@) =~= Seq::<Seq<u8>>::empty());
            }
            return out;
        }
        let ghost g2 = spec_reconstructed_group(grown, data_count as int, parity_count as int);
        let ghost outs = spec_missing_data(grown, data_count as int).map_values(
            |j: int| g2[j].unwrap(),
        );
        let mut k: usize = 0;
        while k < missing.len()
            invariant
                k <= missing@.len(),
                self@ == g2,
                missing@.map_values(|u: usize| u as int) == spec_missing_data(
                    grown,
                    data_count as int,
                ),
                outs == spec_missing_data(grown, data_count as int).map_values(
                    |j: int| g2[j].unwrap(),
                ),
                forall|j: int| 0 <= j < missing@.len() ==> #[trigger] missing@[j] < data_count,
                data_count <= self.symbols@.len(),
                forall|j: int|
                    0 <= j < missing@.len() ==> g2[#[trigger] missing@[j] as int] is Some,
                out@.map_values(|s: Vec<u8>| s@) == outs.take(k as int),
            decreases missing@.len() - k,
        {
            let idx: usize = missing[k];
            proof {
                assert(missing@.map_values(|u: usize| u as int)[k as int] == idx as int);
                assert(spec_missing_data(grown, data_count as int)[k as int] == idx as int);
                assert(outs[k as int] == g2[idx as int].unwrap());
                assert(self@[idx as int] == shards_model(self.symbols@)[idx as int]);
            }
            let ghost out_pre = out@;
            match &self.symbols[idx] {
                Some(v) => {
                    proof {
                        assert(self@[idx as int] == Some(v@));
                        assert(v@ == outs[k as int]);
                    }
                    out.push(slice_to_vec(v.as_slice()));
                },
                None => {
                    proof {
                        assert(self@[idx as int] is None);
                        assert(false);
                    }
                },
            }
            proof {
                assert(out@ == out_pre.push(out@.last()));
                assert(out@.last()@ == outs[k as int]);
                assert(outs.take(k + 1) =~= outs.take(k as int).push(outs[k as int]));
                assert(out@.map_values(|s: Vec<u8>| s@) =~= outs.take(k + 1));
            }
            k += 1;
        }
        proof {
            assert(missing@.map_values(|u: usize| u as int).len() == missing@.len());
            assert(outs.len() == missing@.len());
            assert(outs.take(missing@.len() as int) =~= outs);
        }
        out
    }
}

/// Receiver-side codec state: a bounded window of groups keyed by group id,
/// in increasing order.
#[derive(Debug)]
pub struct FecDecoder {
    window_size: u64,
    window: Vec<(u64, Group)>,
    symbol_size: usize,
    max_group_size: usize,
}

/// Eviction: drop resident groups from the front while their id is below
/// `min_gid`.
pub open spec fn spec_evict(w: Seq<(u64, Seq<Option<Seq<u8>>>)>, min_gid: int) -> Seq<
    (u64, Seq<Option<Seq<u8>>>),
>
    decreases w.len(),
{
    if w.len() > 0 && (w[0].0 as int) < min_gid {
        spec_evict(w.drop_first(), min_gid)
    } else {
        w
    }
}

/// Whether a group with this id is resident.
pub open spec fn spec_window_contains(w: Seq<(u64, Seq<Option<Seq<u8>>>)>, gid: u64) -> bool {
    exists|i: int| 0 <= i < w.len() && (#[trigger] w[i]).0 == gid
}

/// The resident group with this id, or a fresh empty group.
pub open spec fn spec_lookup(w: Seq<(u64, Seq<Option<Seq<u8>>>)>, gid: u64) -> Seq<
    Option<Seq<u8>>,
>
    decreases w.len(),
{
    if w.len() == 0 {
        Seq::empty()
    } else if w[0].0 == gid {
        w[0].1
    } else {
        spec_lookup(w.drop_first(), gid)
    }
}

/// The window with group `gid` bound to `g`, inserted in key order.
pub open spec fn spec_store(
    w: Seq<(u64, Seq<Option<Seq<u8>>>)>,
    gid: u64,
    g: Seq<Option<Seq<u8>>>,
) -> Seq<(u64, Seq<Option<Seq<u8>>>)>
    decreases w.len(),
{
    if w.len() == 0 {
        seq![(gid, g)]
    } else if w[0].0 < gid {
        seq![w[0]] + spec_store(w.drop_first(), gid, g)
    } else if w[0].0 == gid {
        w.update(0, (gid, g))
    } else {
        seq![(gid, g)] + w
    }
}

/// The datagrams carried by a sequence of recovered symbols, skipping
/// malformed ones.
pub open spec fn spec_datagrams(symbols: Seq<Seq<u8>>) -> Seq<Seq<u8>>
    decreases symbols.len(),
{
    if symbols.len() == 0 {
        Seq::empty()
    } else {
        let rest = spec_datagrams(symbols.drop_last());
        match spec_symbol_datagram(symbols.last()) {
            Some(d) => rest.push(d),
            None => rest,
        }
    }
}

/// What one `decode` call does: the new window, the in-place data payload
/// offset (for admitted data packets), and the recovered datagrams (for
/// parity packets).
pub open spec fn spec_decode_step(
    w: Seq<(u64, Seq<Option<Seq<u8>>>)>,
    window_size: u64,
    symbol_size: int,
    max_group_size: int,
    buf: Seq<u8>,
) -> (Seq<(u64, Seq<Option<Seq<u8>>>)>, Option<int>, Seq<Seq<u8>>) {
    match spec_decode_hdr(buf) {
        None => (w, None, Seq::empty()),
        Some(ph) => {
            let hdr = ph.0;
            let gid = hdr.symbol_global_id.group_id;
            let sid = hdr.symbol_global_id.symbol_id as int;
            if sid >= max_group_size {
                (w, None, Seq::empty())
            } else {
                let payload = buf.skip(HDR_SIZE as int);
                if hdr.parity is None && (payload.len() + DATA_SYMBOL_HDR_SIZE > symbol_size
                    || payload.len() > 0xFFFF) {
                    (w, None, Seq::empty())
                } else {
                    let symbol = match hdr.parity {
                        Some(_) => payload,
                        None => spec_data_to_symbol(payload, symbol_size),
                    };
                    let w1 = spec_evict(w, gid as int - window_size as int);
                    if !spec_window_contains(w1, gid) && w1.len() >= window_size {
                        (w1, None, Seq::empty())
                    } else {
                        let g1 = spec_group_push(spec_lookup(w1, gid), sid, symbol);
                        match hdr.parity {
                            Some(p) => {
                                let rec = spec_group_recover(
                                    g1,
                                    p.data_count as int,
                                    p.parity_count as int,
                                );
                                (spec_store(w1, gid, rec.0), None, spec_datagrams(rec.1))
                            },
                            None => (spec_store(w1, gid, g1), Some(HDR_SIZE as int), Seq::empty()),
                        }
                    }
                }
            }
        },
    }
}

proof fn lemma_concat_empty(s: Seq<Seq<u8>>)
    ensures
        s + Seq::<Seq<u8>>::empty() == s,
{
    assert(s + Seq::<Seq<u8>>::empty() =~= s);
}

proof fn lemma_evict_props(w: Seq<(u64, Seq<Option<Seq<u8>>>)>, m: int)
    requires
        spec_window_sorted(w),
    ensures
        spec_window_sorted(spec_evict(w, m)),
        spec_evict(w, m).len() <= w.len(),
        spec_evict(w, m).len() > 0 ==> (spec_evict(w, m)[0].0 as int) >= m,
    decreases w.len(),
{
    if w.len() > 0 && (w[0].0 as int) < m {
        let wt = w.drop_first();
        assert(spec_window_sorted(wt)) by {
            assert(forall|a: int, b: int|
                0 <= a < b < wt.len() ==> (#[trigger] wt[a]).0 == w[a + 1].0 && (
                #[trigger] wt[b]).0 == w[b + 1].0);
        }
        lemma_evict_props(wt, m);
    }
}

proof fn lemma_store_basic(w: Seq<(u64, Seq<Option<Seq<u8>>>)>, gid: u64, g: Seq<Option<Seq<u8>>>)
    requires
        spec_window_sorted(w),
    ensures
        spec_window_sorted(spec_store(w, gid, g)),
        spec_window_contains(spec_store(w, gid, g), gid),
        spec_lookup(spec_store(w, gid, g), gid) == g,
        spec_store(w, gid, g).len() > 0,
        spec_store(w, gid, g)[0].0 == gid || (w.len() > 0 && spec_store(w, gid, g)[0].0 == w[0].0),
    decreases w.len(),
{
    let s = spec_store(w, gid, g);
    if w.len() == 0 {
        assert(s[0].0 == gid);
        assert(spec_window_contains(s, gid));
    } else if w[0].0 < gid {
        let wt = w.drop_first();
        assert(spec_window_sorted(wt)) by {
            assert(forall|a: int, b: int|
                0 <= a < b < wt.len() ==> (#[trigger] wt[a]).0 == w[a + 1].0 && (
                #[trigger] wt[b]).0 == w[b + 1].0);
        }
        lemma_store_basic(wt, gid, g);
        let st = spec_store(wt, gid, g);
        assert(s == seq![w[0]] + st);
        assert(s.drop_first() =~= st);
        assert(spec_lookup(s, gid) == spec_lookup(st, gid));
        let t = choose|t: int| 0 <= t < st.len() && (#[trigger] st[t]).0 == gid;
        assert(s[t + 1].0 == gid);
        assert(spec_window_contains(s, gid));
        assert forall|a: int, b: int| 0 <= a < b < s.len() implies (#[trigger] s[a]).0 < (
        #[trigger] s[b]).0 by {
            if a >= 1 {
                assert(s[a] == st[a - 1] && s[b] == st[b - 1]);
            } else {
                assert(s[b] == st[b - 1]);
                assert(st[0].0 == gid || st[0].0 == wt[0].0 || wt.len() == 0);
                if b - 1 > 0 {
                    assert(st[0].0 < st[b - 1].0);
                }
            }
        }
    } else if w[0].0 == gid {
        assert(s =~= w.update(0, (gid, g)));
        assert(s[0].0 == gid);
        assert(spec_window_contains(s, gid));
        assert forall|a: int, b: int| 0 <= a < b < s.len() implies (#[trigger] s[a]).0 < (
        #[trigger] s[b]).0 by {
            assert(w[a].0 < w[b].0);
        }
    } else {
        assert(s == seq![(gid, g)] + w);
        assert(s[0].0 == gid);
        assert(spec_window_contains(s, gid));
        assert forall|a: int, b: int| 0 <= a < b < s.len() implies (#[trigger] s[a]).0 < (
        #[trigger] s[b]).0 by {
            if a >= 1 {
                assert(s[a] == w[a - 1] && s[b] == w[b - 1]);
            } else {
                assert(s[b] == w[b - 1]);
                if b - 1 > 0 {
                    assert(w[0].0 < w[b - 1].0);
                }
            }
        }
    }
}

proof fn lemma_store_store(
    w: Seq<(u64, Seq<Option<Seq<u8>>>)>,
    gid: u64,
    g1: Seq<Option<Seq<u8>>>,
    g2: Seq<Option<Seq<u8>>>,
)
    requires
        spec_window_sorted(w),
    ensures
        spec_store(spec_store(w, gid, g1), gid, g2) == spec_store(w, gid, g2),
    decreases w.len(),
{
    let s1 = spec_store(w, gid, g1);
    if w.len() == 0 {
        assert(s1[0].0 == gid);
        assert(spec_store(s1, gid, g2) =~= spec_store(w, gid, g2));
    } else if w[0].0 < gid {
        let wt = w.drop_first();
        assert(spec_window_sorted(wt)) by {
            assert(forall|a: int, b: int|
                0 <= a < b < wt.len() ==> (#[trigger] wt[a]).0 == w[a + 1].0 && (
                #[trigger] wt[b]).0 == w[b + 1].0);
        }
        lemma_store_store(wt, gid, g1, g2);
        assert(s1 == seq![w[0]] + spec_store(wt, gid, g1));
        assert(s1.len() > 0 && s1[0] == w[0]);
        assert(s1.drop_first() =~= spec_store(wt, gid, g1));
        assert(spec_store(s1, gid, g2) == seq![s1[0]] + spec_store(s1.drop_first(), gid, g2));
        assert(spec_store(s1, gid, g2) == spec_store(w, gid, g2));
    } else if w[0].0 == gid {
        assert(s1 == w.update(0, (gid, g1)));
        assert(s1[0].0 == gid);
        assert(spec_store(s1, gid, g2) == s1.update(0, (gid, g2)));
        assert(s1.update(0, (gid, g2)) =~= w.update(0, (gid, g2)));
    } else {
        assert(s1 == seq![(gid, g1)] + w);
        assert(s1[0].0 == gid);
        assert(spec_store(s1, gid, g2) == s1.update(0, (gid, g2)));
        assert(s1.update(0, (gid, g2)) =~= seq![(gid, g2)] + w);
    }
}

proof fn lemma_missing_none(g: Seq<Option<Seq<u8>>>, dc: int)
    requires
        forall|i: int| 0 <= i < dc ==> (#[trigger] g[i]) is Some,
    ensures
        spec_missing_data(g, dc) == Seq::<int>::empty(),
    decreases dc,
{
    if dc > 0 {
        lemma_missing_none(g, dc - 1);
    }
}

/// Strictly increasing group ids.
pub open spec fn spec_window_sorted(w: Seq<(u64, Seq<Option<Seq<u8>>>)>) -> bool {
    forall|i: int, j: int|
        0 <= i < j < w.len() ==> (#[trigger] w[i]).0 < (#[trigger] w[j]).0
}

/// Locates `gid` in a sorted window at the boundary index `i` (the first
/// index whose key is not below `gid`): the window contains `gid` exactly
/// when `i` lands on it, lookup reads that entry, and store updates it or
/// inserts a new entry there.
proof fn lemma_window_at(
    w: Seq<(u64, Seq<Option<Seq<u8>>>)>,
    gid: u64,
    g: Seq<Option<Seq<u8>>>,
    i: int,
)
    requires
        spec_window_sorted(w),
        0 <= i <= w.len(),
        forall|k: int| 0 <= k < i ==> (#[trigger] w[k]).0 < gid,
        i < w.len() ==> w[i].0 >= gid,
    ensures
        spec_window_contains(w, gid) <==> (i < w.len() && w[i].0 == gid),
        i < w.len() && w[i].0 == gid ==> spec_lookup(w, gid) == w[i].1,
        !(i < w.len() && w[i].0 == gid) ==> spec_lookup(w, gid) == Seq::<Option<Seq<u8>>>::empty(),
        i < w.len() && w[i].0 == gid ==> spec_store(w, gid, g) == w.update(i, (gid, g)),
        !(i < w.len() && w[i].0 == gid) ==> spec_store(w, gid, g) == w.subrange(0, i) + seq![
            (gid, g),
        ] + w.subrange(i, w.len() as int),
    decreases w.len(),
{
    if w.len() == 0 {
        assert(spec_store(w, gid, g) =~= w.subrange(0, i) + seq![(gid, g)] + w.subrange(
            i,
            w.len() as int,
        ));
    } else if w[0].0 < gid {
        assert(i >= 1);
        let wt = w.drop_first();
        assert(spec_window_sorted(wt)) by {
            assert(forall|a: int, b: int|
                0 <= a < b < wt.len() ==> (#[trigger] wt[a]).0 == w[a + 1].0 && (
                #[trigger] wt[b]).0 == w[b + 1].0);
        }
        assert(forall|k: int| 0 <= k < i - 1 ==> (#[trigger] wt[k]).0 == w[k + 1].0);
        lemma_window_at(wt, gid, g, i - 1);
        if i < w.len() && w[i].0 == gid {
            assert(wt[i - 1] == w[i]);
            assert(spec_store(w, gid, g) == seq![w[0]] + wt.update(i - 1, (gid, g)));
            assert(seq![w[0]] + wt.update(i - 1, (gid, g)) =~= w.update(i, (gid, g)));
            assert(spec_window_contains(w, gid));
        } else {
            assert(spec_store(w, gid, g) == seq![w[0]] + (wt.subrange(0, i - 1) + seq![(gid, g)]
                + wt.subrange(i - 1, wt.len() as int)));
            assert(seq![w[0]] + (wt.subrange(0, i - 1) + seq![(gid, g)] + wt.subrange(
                i - 1,
                wt.len() as int,
            )) =~= w.subrange(0, i) + seq![(gid, g)] + w.subrange(i, w.len() as int));
            if spec_window_contains(w, gid) {
                let t = choose|t: int| 0 <= t < w.len() && (#[trigger] w[t]).0 == gid;
                assert(t >= 1);
                assert(wt[t - 1].0 == gid);
                assert(spec_window_contains(wt, gid));
                assert(false);
            }
        }
    } else if w[0].0 == gid {
        assert(i == 0);
        assert(spec_window_contains(w, gid));
    } else {
        assert(i == 0);
        assert(spec_store(w, gid, g) =~= w.subrange(0, i) + seq![(gid, g)] + w.subrange(
            i,
            w.len() as int,
        ));
        let wt = w.drop_first();
        assert(spec_window_sorted(wt)) by {
            assert(forall|a: int, b: int|
                0 <= a < b < wt.len() ==> (#[trigger] wt[a]).0 == w[a + 1].0 && (
                #[trigger] wt[b]).0 == w[b + 1].0);
        }
        assert(wt.len() > 0 ==> wt[0].0 == w[1].0 && w[0].0 < w[1].0);
        lemma_window_at(wt, gid, g, 0);
        assert(spec_lookup(w, gid) == spec_lookup(wt, gid));
        if spec_window_contains(w, gid) {
            let t = choose|t: int| 0 <= t < w.len() && (#[trigger] w[t]).0 == gid;
            assert(w[0].0 <= w[t].0);
            assert(false);
        }
    }
}

/// When `buf` is a parity packet that the decoder admits, the group it
/// completes: its id, its slot vector grown to the full shard count (with
/// the parity symbol already stored), and the shard counts it carries.
pub open spec fn spec_parity_target(
    w: Seq<(u64, Seq<Option<Seq<u8>>>)>,
    window_size: u64,
    max_group_size: int,
    buf: Seq<u8>,
) -> Option<(u64, Seq<Option<Seq<u8>>>, int, int)> {
    match spec_decode_hdr(buf) {
        None => None,
        Some(ph) => {
            let hdr = ph.0;
            let gid = hdr.symbol_global_id.group_id;
            let sid = hdr.symbol_global_id.symbol_id as int;
            if sid >= max_group_size {
                None
            } else {
                match hdr.parity {
                    None => None,
                    Some(p) => {
                        let w1 = spec_evict(w, gid as int - window_size as int);
                        if !spec_window_contains(w1, gid) && w1.len() >= window_size {
                            None
                        } else {
                            let g1 = spec_group_push(
                                spec_lookup(w1, gid),
                                sid,
                                buf.skip(HDR_SIZE as int),
                            );
                            Some(
                                (
                                    gid,
                                    spec_group_grow(
                                        g1,
                                        p.data_count as int + p.parity_count as int,
                                    ),
                                    p.data_count as int,
                                    p.parity_count as int,
                                ),
                            )
                        }
                    },
                }
            }
        },
    }
}

proof fn lemma_wf_sorted_model(d: &FecDecoder)
    requires
        d.wf(),
    ensures
        spec_window_sorted(d.window_model()),
{
    assert forall|a: int, b: int| 0 <= a < b < d.window_model().len() implies (
    #[trigger] d.window_model()[a]).0 < (#[trigger] d.window_model()[b]).0 by {
        assert(d.window_model()[a].0 == d.window@[a].0);
        assert(d.window_model()[b].0 == d.window@[b].0);
    }
}

impl FecDecoder {
    /// Resident groups are keyed in strictly increasing order and never
    /// exceed the window size.
    pub closed spec fn wf(&self) -> bool {
        &&& 1 <= self.window_size
        &&& DATA_SYMBOL_HDR_SIZE <= self.symbol_size
        &&& self.window@.len() <= self.window_size
        &&& forall|i: int, j: int|
            0 <= i < j < self.window@.len() ==> (#[trigger] self.window@[i]).0 < (
            #[trigger] self.window@[j]).0
    }

    pub closed spec fn window_model(&self) -> Seq<(u64, Seq<Option<Seq<u8>>>)> {
        self.window@.map_values(|e: (u64, Group)| (e.0, e.1@))
    }

    pub closed spec fn spec_window_size(&self) -> u64 {
        self.window_size
    }

    pub closed spec fn spec_symbol_size(&self) -> usize {
        self.symbol_size
    }

    pub closed spec fn spec_max_group_size(&self) -> usize {
        self.max_group_size
    }

    /// A fresh decoder with an empty window.
    pub fn new(window_size: u64, symbol_size: usize, max_group_size: usize) -> (r: Self)
        requires
            1 <= window_size,
            DATA_SYMBOL_HDR_SIZE <= symbol_size,
        ensures
            r.wf(),
            r.window_model().len() == 0,
            spec_window_sorted(r.window_model()),
            r.spec_window_size() == window_size,
            r.spec_symbol_size() == symbol_size,
            r.spec_max_group_size() == max_group_size,
    {
        FecDecoder { window_size, window: Vec::new(), symbol_size, max_group_size }
    }

    /// Feeds one wire packet.  An admitted data packet returns the header
    /// length, so the datagram is `buf[n..]` in place; everything else
    /// returns `None`.  Datagrams rebuilt by a parity packet are appended to
    /// `recovered`.  All malformed or out-of-policy packets are dropped
    /// silently.
    #[verifier::rlimit(60)]
    pub fn decode(&mut self, buf: &[u8], recovered: &mut Vec<Vec<u8>>) -> (r: Option<usize>)
        requires
            old(self).wf(),
        ensures
            final(self).wf(),
            final(self).spec_window_size() == old(self).spec_window_size(),
            final(self).spec_symbol_size() == old(self).spec_symbol_size(),
            final(self).spec_max_group_size() == old(self).spec_max_group_size(),
            final(self).window_model().len() <= old(self).spec_window_size(),
            spec_window_sorted(final(self).window_model()),
            ({
                let step = spec_decode_step(
                    old(self).window_model(),
                    old(self).spec_window_size(),
                    old(self).spec_symbol_size() as int,
                    old(self).spec_max_group_size() as int,
                    buf@,
                );
                &&& final(self).window_model() == step.0
                &&& (r is Some <==> step.1 is Some)
                &&& (r matches Some(n) ==> step.1 == Some(n as int))
                &&& final(recovered)@.map_values(|v: Vec<u8>| v@) == old(recovered)@.map_values(
                    |v: Vec<u8>| v@,
                ) + step.2
                &&& final(recovered)@.len() >= old(recovered)@.len()
                &&& forall|i: int|
                    0 <= i < old(recovered)@.len() ==> #[trigger] final(recovered)@[i] == old(
                        recovered,
                    )@[i]
            }),
            // Erasure recovery: a parity packet that completes a group whose
            // present symbols agree with data shards `d` leaves the group
            // holding exactly `d` in its data slots.
            match spec_parity_target(
                old(self).window_model(),
                old(self).spec_window_size(),
                old(self).spec_max_group_size() as int,
                buf@,
            ) {
                Some(t) => forall|d: Seq<Seq<u8>>|
                    spec_can_reconstruct(t.1, t.2, t.3) && d.len() == t.2 && #[trigger]
                    group_consistent_with(t.1, d, t.3) ==> forall|j: int|
                        0 <= j < t.2 ==> #[trigger] spec_lookup(final(self).window_model(), t.0)[j]
                            == Some(d[j]),
                None => true,
            },
    {
        let ghost w0 = old(self).window_model();
        proof {
            lemma_concat_empty(old(recovered)@.map_values(|v: Vec<u8>| v@));
        }
        proof {
            lemma_wf_sorted_model(self);
        }
        let (hdr, hdr_len) = match decode_hdr(buf) {
            Some(p) => p,
            None => {
                return None;
            },
        };
        let sid: usize = hdr.symbol_global_id.symbol_id as usize;
        if sid >= self.max_group_size {
            return None;
        }
        let buf_len: usize = buf.len();
        let payload: Vec<u8> = slice_to_vec(slice_subrange(buf, hdr_len, buf_len));
        proof {
            assert(payload@ =~= buf@.skip(HDR_SIZE as int));
        }
        let symbol: Vec<u8> = match &hdr.parity {
            Some(_) => payload,
            None => {
                if payload.len() > self.symbol_size - DATA_SYMBOL_HDR_SIZE || payload.len()
                    > 0xFFFF {
                    return None;
                }
                data_to_symbol(payload.as_slice(), self.symbol_size)
            },
        };
        let gid: u64 = hdr.symbol_global_id.group_id;
        let ghost min_gid = gid as int - self.window_size as int;
        if gid >= self.window_size {
            let min_gid_c: u64 = gid - self.window_size;
            while self.window.len() > 0 && self.window[0].0 < min_gid_c
                invariant
                    min_gid_c as int == min_gid,
                    self.wf(),
                    self.window_size == old(self).window_size,
                    self.symbol_size == old(self).symbol_size,
                    self.max_group_size == old(self).max_group_size,
                    spec_evict(self.window_model(), min_gid) == spec_evict(w0, min_gid),
                decreases self.window@.len(),
            {
                let ghost pre = self.window_model();
                let _ = self.window.remove(0);
                proof {
                    assert(self.window_model() =~= pre.drop_first());
                    assert(spec_evict(pre, min_gid) == spec_evict(pre.drop_first(), min_gid));
                }
            }
        }
        proof {
            let m = self.window_model();
            if m.len() > 0 {
                assert(m[0].0 == self.window@[0].0);
                assert(!((m[0].0 as int) < min_gid));
            }
            assert(spec_evict(m, min_gid) == m);
            assert(self.window_model() == spec_evict(w0, min_gid));
        }
        let ghost w1 = spec_evict(w0, min_gid);
        let mut i: usize = 0;
        while i < self.window.len() && self.window[i].0 < gid
            invariant
                i <= self.window@.len(),
                self.wf(),
                self.window_model() == w1,
                forall|k: int| 0 <= k < i ==> (#[trigger] self.window@[k]).0 < gid,
            decreases self.window@.len() - i,
        {
            i += 1;
        }
        let found: bool = i < self.window.len() && self.window[i].0 == gid;
        proof {
            assert(forall|k: int| 0 <= k < i ==> (#[trigger] w1[k]).0 < gid);
            assert(i < w1.len() ==> w1[i as int].0 == self.window@[i as int].0);
            lemma_window_at(w1, gid, Seq::empty(), i as int);
        }
        let ghost g0 = spec_lookup(w1, gid);
        if !found {
            if self.window.len() as u64 >= self.window_size {
                proof {
                    lemma_wf_sorted_model(self);
                }
                return None;
            }
            self.window.insert(i, (gid, Group::new()));
            proof {
                assert(self.window_model() =~= w1.subrange(0, i as int) + seq![
                    (gid, Seq::<Option<Seq<u8>>>::empty()),
                ] + w1.subrange(i as int, w1.len() as int));
                assert(g0 =~= Seq::<Option<Seq<u8>>>::empty());
            }
        }
        proof {
            assert(self.window@[i as int].0 == gid);
            assert(self.window@[i as int].1@ == g0);
            assert(forall|a: int, b: int|
                0 <= a < b < self.window@.len() ==> (#[trigger] self.window@[a]).0 < (
                #[trigger] self.window@[b]).0);
            assert(self.window@.len() <= self.window_size);
        }
        let ghost w_mid = self.window_model();
        let ghost g1 = spec_group_push(g0, sid as int, symbol@);
        self.window[i].1.push(sid, symbol);
        proof {
            assert(self.window@[i as int].1@ == g1);
            assert(self.window_model() =~= w_mid.update(i as int, (gid, g1)));
        }
        match &hdr.parity {
            Some(p) => {
                let dc: usize = p.data_count as usize;
                let pc: usize = p.parity_count as usize;
                let ghost g2 = spec_group_recover(g1, dc as int, pc as int).0;
                let ghost outs_m = spec_group_recover(g1, dc as int, pc as int).1;
                let outs = self.window[i].1.recover(dc, pc);
                proof {
                    assert(self.window@[i as int].1@ == g2);
                    assert(self.window_model() =~= w_mid.update(i as int, (gid, g2)));
                    lemma_window_store_shape(w1, gid, g2, i as int, found, self.window_model());
                    assert(outs@.map_values(|s: Vec<u8>| s@) == outs_m);
                    lemma_store_basic(w1, gid, g2);
                    assert(spec_lookup(self.window_model(), gid) == g2);
                }
                let mut k: usize = 0;
                while k < outs.len()
                    invariant
                        k <= outs@.len(),
                        recovered@.len() >= old(recovered)@.len(),
                        forall|t: int|
                            0 <= t < old(recovered)@.len() ==> #[trigger] recovered@[t] == old(
                                recovered,
                            )@[t],
                        recovered@.map_values(|v: Vec<u8>| v@) == old(recovered)@.map_values(
                            |v: Vec<u8>| v@,
                        ) + spec_datagrams(outs@.map_values(|s: Vec<u8>| s@).take(k as int)),
                    decreases outs@.len() - k,
                {
                    let ghost syms = outs@.map_values(|s: Vec<u8>| s@);
                    let symbol_ref = &outs[k];
                    proof {
                        assert(symbol_ref@ == syms[k as int]);
                    }
                    let mut dbuf: Vec<u8> = vec![0u8; symbol_ref.len()];
                    match symbol_to_data(symbol_ref.as_slice(), &mut dbuf) {
                        Some(n) => {
                            proof {
                                let d = spec_symbol_datagram(syms[k as int]).unwrap();
                                assert(d.len() + DATA_SYMBOL_HDR_SIZE <= syms[k as int].len());
                                assert(n == d.len());
                            }
                            dbuf.truncate(n);
                            proof {
                                let d = spec_symbol_datagram(syms[k as int]).unwrap();
                                assert(dbuf@ =~= d);
                            }
                            let ghost rec_pre = recovered@;
                            recovered.push(dbuf);
                            proof {
                                assert(recovered@ == rec_pre.push(dbuf));
                                assert(recovered@.map_values(|v: Vec<u8>| v@) =~= rec_pre
                                    .map_values(|v: Vec<u8>| v@).push(dbuf@));
                            }
                        },
                        None => {},
                    }
                    proof {
                        assert(syms.take(k + 1).drop_last() =~= syms.take(k as int));
                        assert(syms.take(k + 1).last() == syms[k as int]);
                        assert(spec_datagrams(syms.take(k + 1)) == (match spec_symbol_datagram(
                            syms[k as int],
                        ) {
                            Some(d) => spec_datagrams(syms.take(k as int)).push(d),
                            None => spec_datagrams(syms.take(k as int)),
                        }));
                        if spec_symbol_datagram(syms[k as int]) is Some {
                            let d = spec_symbol_datagram(syms[k as int]).unwrap();
                            assert((old(recovered)@.map_values(|v: Vec<u8>| v@) + spec_datagrams(
                                syms.take(k as int),
                            )).push(d) =~= old(recovered)@.map_values(|v: Vec<u8>| v@)
                                + spec_datagrams(syms.take(k as int)).push(d));
                        }
                        assert(recovered@.map_values(|v: Vec<u8>| v@) =~= old(
                            recovered,
                        )@.map_values(|v: Vec<u8>| v@) + spec_datagrams(syms.take(k + 1)));
                    }
                    k += 1;
                }
                proof {
                    let syms = outs@.map_values(|s: Vec<u8>| s@);
                    assert(syms.take(syms.len() as int) =~= syms);
                }
                None
            },
            None => {
                proof {
                    lemma_window_store_shape(w1, gid, g1, i as int, found, self.window_model());
                }
                Some(hdr_len)
            },
        }
    }
}

/// Idempotence of duplicates: feeding the same packet twice leaves the
/// decoder exactly as after the first call, returns the same result, and
/// surfaces no further recovered datagrams.
pub proof fn lemma_duplicate_packet_idempotent(
    w: Seq<(u64, Seq<Option<Seq<u8>>>)>,
    window_size: u64,
    symbol_size: int,
    max_group_size: int,
    buf: Seq<u8>,
)
    requires
        1 <= window_size,
        spec_window_sorted(w),
    ensures
        ({
            let s1 = spec_decode_step(w, window_size, symbol_size, max_group_size, buf);
            let s2 = spec_decode_step(s1.0, window_size, symbol_size, max_group_size, buf);
            &&& s2.0 == s1.0
            &&& s2.1 == s1.1
            &&& s2.2 == Seq::<Seq<u8>>::empty()
        }),
{
    let s1 = spec_decode_step(w, window_size, symbol_size, max_group_size, buf);
    if spec_decode_hdr(buf) is Some {
        let hdr = spec_decode_hdr(buf).unwrap().0;
        let gid = hdr.symbol_global_id.group_id;
        let sid = hdr.symbol_global_id.symbol_id as int;
        let payload = buf.skip(HDR_SIZE as int);
        let dropped = sid >= max_group_size || (hdr.parity is None && (payload.len()
            + DATA_SYMBOL_HDR_SIZE > symbol_size || payload.len() > 0xFFFF));
        if !dropped {
            let symbol = match hdr.parity {
                Some(_) => payload,
                None => spec_data_to_symbol(payload, symbol_size),
            };
            let m = gid as int - window_size as int;
            let w1 = spec_evict(w, m);
            lemma_evict_props(w, m);
            if !spec_window_contains(w1, gid) && w1.len() >= window_size {
                assert(spec_evict(w1, m) == w1);
            } else {
                let g0 = spec_lookup(w1, gid);
                let g1 = spec_group_push(g0, sid, symbol);
                assert(g1.len() >= sid + 1);
                assert(g1[sid] == Some(symbol));
                let gx = match hdr.parity {
                    Some(p) => spec_group_recover(g1, p.data_count as int, p.parity_count as int).0,
                    None => g1,
                };
                assert(s1.0 == spec_store(w1, gid, gx));
                lemma_store_basic(w1, gid, gx);
                assert((s1.0[0].0 as int) >= m) by {
                    assert(m < gid as int);
                }
                assert(spec_evict(s1.0, m) == s1.0);
                assert(spec_lookup(s1.0, gid) == gx);
                assert(spec_window_contains(s1.0, gid));
                // The stored group still holds the packet's symbol in its
                // slot, so pushing it again changes nothing.
                assert(gx.len() >= sid + 1 && gx[sid] == Some(symbol)) by {
                    match hdr.parity {
                        Some(p) => {
                            let dc = p.data_count as int;
                            let pc = p.parity_count as int;
                            let grown = spec_group_grow(g1, dc + pc);
                            assert(grown.len() >= g1.len());
                            assert(grown[sid] == g1[sid]);
                        },
                        None => {},
                    }
                }
                let g1b = spec_group_push(gx, sid, symbol);
                assert(g1b =~= gx);
                match hdr.parity {
                    Some(p) => {
                        let dc = p.data_count as int;
                        let pc = p.parity_count as int;
                        let grown = spec_group_grow(g1, dc + pc);
                        let can1 = spec_can_reconstruct(grown, dc, pc);
                        assert(gx.len() == grown.len() && grown.len() >= dc + pc);
                        assert(spec_group_grow(gx, dc + pc) == gx);
                        let rec2 = spec_group_recover(gx, dc, pc);
                        if can1 {
                            assert(forall|i: int| 0 <= i < dc ==> (#[trigger] gx[i]) is Some);
                            lemma_missing_none(gx, dc);
                            assert(rec2.1 =~= Seq::<Seq<u8>>::empty());
                            if spec_can_reconstruct(gx, dc, pc) {
                                assert(spec_reconstructed_group(gx, dc, pc) =~= gx);
                            }
                            assert(rec2.0 == gx);
                        } else {
                            assert(gx == grown);
                            assert(!spec_can_reconstruct(gx, dc, pc));
                            assert(rec2.0 == gx && rec2.1 == Seq::<Seq<u8>>::empty());
                        }
                        lemma_store_store(w1, gid, gx, gx);
                        assert(spec_datagrams(Seq::<Seq<u8>>::empty()) == Seq::<Seq<u8>>::empty());
                    },
                    None => {
                        lemma_store_store(w1, gid, gx, gx);
                    },
                }
            }
        }
    }
}

/// Data pass-through: a framed data packet that the window can admit parses
/// back to its header, the decoder reports the constant header length, the
/// datagram rides behind it on the wire unchanged, and no recoveries are
/// surfaced.
pub proof fn lemma_data_packet_round_trip(
    w: Seq<(u64, Seq<Option<Seq<u8>>>)>,
    window_size: u64,
    symbol_size: int,
    max_group_size: int,
    hdr: crate::proto::PacketHeader,
    data: Seq<u8>,
)
    requires
        1 <= window_size,
        DATA_SYMBOL_HDR_SIZE <= symbol_size,
        spec_window_sorted(w),
        hdr.parity is None,
        (hdr.symbol_global_id.symbol_id as int) < max_group_size,
        data.len() + DATA_SYMBOL_HDR_SIZE <= symbol_size,
        data.len() <= 0xFFFF,
        spec_window_contains(
            spec_evict(w, hdr.symbol_global_id.group_id as int - window_size as int),
            hdr.symbol_global_id.group_id,
        ) || spec_evict(
            w,
            hdr.symbol_global_id.group_id as int - window_size as int,
        ).len() < window_size,
    ensures
        ({
            let packet = crate::proto::spec_encode_hdr(hdr) + data;
            let step = spec_decode_step(w, window_size, symbol_size, max_group_size, packet);
            &&& step.1 == Some(HDR_SIZE as int)
            &&& packet.skip(HDR_SIZE as int) == data
            &&& step.2 == Seq::<Seq<u8>>::empty()
        }),
{
    crate::proto::lemma_hdr_round_trip_with_payload(hdr, data);
    let packet = crate::proto::spec_encode_hdr(hdr) + data;
    assert(spec_decode_hdr(packet) == Some((hdr, HDR_SIZE as int)));
    assert(packet.skip(HDR_SIZE as int) == data);
}

/// The window after an in-place update or a fresh insert at the boundary
/// index equals `spec_store`.
proof fn lemma_window_store_shape(
    w1: Seq<(u64, Seq<Option<Seq<u8>>>)>,
    gid: u64,
    g: Seq<Option<Seq<u8>>>,
    i: int,
    found: bool,
    result: Seq<(u64, Seq<Option<Seq<u8>>>)>,
)
    requires
        spec_window_sorted(w1),
        0 <= i <= w1.len(),
        forall|k: int| 0 <= k < i ==> (#[trigger] w1[k]).0 < gid,
        i < w1.len() ==> w1[i].0 >= gid,
        found <==> (i < w1.len() && w1[i].0 == gid),
        found ==> result == w1.update(i, (gid, g)),
        !found ==> result == (w1.subrange(0, i) + seq![(gid, Seq::<Option<Seq<u8>>>::empty())]
            + w1.subrange(i, w1.len() as int)).update(i, (gid, g)),
    ensures
        result == spec_store(w1, gid, g),
        spec_window_sorted(result),
        result.len() == (if found {
            w1.len() as int
        } else {
            w1.len() as int + 1
        }),
{
    lemma_window_at(w1, gid, g, i);
    if found {
    } else {
        assert((w1.subrange(0, i) + seq![(gid, Seq::<Option<Seq<u8>>>::empty())] + w1.subrange(
            i,
            w1.len() as int,
        )).update(i, (gid, g)) =~= w1.subrange(0, i) + seq![(gid, g)] + w1.subrange(
            i,
            w1.len() as int,
        ));
    }
    assert forall|a: int, b: int| 0 <= a < b < result.len() implies (#[trigger] result[a]).0 < (
    #[trigger] result[b]).0 by {
        if found {
        } else {
            assert(forall|k: int| i < k < result.len() ==> (#[trigger] result[k]).0 == w1[k - 1].0);
            assert(forall|k: int| 0 <= k < i ==> (#[trigger] result[k]).0 == w1[k].0);
            assert(result[i].0 == gid);
            if i < w1.len() {
                assert(w1[i].0 > gid);
            }
        }
    }
}

} // verus!
