//! The byte format of the cache of the lifted differentials: the motivic weights and the lifted
//! $A_C$ differentials, tagged with the `(max, compute)` box they were computed for so that a
//! stale cache is never loaded.
//!
//! All numbers are little-endian: the magic (`u32`), the box (four `i32`s), the number of weights
//! (`u64`) and each weight as `(s: i32, t: i32, idx: u64, weight: i32)`, then the number of lifted
//! differentials (`u64`) and each as `(s: i32, t: i32, idx: u64, len: u64, [index: u64; len])`.
//!
//! Read back, the records become tables as a map would hold them: one entry per generator, the
//! last record of a generator winning, and each support a set.
use vstd::prelude::*;
use vstd::bytes::{spec_u32_from_le_bytes, spec_u32_to_le_bytes, spec_u64_from_le_bytes, spec_u64_to_le_bytes};
use super::Gen;
use std::collections::BTreeSet;
use crate::bytes::{get_u32, get_u64, put_i32, put_u32, put_u64};

verus! {

/// The first word of a cache file.
pub const LIFT_CACHE_MAGIC: u32 = 0x004D_0004u32;

/// The bytes of an `i32`.
pub open spec fn i32_bytes(x: i32) -> Seq<u8> {
    spec_u32_to_le_bytes(x as u32)
}

/// The bytes of a generator.
pub open spec fn gen_bytes(g: Gen) -> Seq<u8> {
    i32_bytes(g.s) + i32_bytes(g.t) + spec_u64_to_le_bytes(g.idx as u64)
}

/// The bytes of one weight entry.
pub open spec fn weight_bytes(e: (Gen, i32)) -> Seq<u8> {
    gen_bytes(e.0) + i32_bytes(e.1)
}

/// The bytes of the weight entries, in order.
pub open spec fn weights_bytes(ws: Seq<(Gen, i32)>) -> Seq<u8>
    decreases ws.len(),
{
    if ws.len() == 0 {
        Seq::empty()
    } else {
        weight_bytes(ws[0]) + weights_bytes(ws.drop_first())
    }
}

/// The bytes of a support set, in order.
pub open spec fn indices_bytes(v: Seq<usize>) -> Seq<u8>
    decreases v.len(),
{
    if v.len() == 0 {
        Seq::empty()
    } else {
        spec_u64_to_le_bytes(v[0] as u64) + indices_bytes(v.drop_first())
    }
}

/// The bytes of one lifted differential.
pub open spec fn lifted_entry_bytes(e: (Gen, Seq<usize>)) -> Seq<u8> {
    gen_bytes(e.0) + spec_u64_to_le_bytes(e.1.len() as u64) + indices_bytes(e.1)
}

/// The bytes of the lifted differentials, in order.
pub open spec fn lifted_bytes(ls: Seq<(Gen, Seq<usize>)>) -> Seq<u8>
    decreases ls.len(),
{
    if ls.len() == 0 {
        Seq::empty()
    } else {
        lifted_entry_bytes(ls[0]) + lifted_bytes(ls.drop_first())
    }
}

/// The bytes of a whole cache.
pub open spec fn cache_bytes(
    header: Seq<i32>,
    ws: Seq<(Gen, i32)>,
    ls: Seq<(Gen, Seq<usize>)>,
) -> Seq<u8> {
    spec_u32_to_le_bytes(LIFT_CACHE_MAGIC) + i32_bytes(header[0]) + i32_bytes(header[1])
        + i32_bytes(header[2]) + i32_bytes(header[3]) + spec_u64_to_le_bytes(ws.len() as u64)
        + weights_bytes(ws) + spec_u64_to_le_bytes(ls.len() as u64) + lifted_bytes(ls)
}

/// The lifted differentials with each support as a sequence.
pub open spec fn lifted_view(ls: Seq<(Gen, Vec<usize>)>) -> Seq<(Gen, Seq<usize>)> {
    Seq::new(ls.len(), |i: int| (ls[i].0, ls[i].1@))
}

/// The `i32` at `pos`.
pub open spec fn i32_at(b: Seq<u8>, pos: int) -> i32 {
    spec_u32_from_le_bytes(b.subrange(pos, pos + 4)) as i32
}

/// The `u64` at `pos`.
pub open spec fn u64_at(b: Seq<u8>, pos: int) -> u64 {
    spec_u64_from_le_bytes(b.subrange(pos, pos + 8))
}

/// The generator at `pos`.
pub open spec fn gen_at(b: Seq<u8>, pos: int) -> Gen {
    Gen { s: i32_at(b, pos), t: i32_at(b, pos + 4), idx: u64_at(b, pos + 8) as usize }
}

/// `n` weight entries read from `pos`, and the position after them.
pub open spec fn parse_weights(b: Seq<u8>, pos: int, n: nat) -> Option<(Seq<(Gen, i32)>, int)>
    decreases n,
{
    if n == 0 {
        Some((Seq::empty(), pos))
    } else if pos + 20 > b.len() {
        None
    } else {
        match parse_weights(b, pos + 20, (n - 1) as nat) {
            Some((rest, end)) => Some((seq![(gen_at(b, pos), i32_at(b, pos + 16))] + rest, end)),
            None => None,
        }
    }
}

/// `n` indices read from `pos`, and the position after them.
pub open spec fn parse_indices(b: Seq<u8>, pos: int, n: nat) -> Option<(Seq<usize>, int)>
    decreases n,
{
    if n == 0 {
        Some((Seq::empty(), pos))
    } else if pos + 8 > b.len() {
        None
    } else {
        match parse_indices(b, pos + 8, (n - 1) as nat) {
            Some((rest, end)) => Some((seq![u64_at(b, pos) as usize] + rest, end)),
            None => None,
        }
    }
}

/// `n` lifted differentials read from `pos`, and the position after them.
pub open spec fn parse_lifted(b: Seq<u8>, pos: int, n: nat) -> Option<
    (Seq<(Gen, Seq<usize>)>, int),
>
    decreases n,
{
    if n == 0 {
        Some((Seq::empty(), pos))
    } else if pos + 24 > b.len() {
        None
    } else {
        match parse_indices(b, pos + 24, u64_at(b, pos + 16) as nat) {
            Some((support, mid)) => match parse_lifted(b, mid, (n - 1) as nat) {
                Some((rest, end)) => Some((seq![(gen_at(b, pos), support)] + rest, end)),
                None => None,
            },
            None => None,
        }
    }
}

/// What a cache reads as for the box `header`: nothing when the magic or the box differ or the
/// bytes end early; otherwise the weights and the lifted differentials.
pub open spec fn parse_cache(b: Seq<u8>, header: Seq<i32>) -> Option<
    (Seq<(Gen, i32)>, Seq<(Gen, Seq<usize>)>),
> {
    if b.len() < 28 {
        None
    } else if spec_u32_from_le_bytes(b.subrange(0, 4)) != LIFT_CACHE_MAGIC {
        None
    } else if i32_at(b, 4) != header[0] || i32_at(b, 8) != header[1] || i32_at(b, 12) != header[2]
        || i32_at(b, 16) != header[3] {
        None
    } else {
        match parse_weights(b, 28, u64_at(b, 20) as nat) {
            Some((ws, p1)) => if p1 + 8 > b.len() {
                None
            } else {
                match parse_lifted(b, p1 + 8, u64_at(b, p1) as nat) {
                    Some((ls, p2)) => Some((ws, ls)),
                    None => None,
                }
            },
            None => None,
        }
    }
}


proof fn lemma_weights_bytes_push(s: Seq<(Gen, i32)>, x: (Gen, i32))
    ensures
        weights_bytes(s.push(x)) == weights_bytes(s) + weight_bytes(x),
    decreases s.len(),
{
    if s.len() == 0 {
        assert(s.push(x).drop_first() == Seq::<(Gen, i32)>::empty());
        assert(weights_bytes(s.push(x).drop_first()) == Seq::<u8>::empty());
        assert(s.push(x)[0] == x);
        assert(weights_bytes(s) == Seq::<u8>::empty());
    } else {
        lemma_weights_bytes_push(s.drop_first(), x);
        assert(s.push(x).drop_first() == s.drop_first().push(x));
        assert(s.push(x)[0] == s[0]);
        assert(weights_bytes(s.push(x).drop_first()) == weights_bytes(s.drop_first()) + weight_bytes(x));
    }
    assert(weights_bytes(s.push(x)) =~= weights_bytes(s) + weight_bytes(x));
}

proof fn lemma_indices_bytes_push(s: Seq<usize>, x: usize)
    ensures
        indices_bytes(s.push(x)) == indices_bytes(s) + spec_u64_to_le_bytes(x as u64),
    decreases s.len(),
{
    if s.len() == 0 {
        assert(s.push(x).drop_first() == Seq::<usize>::empty());
        assert(indices_bytes(s.push(x).drop_first()) == Seq::<u8>::empty());
        assert(s.push(x)[0] == x);
        assert(indices_bytes(s) == Seq::<u8>::empty());
    } else {
        lemma_indices_bytes_push(s.drop_first(), x);
        assert(s.push(x).drop_first() == s.drop_first().push(x));
        assert(s.push(x)[0] == s[0]);
        assert(indices_bytes(s.push(x).drop_first()) == indices_bytes(s.drop_first()) + spec_u64_to_le_bytes(x as u64));
    }
    assert(indices_bytes(s.push(x)) =~= indices_bytes(s) + spec_u64_to_le_bytes(x as u64));
}

proof fn lemma_lifted_bytes_push(s: Seq<(Gen, Seq<usize>)>, x: (Gen, Seq<usize>))
    ensures
        lifted_bytes(s.push(x)) == lifted_bytes(s) + lifted_entry_bytes(x),
    decreases s.len(),
{
    if s.len() == 0 {
        assert(s.push(x).drop_first() == Seq::<(Gen, Seq<usize>)>::empty());
        assert(lifted_bytes(s.push(x).drop_first()) == Seq::<u8>::empty());
        assert(s.push(x)[0] == x);
        assert(lifted_bytes(s) == Seq::<u8>::empty());
    } else {
        lemma_lifted_bytes_push(s.drop_first(), x);
        assert(s.push(x).drop_first() == s.drop_first().push(x));
        assert(s.push(x)[0] == s[0]);
        assert(lifted_bytes(s.push(x).drop_first()) == lifted_bytes(s.drop_first()) + lifted_entry_bytes(x));
    }
    assert(lifted_bytes(s.push(x)) =~= lifted_bytes(s) + lifted_entry_bytes(x));
}

/// Append the bytes of a generator.
fn put_gen(b: &mut Vec<u8>, g: Gen)
    ensures
        final(b)@ == old(b)@ + gen_bytes(g),
{
    put_i32(b, g.s);
    put_i32(b, g.t);
    put_u64(b, g.idx as u64);
    proof {
        assert(b@ =~= old(b)@ + gen_bytes(g));
    }
}

/// The bytes of the cache of the weights and lifted differentials computed for the box
/// `header` (`[max.n, max.s, compute.n, compute.s]`), entries in the order given.
pub fn encode_lift_cache(
    header: &[i32; 4],
    weights: &Vec<(Gen, i32)>,
    lifted: &Vec<(Gen, Vec<usize>)>,
) -> (b: Vec<u8>)
    ensures
        b@ == cache_bytes(header@, weights@, lifted_view(lifted@)),
{
    let mut b: Vec<u8> = Vec::new();
    // Header: magic + the (max, compute) box this lift was computed for.
    put_u32(&mut b, LIFT_CACHE_MAGIC);
    put_i32(&mut b, header[0]);
    put_i32(&mut b, header[1]);
    put_i32(&mut b, header[2]);
    put_i32(&mut b, header[3]);
    // Weights: (s, t, idx, weight).
    put_u64(&mut b, weights.len() as u64);
    let ghost w0 = b@;
    let mut i: usize = 0;
    while i < weights.len()
        invariant
            i <= weights@.len(),
            b@ == w0 + weights_bytes(weights@.subrange(0, i as int)),
        decreases weights@.len() - i,
    {
        let (g, wt) = weights[i];
        let ghost before = b@;
        put_gen(&mut b, g);
        put_i32(&mut b, wt);
        proof {
            lemma_weights_bytes_push(weights@.subrange(0, i as int), (g, wt));
            assert(weights@.subrange(0, i + 1) == weights@.subrange(0, i as int).push((g, wt)));
            assert(b@ =~= w0 + weights_bytes(weights@.subrange(0, i + 1)));
        }
        i += 1;
    }
    // Lifted differentials: (s, t, idx, len, [indices]).
    put_u64(&mut b, lifted.len() as u64);
    let ghost l0 = b@;
    let ghost lv = lifted_view(lifted@);
    let mut i: usize = 0;
    while i < lifted.len()
        invariant
            i <= lifted@.len(),
            lv == lifted_view(lifted@),
            b@ == l0 + lifted_bytes(lv.subrange(0, i as int)),
        decreases lifted@.len() - i,
    {
        let g = lifted[i].0;
        let support = &lifted[i].1;
        let ghost e0 = b@;
        put_gen(&mut b, g);
        put_u64(&mut b, support.len() as u64);
        let ghost s0 = b@;
        let mut k: usize = 0;
        while k < support.len()
            invariant
                k <= support@.len(),
                b@ == s0 + indices_bytes(support@.subrange(0, k as int)),
            decreases support@.len() - k,
        {
            put_u64(&mut b, support[k] as u64);
            proof {
                lemma_indices_bytes_push(support@.subrange(0, k as int), support@[k as int]);
                assert(support@.subrange(0, k + 1) == support@.subrange(0, k as int).push(
                    support@[k as int],
                ));
                assert(b@ =~= s0 + indices_bytes(support@.subrange(0, k + 1)));
            }
            k += 1;
        }
        proof {
            assert(support@.subrange(0, support@.len() as int) == support@);
            assert(lv[i as int] == (g, support@));
            lemma_lifted_bytes_push(lv.subrange(0, i as int), lv[i as int]);
            assert(lv.subrange(0, i + 1) == lv.subrange(0, i as int).push(lv[i as int]));
            assert(b@ =~= l0 + lifted_bytes(lv.subrange(0, i + 1)));
        }
        i += 1;
    }
    proof {
        assert(weights@.subrange(0, weights@.len() as int) == weights@);
        assert(lv.subrange(0, lifted@.len() as int) == lv);
        assert(b@ =~= cache_bytes(header@, weights@, lifted_view(lifted@)));
    }
    b
}


/// The parse `r` of what follows, preceded by the entries `acc` already read.
pub open spec fn after<A>(acc: Seq<A>, r: Option<(Seq<A>, int)>) -> Option<(Seq<A>, int)> {
    match r {
        Some((rest, end)) => Some((acc + rest, end)),
        None => None,
    }
}

/// The `i32` at `pos`, if four bytes are left there.
fn read_i32(b: &[u8], pos: usize) -> (r: Option<i32>)
    ensures
        match r {
            Some(x) => pos + 4 <= b@.len() && x == i32_at(b@, pos as int),
            None => pos + 4 > b@.len(),
        },
{
    match get_u32(b, pos) {
        Some(x) => Some(x as i32),
        None => None,
    }
}

/// The generator at `pos`.
fn read_gen(b: &[u8], pos: usize) -> (g: Gen)
    requires
        pos + 16 <= b@.len(),
    ensures
        g == gen_at(b@, pos as int),
{
    assert(b@.len() == b.len());
    let s = read_i32(b, pos).unwrap();
    let t = read_i32(b, pos + 4).unwrap();
    let idx = get_u64(b, pos + 8).unwrap();
    Gen { s, t, idx: idx as usize }
}

/// Read back a cache written for the box `header` (see [`parse_cache`]): `None` when it was
/// written for another box, is not a cache, or ends early.
pub fn decode_lift_cache(b: &[u8], header: &[i32; 4]) -> (r: Option<
    (Vec<(Gen, i32)>, Vec<(Gen, Vec<usize>)>),
>)
    ensures
        match r {
            Some((ws, ls)) => parse_cache(b@, header@) == Some((ws@, lifted_view(ls@))),
            None => parse_cache(b@, header@) is None,
        },
{
    if b.len() < 28 {
        return None;
    }
    if get_u32(b, 0).unwrap() != LIFT_CACHE_MAGIC {
        return None;
    }
    let h0 = read_i32(b, 4).unwrap();
    let h1 = read_i32(b, 8).unwrap();
    let h2 = read_i32(b, 12).unwrap();
    let h3 = read_i32(b, 16).unwrap();
    if h0 != header[0] || h1 != header[1] || h2 != header[2] || h3 != header[3] {
        return None;
    }
    let count = get_u64(b, 20).unwrap();
    let mut weights: Vec<(Gen, i32)> = Vec::new();
    let mut pos: usize = 28;
    let mut i: u64 = 0;
    while i < count
        invariant
            b@.len() == b.len(),
            i <= count,
            count == u64_at(b@, 20),
            parse_cache(b@, header@) == match parse_weights(b@, 28, count as nat) {
                Some((ws, p)) => if p + 8 > b@.len() {
                    None
                } else {
                    match parse_lifted(b@, p + 8, u64_at(b@, p) as nat) {
                        Some((ls, p2)) => Some((ws, ls)),
                        None => None,
                    }
                },
                None => None,
            },
            parse_weights(b@, 28, count as nat) == after(
                weights@,
                parse_weights(b@, pos as int, (count - i) as nat),
            ),
        decreases count - i,
    {
        if pos > b.len() || b.len() - pos < 20 {
            proof {
                assert(parse_weights(b@, pos as int, (count - i) as nat) is None);
            }
            return None;
        }
        let g = read_gen(b, pos);
        let w = read_i32(b, pos + 16).unwrap();
        proof {
            let x = (gen_at(b@, pos as int), i32_at(b@, pos + 16));
            assert(weights@.push(x) == weights@ + seq![x]);
            match parse_weights(b@, pos + 20, (count - i - 1) as nat) {
                Some((rest, end)) => {
                    assert(weights@ + (seq![x] + rest) =~= weights@.push(x) + rest);
                },
                None => {},
            }
        }
        weights.push((g, w));
        pos = pos + 20;
        i = i + 1;
    }
    if pos > b.len() || b.len() - pos < 8 {
        return None;
    }
    let ghost p1 = pos;
    proof {
        assert(weights@ + Seq::<(Gen, i32)>::empty() == weights@);
    }
    let count2 = get_u64(b, pos).unwrap();
    pos = pos + 8;
    let mut lifted: Vec<(Gen, Vec<usize>)> = Vec::new();
    let mut i: u64 = 0;
    while i < count2
        invariant
            b@.len() == b.len(),
            i <= count2,
            pos <= b@.len(),
            count2 == u64_at(b@, p1 as int),
            parse_cache(b@, header@) == match parse_lifted(b@, p1 + 8, count2 as nat) {
                Some((ls, p2)) => Some((weights@, ls)),
                None => None,
            },
            parse_lifted(b@, p1 + 8, count2 as nat) == after(
                lifted_view(lifted@),
                parse_lifted(b@, pos as int, (count2 - i) as nat),
            ),
        decreases count2 - i,
    {
        if pos > b.len() || b.len() - pos < 24 {
            proof {
                assert(parse_lifted(b@, pos as int, (count2 - i) as nat) is None);
            }
            return None;
        }
        let g = read_gen(b, pos);
        let len = get_u64(b, pos + 16).unwrap();
        let ghost start = pos + 24;
        let mut support: Vec<usize> = Vec::new();
        let mut q: usize = pos + 24;
        let mut k: u64 = 0;
        while k < len
            invariant
                b@.len() == b.len(),
                i < count2,
                pos + 24 <= b@.len(),
                start == pos + 24,
                len == u64_at(b@, pos + 16),
                parse_lifted(b@, p1 + 8, count2 as nat) == after(
                    lifted_view(lifted@),
                    parse_lifted(b@, pos as int, (count2 - i) as nat),
                ),
                parse_lifted(b@, p1 + 8, count2 as nat) is None ==> parse_cache(b@, header@) is None,
                k <= len,
                q <= b@.len(),
                parse_indices(b@, start, len as nat) == after(
                    support@,
                    parse_indices(b@, q as int, (len - k) as nat),
                ),
            decreases len - k,
        {
            if b.len() - q < 8 {
                proof {
                    assert(parse_indices(b@, q as int, (len - k) as nat) is None);
                    assert(parse_indices(b@, start, len as nat) is None);
                    assert(parse_lifted(b@, pos as int, (count2 - i) as nat) is None);
                }
                return None;
            }
            let v = get_u64(b, q).unwrap();
            proof {
                let x = v as usize;
                match parse_indices(b@, q + 8, (len - k - 1) as nat) {
                    Some((rest, end)) => {
                        assert(support@ + (seq![x] + rest) =~= support@.push(x) + rest);
                    },
                    None => {},
                }
            }
            support.push(v as usize);
            q = q + 8;
            k = k + 1;
        }
        let ghost x = (gen_at(b@, pos as int), support@);
        let ghost lv = lifted_view(lifted@);
        proof {
            assert(support@ + Seq::<usize>::empty() == support@);
            match parse_lifted(b@, q as int, (count2 - i - 1) as nat) {
                Some((rest, end)) => {
                    assert(lv + (seq![x] + rest) =~= lv.push(x) + rest);
                },
                None => {},
            }
        }
        lifted.push((g, support));
        proof {
            assert(lifted_view(lifted@) =~= lv.push(x));
        }
        pos = q;
        i = i + 1;
    }
    proof {
        assert(lifted_view(lifted@) + Seq::<(Gen, Seq<usize>)>::empty() == lifted_view(lifted@));
    }
    Some((weights, lifted))
}


/// Every support of `ls` has a length that fits in the `u64` it is written as.
pub open spec fn supports_fit(ls: Seq<(Gen, Seq<usize>)>) -> bool {
    forall|i: int| 0 <= i < ls.len() ==> #[trigger] ls[i].1.len() <= u64::MAX
}

proof fn lemma_piece(p: Seq<u8>, x: Seq<u8>, q: Seq<u8>)
    ensures
        (p + x + q).subrange(p.len() as int, (p.len() + x.len()) as int) == x,
{
    assert((p + x + q).subrange(p.len() as int, (p.len() + x.len()) as int) =~= x);
}

proof fn lemma_split(b: Seq<u8>, pos: int, x: Seq<u8>, y: Seq<u8>)
    requires
        0 <= pos,
        pos + x.len() + y.len() <= b.len(),
        b.subrange(pos, pos + x.len() + y.len()) == x + y,
    ensures
        b.subrange(pos, pos + x.len()) == x,
        b.subrange(pos + x.len(), pos + x.len() + y.len()) == y,
{
    let whole = b.subrange(pos, pos + x.len() + y.len());
    assert forall|i: int| 0 <= i < x.len() implies b.subrange(pos, pos + x.len())[i] == x[i] by {
        assert(whole[i] == (x + y)[i]);
    }
    assert forall|i: int| 0 <= i < y.len() implies b.subrange(
        pos + x.len(),
        pos + x.len() + y.len(),
    )[i] == y[i] by {
        assert(whole[x.len() + i] == (x + y)[x.len() + i]);
    }
    assert(b.subrange(pos, pos + x.len()) =~= x);
    assert(b.subrange(pos + x.len(), pos + x.len() + y.len()) =~= y);
}

proof fn lemma_i32_at(b: Seq<u8>, pos: int, x: i32)
    requires
        0 <= pos,
        pos + 4 <= b.len(),
        b.subrange(pos, pos + 4) == i32_bytes(x),
    ensures
        i32_at(b, pos) == x,
{
    vstd::bytes::lemma_auto_spec_u32_to_from_le_bytes();
    let u = x as u32;
    assert(spec_u32_to_le_bytes(u).len() == 4);
    assert(spec_u32_from_le_bytes(b.subrange(pos, pos + 4)) == u);
    assert((x as u32) as i32 == x) by (bit_vector);
}

proof fn lemma_u64_at(b: Seq<u8>, pos: int, x: u64)
    requires
        0 <= pos,
        pos + 8 <= b.len(),
        b.subrange(pos, pos + 8) == spec_u64_to_le_bytes(x),
    ensures
        u64_at(b, pos) == x,
{
    vstd::bytes::lemma_auto_spec_u64_to_from_le_bytes();
}

proof fn lemma_byte_lens(g: Gen, x: i32, n: u64)
    ensures
        i32_bytes(x).len() == 4,
        spec_u64_to_le_bytes(n).len() == 8,
        gen_bytes(g).len() == 16,
{
    vstd::bytes::lemma_auto_spec_u32_to_from_le_bytes();
    vstd::bytes::lemma_auto_spec_u64_to_from_le_bytes();
    assert(i32_bytes(g.s).len() == 4);
    assert(i32_bytes(g.t).len() == 4);
    assert(spec_u64_to_le_bytes(g.idx as u64).len() == 8);
}

proof fn lemma_gen_at(b: Seq<u8>, pos: int, g: Gen)
    requires
        0 <= pos,
        pos + 16 <= b.len(),
        b.subrange(pos, pos + 16) == gen_bytes(g),
    ensures
        gen_at(b, pos) == g,
{
    lemma_byte_lens(g, g.s, g.idx as u64);
    let a = i32_bytes(g.s);
    let c = i32_bytes(g.t);
    let d = spec_u64_to_le_bytes(g.idx as u64);
    lemma_byte_lens(g, g.t, g.idx as u64);
    lemma_split(b, pos, a + c, d);
    lemma_split(b, pos, a, c);
    lemma_i32_at(b, pos, g.s);
    lemma_i32_at(b, pos + 4, g.t);
    lemma_u64_at(b, pos + 8, g.idx as u64);
}

proof fn lemma_parse_weights(b: Seq<u8>, pos: int, ws: Seq<(Gen, i32)>)
    requires
        0 <= pos,
        pos + 20 * ws.len() <= b.len(),
        b.subrange(pos, pos + 20 * ws.len()) == weights_bytes(ws),
    ensures
        parse_weights(b, pos, ws.len()) == Some((ws, pos + 20 * ws.len())),
    decreases ws.len(),
{
    if ws.len() == 0 {
        assert(ws =~= Seq::<(Gen, i32)>::empty());
    } else {
        let e = ws[0];
        let tail = ws.drop_first();
        lemma_weights_len(tail);
        lemma_byte_lens(e.0, e.1, 0);
        assert(weight_bytes(e).len() == 20);
        lemma_split(b, pos, weight_bytes(e), weights_bytes(tail));
        lemma_split(b, pos, gen_bytes(e.0), i32_bytes(e.1));
        lemma_gen_at(b, pos, e.0);
        lemma_i32_at(b, pos + 16, e.1);
        lemma_parse_weights(b, pos + 20, tail);
        assert(seq![(gen_at(b, pos), i32_at(b, pos + 16))] + tail =~= ws);
    }
}

proof fn lemma_weights_len(ws: Seq<(Gen, i32)>)
    ensures
        weights_bytes(ws).len() == 20 * ws.len(),
    decreases ws.len(),
{
    if ws.len() > 0 {
        lemma_weights_len(ws.drop_first());
        lemma_byte_lens(ws[0].0, ws[0].1, 0);
    }
}

proof fn lemma_indices_len(v: Seq<usize>)
    ensures
        indices_bytes(v).len() == 8 * v.len(),
    decreases v.len(),
{
    if v.len() > 0 {
        lemma_indices_len(v.drop_first());
        vstd::bytes::lemma_auto_spec_u64_to_from_le_bytes();
        assert(spec_u64_to_le_bytes(v[0] as u64).len() == 8);
    }
}

proof fn lemma_parse_indices(b: Seq<u8>, pos: int, v: Seq<usize>)
    requires
        0 <= pos,
        pos + 8 * v.len() <= b.len(),
        b.subrange(pos, pos + 8 * v.len()) == indices_bytes(v),
    ensures
        parse_indices(b, pos, v.len()) == Some((v, pos + 8 * v.len())),
    decreases v.len(),
{
    if v.len() == 0 {
        assert(v =~= Seq::<usize>::empty());
    } else {
        let tail = v.drop_first();
        lemma_indices_len(tail);
        vstd::bytes::lemma_auto_spec_u64_to_from_le_bytes();
        assert(spec_u64_to_le_bytes(v[0] as u64).len() == 8);
        lemma_split(b, pos, spec_u64_to_le_bytes(v[0] as u64), indices_bytes(tail));
        lemma_u64_at(b, pos, v[0] as u64);
        lemma_parse_indices(b, pos + 8, tail);
        assert(seq![u64_at(b, pos) as usize] + tail =~= v);
    }
}

/// The length of the bytes of the lifted differentials.
pub open spec fn lifted_len(ls: Seq<(Gen, Seq<usize>)>) -> int
    decreases ls.len(),
{
    if ls.len() == 0 {
        0
    } else {
        24 + 8 * ls[0].1.len() + lifted_len(ls.drop_first())
    }
}

proof fn lemma_lifted_len(ls: Seq<(Gen, Seq<usize>)>)
    ensures
        lifted_bytes(ls).len() == lifted_len(ls),
        lifted_len(ls) >= 0,
    decreases ls.len(),
{
    if ls.len() > 0 {
        lemma_lifted_len(ls.drop_first());
        lemma_byte_lens(ls[0].0, 0, ls[0].1.len() as u64);
        lemma_indices_len(ls[0].1);
    }
}

proof fn lemma_parse_lifted(b: Seq<u8>, pos: int, ls: Seq<(Gen, Seq<usize>)>)
    requires
        0 <= pos,
        supports_fit(ls),
        pos + lifted_len(ls) <= b.len(),
        b.subrange(pos, pos + lifted_len(ls)) == lifted_bytes(ls),
    ensures
        parse_lifted(b, pos, ls.len()) == Some((ls, pos + lifted_len(ls))),
    decreases ls.len(),
{
    lemma_lifted_len(ls);
    if ls.len() == 0 {
        assert(ls =~= Seq::<(Gen, Seq<usize>)>::empty());
    } else {
        let e = ls[0];
        let tail = ls.drop_first();
        assert(e.1.len() <= u64::MAX);
        lemma_lifted_len(tail);
        lemma_indices_len(e.1);
        lemma_byte_lens(e.0, 0, e.1.len() as u64);
        let head = gen_bytes(e.0) + spec_u64_to_le_bytes(e.1.len() as u64);
        assert(lifted_entry_bytes(e) == head + indices_bytes(e.1));
        lemma_split(b, pos, lifted_entry_bytes(e), lifted_bytes(tail));
        lemma_split(b, pos, head, indices_bytes(e.1));
        lemma_split(b, pos, gen_bytes(e.0), spec_u64_to_le_bytes(e.1.len() as u64));
        lemma_gen_at(b, pos, e.0);
        lemma_u64_at(b, pos + 16, e.1.len() as u64);
        lemma_parse_indices(b, pos + 24, e.1);
        assert forall|i: int| 0 <= i < tail.len() implies #[trigger] tail[i].1.len() <= u64::MAX by {
            assert(tail[i] == ls[i + 1]);
        }
        lemma_parse_lifted(b, pos + 24 + 8 * e.1.len(), tail);
        assert(seq![(gen_at(b, pos), e.1)] + tail =~= ls);
    }
}

/// A cache reads back as what was written into it, whatever follows it: parsing the bytes of
/// the weights `ws` and the lifted differentials `ls` written for the box `header` gives `ws`
/// and `ls` again for that box.
pub proof fn lemma_lift_cache_round_trip(
    header: Seq<i32>,
    ws: Seq<(Gen, i32)>,
    ls: Seq<(Gen, Seq<usize>)>,
    rest: Seq<u8>,
)
    requires
        header.len() == 4,
        ws.len() <= u64::MAX,
        ls.len() <= u64::MAX,
        supports_fit(ls),
    ensures
        parse_cache(cache_bytes(header, ws, ls) + rest, header) == Some((ws, ls)),
{
    vstd::bytes::lemma_auto_spec_u32_to_from_le_bytes();
    let m = spec_u32_to_le_bytes(LIFT_CACHE_MAGIC);
    let h0 = i32_bytes(header[0]);
    let h1 = i32_bytes(header[1]);
    let h2 = i32_bytes(header[2]);
    let h3 = i32_bytes(header[3]);
    let c1 = spec_u64_to_le_bytes(ws.len() as u64);
    let w = weights_bytes(ws);
    let c2 = spec_u64_to_le_bytes(ls.len() as u64);
    let l = lifted_bytes(ls);
    let g0 = Gen { s: 0, t: 0, idx: 0 };
    lemma_byte_lens(g0, header[0], ws.len() as u64);
    lemma_byte_lens(g0, header[1], ls.len() as u64);
    lemma_byte_lens(g0, header[2], 0);
    lemma_byte_lens(g0, header[3], 0);
    assert(m.len() == 4);
    lemma_weights_len(ws);
    lemma_lifted_len(ls);
    let b = cache_bytes(header, ws, ls) + rest;
    let p1: int = 28 + 20 * ws.len() as int;
    assert(b.len() == p1 + 8 + lifted_len(ls) + rest.len());
    // Each field sits where the reader looks for it.
    lemma_piece(Seq::empty(), m, b.subrange(4, b.len() as int));
    assert(Seq::<u8>::empty() + m + b.subrange(4, b.len() as int) =~= b);
    assert(b.subrange(0, 4) == m);
    let p = m;
    lemma_piece(p, h0, b.subrange(8, b.len() as int));
    assert(p + h0 + b.subrange(8, b.len() as int) =~= b);
    lemma_i32_at(b, 4, header[0]);
    let p = p + h0;
    lemma_piece(p, h1, b.subrange(12, b.len() as int));
    assert(p + h1 + b.subrange(12, b.len() as int) =~= b);
    lemma_i32_at(b, 8, header[1]);
    let p = p + h1;
    lemma_piece(p, h2, b.subrange(16, b.len() as int));
    assert(p + h2 + b.subrange(16, b.len() as int) =~= b);
    lemma_i32_at(b, 12, header[2]);
    let p = p + h2;
    lemma_piece(p, h3, b.subrange(20, b.len() as int));
    assert(p + h3 + b.subrange(20, b.len() as int) =~= b);
    lemma_i32_at(b, 16, header[3]);
    let p = p + h3;
    lemma_piece(p, c1, b.subrange(28, b.len() as int));
    assert(p + c1 + b.subrange(28, b.len() as int) =~= b);
    lemma_u64_at(b, 20, ws.len() as u64);
    let p = p + c1;
    lemma_piece(p, w, b.subrange(p1, b.len() as int));
    assert(p + w + b.subrange(p1, b.len() as int) =~= b);
    lemma_parse_weights(b, 28, ws);
    let p = p + w;
    lemma_piece(p, c2, b.subrange(p1 + 8, b.len() as int));
    assert(p + c2 + b.subrange(p1 + 8, b.len() as int) =~= b);
    lemma_u64_at(b, p1, ls.len() as u64);
    let p = p + c2;
    lemma_piece(p, l, rest);
    assert(p + l + rest =~= b);
    lemma_parse_lifted(b, p1 + 8, ls);
}

/// The weight the last record of `ws` with generator `g` gives, if there is one: a later
/// record of a generator replaces an earlier one, as inserting into a map does.
pub open spec fn last_weight(ws: Seq<(Gen, i32)>, g: Gen) -> Option<i32>
    decreases ws.len(),
{
    if ws.len() == 0 {
        None
    } else if ws.last().0 == g {
        Some(ws.last().1)
    } else {
        last_weight(ws.drop_last(), g)
    }
}

/// The support the last record of `ls` with generator `g` gives, if there is one.
pub open spec fn last_support(ls: Seq<(Gen, Seq<usize>)>, g: Gen) -> Option<Seq<usize>>
    decreases ls.len(),
{
    if ls.len() == 0 {
        None
    } else if ls.last().0 == g {
        Some(ls.last().1)
    } else {
        last_support(ls.drop_last(), g)
    }
}

/// The weight read for `g` is that of its last record: `Some(w)` exactly when some record
/// `(g, w)` has no later record of `g`, and `None` exactly when no record names `g`.
pub proof fn lemma_last_weight_is_last_record(ws: Seq<(Gen, i32)>, g: Gen)
    ensures
        last_weight(ws, g) is None <==> forall|i: int| 0 <= i < ws.len() ==> (#[trigger] ws[i]).0 != g,
        forall|w: i32|
            #[trigger] last_weight(ws, g) == Some(w) <==> exists|i: int|
                0 <= i < ws.len() && #[trigger] ws[i] == (g, w) && forall|j: int|
                    i < j < ws.len() ==> (#[trigger] ws[j]).0 != g,
    decreases ws.len(),
{
    if ws.len() > 0 {
        let init = ws.drop_last();
        let last = ws.len() - 1;
        lemma_last_weight_is_last_record(init, g);
        assert forall|i: int| 0 <= i < init.len() implies #[trigger] init[i] == ws[i] by {}
        if ws.last().0 == g {
            assert forall|w: i32| #[trigger] last_weight(ws, g) == Some(w) <==> exists|i: int|
                0 <= i < ws.len() && #[trigger] ws[i] == (g, w) && forall|j: int|
                    i < j < ws.len() ==> (#[trigger] ws[j]).0 != g by {
                if exists|i: int|
                    0 <= i < ws.len() && #[trigger] ws[i] == (g, w) && forall|j: int|
                        i < j < ws.len() ==> (#[trigger] ws[j]).0 != g {
                    let i = choose|i: int|
                        0 <= i < ws.len() && #[trigger] ws[i] == (g, w) && forall|j: int|
                            i < j < ws.len() ==> (#[trigger] ws[j]).0 != g;
                    if i < last {
                        assert(ws[last].0 == g);
                    }
                }
                if last_weight(ws, g) == Some(w) {
                    assert(ws[last] == (g, w));
                }
            }
        } else {
            assert forall|w: i32| #[trigger] last_weight(ws, g) == Some(w) <==> exists|i: int|
                0 <= i < ws.len() && #[trigger] ws[i] == (g, w) && forall|j: int|
                    i < j < ws.len() ==> (#[trigger] ws[j]).0 != g by {
                if exists|i: int|
                    0 <= i < ws.len() && #[trigger] ws[i] == (g, w) && forall|j: int|
                        i < j < ws.len() ==> (#[trigger] ws[j]).0 != g {
                    let i = choose|i: int|
                        0 <= i < ws.len() && #[trigger] ws[i] == (g, w) && forall|j: int|
                            i < j < ws.len() ==> (#[trigger] ws[j]).0 != g;
                    assert(i < last);
                    assert(init[i] == (g, w));
                    assert forall|j: int| i < j < init.len() implies (#[trigger] init[j]).0 != g by {
                        assert(ws[j].0 != g);
                    }
                }
                if last_weight(ws, g) == Some(w) {
                    assert(last_weight(init, g) == Some(w));
                    let i = choose|i: int|
                        0 <= i < init.len() && #[trigger] init[i] == (g, w) && forall|j: int|
                            i < j < init.len() ==> (#[trigger] init[j]).0 != g;
                    assert(ws[i] == (g, w));
                    assert forall|j: int| i < j < ws.len() implies (#[trigger] ws[j]).0 != g by {
                        if j < last {
                            assert(init[j].0 != g);
                        }
                    }
                }
            }
            if forall|i: int| 0 <= i < init.len() ==> (#[trigger] init[i]).0 != g {
                assert forall|i: int| 0 <= i < ws.len() implies (#[trigger] ws[i]).0 != g by {
                    if i < last {
                        assert(init[i].0 != g);
                    }
                }
            }
            if forall|i: int| 0 <= i < ws.len() ==> (#[trigger] ws[i]).0 != g {
                assert forall|i: int| 0 <= i < init.len() implies (#[trigger] init[i]).0 != g by {
                    assert(ws[i].0 != g);
                }
            }
        }
    }
}

/// The support read for `g` is that of its last record: `Some(v)` exactly when some record
/// `(g, v)` has no later record of `g`, and `None` exactly when no record names `g`.
pub proof fn lemma_last_support_is_last_record(ls: Seq<(Gen, Seq<usize>)>, g: Gen)
    ensures
        last_support(ls, g) is None <==> forall|i: int| 0 <= i < ls.len() ==> (#[trigger] ls[i]).0 != g,
        forall|v: Seq<usize>|
            #[trigger] last_support(ls, g) == Some(v) <==> exists|i: int|
                0 <= i < ls.len() && #[trigger] ls[i] == (g, v) && forall|j: int|
                    i < j < ls.len() ==> (#[trigger] ls[j]).0 != g,
    decreases ls.len(),
{
    if ls.len() > 0 {
        let init = ls.drop_last();
        let last = ls.len() - 1;
        lemma_last_support_is_last_record(init, g);
        assert forall|i: int| 0 <= i < init.len() implies #[trigger] init[i] == ls[i] by {}
        if ls.last().0 == g {
            assert forall|v: Seq<usize>| #[trigger] last_support(ls, g) == Some(v) <==> exists|i: int|
                0 <= i < ls.len() && #[trigger] ls[i] == (g, v) && forall|j: int|
                    i < j < ls.len() ==> (#[trigger] ls[j]).0 != g by {
                if exists|i: int|
                    0 <= i < ls.len() && #[trigger] ls[i] == (g, v) && forall|j: int|
                        i < j < ls.len() ==> (#[trigger] ls[j]).0 != g {
                    let i = choose|i: int|
                        0 <= i < ls.len() && #[trigger] ls[i] == (g, v) && forall|j: int|
                            i < j < ls.len() ==> (#[trigger] ls[j]).0 != g;
                    if i < last {
                        assert(ls[last].0 == g);
                    }
                }
                if last_support(ls, g) == Some(v) {
                    assert(ls[last] == (g, v));
                }
            }
        } else {
            assert forall|v: Seq<usize>| #[trigger] last_support(ls, g) == Some(v) <==> exists|i: int|
                0 <= i < ls.len() && #[trigger] ls[i] == (g, v) && forall|j: int|
                    i < j < ls.len() ==> (#[trigger] ls[j]).0 != g by {
                if exists|i: int|
                    0 <= i < ls.len() && #[trigger] ls[i] == (g, v) && forall|j: int|
                        i < j < ls.len() ==> (#[trigger] ls[j]).0 != g {
                    let i = choose|i: int|
                        0 <= i < ls.len() && #[trigger] ls[i] == (g, v) && forall|j: int|
                            i < j < ls.len() ==> (#[trigger] ls[j]).0 != g;
                    assert(i < last);
                    assert(init[i] == (g, v));
                    assert forall|j: int| i < j < init.len() implies (#[trigger] init[j]).0 != g by {
                        assert(ls[j].0 != g);
                    }
                }
                if last_support(ls, g) == Some(v) {
                    assert(last_support(init, g) == Some(v));
                    let i = choose|i: int|
                        0 <= i < init.len() && #[trigger] init[i] == (g, v) && forall|j: int|
                            i < j < init.len() ==> (#[trigger] init[j]).0 != g;
                    assert(ls[i] == (g, v));
                    assert forall|j: int| i < j < ls.len() implies (#[trigger] ls[j]).0 != g by {
                        if j < last {
                            assert(init[j].0 != g);
                        }
                    }
                }
            }
            if forall|i: int| 0 <= i < init.len() ==> (#[trigger] init[i]).0 != g {
                assert forall|i: int| 0 <= i < ls.len() implies (#[trigger] ls[i]).0 != g by {
                    if i < last {
                        assert(init[i].0 != g);
                    }
                }
            }
            if forall|i: int| 0 <= i < ls.len() ==> (#[trigger] ls[i]).0 != g {
                assert forall|i: int| 0 <= i < init.len() implies (#[trigger] init[i]).0 != g by {
                    assert(ls[i].0 != g);
                }
            }
        }
    }
}

/// No generator occurs twice among the keys of `t`.
pub open spec fn keys_unique<V>(t: Seq<(Gen, V)>) -> bool {
    forall|i: int, j: int| 0 <= i < j < t.len() ==> t[i].0 != t[j].0
}

/// The entries of `v` as a set, as collecting them into a set gives.
pub fn support_set(v: &Vec<usize>) -> (r: BTreeSet<usize>)
    ensures
        forall|y: usize| #[trigger] r@.contains(y) <==> v@.contains(y),
{
    broadcast use vstd::std_specs::btree::group_btree_axioms;
    let mut r: BTreeSet<usize> = BTreeSet::new();
    let mut i: usize = 0;
    while i < v.len()
        invariant
            i <= v@.len(),
            forall|y: usize| #[trigger] r@.contains(y) <==> v@.subrange(0, i as int).contains(y),
        decreases v@.len() - i,
    {
        let ghost before = r@;
        r.insert(v[i]);
        proof {
            let sub = v@.subrange(0, i + 1);
            assert forall|y: usize| #[trigger] r@.contains(y) <==> sub.contains(y) by {
                assert(before.contains(y) <==> v@.subrange(0, i as int).contains(y));
                if sub.contains(y) {
                    let k = choose|k: int| 0 <= k < sub.len() && sub[k] == y;
                    if k < i {
                        assert(v@.subrange(0, i as int)[k] == y);
                    }
                }
                if v@.subrange(0, i as int).contains(y) {
                    let k = choose|k: int| 0 <= k < i && v@.subrange(0, i as int)[k] == y;
                    assert(sub[k] == y);
                }
                if y == v@[i as int] {
                    assert(sub[i as int] == y);
                }
            }
        }
        i += 1;
    }
    proof {
        assert(v@.subrange(0, v@.len() as int) =~= v@);
    }
    r
}

/// The weights of a decoded cache as a table: one entry per generator, with the weight of its
/// last record, as reading the records into a map gives.
pub fn weight_table(ws: &Vec<(Gen, i32)>) -> (t: Vec<(Gen, i32)>)
    ensures
        keys_unique(t@),
        forall|k: int| 0 <= k < t@.len() ==> last_weight(ws@, (#[trigger] t@[k]).0) == Some(t@[k].1),
        forall|g: Gen| last_weight(ws@, g) is Some ==> exists|k: int| 0 <= k < t@.len() && (#[trigger] t@[k]).0 == g,
{
    let mut t: Vec<(Gen, i32)> = Vec::new();
    let mut i: usize = 0;
    while i < ws.len()
        invariant
            i <= ws@.len(),
            keys_unique(t@),
            forall|k: int|
                0 <= k < t@.len() ==> last_weight(ws@.subrange(0, i as int), (#[trigger] t@[k]).0) == Some(t@[k].1),
            forall|g: Gen|
                last_weight(ws@.subrange(0, i as int), g) is Some ==> exists|k: int|
                    0 <= k < t@.len() && (#[trigger] t@[k]).0 == g,
        decreases ws@.len() - i,
    {
        let (g, w) = ws[i];
        let ghost sub = ws@.subrange(0, i + 1);
        proof {
            assert(sub.drop_last() =~= ws@.subrange(0, i as int));
            assert(sub.last() == (g, w));
        }
        let mut k: usize = 0;
        while k < t.len() && !(t[k].0 == g)
            invariant
                k <= t@.len(),
                forall|m: int| 0 <= m < k ==> t@[m].0 != g,
            decreases t@.len() - k,
        {
            k += 1;
        }
        let ghost before = t@;
        if k < t.len() {
            t.set(k, (g, w));
        } else {
            t.push((g, w));
        }
        proof {
            assert forall|p: int, q: int| 0 <= p < q < t@.len() implies t@[p].0 != t@[q].0 by {
                if q == k {
                    assert(before[p].0 != g);
                } else if p == k {
                    if k < before.len() {
                        assert(before[q].0 != before[k as int].0);
                    }
                } else {
                    assert(before[p].0 != before[q].0);
                }
            }
            assert forall|m: int| 0 <= m < t@.len() implies last_weight(sub, (#[trigger] t@[m]).0) == Some(t@[m].1) by {
                if m != k {
                    assert(t@[m] == before[m]);
                    assert(before[m].0 != g);
                }
            }
            assert forall|h: Gen| last_weight(sub, h) is Some implies exists|m: int| 0 <= m < t@.len() && (#[trigger] t@[m]).0 == h by {
                if h == g {
                    assert(t@[k as int].0 == h);
                } else {
                    assert(last_weight(sub, h) == last_weight(ws@.subrange(0, i as int), h));
                    let m = choose|m: int| 0 <= m < before.len() && (#[trigger] before[m]).0 == h;
                    assert(t@[m].0 == h);
                }
            }
        }
        i += 1;
    }
    proof {
        assert(ws@.subrange(0, ws@.len() as int) =~= ws@);
    }
    t
}

/// The entry `e` of the table of lifted differentials read from the records `ls`: its support
/// holds exactly the indices of the last record of its generator.
pub open spec fn table_entry(ls: Seq<(Gen, Seq<usize>)>, e: (Gen, BTreeSet<usize>)) -> bool {
    &&& last_support(ls, e.0) is Some
    &&& forall|y: usize| e.1@.contains(y) <==> last_support(ls, e.0).unwrap().contains(y)
}

/// The lifted differentials of a decoded cache as a table: one entry per generator, with the
/// support of its last record as a set, as reading the records into a map of sets gives.
pub fn lifted_table(ls: &Vec<(Gen, Vec<usize>)>) -> (t: Vec<(Gen, BTreeSet<usize>)>)
    ensures
        keys_unique(t@),
        forall|k: int|
            0 <= k < t@.len() ==> table_entry(lifted_view(ls@), #[trigger] t@[k]),
        forall|g: Gen|
            last_support(lifted_view(ls@), g) is Some ==> exists|k: int|
                0 <= k < t@.len() && (#[trigger] t@[k]).0 == g,
{
    let ghost lv = lifted_view(ls@);
    let mut t: Vec<(Gen, BTreeSet<usize>)> = Vec::new();
    let mut i: usize = 0;
    while i < ls.len()
        invariant
            i <= ls@.len(),
            lv == lifted_view(ls@),
            keys_unique(t@),
            forall|k: int|
                0 <= k < t@.len() ==> table_entry(lv.subrange(0, i as int), #[trigger] t@[k]),
            forall|g: Gen|
                last_support(lv.subrange(0, i as int), g) is Some ==> exists|k: int|
                    0 <= k < t@.len() && (#[trigger] t@[k]).0 == g,
        decreases ls@.len() - i,
    {
        let g = ls[i].0;
        let sup = support_set(&ls[i].1);
        let ghost sub = lv.subrange(0, i + 1);
        proof {
            assert(sub.drop_last() =~= lv.subrange(0, i as int));
            assert(sub.last() == (g, ls@[i as int].1@));
        }
        let mut k: usize = 0;
        while k < t.len() && !(t[k].0 == g)
            invariant
                k <= t@.len(),
                forall|m: int| 0 <= m < k ==> t@[m].0 != g,
            decreases t@.len() - k,
        {
            k += 1;
        }
        let ghost before = t@;
        if k < t.len() {
            t.set(k, (g, sup));
        } else {
            t.push((g, sup));
        }
        proof {
            assert forall|p: int, q: int| 0 <= p < q < t@.len() implies t@[p].0 != t@[q].0 by {
                if q == k {
                    assert(before[p].0 != g);
                } else if p == k {
                    if k < before.len() {
                        assert(before[q].0 != before[k as int].0);
                    }
                } else {
                    assert(before[p].0 != before[q].0);
                }
            }
            assert forall|m: int|
                0 <= m < t@.len() implies table_entry(sub, #[trigger] t@[m]) by {
                if m != k {
                    assert(t@[m] == before[m]);
                    assert(before[m].0 != g);
                }
            }
            assert forall|h: Gen| last_support(sub, h) is Some implies exists|m: int|
                0 <= m < t@.len() && (#[trigger] t@[m]).0 == h by {
                if h == g {
                    assert(t@[k as int].0 == h);
                } else {
                    assert(last_support(sub, h) == last_support(lv.subrange(0, i as int), h));
                    let m = choose|m: int| 0 <= m < before.len() && (#[trigger] before[m]).0 == h;
                    assert(t@[m].0 == h);
                }
            }
        }
        i += 1;
    }
    proof {
        assert(lv.subrange(0, lv.len() as int) =~= lv);
    }
    t
}

} // verus!
