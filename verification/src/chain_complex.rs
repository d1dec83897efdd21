//! Chain complexes: gradings, the stable fingerprint accumulator, and the bookkeeping that
//! summarises a complex (Euler characteristics and dimension charts).
use vstd::prelude::*;
use crate::utils::{unicode_num, unicode_num_spec};

verus! {

pub enum ChainComplexGrading {
    Homological,
    Cohomological,
}

/// The FNV-1a 64-bit offset basis.
pub const FNV_OFFSET: u64 = 0xcbf2_9ce4_8422_2325u64;

/// The FNV-1a 64-bit prime.
pub const FNV_PRIME: u64 = 0x0000_0100_0000_01b3u64;

/// One FNV-1a step: xor in the byte, then multiply by the prime modulo $2^{64}$.
pub open spec fn fnv_step(h: u64, b: u8) -> u64 {
    (((h ^ (b as u64)) as nat * FNV_PRIME as nat) % 0x1_0000_0000_0000_0000) as u64
}

/// The FNV-1a state after feeding `bytes`, in order, to the state `h`.
pub open spec fn fnv_bytes(h: u64, bytes: Seq<u8>) -> u64
    decreases bytes.len(),
{
    if bytes.len() == 0 {
        h
    } else {
        fnv_step(fnv_bytes(h, bytes.drop_last()), bytes.last())
    }
}

/// A tiny FNV-1a 64-bit accumulator used for the fingerprint of a chain complex.
///
/// `std`'s `DefaultHasher` is not guaranteed stable across toolchain versions, which would
/// spuriously invalidate an on-disk save directory after a compiler upgrade. FNV-1a is a fixed,
/// specified algorithm, so the fingerprint is reproducible across runs and builds.
pub struct Fnv(u64);

impl Fnv {
    /// The current hash state.
    pub closed spec fn state(self) -> u64 {
        self.0
    }

    pub fn new() -> (h: Self)
        ensures
            h.state() == FNV_OFFSET,
    {
        Self(0xcbf2_9ce4_8422_2325)
    }

    /// Feed the eight little-endian bytes of `x`.
    pub fn write_u64(&mut self, x: u64)
        ensures
            final(self).state() == fnv_bytes(
                old(self).state(),
                vstd::bytes::spec_u64_to_le_bytes(x),
            ),
    {
        let bytes = vstd::bytes::u64_to_le_bytes(x);
        let ghost h0 = self.0;
        let mut i: usize = 0;
        while i < bytes.len()
            invariant
                i <= bytes@.len(),
                bytes@ == vstd::bytes::spec_u64_to_le_bytes(x),
                self.0 == fnv_bytes(h0, bytes@.subrange(0, i as int)),
            decreases bytes@.len() - i,
        {
            let b = bytes[i];
            proof {
                assert(bytes@.subrange(0, i + 1).drop_last() == bytes@.subrange(0, i as int));
            }
            self.0 ^= b as u64;
            self.0 = self.0.wrapping_mul(0x0000_0100_0000_01b3);
            i += 1;
        }
        proof {
            assert(bytes@.subrange(0, bytes@.len() as int) == bytes@);
        }
    }

    /// Feed an `i32` as the eight bytes of its 32-bit pattern widened to 64 bits.
    pub fn write_i32(&mut self, x: i32)
        ensures
            final(self).state() == fnv_bytes(
                old(self).state(),
                vstd::bytes::spec_u64_to_le_bytes(x as u32 as u64),
            ),
    {
        self.write_u64(x as u32 as u64);
    }

    /// Feed a `usize` as the eight bytes of its value widened to 64 bits.
    pub fn write_usize(&mut self, x: usize)
        ensures
            final(self).state() == fnv_bytes(
                old(self).state(),
                vstd::bytes::spec_u64_to_le_bytes(x as u64),
            ),
    {
        self.write_u64(x as u64);
    }

    pub fn finish(self) -> (h: u64)
        ensures
            h == self.state(),
    {
        self.0
    }
}

/// $\sum_{s < n} (-1)^s d_s$.
pub open spec fn alternating_sum(dims: Seq<usize>, n: int) -> int
    decreases n,
{
    if n <= 0 {
        0
    } else {
        alternating_sum(dims, n - 1) + if (n - 1) % 2 == 0 {
            dims[n - 1] as int
        } else {
            -(dims[n - 1] as int)
        }
    }
}

/// The alternating sum reads only the first `n` dimensions.
proof fn lemma_alternating_sum_prefix(a: Seq<usize>, b: Seq<usize>, n: int)
    requires
        forall|s: int| 0 <= s < n ==> #[trigger] a[s] == b[s],
    ensures
        alternating_sum(a, n) == alternating_sum(b, n),
    decreases n,
{
    if n > 0 {
        lemma_alternating_sum_prefix(a, b, n - 1);
    }
}

/// The Euler characteristic of no modules is zero, and appending a module of dimension `d` in
/// homological degree `s` adds `d` when `s` is even and subtracts it when `s` is odd.
pub proof fn lemma_euler_append(dims: Seq<usize>, d: usize)
    ensures
        alternating_sum(Seq::<usize>::empty(), 0) == 0,
        dims.len() % 2 == 0 ==> alternating_sum(dims.push(d), dims.len() as int + 1)
            == alternating_sum(dims, dims.len() as int) + d,
        dims.len() % 2 == 1 ==> alternating_sum(dims.push(d), dims.len() as int + 1)
            == alternating_sum(dims, dims.len() as int) - d,
{
    let e = dims.push(d);
    lemma_alternating_sum_prefix(e, dims, dims.len() as int);
    assert(e[dims.len() as int] == d);
}

/// Two consecutive degrees `2m` and `2m + 1` contribute the difference of their dimensions:
/// the even one counts positively and the odd one negatively.
pub proof fn lemma_euler_pair(dims: Seq<usize>, m: int)
    requires
        0 <= m,
        2 * m + 2 <= dims.len(),
    ensures
        alternating_sum(dims, 2 * m + 2) == alternating_sum(dims, 2 * m) + dims[2 * m] - dims[2
            * m + 1],
{
    assert(alternating_sum(dims, 2 * m + 1) == alternating_sum(dims, 2 * m) + dims[2 * m]);
}

/// The Euler characteristic $\sum_s (-1)^s \dim C_s$ in one internal degree, given the
/// dimensions `dims[s]` of the modules of a bounded complex (`s < max_s`).
pub fn euler_characteristic(dims: &Vec<usize>) -> (chi: isize)
    requires
        forall|s: int| 0 <= s < dims.len() ==> #[trigger] dims@[s] <= isize::MAX,
        forall|n: int|
            0 <= n <= dims.len() ==> isize::MIN <= #[trigger] alternating_sum(dims@, n)
                <= isize::MAX,
    ensures
        chi == alternating_sum(dims@, dims.len() as int),
{
    let mut chi: isize = 0;
    let mut s: usize = 0;
    while s < dims.len()
        invariant
            s <= dims.len(),
            chi == alternating_sum(dims@, s as int),
            forall|k: int| 0 <= k < dims.len() ==> #[trigger] dims@[k] <= isize::MAX,
            forall|n: int|
                0 <= n <= dims.len() ==> isize::MIN <= #[trigger] alternating_sum(dims@, n)
                    <= isize::MAX,
        decreases dims.len() - s,
    {
        assert(isize::MIN <= alternating_sum(dims@, s + 1) <= isize::MAX);
        let d = dims[s] as isize;
        chi = if s % 2 == 0 {
            chi + d
        } else {
            chi - d
        };
        s += 1;
    }
    chi
}

/// The chart text of one row: each count's character followed by a space.
pub open spec fn row_text(row: Seq<usize>) -> Seq<char>
    decreases row.len(),
{
    if row.len() == 0 {
        Seq::empty()
    } else {
        row_text(row.drop_last()).push(unicode_num_spec(row.last() as int)).push(' ')
    }
}

/// The chart text of rows `s - 1` down to `0`, each ended by a newline.
pub open spec fn rows_text(gens: Seq<Seq<usize>>, s: int) -> Seq<char>
    decreases s,
{
    if s <= 0 {
        Seq::empty()
    } else {
        row_text(gens[s - 1]).push('\n') + rows_text(gens, s - 1)
    }
}

/// Some count in the row is nonzero.
pub open spec fn row_nonzero(row: Seq<usize>) -> bool {
    exists|k: int| 0 <= k < row.len() && row[k] != 0
}

/// The chart of rows `s - 1` down to `0`, starting at the highest row with a generator.
pub open spec fn dimension_chart(gens: Seq<Seq<usize>>, s: int) -> Seq<char>
    decreases s,
{
    if s <= 0 {
        Seq::empty()
    } else if row_nonzero(gens[s - 1]) {
        rows_text(gens, s)
    } else {
        dimension_chart(gens, s - 1)
    }
}

/// The rows of a matrix of counts, each as a sequence.
pub open spec fn counts_view(gens: Seq<Vec<usize>>) -> Seq<Seq<usize>> {
    Seq::new(gens.len(), |i: int| gens[i]@)
}

/// A chart of the number of generators in each bidegree, highest homological degree first:
/// `gens[s][k]` is the number of generators of the `s`-th module in its `k`-th computed degree.
/// Leading rows without generators are left out.
pub fn graded_dimension_string(gens: &Vec<Vec<usize>>) -> (chart: String)
    ensures
        chart@ == dimension_chart(counts_view(gens@), gens.len() as int),
{
    let ghost g = counts_view(gens@);
    let mut result = String::new();
    let mut seen = false;
    let mut s: usize = gens.len();
    while s > 0
        invariant
            s <= gens.len(),
            g == counts_view(gens@),
            seen ==> dimension_chart(g, gens.len() as int) == result@ + rows_text(g, s as int),
            !seen ==> dimension_chart(g, gens.len() as int) == dimension_chart(g, s as int),
            !seen ==> result@ == Seq::<char>::empty(),
        decreases s,
    {
        let row = &gens[s - 1];
        let mut nonzero = false;
        let mut k: usize = 0;
        while k < row.len()
            invariant
                k <= row.len(),
                nonzero <==> exists|j: int| 0 <= j < k && row@[j] != 0,
            decreases row.len() - k,
        {
            if row[k] != 0 {
                nonzero = true;
            }
            k += 1;
        }
        proof {
            assert(g[s - 1] == row@);
        }
        if seen || nonzero {
            let ghost start = result@;
            let mut k: usize = 0;
            while k < row.len()
                invariant
                    k <= row.len(),
                    result@ == start + row_text(row@.subrange(0, k as int)),
                decreases row.len() - k,
            {
                proof {
                    assert(row@.subrange(0, k + 1).drop_last() == row@.subrange(0, k as int));
                }
                result.push(unicode_num(row[k]));
                result.push(' ');
                k += 1;
            }
            result.push('\n');
            proof {
                assert(row@.subrange(0, row@.len() as int) == row@);
                assert(rows_text(g, s as int) == row_text(g[s - 1]).push('\n') + rows_text(
                    g,
                    s - 1,
                ));
                if seen {
                    assert(result@ + rows_text(g, s - 1) =~= start + rows_text(g, s as int));
                } else {
                    assert(row_nonzero(g[s - 1]));
                    assert(result@ + rows_text(g, s - 1) =~= rows_text(g, s as int));
                }
            }
            seen = true;
        }
        s -= 1;
    }
    result
}


/// The bidegree of stem `n` and homological degree `s` is reached by the stem order of a complex
/// whose modules below `max_degrees.len()` are computed through the degrees `max_degrees`,
/// starting at stem `n0`: `s` is one of those modules, and stem `n` holds a computed bidegree in
/// every homological degree up to `s`.
pub open spec fn stem_reached(n0: int, max_degrees: Seq<i32>, n: int, s: int) -> bool {
    &&& 0 <= s < max_degrees.len()
    &&& n0 <= n
    &&& forall|r: int| 0 <= r <= s ==> n + r <= #[trigger] max_degrees[r]
}

/// `(n, s)` is at or before `(n2, s2)`: by stem, then by homological degree.
pub open spec fn stem_le(n: int, s: int, n2: int, s2: int) -> bool {
    n < n2 || (n == n2 && s <= s2)
}

/// The bidegrees of a chain complex in increasing order of stem, and within a stem in
/// increasing homological degree, up to the first one not yet computed.
pub struct StemIterator {
    n0: i32,
    max_degrees: Vec<i32>,
    n: i64,
    s: i64,
}

impl StemIterator {
    /// The stem the enumeration starts at.
    pub closed spec fn start(self) -> int {
        self.n0 as int
    }

    /// The degrees through which each module is computed.
    pub closed spec fn computed(self) -> Seq<i32> {
        self.max_degrees@
    }

    /// The position of the enumeration: the next bidegree to consider, as `(n, s)`.
    pub closed spec fn position(self) -> (int, int) {
        (self.n as int, self.s as int)
    }

    /// Every bidegree of the current stem below the position has been handed out.
    pub closed spec fn wf(self) -> bool {
        &&& self.max_degrees@.len() <= i32::MAX
        &&& 0 <= self.s <= self.max_degrees@.len()
        &&& self.n0 <= self.n <= if self.max_degrees@.len() > 0 && self.max_degrees@[0] + 1
            > self.n0 {
            self.max_degrees@[0] + 1
        } else {
            self.n0 as int
        }
        &&& forall|r: int| 0 <= r < self.s ==> self.n + r <= #[trigger] self.max_degrees@[r]
    }

    /// The enumeration of a complex whose lowest degree is `min_degree` and whose module `s`,
    /// for `s` below `max_degrees.len()` (the next homological degree), is computed through
    /// degree `max_degrees[s]`.
    pub fn new(min_degree: i32, max_degrees: Vec<i32>) -> (it: Self)
        requires
            max_degrees@.len() <= i32::MAX,
        ensures
            it.wf(),
            it.start() == min_degree,
            it.computed() == max_degrees@,
            it.position() == (min_degree as int, 0int),
    {
        StemIterator { n0: min_degree, max_degrees, n: min_degree as i64, s: 0 }
    }

    /// The next bidegree, as `(s, t)`: the first reached one at or after the position.
    pub fn next(&mut self) -> (r: Option<(i32, i32)>)
        requires
            old(self).wf(),
        ensures
            final(self).wf(),
            final(self).start() == old(self).start(),
            final(self).computed() == old(self).computed(),
            match r {
                Some((s, t)) => {
                    &&& stem_reached(old(self).start(), old(self).computed(), t - s, s as int)
                    &&& stem_le(old(self).position().0, old(self).position().1, t - s, s as int)
                    &&& forall|n2: int, s2: int|
                        stem_reached(old(self).start(), old(self).computed(), n2, s2) && stem_le(
                            old(self).position().0,
                            old(self).position().1,
                            n2,
                            s2,
                        ) ==> #[trigger] stem_le(t - s, s as int, n2, s2)
                    &&& final(self).position() == (t - s, s + 1)
                },
                None => forall|n2: int, s2: int|
                    #[trigger] stem_reached(old(self).start(), old(self).computed(), n2, s2)
                        ==> !stem_le(old(self).position().0, old(self).position().1, n2, s2),
            },
    {
        let max_s = self.max_degrees.len();
        if max_s == 0 {
            return None;
        }
        let ghost n_old = self.n as int;
        let ghost s_old = self.s as int;
        let ghost maxd = self.max_degrees@;
        if self.s as usize == max_s || (self.s > 0 && self.n + self.s > self.max_degrees[
            self.s as usize] as i64) {
            // Nothing is left in this stem: go on to the next one.
            proof {
                assert forall|n2: int, s2: int|
                    stem_reached(self.n0 as int, maxd, n2, s2) && stem_le(
                        n_old,
                        s_old,
                        n2,
                        s2,
                    ) implies n2 > n_old by {
                    if n2 == n_old {
                        assert(n2 + s_old <= maxd[s_old]);
                    }
                }
            }
            self.n = self.n + 1;
            self.s = 0;
        }
        if self.n > self.max_degrees[0] as i64 {
            proof {
                assert forall|n2: int, s2: int|
                    #[trigger] stem_reached(self.n0 as int, maxd, n2, s2) implies !stem_le(
                    n_old,
                    s_old,
                    n2,
                    s2,
                ) by {
                    assert(n2 + 0 <= maxd[0]);
                }
            }
            return None;
        }
        proof {
            assert(self.s < max_s);
            assert(self.n + self.s <= maxd[self.s as int]);
            assert forall|r: int| 0 <= r <= self.s implies self.n + r <= #[trigger] maxd[r] by {
                if r == self.s {
                } else {
                    assert(r < self.s);
                }
            }
            assert forall|n2: int, s2: int|
                stem_reached(self.n0 as int, maxd, n2, s2) && stem_le(
                    n_old,
                    s_old,
                    n2,
                    s2,
                ) implies #[trigger] stem_le(self.n as int, self.s as int, n2, s2) by {
                if n2 == n_old && self.n > n_old {
                    assert(n2 + s_old <= maxd[s_old]);
                }
            }
        }
        let s = self.s as i32;
        let t = (self.n + self.s) as i32;
        self.s = self.s + 1;
        Some((s, t))
    }
}

} // verus!
