//! Support for [Nassau's algorithm](https://arxiv.org/abs/1910.04063): the Milnor
//! subalgebras it works over, their save format, and the dependency graph that schedules a
//! stem.

pub mod depgraph;

use vstd::prelude::*;
use vstd::arithmetic::power2::pow2;
use vstd::bytes::{spec_u16_from_le_bytes, spec_u16_to_le_bytes, spec_u64_from_le_bytes, spec_u64_to_le_bytes};
use itertools::Itertools;
use crate::bytes::{get_u64, put_u64};
use crate::utils::{decimal, push_decimal};

verus! {

/// Entries of a p-part, as a signature is written.
pub type PPartEntry = u16;

/// `Itertools::join` writes each entry with `Display` (decimal digits, for an integer) and puts
/// `sep` between consecutive entries; an empty sequence gives the empty string.
#[verifier::external_body]
fn join_entries(entries: &Vec<u8>, sep: &str) -> (s: String)
    ensures
        s@ == join_decimal(entries@, sep@),
{
    entries.iter().join(sep)
}

/// The decimal forms of `entries` with `sep` between consecutive ones.
pub open spec fn join_decimal(entries: Seq<u8>, sep: Seq<char>) -> Seq<char>
    decreases entries.len(),
{
    if entries.len() == 0 {
        Seq::empty()
    } else if entries.len() == 1 {
        decimal(entries[0] as nat)
    } else {
        join_decimal(entries.drop_last(), sep) + sep + decimal(entries.last() as nat)
    }
}

/// `n` zero bytes.
pub open spec fn zeros(n: nat) -> Seq<u8> {
    Seq::new(n, |i: int| 0u8)
}

/// The little-endian bytes of each entry, in order.
pub open spec fn entries_le_bytes(s: Seq<u16>) -> Seq<u8>
    decreases s.len(),
{
    if s.len() == 0 {
        Seq::empty()
    } else {
        entries_le_bytes(s.drop_last()) + spec_u16_to_le_bytes(s.last())
    }
}

/// The name of the subalgebra with this profile: `F_2` for the trivial one, `A(n)` when the
/// first entry is the length, `B(p_0,p_1,...)` otherwise.
pub open spec fn subalgebra_name(profile: Seq<u8>) -> Seq<char> {
    if profile.len() == 0 {
        "F_2"@
    } else if profile.len() as u8 == profile[0] {
        "A("@ + decimal((profile.len() - 1) as nat) + ")"@
    } else {
        "B("@ + join_decimal(profile, ","@) + ")"@
    }
}

/// The top degree of the subalgebra with this profile:
/// $\sum_i (2^{i+1} - 1)(2^{p_i} - 1)$.
pub open spec fn top_degree_spec(profile: Seq<u8>) -> int
    decreases profile.len(),
{
    if profile.len() == 0 {
        0
    } else {
        top_degree_spec(profile.drop_last()) + (pow2(profile.len() as nat) - 1) * (pow2(
            profile.last() as nat,
        ) - 1)
    }
}

/// A Milnor subalgebra to be used in [Nassau's algorithm](https://arxiv.org/abs/1910.04063). This
/// is equipped with an ordering of the signature as in Lemma 2.4 of the paper.
///
/// To simplify implementation, we pick the ordering so that the (reverse) lexicographic ordering
/// in Lemma 2.4 is just the (reverse) lexicographic ordering of the P parts. This corresponds to
/// the ordering of $\mathcal{P}$ where $P^s_t < P^{s'}_t$ if $s < s'$).
pub struct MilnorSubalgebra {
    profile: Vec<u8>,
}

impl MilnorSubalgebra {
    /// This should be used when you want an entry of the profile to be infinity
    pub const INFINITY: u8 = 7u8;

    /// The profile of the subalgebra.
    pub closed spec fn profile_view(self) -> Seq<u8> {
        self.profile@
    }

    pub fn new(profile: Vec<u8>) -> (a: Self)
        ensures
            a.profile_view() == profile@,
    {
        Self { profile }
    }

    /// The algebra with trivial profile, corresponding to the trivial algebra.
    pub fn zero_algebra() -> (a: Self)
        ensures
            a.profile_view() == Seq::<u8>::empty(),
    {
        Self { profile: Vec::new() }
    }

    /// A copy of this subalgebra.
    fn duplicate(&self) -> (a: Self)
        ensures
            a.profile_view() == self.profile_view(),
    {
        let mut profile: Vec<u8> = Vec::new();
        let mut i: usize = 0;
        while i < self.profile.len()
            invariant
                i <= self.profile@.len(),
                profile@ == self.profile@.subrange(0, i as int),
            decreases self.profile@.len() - i,
        {
            profile.push(self.profile[i]);
            i += 1;
        }
        proof {
            assert(self.profile@.subrange(0, self.profile@.len() as int) == self.profile@);
        }
        Self { profile }
    }

    /// The signature of the zero operation: one zero per profile entry.
    pub fn zero_signature(&self) -> (s: Vec<PPartEntry>)
        ensures
            s@ == Seq::new(self.profile_view().len(), |i: int| 0u16),
    {
        let mut s: Vec<PPartEntry> = Vec::new();
        let mut i: usize = 0;
        while i < self.profile.len()
            invariant
                i <= self.profile@.len(),
                s@ == Seq::new(i as nat, |k: int| 0u16),
            decreases self.profile@.len() - i,
        {
            s.push(0);
            i += 1;
            proof {
                assert(s@ =~= Seq::new(i as nat, |k: int| 0u16));
            }
        }
        s
    }

    /// The degree of the top class of the subalgebra.
    pub fn top_degree(&self) -> (d: i32)
        requires
            self.profile_view().len() <= 30,
            forall|i: int|
                0 <= i < self.profile_view().len() ==> #[trigger] self.profile_view()[i] <= 30,
            top_degree_spec(self.profile_view()) <= i32::MAX,
        ensures
            d == top_degree_spec(self.profile_view()),
    {
        let mut sum: i32 = 0;
        let mut idx: usize = 0;
        while idx < self.profile.len()
            invariant
                idx <= self.profile@.len() <= 30,
                forall|i: int| 0 <= i < self.profile@.len() ==> #[trigger] self.profile@[i] <= 30,
                top_degree_spec(self.profile@) <= i32::MAX,
                sum == top_degree_spec(self.profile@.subrange(0, idx as int)),
            decreases self.profile@.len() - idx,
        {
            let entry = self.profile[idx];
            let a = pow2_minus_one((idx + 1) as u32);
            let b = pow2_minus_one(entry as u32);
            proof {
                let sub = self.profile@.subrange(0, idx + 1);
                assert(sub.drop_last() == self.profile@.subrange(0, idx as int));
                assert(sub.last() == entry);
                lemma_top_degree_prefix(self.profile@, idx + 1);
                lemma_top_degree_nonneg(self.profile@.subrange(0, idx as int));
                vstd::arithmetic::power2::lemma_pow2_pos((idx + 1) as nat);
                vstd::arithmetic::power2::lemma_pow2_pos(entry as nat);
                assert(0 <= (a as int) * (b as int)) by (nonlinear_arith)
                    requires
                        a >= 0,
                        b >= 0,
                ;
            }
            sum = sum + a * b;
            idx += 1;
        }
        proof {
            assert(self.profile@.subrange(0, self.profile@.len() as int) == self.profile@);
        }
        sum
    }

    /// The name of the subalgebra (see [`subalgebra_name`]).
    pub fn to_string(&self) -> (s: String)
        ensures
            s@ == subalgebra_name(self.profile_view()),
    {
        if self.profile.len() == 0 {
            String::from_str("F_2")
        } else if self.profile.len() as u8 == self.profile[0] {
            let mut s = String::from_str("A(");
            push_decimal(&mut s, (self.profile.len() - 1) as u64);
            s.append(")");
            s
        } else {
            let mut s = String::from_str("B(");
            let joined = join_entries(&self.profile, ",");
            s.append(joined.as_str());
            s.append(")");
            s
        }
    }

    /// The save form of the subalgebra: the profile length as a little-endian `u64`, the profile,
    /// then as many zero bytes as the length leaves over a multiple of eight.
    pub fn to_bytes(&self) -> (b: Vec<u8>)
        ensures
            b@ == profile_bytes(self.profile_view()),
    {
        let mut b: Vec<u8> = Vec::new();
        put_u64(&mut b, self.profile.len() as u64);
        let ghost head = b@;
        let mut i: usize = 0;
        while i < self.profile.len()
            invariant
                i <= self.profile@.len(),
                b@ == head + self.profile@.subrange(0, i as int),
            decreases self.profile@.len() - i,
        {
            b.push(self.profile[i]);
            i += 1;
        }
        let len = self.profile.len();
        let padding = len - ((len / 8) * 8);
        let ghost body = b@;
        let mut k: usize = 0;
        while k < padding
            invariant
                k <= padding,
                b@ == body + zeros(k as nat),
            decreases padding - k,
        {
            b.push(0);
            k += 1;
            proof {
                assert(b@ =~= body + zeros(k as nat));
            }
        }
        proof {
            assert(self.profile@.subrange(0, len as int) == self.profile@);
            assert(padding == len % 8);
        }
        b
    }

    /// The save form of a signature: each entry as two little-endian bytes, then two zero bytes
    /// for each entry the length leaves over a multiple of four.
    pub fn signature_to_bytes(signature: &[PPartEntry]) -> (b: Vec<u8>)
        ensures
            b@ == entries_le_bytes(signature@) + zeros((2 * (signature@.len() % 4)) as nat),
    {
        let mut b: Vec<u8> = Vec::new();
        let mut i: usize = 0;
        while i < signature.len()
            invariant
                i <= signature@.len(),
                b@ == entries_le_bytes(signature@.subrange(0, i as int)),
            decreases signature@.len() - i,
        {
            let e = vstd::bytes::u16_to_le_bytes(signature[i]);
            b.push(e[0]);
            b.push(e[1]);
            proof {
                let sub = signature@.subrange(0, i + 1);
                assert(sub.drop_last() == signature@.subrange(0, i as int));
                assert(b@ =~= entries_le_bytes(sub));
            }
            i += 1;
        }
        let len = signature.len();
        let padding = len - ((len / 4) * 4);
        let ghost body = b@;
        let mut k: usize = 0;
        while k < 2 * padding
            invariant
                padding < 4,
                k <= 2 * padding,
                b@ == body + zeros(k as nat),
            decreases 2 * padding - k,
        {
            b.push(0);
            k += 1;
            proof {
                assert(b@ =~= body + zeros(k as nat));
            }
        }
        proof {
            assert(signature@.subrange(0, len as int) == signature@);
        }
        b
    }

    /// Read a signature of this subalgebra back from its save form (see
    /// [`Self::signature_to_bytes`]). The data must hold the entries and a zero padding.
    pub fn signature_from_bytes(&self, data: &[u8]) -> (signature: Vec<PPartEntry>)
        requires
            data@.len() >= 2 * self.profile_view().len() + 2 * (self.profile_view().len() % 4),
            forall|k: int|
                2 * self.profile_view().len() <= k < 2 * self.profile_view().len() + 2 * (
                self.profile_view().len() % 4) ==> #[trigger] data@[k] == 0,
        ensures
            signature@.len() == self.profile_view().len(),
            forall|i: int|
                0 <= i < signature@.len() ==> #[trigger] signature@[i] == spec_u16_from_le_bytes(
                    data@.subrange(2 * i, 2 * i + 2),
                ),
    {
        let len = self.profile.len();
        let mut signature: Vec<PPartEntry> = Vec::new();
        let mut i: usize = 0;
        while i < len
            invariant
                len == self.profile@.len(),
                i <= len,
                data@.len() >= 2 * len,
                data@.len() == data.len(),
                signature@.len() == i,
                forall|k: int|
                    0 <= k < i ==> #[trigger] signature@[k] == spec_u16_from_le_bytes(
                        data@.subrange(2 * k, 2 * k + 2),
                    ),
            decreases len - i,
        {
            let pair = slice_pair(data, 2 * i);
            signature.push(vstd::bytes::u16_from_le_bytes(pair));
            i += 1;
        }
        signature
    }
}

/// Why a saved profile could not be read.
#[derive(Debug, Clone, Copy, PartialEq, Eq, Structural)]
pub enum ProfileReadError {
    /// The data ends before the profile does.
    UnexpectedEof,
    /// The profile is longer (`len`) than a p-part has entries (`max`).
    TooLong { len: u64, max: u64 },
}

/// The save form of a profile: its length as a little-endian `u64`, the profile, then as many
/// zero bytes as the length leaves over a multiple of eight.
pub open spec fn profile_bytes(profile: Seq<u8>) -> Seq<u8> {
    spec_u64_to_le_bytes(profile.len() as u64) + profile + zeros(profile.len() % 8)
}

/// What a saved profile reads as, for p-parts of at most `max_len` entries: the profile and the
/// number of bytes it takes.
pub open spec fn parse_profile(data: Seq<u8>, max_len: u64) -> Result<
    (Seq<u8>, int),
    ProfileReadError,
> {
    if data.len() < 8 {
        Err(ProfileReadError::UnexpectedEof)
    } else {
        let len = spec_u64_from_le_bytes(data.subrange(0, 8));
        if len > max_len {
            Err(ProfileReadError::TooLong { len, max: max_len })
        } else if data.len() < 8 + len + len % 8 {
            Err(ProfileReadError::UnexpectedEof)
        } else {
            Ok((data.subrange(8, 8 + len), 8 + len + len % 8))
        }
    }
}

/// The padding after a saved profile is zero, where the data holds all of it.
pub open spec fn profile_padding_zero(data: Seq<u8>) -> bool {
    data.len() >= 8 ==> {
        let len = spec_u64_from_le_bytes(data.subrange(0, 8));
        forall|k: int|
            8 + len <= k < 8 + len + len % 8 && k < data.len() ==> #[trigger] data[k] == 0
    }
}

impl MilnorSubalgebra {
    /// Read a subalgebra back from its save form (see [`Self::to_bytes`]), for p-parts of at
    /// most `max_len` entries; also gives the number of bytes read.
    pub fn from_bytes(data: &[u8], max_len: u64) -> (r: Result<(Self, usize), ProfileReadError>)
        requires
            profile_padding_zero(data@),
        ensures
            match r {
                Ok((a, n)) => parse_profile(data@, max_len) == Ok::<(Seq<u8>, int), ProfileReadError>(
                    (a.profile_view(), n as int),
                ),
                Err(e) => parse_profile(data@, max_len) == Err::<(Seq<u8>, int), ProfileReadError>(
                    e,
                ),
            },
    {
        let len = match get_u64(data, 0) {
            Some(len) => len,
            None => return Err(ProfileReadError::UnexpectedEof),
        };
        if len > max_len {
            return Err(ProfileReadError::TooLong { len, max: max_len });
        }
        assert(data@.len() == data.len());
        let rest = (data.len() - 8) as u64;
        if rest < len || rest - len < len % 8 {
            return Err(ProfileReadError::UnexpectedEof);
        }
        let n = len as usize;
        let mut profile: Vec<u8> = Vec::new();
        let mut i: usize = 0;
        while i < n
            invariant
                8 + n <= data@.len(),
                data@.len() == data.len(),
                i <= n,
                profile@ == data@.subrange(8, 8 + i),
            decreases n - i,
        {
            profile.push(data[8 + i]);
            proof {
                assert(profile@ =~= data@.subrange(8, 8 + i + 1));
            }
            i += 1;
        }
        Ok((Self { profile }, 8 + n + n % 8))
    }
}

/// Reading the save form of a profile gives the profile back, with the number of bytes written,
/// whatever follows it: the subalgebra survives a save and a load.
pub proof fn lemma_profile_round_trip(profile: Seq<u8>, rest: Seq<u8>, max_len: u64)
    requires
        profile.len() <= max_len,
    ensures
        parse_profile(profile_bytes(profile) + rest, max_len) == Ok::<(Seq<u8>, int), ProfileReadError>(
            (profile, (8 + profile.len() + profile.len() % 8) as int),
        ),
        profile_padding_zero(profile_bytes(profile) + rest),
{
    vstd::bytes::lemma_auto_spec_u64_to_from_le_bytes();
    let head = spec_u64_to_le_bytes(profile.len() as u64);
    assert(head.len() == 8);
    let b = profile_bytes(profile) + rest;
    assert(b.subrange(0, 8) == head);
    assert(spec_u64_from_le_bytes(head) == profile.len());
    assert(b.subrange(8, 8 + profile.len() as int) == profile);
}

/// Two bytes of `data` from `pos`.
fn slice_pair(data: &[u8], pos: usize) -> (pair: &[u8])
    requires
        pos + 2 <= data@.len(),
    ensures
        pair@ == data@.subrange(pos as int, pos + 2),
{
    assert(data@.len() == data.len());
    &data[pos..pos + 2]
}

/// $2^e - 1$.
fn pow2_minus_one(e: u32) -> (r: i32)
    requires
        e <= 30,
    ensures
        r == pow2(e as nat) - 1,
        r >= 0,
{
    proof {
        vstd::bits::lemma_u32_pow2_no_overflow(e as nat);
        vstd::arithmetic::power2::lemma_pow2_strictly_increases(e as nat, 31);
        vstd::arithmetic::power2::lemma2_to64();
        vstd::bits::lemma_u32_shl_is_mul(1u32, e);
    }
    ((1u32 << e) - 1) as i32
}

/// The top degree of a prefix is at most that of the whole profile.
proof fn lemma_top_degree_prefix(p: Seq<u8>, n: int)
    requires
        0 <= n <= p.len(),
    ensures
        top_degree_spec(p.subrange(0, n)) <= top_degree_spec(p),
    decreases p.len(),
{
    if n < p.len() {
        lemma_top_degree_prefix(p.drop_last(), n);
        assert(p.drop_last().subrange(0, n) == p.subrange(0, n));
        vstd::arithmetic::power2::lemma_pow2_pos(p.len() as nat);
        vstd::arithmetic::power2::lemma_pow2_pos(p.last() as nat);
        let x = pow2(p.len() as nat) - 1;
        let y = pow2(p.last() as nat) - 1;
        assert(x * y >= 0) by (nonlinear_arith)
            requires
                x >= 0,
                y >= 0,
        ;
    } else {
        assert(p.subrange(0, n) == p);
    }
}

proof fn lemma_top_degree_nonneg(p: Seq<u8>)
    ensures
        top_degree_spec(p) >= 0,
    decreases p.len(),
{
    if p.len() > 0 {
        lemma_top_degree_nonneg(p.drop_last());
        vstd::arithmetic::power2::lemma_pow2_pos(p.len() as nat);
        vstd::arithmetic::power2::lemma_pow2_pos(p.last() as nat);
        let x = pow2(p.len() as nat) - 1;
        let y = pow2(p.last() as nat) - 1;
        assert(x * y >= 0) by (nonlinear_arith)
            requires
                x >= 0,
                y >= 0,
        ;
    }
}

/// Reading a signature back from its save form gives the signature.
pub proof fn lemma_signature_round_trip(a: MilnorSubalgebra, signature: Seq<u16>, i: int)
    requires
        signature.len() == a.profile_view().len(),
        0 <= i < signature.len(),
    ensures
        spec_u16_from_le_bytes(
            (entries_le_bytes(signature) + zeros((2 * (signature.len() % 4)) as nat)).subrange(
                2 * i,
                2 * i + 2,
            ),
        ) == signature[i],
{
    lemma_entries_le_bytes(signature, i);
    vstd::bytes::lemma_auto_spec_u16_to_from_le_bytes();
    let full = entries_le_bytes(signature) + zeros((2 * (signature.len() % 4)) as nat);
    assert(full.subrange(2 * i, 2 * i + 2) == entries_le_bytes(signature).subrange(2 * i, 2 * i + 2));
}

/// Entry `i` of a signature sits at bytes `2i` and `2i + 1` of its little-endian form.
pub proof fn lemma_entries_le_bytes(s: Seq<u16>, i: int)
    requires
        0 <= i < s.len(),
    ensures
        entries_le_bytes(s).len() == 2 * s.len(),
        entries_le_bytes(s).subrange(2 * i, 2 * i + 2) == spec_u16_to_le_bytes(s[i]),
    decreases s.len(),
{
    vstd::bytes::lemma_auto_spec_u16_to_from_le_bytes();
    lemma_entries_le_bytes_len(s.drop_last());
    if i < s.len() - 1 {
        lemma_entries_le_bytes(s.drop_last(), i);
        assert(entries_le_bytes(s).subrange(2 * i, 2 * i + 2) == entries_le_bytes(
            s.drop_last(),
        ).subrange(2 * i, 2 * i + 2));
    } else {
        assert(entries_le_bytes(s).subrange(2 * i, 2 * i + 2) == spec_u16_to_le_bytes(s.last()));
    }
}

pub proof fn lemma_entries_le_bytes_len(s: Seq<u16>)
    ensures
        entries_le_bytes(s).len() == 2 * s.len(),
    decreases s.len(),
{
    vstd::bytes::lemma_auto_spec_u16_to_from_le_bytes();
    if s.len() > 0 {
        lemma_entries_le_bytes_len(s.drop_last());
    }
}


/// The position of the entry that steps the profile on: scanning from the last entry back, the
/// first entry equal to its distance from the end (`-1` if there is none).
pub open spec fn bump_position(p: Seq<u8>, k: int) -> int
    decreases p.len() - k,
{
    if k < 0 || k >= p.len() {
        -1
    } else if p[p.len() - 1 - k] == k as u8 {
        p.len() - 1 - k
    } else {
        bump_position(p, k + 1)
    }
}

/// The entry that steps the profile on is one of its entries.
proof fn lemma_bump_in_range(p: Seq<u8>, k: int)
    ensures
        bump_position(p, k) >= 0 ==> 0 <= bump_position(p, k) < p.len(),
    decreases p.len() - k,
{
    if 0 <= k < p.len() && p[p.len() - 1 - k] != k as u8 {
        lemma_bump_in_range(p, k + 1);
    }
}

/// The profile after `p` in the sequence of subalgebras: from $\mathbb{F}_2$ or $A(n)$ a new
/// entry `1` is appended; otherwise the entry at [`bump_position`] is raised by one.
pub open spec fn next_profile(p: Seq<u8>) -> Seq<u8> {
    if p.len() == 0 || p[0] == p.len() as u8 {
        p.push(1)
    } else {
        let j = bump_position(p, 0);
        if j >= 0 {
            p.update(j, (p[j] + 1) as u8)
        } else {
            p
        }
    }
}

/// An iterator that iterates through a sequence of [`MilnorSubalgebra`] of increasing size.
pub struct SubalgebraIterator {
    current: MilnorSubalgebra,
}

impl SubalgebraIterator {
    /// The profile of the subalgebra last handed out.
    pub closed spec fn current_profile(self) -> Seq<u8> {
        self.current.profile@
    }

    pub fn new() -> (it: Self)
        ensures
            it.current_profile() == Seq::<u8>::empty(),
    {
        Self { current: MilnorSubalgebra::new(Vec::new()) }
    }

    /// The next subalgebra of the sequence (see [`next_profile`]); there always is one.
    pub fn next(&mut self) -> (r: Option<MilnorSubalgebra>)
        requires
            bump_position(old(self).current_profile(), 0) >= 0 ==> old(self).current_profile()[bump_position(
                old(self).current_profile(),
                0,
            )] < 255,
        ensures
            final(self).current_profile() == next_profile(old(self).current_profile()),
            r matches Some(a) && a.profile_view() == final(self).current_profile(),
    {
        let len = self.current.profile.len();
        if len == 0 || self.current.profile[0] == len as u8 {
            // We are at F_2 or at A(n) where n = len - 1.
            self.current.profile.push(1);
            Some(self.current.duplicate())
        } else {
            // We find the first entry that can be incremented and increment it
            let mut k: usize = 0;
            while k < len
                invariant
                    len == self.current.profile@.len(),
                    bump_position(old(self).current_profile(), 0) >= 0 ==> old(self).current_profile()[bump_position(
                        old(self).current_profile(),
                        0,
                    )] < 255,
                    len > 0,
                    self.current.profile@[0] != len as u8,
                    k <= len,
                    self.current.profile@ == old(self).current.profile@,
                    bump_position(self.current.profile@, 0) == bump_position(
                        self.current.profile@,
                        k as int,
                    ),
                decreases len - k,
            {
                let j = len - 1 - k;
                if self.current.profile[j] == k as u8 {
                    proof {
                        assert(bump_position(self.current.profile@, k as int) == j);
                    }
                    let v = self.current.profile[j] + 1;
                    self.current.profile.set(j, v);
                    return Some(self.current.duplicate());
                }
                k += 1;
            }
            Some(self.current.duplicate())
        }
    }
}


// The signatures of a subalgebra, enumerated in reverse lexicographic order. A signature of a
// subalgebra with profile `p` has one entry per profile entry, entry `i` below 2^{p_i}; its degree
// is sum_i s_i (2^{i+1} - 1), the degree of xi_{i+1} being 2^{i+1} - 1.

/// The degree of $\xi_{i+1}$ at the prime two.
pub open spec fn xi_degree(i: int) -> int {
    pow2((i + 1) as nat) - 1
}

/// The degree of a signature.
pub open spec fn signature_degree(v: Seq<u16>) -> int
    decreases v.len(),
{
    if v.len() == 0 {
        0
    } else {
        signature_degree(v.drop_last()) + v.last() * xi_degree(v.len() - 1)
    }
}

/// `v` is a signature of the subalgebra with profile `p`.
pub open spec fn fits_profile(p: Seq<u8>, v: Seq<u16>) -> bool {
    &&& v.len() == p.len()
    &&& forall|i: int| 0 <= i < v.len() ==> #[trigger] v[i] < pow2(p[i] as nat)
}

/// `v` is a signature of the subalgebra with profile `p` of degree at most `d`.
pub open spec fn admissible(p: Seq<u8>, d: int, v: Seq<u16>) -> bool {
    fits_profile(p, v) && signature_degree(v) <= d
}

/// `a` comes before `b` in reverse lexicographic order, the last entry where they differ
/// being entry `k`.
pub open spec fn rlex_less_at(a: Seq<u16>, b: Seq<u16>, k: int) -> bool {
    &&& a.len() == b.len()
    &&& 0 <= k < a.len()
    &&& a[k] < b[k]
    &&& forall|j: int| k < j < a.len() ==> #[trigger] a[j] == b[j]
}

/// `a` comes before `b` in reverse lexicographic order.
pub open spec fn rlex_less(a: Seq<u16>, b: Seq<u16>) -> bool {
    exists|k: int| rlex_less_at(a, b, k)
}

/// The signature with every entry zero.
pub open spec fn zero_signature_of(n: nat) -> Seq<u16> {
    Seq::new(n, |i: int| 0u16)
}

/// The profiles whose signatures this enumeration handles: each entry's bound fits in a
/// `u16`, and each $\xi$ degree fits in an `i32`.
pub open spec fn enumerable_profile(p: Seq<u8>) -> bool {
    &&& p.len() <= 31
    &&& forall|i: int| 0 <= i < p.len() ==> #[trigger] p[i] <= 15
}

proof fn lemma_xi_degree(i: int)
    requires
        0 <= i <= 30,
    ensures
        1 <= xi_degree(i) <= i32::MAX,
{
    vstd::arithmetic::power2::lemma_pow2_pos((i + 1) as nat);
    vstd::arithmetic::power2::lemma_pow2_strictly_increases(0, (i + 1) as nat);
    vstd::arithmetic::power2::lemma2_to64();
    if i + 1 < 31 {
        vstd::arithmetic::power2::lemma_pow2_strictly_increases((i + 1) as nat, 31);
    }
}

proof fn lemma_signature_degree_update(v: Seq<u16>, i: int, x: u16)
    requires
        0 <= i < v.len(),
    ensures
        signature_degree(v.update(i, x)) == signature_degree(v) + (x - v[i]) * xi_degree(i),
    decreases v.len(),
{
    let w = v.update(i, x);
    if i == v.len() - 1 {
        assert(w.drop_last() == v.drop_last());
        assert(x * xi_degree(i) - v[i] * xi_degree(i) == (x - v[i]) * xi_degree(i))
            by (nonlinear_arith);
    } else {
        lemma_signature_degree_update(v.drop_last(), i, x);
        assert(w.drop_last() == v.drop_last().update(i, x));
    }
}

proof fn lemma_signature_degree_monotone(a: Seq<u16>, b: Seq<u16>)
    requires
        a.len() == b.len() <= 31,
        forall|j: int| 0 <= j < a.len() ==> #[trigger] a[j] <= b[j],
    ensures
        0 <= signature_degree(a) <= signature_degree(b),
    decreases a.len(),
{
    if a.len() > 0 {
        let n = a.len() - 1;
        lemma_signature_degree_monotone(a.drop_last(), b.drop_last());
        lemma_xi_degree(n);
        let x = xi_degree(n);
        let s = a.last();
        let t = b.last();
        assert(a[n] <= b[n]);
        assert(0 <= s * x <= t * x) by (nonlinear_arith)
            requires
                0 <= s <= t,
                x >= 1,
        ;
    }
}

/// The top degree of a subalgebra bounds the degree of each of its signatures, and is the
/// degree of its top signature, every entry `i` at its bound $2^{p_i} - 1$.
pub proof fn lemma_top_degree_bounds_signatures(p: Seq<u8>, v: Seq<u16>)
    requires
        fits_profile(p, v),
    ensures
        signature_degree(v) <= top_degree_spec(p),
        (forall|i: int| 0 <= i < v.len() ==> #[trigger] v[i] == pow2(p[i] as nat) - 1)
            ==> signature_degree(v) == top_degree_spec(p),
    decreases v.len(),
{
    if v.len() > 0 {
        let n = v.len() - 1;
        let pi = p.drop_last();
        let vi = v.drop_last();
        assert forall|i: int| 0 <= i < vi.len() implies #[trigger] vi[i] < pow2(pi[i] as nat) by {
            assert(v[i] < pow2(p[i] as nat));
        }
        lemma_top_degree_bounds_signatures(pi, vi);
        vstd::arithmetic::power2::lemma_pow2_pos(v.len() as nat);
        vstd::arithmetic::power2::lemma_pow2_pos(p.last() as nat);
        let x = xi_degree(n);
        assert(x == pow2(p.len() as nat) - 1);
        let s = v.last() as int;
        let b = pow2(p.last() as nat) as int;
        assert(v[n] < pow2(p[n] as nat));
        assert(s * x <= x * (b - 1)) by (nonlinear_arith)
            requires
                0 <= s <= b - 1,
                x >= 0,
        ;
        if forall|i: int| 0 <= i < v.len() ==> #[trigger] v[i] == pow2(p[i] as nat) - 1 {
            assert forall|i: int| 0 <= i < vi.len() implies #[trigger] vi[i] == pow2(pi[i] as nat) - 1 by {
                assert(v[i] == pow2(p[i] as nat) - 1);
            }
            assert(v[n] == pow2(p[n] as nat) - 1);
            assert(s * x == x * (b - 1)) by (nonlinear_arith)
                requires
                    s == b - 1,
            ;
        }
    }
}

proof fn lemma_zero_signature_degree(n: nat)
    ensures
        signature_degree(zero_signature_of(n)) == 0,
    decreases n,
{
    if n > 0 {
        lemma_zero_signature_degree((n - 1) as nat);
        let z = zero_signature_of(n);
        assert(z.drop_last() == zero_signature_of((n - 1) as nat));
        assert(z.last() == 0);
        assert(z.last() * xi_degree(n - 1) == 0);
    }
}

/// No signature comes before itself, and two signatures are not each before the other.
pub proof fn lemma_rlex_asymmetric(a: Seq<u16>, b: Seq<u16>)
    ensures
        !(rlex_less(a, b) && rlex_less(b, a)),
{
    if rlex_less(a, b) && rlex_less(b, a) {
        let k = choose|k: int| rlex_less_at(a, b, k);
        let m = choose|m: int| rlex_less_at(b, a, m);
        if k < m {
            assert(a[m] == b[m]);
        } else if m < k {
            assert(a[k] == b[k]);
        }
    }
}

/// The signatures of a subalgebra in degrees up to a bound, each handed out after the one before
/// it in reverse lexicographic order; the zero signature is skipped.
pub struct SignatureIterator<'a> {
    subalgebra: &'a MilnorSubalgebra,
    current: Vec<PPartEntry>,
    signature_degree: i64,
    degree: i32,
}

impl<'a> SignatureIterator<'a> {
    /// The profile of the subalgebra whose signatures are enumerated.
    pub closed spec fn profile(self) -> Seq<u8> {
        self.subalgebra.profile_view()
    }

    /// The degree bound.
    pub closed spec fn bound(self) -> int {
        self.degree as int
    }

    /// The signature handed out last (the zero signature before the first).
    pub closed spec fn current(self) -> Seq<u16> {
        self.current@
    }

    /// The state is that of an enumeration: the current signature is the zero one or one of the
    /// enumerated ones, and its degree is kept alongside.
    pub closed spec fn wf(self) -> bool {
        &&& enumerable_profile(self.profile())
        &&& fits_profile(self.profile(), self.current@)
        &&& self.current@ == zero_signature_of(self.current@.len()) || signature_degree(
            self.current@,
        ) <= self.degree
        &&& self.signature_degree == signature_degree(self.current@)
    }

    pub fn new(subalgebra: &'a MilnorSubalgebra, degree: i32) -> (it: Self)
        requires
            enumerable_profile(subalgebra.profile_view()),
        ensures
            it.wf(),
            it.profile() == subalgebra.profile_view(),
            it.bound() == degree,
            it.current() == zero_signature_of(subalgebra.profile_view().len()),
    {
        let current = subalgebra.zero_signature();
        proof {
            let n = subalgebra.profile_view().len();
            lemma_zero_signature_degree(n);
            assert(current@ == zero_signature_of(n));
            assert forall|i: int| 0 <= i < n implies #[trigger] current@[i] < pow2(
                subalgebra.profile_view()[i] as nat,
            ) by {
                vstd::arithmetic::power2::lemma_pow2_pos(subalgebra.profile_view()[i] as nat);
            }
        }
        Self { subalgebra, current, signature_degree: 0, degree }
    }

    /// The next signature: the first one after the current signature, in reverse lexicographic
    /// order, of degree at most the bound. `None` when there is none left; the enumeration then
    /// starts over from the zero signature.
    pub fn next(&mut self) -> (r: Option<Vec<PPartEntry>>)
        requires
            old(self).wf(),
        ensures
            final(self).wf(),
            final(self).profile() == old(self).profile(),
            final(self).bound() == old(self).bound(),
            match r {
                Some(v) => {
                    &&& v@ == final(self).current()
                    &&& admissible(old(self).profile(), old(self).bound(), v@)
                    &&& rlex_less(old(self).current(), v@)
                    &&& forall|w: Seq<u16>|
                        admissible(old(self).profile(), old(self).bound(), w) && rlex_less(
                            old(self).current(),
                            w,
                        ) ==> !#[trigger] rlex_less(w, v@)
                },
                None => {
                    &&& final(self).current() == zero_signature_of(old(self).profile().len())
                    &&& forall|w: Seq<u16>|
                        admissible(old(self).profile(), old(self).bound(), w) ==> !#[trigger] rlex_less(
                            old(self).current(),
                            w,
                        )
                },
            },
    {
        let ghost p = self.subalgebra.profile_view();
        let ghost d = self.degree as int;
        let ghost start = self.current@;
        let len = self.current.len();
        proof {
            if start != zero_signature_of(start.len()) {
            } else {
                lemma_zero_signature_degree(start.len());
            }
            lemma_signature_degree_monotone(start, start);
        }
        let mut i: usize = 0;
        while i < len
            invariant
                p == self.subalgebra.profile_view(),
                p == old(self).profile(),
                d == self.degree,
                d == old(self).bound(),
                start == old(self).current(),
                enumerable_profile(p),
                len == self.current@.len() == start.len() == p.len(),
                fits_profile(p, start),
                0 <= self.signature_degree <= if d > 0 { d } else { 0 },
                i <= len,
                self.signature_degree == signature_degree(self.current@),
                forall|j: int| 0 <= j < i ==> #[trigger] self.current@[j] == 0,
                forall|j: int| i <= j < len ==> #[trigger] self.current@[j] == start[j],
                forall|w: Seq<u16>, k: int|
                    0 <= k < i && #[trigger] rlex_less_at(start, w, k) ==> !admissible(p, d, w),
            decreases len - i,
        {
            let ghost before = self.current@;
            let bound_exp = self.subalgebra.profile[i];
            proof {
                assert(before[i as int] == start[i as int]);
                assert(start[i as int] < pow2(p[i as int] as nat));
                assert(p[i as int] <= 15);
                vstd::arithmetic::power2::lemma_pow2_strictly_increases(p[i as int] as nat, 16);
                vstd::arithmetic::power2::lemma2_to64();
                lemma_xi_degree(i as int);
            }
            let c: u16 = self.current[i] + 1;
            let x = xi_degree_exec(i);
            let radix = pow2_u32(bound_exp as u32);
            assert(bound_exp == p[i as int]);
            self.signature_degree = self.signature_degree + x;
            self.current.set(i, c);
            let ghost cand = self.current@;
            proof {
                lemma_signature_degree_update(before, i as int, c);
                assert(cand == before.update(i as int, c));
                let xi = xi_degree(i as int);
                assert((c - before[i as int]) * xi == xi) by (nonlinear_arith)
                    requires
                        c - before[i as int] == 1,
                ;
                assert(signature_degree(cand) == self.signature_degree);
            }
            if self.signature_degree > self.degree as i64 || c as u32 == radix {
                proof {
                    // No signature whose last difference from `start` is at entry `i` is
                    // enumerated: it is at least `cand` entry by entry, or out of range.
                    assert forall|w: Seq<u16>, k: int|
                        0 <= k < i + 1 && #[trigger] rlex_less_at(start, w, k) implies !admissible(
                        p,
                        d,
                        w,
                    ) by {
                        if k == i && admissible(p, d, w) {
                            assert(start[k] < w[k]);
                            assert(w[k] >= c);
                            if c as u32 == radix {
                                assert(w[k] < pow2(p[k] as nat));
                                assert(false);
                            } else {
                                assert(signature_degree(cand) > d);
                                assert forall|j: int| 0 <= j < cand.len() implies #[trigger] cand[j]
                                    <= w[j] by {
                                    if j > i {
                                        assert(w[j] == start[j]);
                                    }
                                }
                                lemma_signature_degree_monotone(cand, w);
                                assert(false);
                            }
                        }
                    }
                }
                assert(x * c <= 0x7fff_ffff * 0x8000) by (nonlinear_arith)
                    requires
                        0 <= x <= 0x7fff_ffff,
                        0 <= c <= 0x8000,
                ;
                self.signature_degree = self.signature_degree - x * (c as i64);
                self.current.set(i, 0);
                proof {
                    lemma_signature_degree_update(cand, i as int, 0);
                    assert(self.current@ == cand.update(i as int, 0));
                    let xi = xi_degree(i as int);
                    assert((0 - cand[i as int]) * xi == -(xi * c)) by (nonlinear_arith)
                        requires
                            cand[i as int] == c,
                    ;
                    assert(self.signature_degree == signature_degree(self.current@));
                    lemma_signature_degree_monotone(self.current@, before);
                }
                if i + 1 == len {
                    proof {
                        assert(self.current@ =~= zero_signature_of(len as nat));
                        assert forall|w: Seq<u16>| admissible(p, d, w) implies !#[trigger] rlex_less(
                            start,
                            w,
                        ) by {
                            if rlex_less(start, w) {
                                let k = choose|k: int| rlex_less_at(start, w, k);
                                assert(rlex_less_at(start, w, k));
                            }
                        }
                        assert forall|j: int| 0 <= j < len implies #[trigger] self.current@[j]
                            < pow2(p[j] as nat) by {
                            vstd::arithmetic::power2::lemma_pow2_pos(p[j] as nat);
                        }
                    }
                    return None;
                }
            } else {
                let v = self.current.clone();
                proof {
                    assert(v@ =~= cand);
                    assert(rlex_less_at(start, cand, i as int));
                    assert forall|j: int| 0 <= j < len implies #[trigger] cand[j] < pow2(
                        p[j] as nat,
                    ) by {
                        if j < i {
                            vstd::arithmetic::power2::lemma_pow2_pos(p[j] as nat);
                        }
                    }
                    assert forall|w: Seq<u16>|
                        admissible(p, d, w) && rlex_less(start, w) implies !#[trigger] rlex_less(
                        w,
                        cand,
                    ) by {
                        let k = choose|k: int| rlex_less_at(start, w, k);
                        assert(rlex_less_at(start, w, k));
                        if rlex_less(w, cand) {
                            let m = choose|m: int| rlex_less_at(w, cand, m);
                            assert(k >= i);
                            if m > k {
                                assert(w[m] == start[m]);
                            } else if m == k {
                                if k > i {
                                    assert(cand[k] == start[k]);
                                }
                            } else {
                                if k > i {
                                    assert(w[k] == cand[k]);
                                } else if m < i {
                                    assert(cand[m] == 0);
                                } else {
                                    assert(false);
                                }
                            }
                        }
                    }
                }
                assert(self.subalgebra.profile_view() == p);
                return Some(v);
            }
            i += 1;
        }
        proof {
            assert(self.current@ =~= zero_signature_of(len as nat));
            assert forall|j: int| 0 <= j < len implies #[trigger] self.current@[j] < pow2(
                p[j] as nat,
            ) by {
                vstd::arithmetic::power2::lemma_pow2_pos(p[j] as nat);
            }
            assert forall|w: Seq<u16>| admissible(p, d, w) implies !#[trigger] rlex_less(start, w) by {
                if rlex_less(start, w) {
                    let k = choose|k: int| rlex_less_at(start, w, k);
                    assert(rlex_less_at(start, w, k));
                }
            }
        }
        None
    }
}

/// $2^{i+1} - 1$, the degree of $\xi_{i+1}$.
fn xi_degree_exec(i: usize) -> (x: i64)
    requires
        i <= 30,
    ensures
        x == xi_degree(i as int),
{
    proof {
        vstd::bits::lemma_u64_pow2_no_overflow((i + 1) as nat);
        vstd::bits::lemma_u64_shl_is_mul(1u64, (i + 1) as u64);
        vstd::arithmetic::power2::lemma_pow2_strictly_increases((i + 1) as nat, 32);
        vstd::arithmetic::power2::lemma2_to64();
    }
    ((1u64 << ((i + 1) as u64)) - 1) as i64
}

/// $2^e$.
fn pow2_u32(e: u32) -> (r: u32)
    requires
        e <= 15,
    ensures
        r == pow2(e as nat),
{
    proof {
        vstd::bits::lemma_u32_pow2_no_overflow(e as nat);
        vstd::bits::lemma_u32_shl_is_mul(1u32, e);
    }
    1u32 << e
}

impl MilnorSubalgebra {
    /// The signatures of this algebra that contain elements of degree at most `degree`
    /// (inclusive), in reverse lexicographic order. This skips the initial zero signature.
    pub fn iter_signatures(&self, degree: i32) -> (it: SignatureIterator<'_>)
        requires
            enumerable_profile(self.profile_view()),
        ensures
            it.wf(),
            it.profile() == self.profile_view(),
            it.bound() == degree,
            it.current() == zero_signature_of(self.profile_view().len()),
    {
        SignatureIterator::new(self, degree)
    }
}


/// The profile of the `n`-th subalgebra handed out by a fresh [`SubalgebraIterator`] (the
/// zeroth being $\mathbb{F}_2$).
pub open spec fn sequence_profile(n: nat) -> Seq<u8>
    decreases n,
{
    if n == 0 {
        Seq::empty()
    } else {
        next_profile(sequence_profile((n - 1) as nat))
    }
}

/// The bidegree `(s, t)` lies in the vanishing region of the subalgebra with profile `p`:
/// $t \geq (2^{|p|} - 1)(s + 1) + \mathrm{top}(p)$.
pub open spec fn in_vanishing_region(s: int, t: int, p: Seq<u8>) -> bool {
    t >= (pow2(p.len()) - 1) * (s + 1) + top_degree_spec(p)
}

/// The form of the profiles of the sequence after $\mathbb{F}_2$: entry `i` is `len - i`, less
/// one before position `m`. With `m == 0` this is $A(len - 1)$.
pub open spec fn sequence_form(p: Seq<u8>, m: int) -> bool {
    &&& 1 <= p.len() < 255
    &&& 0 <= m < p.len()
    &&& forall|i: int|
        0 <= i < p.len() ==> #[trigger] p[i] == p.len() - i - (if i < m {
            1int
        } else {
            0int
        })
}

proof fn lemma_bump_form(p: Seq<u8>, m: int, k: int)
    requires
        sequence_form(p, m),
        m >= 1,
        0 <= k <= p.len() - m,
    ensures
        bump_position(p, k) == m - 1,
    decreases p.len() - m - k,
{
    let i = p.len() - 1 - k;
    if k < p.len() - m {
        assert(p[i] == k + 1);
        lemma_bump_form(p, m, k + 1);
    } else {
        assert(p[i] == k);
    }
}

proof fn lemma_top_degree_update(p: Seq<u8>, j: int, v: u8)
    requires
        0 <= j < p.len(),
    ensures
        top_degree_spec(p.update(j, v)) == top_degree_spec(p) + (pow2((j + 1) as nat) - 1) * (
        pow2(v as nat) - pow2(p[j] as nat)),
    decreases p.len(),
{
    let q = p.update(j, v);
    let a = pow2((j + 1) as nat) - 1;
    if j == p.len() - 1 {
        assert(q.drop_last() == p.drop_last());
        assert(a * (pow2(v as nat) - 1) - a * (pow2(p[j] as nat) - 1) == a * (pow2(v as nat)
            - pow2(p[j] as nat))) by (nonlinear_arith);
    } else {
        lemma_top_degree_update(p.drop_last(), j, v);
        assert(q.drop_last() == p.drop_last().update(j, v));
    }
}

/// The top degree of a profile of the sequence is at least $2^{|p|} - 1$, and its entries are
/// between one and its length.
proof fn lemma_top_degree_lower(p: Seq<u8>, m: int)
    requires
        sequence_form(p, m),
    ensures
        top_degree_spec(p) >= pow2(p.len()) - 1,
        forall|i: int| 0 <= i < p.len() ==> 1 <= #[trigger] p[i] <= p.len(),
{
    lemma_top_degree_nonneg(p.drop_last());
    let n = p.len() - 1;
    assert(p[n] == 1);
    vstd::arithmetic::power2::lemma_pow2_pos(p.len());
    vstd::arithmetic::power2::lemma2_to64();
    let x = pow2(p.len()) - 1;
    let y = pow2(p.last() as nat) - 1;
    assert(x * y >= x) by (nonlinear_arith)
        requires
            x >= 0,
            y >= 1,
    ;
}

/// Each step of the sequence keeps its form, adds at most one entry, and raises the top degree.
proof fn lemma_next_profile(p: Seq<u8>, m: int) -> (m2: int)
    requires
        p.len() == 0 || sequence_form(p, m),
        p.len() < 254,
    ensures
        sequence_form(next_profile(p), m2),
        next_profile(p).len() <= p.len() + 1,
        top_degree_spec(next_profile(p)) > top_degree_spec(p),
{
    let q = next_profile(p);
    vstd::arithmetic::power2::lemma2_to64();
    if p.len() == 0 || p[0] == p.len() as u8 {
        assert(q.drop_last() == p);
        assert(q.last() == 1);
        vstd::arithmetic::power2::lemma_pow2_strictly_increases(0, q.len());
        assert(top_degree_spec(q) == top_degree_spec(p) + (pow2(q.len()) - 1) * (pow2(1) - 1));
        if p.len() > 0 {
            assert(m == 0) by {
                if m > 0 {
                    assert(p[0] == p.len() - 1);
                }
            }
        }
        let m2 = p.len() as int;
        assert forall|i: int| 0 <= i < q.len() implies #[trigger] q[i] == q.len() - i - (if i < m2 {
            1int
        } else {
            0int
        }) by {
            if i < p.len() {
                assert(q[i] == p[i]);
            }
        }
        m2
    } else {
        assert(m >= 1);
        lemma_bump_form(p, m, 0);
        let j = m - 1;
        assert(p[j] == p.len() - 1 - j);
        let v = (p[j] + 1) as u8;
        assert(q == p.update(j, v));
        lemma_top_degree_update(p, j, v);
        vstd::arithmetic::power2::lemma_pow2_strictly_increases(p[j] as nat, v as nat);
        vstd::arithmetic::power2::lemma_pow2_strictly_increases(0, (j + 1) as nat);
        let a = pow2((j + 1) as nat) - 1;
        let b = pow2(v as nat) - pow2(p[j] as nat);
        assert(a * b > 0) by (nonlinear_arith)
            requires
                a > 0,
                b > 0,
        ;
        let m2 = m - 1;
        assert forall|i: int| 0 <= i < q.len() implies #[trigger] q[i] == q.len() - i - (if i < m2 {
            1int
        } else {
            0int
        }) by {
            if i != j {
                assert(q[i] == p[i]);
            }
        }
        m2
    }
}

/// $2^e - 1$, for exponents up to 32.
fn pow2_minus_one_wide(e: u32) -> (r: i128)
    requires
        e <= 32,
    ensures
        r == pow2(e as nat) - 1,
        0 <= r < 0x1_0000_0000,
{
    proof {
        vstd::bits::lemma_u64_pow2_no_overflow(e as nat);
        vstd::bits::lemma_u64_shl_is_mul(1u64, e as u64);
        vstd::arithmetic::power2::lemma_pow2_pos(e as nat);
        vstd::arithmetic::power2::lemma2_to64();
        if e < 32 {
            vstd::arithmetic::power2::lemma_pow2_strictly_increases(e as nat, 32);
        }
    }
    (1u64 << (e as u64)) as i128 - 1
}

/// The top degree of a profile of at most 32 entries, each at most 32, computed without
/// overflow.
fn top_degree_wide(profile: &Vec<u8>) -> (d: i128)
    requires
        profile@.len() <= 32,
        forall|i: int| 0 <= i < profile@.len() ==> #[trigger] profile@[i] <= 32,
    ensures
        d == top_degree_spec(profile@),
        0 <= d <= 32 * 0x1_0000_0000_0000_0000,
{
    let mut sum: i128 = 0;
    let mut idx: usize = 0;
    while idx < profile.len()
        invariant
            idx <= profile@.len() <= 32,
            forall|i: int| 0 <= i < profile@.len() ==> #[trigger] profile@[i] <= 32,
            sum == top_degree_spec(profile@.subrange(0, idx as int)),
            0 <= sum <= idx * 0x1_0000_0000_0000_0000,
        decreases profile@.len() - idx,
    {
        let a = pow2_minus_one_wide((idx + 1) as u32);
        let b = pow2_minus_one_wide(profile[idx] as u32);
        proof {
            let sub = profile@.subrange(0, idx + 1);
            assert(sub.drop_last() == profile@.subrange(0, idx as int));
            assert(sub.last() == profile@[idx as int]);
            assert(0 <= a * b <= 0x1_0000_0000_0000_0000) by (nonlinear_arith)
                requires
                    0 <= a < 0x1_0000_0000,
                    0 <= b < 0x1_0000_0000,
            ;
        }
        sum = sum + a * b;
        idx += 1;
    }
    proof {
        assert(profile@.subrange(0, profile@.len() as int) == profile@);
    }
    sum
}

/// Whether `(s, t)` lies in the vanishing region of the subalgebra (see
/// [`in_vanishing_region`]).
fn is_in_vanishing_region(s: i32, t: i32, a: &MilnorSubalgebra) -> (r: bool)
    requires
        a.profile_view().len() <= 32,
        forall|i: int| 0 <= i < a.profile_view().len() ==> #[trigger] a.profile_view()[i] <= 32,
    ensures
        r == in_vanishing_region(s as int, t as int, a.profile_view()),
{
    let coeff = pow2_minus_one_wide(a.profile.len() as u32);
    let top = top_degree_wide(&a.profile);
    proof {
        let c = coeff as int;
        let f = s as int + 1;
        assert(-0x1_0000_0000_0000_0000 <= c * f <= 0x1_0000_0000_0000_0000) by (nonlinear_arith)
            requires
                0 <= c < 0x1_0000_0000,
                -0x8000_0000 <= f <= 0x8000_0000,
        ;
        lemma_top_degree_nonneg(a.profile@);
    }
    (t as i128) >= coeff * (s as i128 + 1) + top
}

impl MilnorSubalgebra {
    /// The largest subalgebra of the sequence of [`SubalgebraIterator`] that can be used at the
    /// bidegree `(s, t)`: the last of the leading run of subalgebras in whose vanishing region
    /// `(s, t)` lies, or $\mathbb{F}_2$ when the first one already fails.
    pub fn optimal_for(s: i32, t: i32) -> (a: Self)
        requires
            s >= -1,
        ensures
            exists|n: nat|
                {
                    &&& a.profile_view() == #[trigger] sequence_profile(n)
                    &&& forall|m: nat|
                        1 <= m <= n ==> #[trigger] in_vanishing_region(
                            s as int,
                            t as int,
                            sequence_profile(m),
                        )
                    &&& !in_vanishing_region(s as int, t as int, sequence_profile(n + 1))
                },
    {
        let mut it = SubalgebraIterator::new();
        let mut best = MilnorSubalgebra::zero_algebra();
        let ghost mut n: nat = 0;
        let ghost mut form: int = lemma_next_profile(Seq::empty(), 0);
        assert(sequence_profile(1) == next_profile(sequence_profile(0)));
        let mut cand = it.next().unwrap();
        proof {
            lemma_top_degree_lower(cand.profile@, form);
        }
        while is_in_vanishing_region(s, t, &cand)
            invariant
                s >= -1,
                best.profile_view() == sequence_profile(n),
                cand.profile_view() == sequence_profile(n + 1),
                it.current_profile() == sequence_profile(n + 1),
                sequence_form(cand.profile_view(), form),
                cand.profile_view().len() <= 32,
                forall|i: int|
                    0 <= i < cand.profile_view().len() ==> #[trigger] cand.profile_view()[i]
                        <= 32,
                forall|m: nat|
                    1 <= m <= n ==> #[trigger] in_vanishing_region(
                        s as int,
                        t as int,
                        sequence_profile(m),
                    ),
            decreases if top_degree_spec(cand.profile_view()) <= t {
                t - top_degree_spec(cand.profile_view()) + 1
            } else {
                0
            },
        {
            let ghost p = cand.profile_view();
            proof {
                // The candidate passed, so its top degree is at most `t`, which bounds its length.
                lemma_top_degree_lower(p, form);
                let c = pow2(p.len()) - 1;
                let f = s + 1;
                vstd::arithmetic::power2::lemma_pow2_pos(p.len());
                assert(c * f >= 0) by (nonlinear_arith)
                    requires
                        c >= 0,
                        f >= 0,
                ;
                assert(top_degree_spec(p) <= t);
                if p.len() > 31 {
                    vstd::arithmetic::power2::lemma_pow2_strictly_increases(31, p.len());
                    vstd::arithmetic::power2::lemma2_to64();
                }
                form = lemma_next_profile(p, form);
                lemma_top_degree_lower(next_profile(p), form);
                assert(sequence_profile(n + 2) == next_profile(sequence_profile(n + 1)));
            }
            best = cand;
            proof {
                lemma_bump_in_range(it.current_profile(), 0);
            }
            cand = it.next().unwrap();
            proof {
                n = n + 1;
            }
        }
        best
    }
}

} // verus!
