//! The save layout: kinds of saved data, their coordinates in the sharded arrays, the paths of
//! the per-bidegree groups, and the byte form of the commands of a Nassau quasi-inverse.
use vstd::prelude::*;
use vstd::bytes::{spec_u16_from_le_bytes, spec_u16_to_le_bytes, spec_u32_from_le_bytes, spec_u32_to_le_bytes, spec_u64_from_le_bytes, spec_u64_to_le_bytes};
use crate::nassau::entries_le_bytes;
use crate::utils::{push_signed_decimal, signed_decimal};

verus! {

/// Most-negative stem the on-disk layout can store.
pub const N_MIN: i32 = -1024i32;

/// Number of slots in the n dimension.
pub const N_SPAN: u64 = 4096u64;

/// Number of slots in the s dimension. `s` is unsigned: `[0, S_SPAN)`.
pub const S_SPAN: u64 = 1024u64;

/// Number of slots reserved for the intra-bidegree index of indexed kinds.
pub const IDX_SPAN: u64 = 256u64;

/// Shard shape in the n dimension.
pub const SHARD_N: u64 = 8u64;

/// Shard shape in the s dimension.
pub const SHARD_S: u64 = 8u64;

/// Shard shape in the idx dimension.
pub const SHARD_IDX: u64 = 8u64;

/// Command code of a signature switch.
pub const NASSAU_CODE_SIGNATURE: i64 = -2i64;

/// Command code of a differential fix.
pub const NASSAU_CODE_FIX: i64 = -3i64;

/// The stream-tier zstd level when none is configured. Level 3 is zstd's own default and sits at
/// the knee of the ratio/speed curve; the stream tier is on the hot write path.
pub const DEFAULT_ZSTD_LEVEL: i32 = 3i32;

/// The lowest level zstd accepts.
pub const MIN_ZSTD_LEVEL: i32 = 1i32;

/// The highest level zstd accepts.
pub const MAX_ZSTD_LEVEL: i32 = 22i32;

/// The stream-tier zstd level for a configured value: the value clamped to zstd's
/// `[MIN_ZSTD_LEVEL, MAX_ZSTD_LEVEL]`, or [`DEFAULT_ZSTD_LEVEL`] when there is no (valid) value.
pub fn zstd_level_for(configured: Option<i32>) -> (level: i32)
    ensures
        match configured {
            None => level == DEFAULT_ZSTD_LEVEL,
            Some(v) => level == if v < MIN_ZSTD_LEVEL {
                MIN_ZSTD_LEVEL
            } else if v > MAX_ZSTD_LEVEL {
                MAX_ZSTD_LEVEL
            } else {
                v
            },
        },
{
    match configured {
        None => DEFAULT_ZSTD_LEVEL,
        Some(v) => if v < MIN_ZSTD_LEVEL {
            MIN_ZSTD_LEVEL
        } else if v > MAX_ZSTD_LEVEL {
            MAX_ZSTD_LEVEL
        } else {
            v
        },
    }
}

#[derive(Debug, Copy, Clone, Eq, PartialEq, Structural, Hash)]
#[non_exhaustive]
pub enum SaveKind {
    Kernel,
    Differential,
    ResQi,
    AugmentationQi,
    SecondaryComposite,
    SecondaryIntermediate,
    SecondaryHomotopy,
    ChainMap,
    ChainHomotopy,
    NassauDifferential,
    NassauQi,
}

/// The directory name of each kind.
pub open spec fn save_kind_name(kind: SaveKind) -> Seq<char> {
    match kind {
        SaveKind::Kernel => "kernel"@,
        SaveKind::Differential => "differential"@,
        SaveKind::ResQi => "res_qi"@,
        SaveKind::AugmentationQi => "augmentation_qi"@,
        SaveKind::SecondaryComposite => "secondary_composite"@,
        SaveKind::SecondaryIntermediate => "secondary_intermediate"@,
        SaveKind::SecondaryHomotopy => "secondary_homotopy"@,
        SaveKind::ChainMap => "chain_map"@,
        SaveKind::ChainHomotopy => "chain_homotopy"@,
        SaveKind::NassauDifferential => "nassau_differential"@,
        SaveKind::NassauQi => "nassau_qi"@,
    }
}

impl SaveKind {
    pub fn name(self) -> (s: &'static str)
        ensures
            s@ == save_kind_name(self),
    {
        match self {
            Self::Kernel => "kernel",
            Self::Differential => "differential",
            Self::ResQi => "res_qi",
            Self::AugmentationQi => "augmentation_qi",
            Self::SecondaryComposite => "secondary_composite",
            Self::SecondaryIntermediate => "secondary_intermediate",
            Self::SecondaryHomotopy => "secondary_homotopy",
            Self::ChainMap => "chain_map",
            Self::ChainHomotopy => "chain_homotopy",
            Self::NassauDifferential => "nassau_differential",
            Self::NassauQi => "nassau_qi",
        }
    }

    /// Whether this kind uses 3D indexing `(n, s, idx)`.
    ///
    /// The third coordinate is an intra-lift enumeration over basis elements; multi-hom
    /// disambiguation is handled by the store's group prefix, not by an extra coordinate.
    /// `SecondaryHomotopy` is per-bidegree (data for all generators is concatenated), so it
    /// stays 2D.
    pub fn is_indexed(self) -> (b: bool)
        ensures
            b <==> (self == SaveKind::SecondaryComposite || self
                == SaveKind::SecondaryIntermediate),
    {
        match self {
            Self::SecondaryComposite | Self::SecondaryIntermediate => true,
            _ => false,
        }
    }

    /// The kinds a resolution saves.
    pub fn resolution_data() -> (v: Vec<Self>)
        ensures
            v@ == seq![
                SaveKind::Kernel,
                SaveKind::Differential,
                SaveKind::ResQi,
                SaveKind::AugmentationQi,
            ],
    {
        let v = vec![Self::Kernel, Self::Differential, Self::ResQi, Self::AugmentationQi];
        assert(v@ =~= seq![
            SaveKind::Kernel,
            SaveKind::Differential,
            SaveKind::ResQi,
            SaveKind::AugmentationQi,
        ]);
        v
    }

    /// The kinds a Nassau resolution saves.
    pub fn nassau_data() -> (v: Vec<Self>)
        ensures
            v@ == seq![SaveKind::NassauDifferential, SaveKind::NassauQi],
    {
        let v = vec![Self::NassauDifferential, Self::NassauQi];
        assert(v@ =~= seq![SaveKind::NassauDifferential, SaveKind::NassauQi]);
        v
    }

    /// The kinds a secondary lift saves.
    pub fn secondary_data() -> (v: Vec<Self>)
        ensures
            v@ == seq![
                SaveKind::SecondaryComposite,
                SaveKind::SecondaryIntermediate,
                SaveKind::SecondaryHomotopy,
            ],
    {
        let v = vec![Self::SecondaryComposite, Self::SecondaryIntermediate, Self::SecondaryHomotopy];
        assert(v@ =~= seq![
            SaveKind::SecondaryComposite,
            SaveKind::SecondaryIntermediate,
            SaveKind::SecondaryHomotopy,
        ]);
        v
    }
}

/// Anything that names a save location, parameterised by its dimension `N`: a bidegree
/// `(n, s)` is `SaveCoords<2>`, a generator `(n, s, idx)` is `SaveCoords<3>`.
pub trait SaveCoords<const N: usize> {
    fn save_coords(&self) -> [i32; N];
}

/// A bidegree `(n, s)`.
impl SaveCoords<2> for (i32, i32) {
    fn save_coords(&self) -> (c: [i32; 2])
        ensures
            c@ == seq![self.0, self.1],
    {
        [self.0, self.1]
    }
}

/// A generator `(n, s, idx)` of a bidegree.
impl SaveCoords<3> for (i32, i32, usize) {
    fn save_coords(&self) -> (c: [i32; 3])
        ensures
            c@ == seq![self.0, self.1, self.2 as i32],
    {
        [self.0, self.1, self.2 as i32]
    }
}

/// Translate signed `(n, s, [idx])` coordinates into the unsigned zarr indices used for
/// shard arrays: the first coordinate (`n`) is offset by `-N_MIN`; later coordinates are passed
/// through as-is (as their two's-complement bits).
pub fn shard_zarr_coords(coords: &[i32]) -> (out: Vec<u64>)
    requires
        coords@.len() >= 1,
        coords@[0] - N_MIN <= i32::MAX,
    ensures
        out@.len() == coords@.len(),
        out@[0] == (coords@[0] - N_MIN) as u64,
        forall|k: int| 1 <= k < coords@.len() ==> #[trigger] out@[k] == coords@[k] as u64,
{
    let mut out: Vec<u64> = Vec::new();
    out.push((coords[0] - N_MIN) as u64);
    let mut k: usize = 1;
    while k < coords.len()
        invariant
            1 <= k <= coords@.len(),
            out@.len() == k,
            out@[0] == (coords@[0] - N_MIN) as u64,
            forall|j: int| 1 <= j < k ==> #[trigger] out@[j] == coords@[j] as u64,
        decreases coords@.len() - k,
    {
        out.push(coords[k] as u64);
        k += 1;
    }
    out
}

/// Shard-tier chunk coordinates (== shard coordinates, since the chunk shape *is* the shard
/// shape) covering `zarr_coords`. 2D kinds get a `0` in the third slot.
pub fn shard_coords(zarr_coords: &[u64]) -> (out: [u64; 3])
    requires
        zarr_coords@.len() >= 2,
    ensures
        out[0] == zarr_coords@[0] / SHARD_N,
        out[1] == zarr_coords@[1] / SHARD_S,
        out[2] == if zarr_coords@.len() > 2 {
            zarr_coords@[2] / SHARD_IDX
        } else {
            0
        },
{
    let mut out = [0u64; 3];
    out[0] = zarr_coords[0] / SHARD_N;
    out[1] = zarr_coords[1] / SHARD_S;
    if zarr_coords.len() > 2 {
        out[2] = zarr_coords[2] / SHARD_IDX;
    }
    out
}

/// The path of the shard array of `kind` under `group`.
pub fn shard_array_path(group: &str, kind: SaveKind) -> (p: String)
    ensures
        p@ == group@ + "/"@ + save_kind_name(kind),
{
    let mut p = String::from_str(group);
    p.append("/");
    p.append(kind.name());
    p
}

/// The path of the per-bidegree quasi-inverse group of `leaf` under `group`:
/// `{group}/qi/n{n}_s{s}/{leaf}`.
fn qi_group_path(group: &str, n: i32, s: i32, leaf: &str) -> (p: String)
    ensures
        p@ == group@ + "/qi/n"@ + signed_decimal(n as int) + "_s"@ + signed_decimal(s as int) + "/"@
            + leaf@,
{
    let mut p = String::from_str(group);
    p.append("/qi/n");
    push_signed_decimal(&mut p, n);
    p.append("_s");
    push_signed_decimal(&mut p, s);
    p.append("/");
    p.append(leaf);
    p
}

/// Path of the ResQi group of bidegree `(n, s)` under `group`.
pub fn res_qi_group_path(group: &str, n: i32, s: i32) -> (p: String)
    ensures
        p@ == group@ + "/qi/n"@ + signed_decimal(n as int) + "_s"@ + signed_decimal(s as int) + "/"@
            + "res_qi"@,
{
    qi_group_path(group, n, s, "res_qi")
}

/// Path of the NassauQi group of bidegree `(n, s)` under `group`.
pub fn nassau_qi_group_path(group: &str, n: i32, s: i32) -> (p: String)
    ensures
        p@ == group@ + "/qi/n"@ + signed_decimal(n as int) + "_s"@ + signed_decimal(s as int) + "/"@
            + "nassau_qi"@,
{
    qi_group_path(group, n, s, "nassau_qi")
}


/// One command in a NassauQi command stream.
#[derive(Debug, Clone)]
pub enum NassauCommand {
    /// Switch to a new subalgebra signature.
    Signature(Vec<u16>),
    /// "Differential fix" — emitted (at most once) at the end of the zero-signature section
    /// when the bidegree was resolved through stem rather than through `t`.
    Fix,
    /// A pivot column with its lift and image, as raw vector serialisations.
    Pivot { col: u64, lift_bytes: Vec<u8>, image_bytes: Vec<u8> },
}

/// The value of a command.
pub enum CommandView {
    Signature(Seq<u16>),
    Fix,
    Pivot { col: u64, lift: Seq<u8>, image: Seq<u8> },
}

impl View for NassauCommand {
    type V = CommandView;

    open spec fn view(&self) -> CommandView {
        match self {
            NassauCommand::Signature(sig) => CommandView::Signature(sig@),
            NassauCommand::Fix => CommandView::Fix,
            NassauCommand::Pivot { col, lift_bytes, image_bytes } => CommandView::Pivot {
                col: *col,
                lift: lift_bytes@,
                image: image_bytes@,
            },
        }
    }
}

/// Why a command's bytes could not be read.
#[derive(Debug, Clone, Copy, PartialEq, Eq, Structural)]
pub enum NassauParseError {
    /// Fewer than the eight bytes of a command code.
    TooShort(usize),
    /// A signature whose payload has an odd number of bytes.
    OddSignaturePayload(usize),
    /// A pivot without the four bytes of its lift length.
    PivotTooShort(usize),
    /// A pivot shorter (first) than its lift says it needs (second).
    LiftTruncated(usize, u64),
    /// A negative code that names no command.
    UnknownCode(i64),
}

/// The byte form of a command: its code (the column, for a pivot) as a little-endian `i64`,
/// then for a signature its entries as little-endian `u16`s, for a pivot the length of the lift
/// as a little-endian `u32`, the lift and the image.
pub open spec fn command_bytes(c: CommandView) -> Seq<u8> {
    match c {
        CommandView::Signature(sig) => spec_u64_to_le_bytes(NASSAU_CODE_SIGNATURE as u64)
            + entries_le_bytes(sig),
        CommandView::Fix => spec_u64_to_le_bytes(NASSAU_CODE_FIX as u64),
        CommandView::Pivot { col, lift, image } => spec_u64_to_le_bytes(col)
            + spec_u32_to_le_bytes(lift.len() as u32) + lift + image,
    }
}

/// The little-endian `u16`s of a byte sequence of even length.
pub open spec fn le_u16s(payload: Seq<u8>) -> Seq<u16> {
    Seq::new(
        (payload.len() / 2) as nat,
        |i: int| spec_u16_from_le_bytes(payload.subrange(2 * i, 2 * i + 2)),
    )
}

/// What the bytes of a command read as.
pub open spec fn parse_spec(b: Seq<u8>) -> Result<CommandView, NassauParseError> {
    if b.len() < 8 {
        Err(NassauParseError::TooShort(b.len() as usize))
    } else {
        let code = spec_u64_from_le_bytes(b.subrange(0, 8)) as i64;
        if code == NASSAU_CODE_SIGNATURE {
            let payload = b.subrange(8, b.len() as int);
            if payload.len() % 2 != 0 {
                Err(NassauParseError::OddSignaturePayload(payload.len() as usize))
            } else {
                Ok(CommandView::Signature(le_u16s(payload)))
            }
        } else if code == NASSAU_CODE_FIX {
            Ok(CommandView::Fix)
        } else if code >= 0 {
            if b.len() < 12 {
                Err(NassauParseError::PivotTooShort(b.len() as usize))
            } else {
                let lift_len = spec_u32_from_le_bytes(b.subrange(8, 12)) as int;
                if b.len() < 12 + lift_len {
                    Err(NassauParseError::LiftTruncated(b.len() as usize, (12 + lift_len) as u64))
                } else {
                    Ok(
                        CommandView::Pivot {
                            col: code as u64,
                            lift: b.subrange(12, 12 + lift_len),
                            image: b.subrange(12 + lift_len, b.len() as int),
                        },
                    )
                }
            }
        } else {
            Err(NassauParseError::UnknownCode(code))
        }
    }
}

/// The bytes of `buf` from `a` to `b`.
fn slice_range(buf: &[u8], a: usize, b: usize) -> (r: &[u8])
    requires
        a <= b <= buf@.len(),
    ensures
        r@ == buf@.subrange(a as int, b as int),
{
    &buf[a..b]
}

/// The bytes of a signature switch.
pub fn encode_signature(signature: &[u16]) -> (bytes: Vec<u8>)
    ensures
        bytes@ == command_bytes(CommandView::Signature(signature@)),
{
    let mut bytes = vstd::bytes::u64_to_le_bytes(NASSAU_CODE_SIGNATURE as u64);
    let ghost head = bytes@;
    let mut i: usize = 0;
    while i < signature.len()
        invariant
            i <= signature@.len(),
            bytes@ == head + entries_le_bytes(signature@.subrange(0, i as int)),
        decreases signature@.len() - i,
    {
        let e = vstd::bytes::u16_to_le_bytes(signature[i]);
        bytes.push(e[0]);
        bytes.push(e[1]);
        proof {
            let sub = signature@.subrange(0, i + 1);
            assert(sub.drop_last() == signature@.subrange(0, i as int));
            assert(bytes@ =~= head + entries_le_bytes(sub));
        }
        i += 1;
    }
    proof {
        assert(signature@.subrange(0, signature@.len() as int) == signature@);
    }
    bytes
}

/// The bytes of a differential fix.
pub fn encode_fix() -> (bytes: Vec<u8>)
    ensures
        bytes@ == command_bytes(CommandView::Fix),
{
    vstd::bytes::u64_to_le_bytes(NASSAU_CODE_FIX as u64)
}

/// The bytes of a pivot: the column, the length of the lift, the lift and the image.
pub fn encode_pivot(col: u64, lift_bytes: &[u8], image_bytes: &[u8]) -> (bytes: Vec<u8>)
    ensures
        bytes@ == spec_u64_to_le_bytes(col) + spec_u32_to_le_bytes(lift_bytes@.len() as u32)
            + lift_bytes@ + image_bytes@,
        lift_bytes@.len() <= u32::MAX ==> bytes@ == command_bytes(
            CommandView::Pivot { col, lift: lift_bytes@, image: image_bytes@ },
        ),
{
    let mut bytes = vstd::bytes::u64_to_le_bytes(col);
    let len = vstd::bytes::u32_to_le_bytes(lift_bytes.len() as u32);
    bytes.extend_from_slice(len.as_slice());
    bytes.extend_from_slice(lift_bytes);
    bytes.extend_from_slice(image_bytes);
    bytes
}

impl NassauCommand {
    /// Read a command from its bytes (see [`parse_spec`]).
    pub fn parse(bytes: Vec<u8>) -> (r: Result<NassauCommand, NassauParseError>)
        ensures
            match r {
                Ok(c) => parse_spec(bytes@) == Ok::<CommandView, NassauParseError>(c@),
                Err(e) => parse_spec(bytes@) == Err::<CommandView, NassauParseError>(e),
            },
    {
        let b = bytes.as_slice();
        if b.len() < 8 {
            return Err(NassauParseError::TooShort(b.len()));
        }
        let code = vstd::bytes::u64_from_le_bytes(slice_range(b, 0, 8)) as i64;
        if code == NASSAU_CODE_SIGNATURE {
            let payload_len = b.len() - 8;
            if payload_len % 2 != 0 {
                return Err(NassauParseError::OddSignaturePayload(payload_len));
            }
            let ghost payload = b@.subrange(8, b@.len() as int);
            let mut sig: Vec<u16> = Vec::new();
            let mut i: usize = 0;
            while i < payload_len / 2
                invariant
                    payload_len == b@.len() - 8,
                    b@.len() == b.len(),
                    payload_len % 2 == 0,
                    payload == b@.subrange(8, b@.len() as int),
                    i <= payload_len / 2,
                    sig@ == le_u16s(payload).subrange(0, i as int),
                decreases payload_len / 2 - i,
            {
                let pair = slice_range(b, 8 + 2 * i, 8 + 2 * i + 2);
                proof {
                    assert(pair@ == payload.subrange(2 * i, 2 * i + 2));
                }
                sig.push(vstd::bytes::u16_from_le_bytes(pair));
                proof {
                    assert(sig@ =~= le_u16s(payload).subrange(0, i + 1));
                }
                i += 1;
            }
            proof {
                assert(le_u16s(payload).subrange(0, (payload_len / 2) as int) == le_u16s(payload));
            }
            Ok(NassauCommand::Signature(sig))
        } else if code == NASSAU_CODE_FIX {
            Ok(NassauCommand::Fix)
        } else if code >= 0 {
            if b.len() < 12 {
                return Err(NassauParseError::PivotTooShort(b.len()));
            }
            let lift_len = vstd::bytes::u32_from_le_bytes(slice_range(b, 8, 12)) as u64;
            if (b.len() as u64) < 12 + lift_len {
                return Err(NassauParseError::LiftTruncated(b.len(), 12 + lift_len));
            }
            let end = 12 + lift_len as usize;
            let lift_bytes = vstd::slice::slice_to_vec(slice_range(b, 12, end));
            let image_bytes = vstd::slice::slice_to_vec(slice_range(b, end, b.len()));
            Ok(NassauCommand::Pivot { col: code as u64, lift_bytes, image_bytes })
        } else {
            Err(NassauParseError::UnknownCode(code))
        }
    }
}

/// Reading the bytes of a command gives the command back: a signature of any length, the fix,
/// and a pivot whose column fits an `i64` and whose lift length fits a `u32`.
pub proof fn lemma_command_round_trip(c: CommandView)
    requires
        c matches CommandView::Pivot { col, lift, image } ==> col <= i64::MAX && lift.len()
            <= u32::MAX,
    ensures
        parse_spec(command_bytes(c)) == Ok::<CommandView, NassauParseError>(c),
{
    vstd::bytes::lemma_auto_spec_u64_to_from_le_bytes();
    vstd::bytes::lemma_auto_spec_u32_to_from_le_bytes();
    vstd::bytes::lemma_auto_spec_u16_to_from_le_bytes();
    let b = command_bytes(c);
    match c {
        CommandView::Signature(sig) => {
            let head = spec_u64_to_le_bytes(NASSAU_CODE_SIGNATURE as u64);
            assert(b.subrange(0, 8) == head);
            assert((NASSAU_CODE_SIGNATURE as u64) as i64 == NASSAU_CODE_SIGNATURE) by (bit_vector);
            let payload = b.subrange(8, b.len() as int);
            assert(payload == entries_le_bytes(sig));
            crate::nassau::lemma_entries_le_bytes_len(sig);
            assert forall|i: int| 0 <= i < sig.len() implies #[trigger] le_u16s(payload)[i]
                == sig[i] by {
                crate::nassau::lemma_entries_le_bytes(sig, i);
                assert(payload.subrange(2 * i, 2 * i + 2) == spec_u16_to_le_bytes(sig[i]));
                assert(spec_u16_from_le_bytes(spec_u16_to_le_bytes(sig[i])) == sig[i]);
            }
            assert(le_u16s(payload) =~= sig);
        },
        CommandView::Fix => {
            assert((NASSAU_CODE_FIX as u64) as i64 == NASSAU_CODE_FIX) by (bit_vector);
            assert(b.subrange(0, 8) == b);
        },
        CommandView::Pivot { col, lift, image } => {
            assert(b.subrange(0, 8) == spec_u64_to_le_bytes(col));
            assert(b.subrange(8, 12) == spec_u32_to_le_bytes(lift.len() as u32));
            assert(col <= 0x7fff_ffff_ffff_ffffu64 ==> (col as i64) >= 0 && (col as i64) as u64
                == col && (col as i64) != NASSAU_CODE_SIGNATURE && (col as i64) != NASSAU_CODE_FIX)
                by (bit_vector);
            assert(b.subrange(12, 12 + lift.len() as int) == lift);
            assert(b.subrange(12 + lift.len() as int, b.len() as int) == image);
        },
    }
}

} // verus!
