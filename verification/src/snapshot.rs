//! Snapshots of assets and bodies: a checked header before the bytes of the value.

use crate::asset::{AssetModel, FxAsset};
use crate::asset_codec::{asset_write_error, put_asset, write_asset_payload};
use crate::asset_read::{get_asset, lemma_asset_back, lemma_read_sound, read_asset_payload};
use crate::codec::{
    at, lemma_at_split, lemma_u16_back, lemma_u32_back, lemma_u64_back, u16_at, u32_at, u64_at,
    FxCoreSnapshotError, Reader, Writer,
};
use crate::family::{tables_ordered, FamilyModel, FxFamily};
use crate::family_payload::{
    family_write_error, get_family, lemma_family_back, lemma_read_family_wf, put_family,
    read_family_payload, write_family_payload,
};
use crate::hash::{checksum, fnv_bytes, le16, le32, le64, FNV_OFFSET};
use crate::soundness::{sound, stored};
use crate::validation::asset_error;
use vstd::prelude::*;

verus! {

/// The letters `RFXSCA` and two zero bytes, the first letter the least significant byte.
pub const MAGIC_ASSET: u64 = 0x0000_4143_5358_4652;

/// The letters `RFXSCF` and two zero bytes, the first letter the least significant byte.
pub const MAGIC_FAMILY: u64 = 0x0000_4643_5358_4652;

pub const VERSION: u16 = 3;

pub const DIMENSION_2D: u8 = 2;

/// The width of a number in bytes.
pub const SCALAR_F32: u8 = 4;

pub const HEADER_LEN: usize = 34;

#[derive(Clone, Copy, Debug, PartialEq, Eq, Structural)]
pub enum SnapshotMode {
    Normal,
    Deterministic,
}

pub open spec fn mode_byte(m: SnapshotMode) -> u8 {
    match m {
        SnapshotMode::Normal => 0,
        SnapshotMode::Deterministic => 1,
    }
}

pub open spec fn mode_of(v: u8) -> Result<SnapshotMode, FxCoreSnapshotError> {
    if v == 0 {
        Ok(SnapshotMode::Normal)
    } else if v == 1 {
        Ok(SnapshotMode::Deterministic)
    } else {
        Err(FxCoreSnapshotError::UnsupportedMode(v))
    }
}

impl SnapshotMode {
    pub fn from_u8(value: u8) -> (r: Result<Self, FxCoreSnapshotError>)
        ensures
            r == mode_of(value),
    {
        match value {
            0 => Ok(SnapshotMode::Normal),
            1 => Ok(SnapshotMode::Deterministic),
            other => Err(FxCoreSnapshotError::UnsupportedMode(other)),
        }
    }

    pub fn to_u8(self) -> (r: u8)
        ensures
            r == mode_byte(self),
    {
        match self {
            SnapshotMode::Normal => 0,
            SnapshotMode::Deterministic => 1,
        }
    }
}

/// The header of a payload.
pub open spec fn header(magic: u64, mode: SnapshotMode, flags: u32, payload: Seq<u8>) -> Seq<u8> {
    (le64(magic) + le16(VERSION) + seq![DIMENSION_2D, SCALAR_F32, mode_byte(mode), 0u8]) + (le32(
        flags,
    ) + le64(payload.len() as u64) + le64(fnv_bytes(FNV_OFFSET, payload)))
}

/// A payload behind its header.
pub open spec fn wrapped(magic: u64, mode: SnapshotMode, flags: u32, payload: Seq<u8>) -> Seq<u8> {
    header(magic, mode, flags, payload) + payload
}

/// What is behind the header, if the header is right.
pub open spec fn unwrapped(b: Seq<u8>, magic: u64) -> Result<
    (SnapshotMode, Seq<u8>),
    FxCoreSnapshotError,
> {
    if b.len() < HEADER_LEN {
        Err(FxCoreSnapshotError::UnexpectedEof("header"))
    } else if u64_at(b, 0) != magic {
        Err(FxCoreSnapshotError::InvalidMagic)
    } else if u16_at(b, 8) != VERSION {
        Err(FxCoreSnapshotError::UnsupportedVersion(u16_at(b, 8)))
    } else if b[10] != DIMENSION_2D {
        Err(FxCoreSnapshotError::UnsupportedDimension(b[10]))
    } else if b[11] != SCALAR_F32 {
        Err(FxCoreSnapshotError::UnsupportedScalar(b[11]))
    } else if b[12] > 1 {
        Err(FxCoreSnapshotError::UnsupportedMode(b[12]))
    } else if b[13] != 0 {
        Err(FxCoreSnapshotError::UnsupportedFlags(b[13] as u32))
    } else if u32_at(b, 14) != 0 {
        Err(FxCoreSnapshotError::UnsupportedFlags(u32_at(b, 14)))
    } else if b.len() != HEADER_LEN + u64_at(b, 18) {
        Err(FxCoreSnapshotError::PayloadLengthMismatch)
    } else if fnv_bytes(FNV_OFFSET, b.skip(HEADER_LEN as int)) != u64_at(b, 26) {
        Err(FxCoreSnapshotError::PayloadChecksumMismatch)
    } else {
        Ok((mode_of(b[12])->Ok_0, b.skip(HEADER_LEN as int)))
    }
}

/// Puts a header before a payload.
pub fn wrap_payload(magic: u64, mode: SnapshotMode, flags: u32, payload: Vec<u8>) -> (r: Vec<u8>)
    ensures
        r@ == wrapped(magic, mode, flags, payload@),
{
    let ghost p = payload@;
    let mut writer = Writer::new();
    writer.u64(magic);
    writer.u16(VERSION);
    writer.u8(DIMENSION_2D);
    writer.u8(SCALAR_F32);
    writer.u8(mode.to_u8());
    writer.u8(0);
    writer.u32(flags);
    writer.u64(payload.len() as u64);
    writer.u64(checksum(payload.as_slice()));
    let mut out = writer.into_inner();
    assert(out@ =~= header(magic, mode, flags, p));
    let mut rest = payload;
    out.append(&mut rest);
    out
}

/// Takes the header off a snapshot and checks it.
pub fn unwrap_payload<'a>(bytes: &'a [u8], magic: u64) -> (r: Result<
    (SnapshotMode, &'a [u8]),
    FxCoreSnapshotError,
>)
    ensures
        match r {
            Ok(v) => unwrapped(bytes@, magic) == Ok::<
                (SnapshotMode, Seq<u8>),
                FxCoreSnapshotError,
            >((v.0, v.1@)),
            Err(e) => unwrapped(bytes@, magic) == Err::<
                (SnapshotMode, Seq<u8>),
                FxCoreSnapshotError,
            >(e),
        },
{
    if bytes.len() < HEADER_LEN {
        return Err(FxCoreSnapshotError::UnexpectedEof("header"));
    }
    let mut reader = Reader::new(bytes);
    let found = reader.u64("header")?;
    if found != magic {
        return Err(FxCoreSnapshotError::InvalidMagic);
    }
    let version = reader.u16("header")?;
    if version != VERSION {
        return Err(FxCoreSnapshotError::UnsupportedVersion(version));
    }
    if bytes[10] != DIMENSION_2D {
        return Err(FxCoreSnapshotError::UnsupportedDimension(bytes[10]));
    }
    if bytes[11] != SCALAR_F32 {
        return Err(FxCoreSnapshotError::UnsupportedScalar(bytes[11]));
    }
    let mode = SnapshotMode::from_u8(bytes[12])?;
    if bytes[13] != 0 {
        return Err(FxCoreSnapshotError::UnsupportedFlags(bytes[13] as u32));
    }
    reader.pos = 14;
    let flags = reader.u32("header")?;
    if flags != 0 {
        return Err(FxCoreSnapshotError::UnsupportedFlags(flags));
    }
    let payload_len = reader.u64("header")?;
    if (bytes.len() - HEADER_LEN) as u64 != payload_len {
        return Err(FxCoreSnapshotError::PayloadLengthMismatch);
    }
    let expected = reader.u64("header")?;
    let payload = vstd::slice::slice_subrange(bytes, HEADER_LEN, bytes.len());
    assert(payload@ =~= bytes@.skip(HEADER_LEN as int));
    if checksum(payload) != expected {
        return Err(FxCoreSnapshotError::PayloadChecksumMismatch);
    }
    Ok((mode, payload))
}

/// What was put behind a header without flags is found there.
pub proof fn lemma_unwrap_wrapped(magic: u64, mode: SnapshotMode, payload: Seq<u8>)
    requires
        payload.len() <= u64::MAX,
    ensures
        unwrapped(wrapped(magic, mode, 0, payload), magic) == Ok::<
            (SnapshotMode, Seq<u8>),
            FxCoreSnapshotError,
        >((mode, payload)),
{
    let b = wrapped(magic, mode, 0, payload);
    let tags = seq![DIMENSION_2D, SCALAR_F32, mode_byte(mode), 0u8];
    let sum = fnv_bytes(FNV_OFFSET, payload);
    let n = payload.len() as u64;
    let first = le64(magic) + le16(VERSION) + tags;
    let second = le32(0) + le64(n) + le64(sum);
    assert(first.len() == 14);
    assert(second.len() == 20);
    assert(header(magic, mode, 0, payload) == first + second);
    assert(at(b, 0, header(magic, mode, 0, payload))) by {
        reveal(at);
    }
    lemma_at_split(b, 0, first, second);
    lemma_at_split(b, 0, le64(magic) + le16(VERSION), tags);
    lemma_at_split(b, 0, le64(magic), le16(VERSION));
    lemma_at_split(b, 14, le32(0) + le64(n), le64(sum));
    lemma_at_split(b, 14, le32(0), le64(n));
    lemma_u64_back(b, 0, magic, "header");
    lemma_u16_back(b, 8, VERSION, "header");
    assert(b[10] == tags[0] && b[11] == tags[1] && b[12] == tags[2] && b[13] == tags[3]) by {
        reveal(at);
        assert(b[10int + 0] == tags[0]);
        assert(b[10int + 1] == tags[1]);
        assert(b[10int + 2] == tags[2]);
        assert(b[10int + 3] == tags[3]);
    }
    lemma_u32_back(b, 14, 0, "header");
    lemma_u64_back(b, 18, n, "header");
    lemma_u64_back(b, 26, sum, "header");
    assert(b.skip(HEADER_LEN as int) =~= payload);
}

/// The snapshot of an asset.
pub open spec fn encoded_asset(m: AssetModel, mode: SnapshotMode) -> Seq<u8> {
    wrapped(MAGIC_ASSET, mode, 0, put_asset(m))
}

/// The asset of a snapshot.
pub open spec fn decoded_asset(b: Seq<u8>) -> Result<AssetModel, FxCoreSnapshotError> {
    match unwrapped(b, MAGIC_ASSET) {
        Ok((_, payload)) => match get_asset(payload, 0) {
            Ok((m, p)) => if p == payload.len() {
                Ok(m)
            } else {
                Err(FxCoreSnapshotError::TrailingBytes)
            },
            Err(e) => Err(e),
        },
        Err(e) => Err(e),
    }
}

/// The snapshot of a body.
pub open spec fn encoded_family(f: FamilyModel, mode: SnapshotMode) -> Seq<u8> {
    wrapped(MAGIC_FAMILY, mode, 0, put_family(f))
}

/// The body of a snapshot.
pub open spec fn decoded_family(b: Seq<u8>) -> Result<FamilyModel, FxCoreSnapshotError> {
    match unwrapped(b, MAGIC_FAMILY) {
        Ok((_, payload)) => match get_family(payload, 0) {
            Ok((f, p)) => if p == payload.len() {
                Ok(f)
            } else {
                Err(FxCoreSnapshotError::TrailingBytes)
            },
            Err(e) => Err(e),
        },
        Err(e) => Err(e),
    }
}

impl FxAsset {
    pub fn to_snapshot_bytes(&self, mode: SnapshotMode) -> (r: Result<Vec<u8>, FxCoreSnapshotError>)
        ensures
            match r {
                Ok(v) => asset_write_error(self@) is None && v@ == encoded_asset(self@, mode),
                Err(e) => asset_write_error(self@) == Some(e),
            },
    {
        let mut payload = Writer::new();
        write_asset_payload(&mut payload, self)?;
        assert(payload.bytes@ =~= put_asset(self@));
        Ok(wrap_payload(MAGIC_ASSET, mode, 0, payload.into_inner()))
    }

    pub fn from_snapshot_bytes(bytes: &[u8]) -> (r: Result<Self, FxCoreSnapshotError>)
        ensures
            match r {
                Ok(a) => decoded_asset(bytes@) == Ok::<AssetModel, FxCoreSnapshotError>(a@)
                    && sound(a@) && asset_error(a@) is None,
                Err(e) => decoded_asset(bytes@) == Err::<AssetModel, FxCoreSnapshotError>(e),
            },
    {
        let (_mode, payload) = unwrap_payload(bytes, MAGIC_ASSET)?;
        let mut reader = Reader::new(payload);
        proof {
            lemma_read_sound(payload@, 0);
        }
        let asset = read_asset_payload(&mut reader)?;
        reader.finish()?;
        Ok(asset)
    }
}

impl FxFamily {
    pub fn to_snapshot_bytes(&self, mode: SnapshotMode) -> (r: Result<Vec<u8>, FxCoreSnapshotError>)
        requires
            stored(self@.asset),
            tables_ordered(self@),
        ensures
            match r {
                Ok(v) => family_write_error(self@) is None && v@ == encoded_family(self@, mode),
                Err(e) => family_write_error(self@) == Some(e),
            },
    {
        let mut payload = Writer::new();
        write_family_payload(&mut payload, self)?;
        assert(payload.bytes@ =~= put_family(self@));
        Ok(wrap_payload(MAGIC_FAMILY, mode, 0, payload.into_inner()))
    }

    pub fn from_snapshot_bytes(bytes: &[u8]) -> (r: Result<Self, FxCoreSnapshotError>)
        ensures
            match r {
                Ok(f) => decoded_family(bytes@) == Ok::<FamilyModel, FxCoreSnapshotError>(f@)
                    && f@.wf(),
                Err(e) => decoded_family(bytes@) == Err::<FamilyModel, FxCoreSnapshotError>(e),
            },
    {
        let (_mode, payload) = unwrap_payload(bytes, MAGIC_FAMILY)?;
        let mut reader = Reader::new(payload);
        let family = read_family_payload(&mut reader)?;
        proof {
            lemma_read_family_wf(payload@, 0);
        }
        reader.finish()?;
        Ok(family)
    }
}

pub fn encode_family_snapshot(family: &FxFamily, mode: SnapshotMode) -> (r: Result<
    Vec<u8>,
    FxCoreSnapshotError,
>)
    requires
        stored(family@.asset),
        tables_ordered(family@),
    ensures
        match r {
            Ok(v) => family_write_error(family@) is None && v@ == encoded_family(family@, mode),
            Err(e) => family_write_error(family@) == Some(e),
        },
{
    family.to_snapshot_bytes(mode)
}

pub fn restore_family_snapshot(bytes: &[u8]) -> (r: Result<FxFamily, FxCoreSnapshotError>)
    ensures
        match r {
            Ok(f) => decoded_family(bytes@) == Ok::<FamilyModel, FxCoreSnapshotError>(f@)
                && f@.wf(),
            Err(e) => decoded_family(bytes@) == Err::<FamilyModel, FxCoreSnapshotError>(e),
        },
{
    FxFamily::from_snapshot_bytes(bytes)
}

/// The snapshot of an asset without errors gives the asset back, in either mode.
pub proof fn lemma_asset_round_trip(m: AssetModel, mode: SnapshotMode)
    requires
        stored(m),
        asset_error(m) is None,
        asset_write_error(m) is None,
        put_asset(m).len() <= u64::MAX,
    ensures
        decoded_asset(encoded_asset(m, mode)) == Ok::<AssetModel, FxCoreSnapshotError>(m),
{
    let payload = put_asset(m);
    lemma_unwrap_wrapped(MAGIC_ASSET, mode, payload);
    assert(at(payload, 0, payload)) by {
        reveal(at);
    }
    lemma_asset_back(payload, 0, m);
}

/// The snapshot of a body that can be written gives the body back, in either mode.
pub proof fn lemma_family_round_trip(f: FamilyModel, mode: SnapshotMode)
    requires
        f.wf(),
        family_write_error(f) is None,
        put_family(f).len() <= u64::MAX,
    ensures
        decoded_family(encoded_family(f, mode)) == Ok::<FamilyModel, FxCoreSnapshotError>(f),
{
    let payload = put_family(f);
    lemma_unwrap_wrapped(MAGIC_FAMILY, mode, payload);
    assert(at(payload, 0, payload)) by {
        reveal(at);
    }
    lemma_family_back(payload, 0, f);
}

} // verus!
