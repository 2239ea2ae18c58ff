//! Reading and writing numbers as bytes, the least significant byte first.

use crate::errors::ValidationError;
use crate::geometry::{vec_finite, GridCoord, LatticePoint, Vec2};
use crate::hash::{le16, le32, le64};
use crate::ids::ConnectionId;
use crate::scalar::Scalar;
use vstd::prelude::*;

verus! {

/// Why a snapshot cannot be written or read.
#[derive(Clone, Copy, Debug, PartialEq, Eq)]
#[allow(inconsistent_fields)]
pub enum FxCoreSnapshotError {
    InvalidMagic,
    UnsupportedVersion(u16),
    UnsupportedDimension(u8),
    UnsupportedScalar(u8),
    UnsupportedMode(u8),
    UnsupportedFlags(u32),
    PayloadLengthMismatch,
    PayloadChecksumMismatch,
    /// The snapshot ended while this was read.
    UnexpectedEof(&'static str),
    TrailingBytes,
    /// This value is not valid or not finite.
    InvalidValue(&'static str),
    /// The state contradicts itself.
    StateMismatch(&'static str),
    UnsupportedCustomHardConstraint(ConnectionId),
    Validation(ValidationError),
}

/// What reading at a position gives: a value and the position behind it, or an error.
pub type Got<T> = Result<(T, int), FxCoreSnapshotError>;

/// Goes on with what was read.
pub open spec fn with_got<A, B>(r: Got<A>, go_on: spec_fn(A, int) -> Got<B>) -> Got<B> {
    match r {
        Ok((a, p)) => go_on(a, p),
        Err(e) => Err(e),
    }
}

pub open spec fn get_u8(b: Seq<u8>, pos: int, field: &'static str) -> Got<u8> {
    if pos + 1 <= b.len() {
        Ok((b[pos], pos + 1))
    } else {
        Err(FxCoreSnapshotError::UnexpectedEof(field))
    }
}

/// The number that two bytes stand for.
pub open spec fn u16_at(b: Seq<u8>, pos: int) -> u16 {
    (b[pos] + b[pos + 1] * 0x100) as u16
}

pub open spec fn get_u16(b: Seq<u8>, pos: int, field: &'static str) -> Got<u16> {
    if pos + 2 <= b.len() {
        Ok((u16_at(b, pos), pos + 2))
    } else {
        Err(FxCoreSnapshotError::UnexpectedEof(field))
    }
}

/// The number that four bytes stand for.
pub open spec fn u32_at(b: Seq<u8>, pos: int) -> u32 {
    (b[pos] + b[pos + 1] * 0x100 + b[pos + 2] * 0x1_0000 + b[pos + 3] * 0x100_0000) as u32
}

pub open spec fn get_u32(b: Seq<u8>, pos: int, field: &'static str) -> Got<u32> {
    if pos + 4 <= b.len() {
        Ok((u32_at(b, pos), pos + 4))
    } else {
        Err(FxCoreSnapshotError::UnexpectedEof(field))
    }
}

/// The number that eight bytes stand for.
pub open spec fn u64_at(b: Seq<u8>, pos: int) -> u64 {
    (u32_at(b, pos) + u32_at(b, pos + 4) * 0x1_0000_0000) as u64
}

pub open spec fn get_u64(b: Seq<u8>, pos: int, field: &'static str) -> Got<u64> {
    if pos + 8 <= b.len() {
        Ok((u64_at(b, pos), pos + 8))
    } else {
        Err(FxCoreSnapshotError::UnexpectedEof(field))
    }
}

pub open spec fn get_scalar(b: Seq<u8>, pos: int, field: &'static str) -> Got<Scalar> {
    match get_u32(b, pos, field) {
        Ok((bits, p)) => if (Scalar { bits }).finite() {
            Ok((Scalar { bits }, p))
        } else {
            Err(FxCoreSnapshotError::InvalidValue(field))
        },
        Err(e) => Err(e),
    }
}

pub open spec fn get_vec(b: Seq<u8>, pos: int, field: &'static str) -> Got<Vec2> {
    match get_scalar(b, pos, field) {
        Ok((x, p)) => match get_scalar(b, p, field) {
            Ok((y, q)) => Ok((Vec2 { x, y }, q)),
            Err(e) => Err(e),
        },
        Err(e) => Err(e),
    }
}

pub open spec fn get_coord(b: Seq<u8>, pos: int) -> Got<GridCoord> {
    match get_u32(b, pos, "grid_coord.x") {
        Ok((x, p)) => match get_u32(b, p, "grid_coord.y") {
            Ok((y, q)) => Ok((GridCoord { x, y }, q)),
            Err(e) => Err(e),
        },
        Err(e) => Err(e),
    }
}

pub open spec fn get_point(b: Seq<u8>, pos: int) -> Got<LatticePoint> {
    match get_u32(b, pos, "lattice_point.x") {
        Ok((x, p)) => match get_u32(b, p, "lattice_point.y") {
            Ok((y, q)) => Ok((LatticePoint { x, y }, q)),
            Err(e) => Err(e),
        },
        Err(e) => Err(e),
    }
}

/// A number behind a byte that says whether it is there.
pub open spec fn get_opt_id(b: Seq<u8>, pos: int, field: &'static str) -> Got<Option<u32>> {
    match get_u8(b, pos, field) {
        Ok((tag, p)) => if tag == 0 {
            Ok((None, p))
        } else if tag == 1 {
            match get_u32(b, p, field) {
                Ok((v, q)) => Ok((Some(v), q)),
                Err(e) => Err(e),
            }
        } else {
            Err(FxCoreSnapshotError::InvalidValue(field))
        },
        Err(e) => Err(e),
    }
}

pub open spec fn get_opt_u16(b: Seq<u8>, pos: int, field: &'static str) -> Got<Option<u16>> {
    match get_u8(b, pos, field) {
        Ok((tag, p)) => if tag == 0 {
            Ok((None, p))
        } else if tag == 1 {
            match get_u16(b, p, field) {
                Ok((v, q)) => Ok((Some(v), q)),
                Err(e) => Err(e),
            }
        } else {
            Err(FxCoreSnapshotError::InvalidValue(field))
        },
        Err(e) => Err(e),
    }
}

/// Reads `n` items one after the other.
pub open spec fn get_many<T>(pos: int, n: nat, item: spec_fn(int) -> Got<T>) -> Got<Seq<T>>
    decreases n,
{
    if n == 0 {
        Ok((Seq::empty(), pos))
    } else {
        match get_many(pos, (n - 1) as nat, item) {
            Ok((s, p)) => match item(p) {
                Ok((x, q)) => Ok((s.push(x), q)),
                Err(e) => Err(e),
            },
            Err(e) => Err(e),
        }
    }
}

/// Reads a number of items and then the items.
pub open spec fn get_list<T>(
    b: Seq<u8>,
    pos: int,
    field: &'static str,
    item: spec_fn(int) -> Got<T>,
) -> Got<Seq<T>> {
    match get_u32(b, pos, field) {
        Ok((n, p)) => get_many(p, n as nat, item),
        Err(e) => Err(e),
    }
}

/// Once an item cannot be read, no more items can.
pub proof fn lemma_many_stops<T>(
    pos: int,
    i: nat,
    n: nat,
    item: spec_fn(int) -> Got<T>,
    e: FxCoreSnapshotError,
)
    requires
        i < n,
        get_many(pos, i, item) is Ok,
        item((get_many(pos, i, item)->Ok_0).1) == Err::<(T, int), FxCoreSnapshotError>(e),
    ensures
        get_many(pos, n, item) == Err::<(Seq<T>, int), FxCoreSnapshotError>(e),
    decreases n,
{
    if i + 1 < n {
        lemma_many_stops(pos, i, (n - 1) as nat, item, e);
    }
}

/// The result of a reading function is what reading gives.
pub open spec fn gives<T>(g: Got<T>, r: Result<T, FxCoreSnapshotError>, pos: int) -> bool {
    match r {
        Ok(v) => g == Ok::<(T, int), FxCoreSnapshotError>((v, pos)),
        Err(e) => g == Err::<(T, int), FxCoreSnapshotError>(e),
    }
}

/// The result of a reading function stands for what reading gives.
pub open spec fn gives_view<T: View>(g: Got<T::V>, r: Result<T, FxCoreSnapshotError>, pos: int) -> bool {
    match r {
        Ok(v) => g == Ok::<(T::V, int), FxCoreSnapshotError>((v@, pos)),
        Err(e) => g == Err::<(T::V, int), FxCoreSnapshotError>(e),
    }
}

/// Reads bytes from a position on.
pub struct Reader<'a> {
    pub bytes: &'a [u8],
    pub pos: usize,
}

impl<'a> Reader<'a> {
    /// The position is within the bytes or at their end.
    pub open spec fn wf(self) -> bool {
        self.pos <= self.bytes@.len()
    }

    /// The reader has moved on in the same bytes.
    pub open spec fn follows(self, was: Self) -> bool {
        self.wf() && self.bytes@ == was.bytes@
    }

    pub fn new(bytes: &'a [u8]) -> (r: Self)
        ensures
            r.wf(),
            r.bytes@ == bytes@,
            r.pos == 0,
    {
        Reader { bytes, pos: 0 }
    }

    pub fn finish(&self) -> (r: Result<(), FxCoreSnapshotError>)
        ensures
            r == if self.pos == self.bytes@.len() {
                Ok::<(), FxCoreSnapshotError>(())
            } else {
                Err(FxCoreSnapshotError::TrailingBytes)
            },
    {
        if self.pos == self.bytes.len() {
            Ok(())
        } else {
            Err(FxCoreSnapshotError::TrailingBytes)
        }
    }

    pub fn u8(&mut self, field: &'static str) -> (r: Result<u8, FxCoreSnapshotError>)
        requires
            old(self).wf(),
        ensures
            final(self).follows(*old(self)),
            gives(get_u8(old(self).bytes@, old(self).pos as int, field), r, final(self).pos as int),
    {
        if self.bytes.len() - self.pos < 1 {
            return Err(FxCoreSnapshotError::UnexpectedEof(field));
        }
        let v = self.bytes[self.pos];
        self.pos = self.pos + 1;
        Ok(v)
    }

    pub fn u16(&mut self, field: &'static str) -> (r: Result<u16, FxCoreSnapshotError>)
        requires
            old(self).wf(),
        ensures
            final(self).follows(*old(self)),
            gives(get_u16(old(self).bytes@, old(self).pos as int, field), r, final(self).pos as int),
    {
        if self.bytes.len() - self.pos < 2 {
            return Err(FxCoreSnapshotError::UnexpectedEof(field));
        }
        let v: u16 = self.bytes[self.pos] as u16 + self.bytes[self.pos + 1] as u16 * 0x100;
        self.pos = self.pos + 2;
        Ok(v)
    }

    pub fn u32(&mut self, field: &'static str) -> (r: Result<u32, FxCoreSnapshotError>)
        requires
            old(self).wf(),
        ensures
            final(self).follows(*old(self)),
            gives(get_u32(old(self).bytes@, old(self).pos as int, field), r, final(self).pos as int),
    {
        if self.bytes.len() - self.pos < 4 {
            return Err(FxCoreSnapshotError::UnexpectedEof(field));
        }
        let p = self.pos;
        let v: u32 = self.bytes[p] as u32 + self.bytes[p + 1] as u32 * 0x100 + self.bytes[p
            + 2] as u32 * 0x1_0000 + self.bytes[p + 3] as u32 * 0x100_0000;
        self.pos = p + 4;
        Ok(v)
    }

    pub fn u64(&mut self, field: &'static str) -> (r: Result<u64, FxCoreSnapshotError>)
        requires
            old(self).wf(),
        ensures
            final(self).follows(*old(self)),
            gives(get_u64(old(self).bytes@, old(self).pos as int, field), r, final(self).pos as int),
    {
        if self.bytes.len() - self.pos < 8 {
            return Err(FxCoreSnapshotError::UnexpectedEof(field));
        }
        let low = self.u32(field)?;
        let high = self.u32(field)?;
        Ok(low as u64 + high as u64 * 0x1_0000_0000)
    }

    pub fn scalar(&mut self, field: &'static str) -> (r: Result<Scalar, FxCoreSnapshotError>)
        requires
            old(self).wf(),
        ensures
            final(self).follows(*old(self)),
            gives(
                get_scalar(old(self).bytes@, old(self).pos as int, field),
                r,
                final(self).pos as int,
            ),
    {
        let bits = self.u32(field)?;
        let value = Scalar { bits };
        if value.is_finite() {
            Ok(value)
        } else {
            Err(FxCoreSnapshotError::InvalidValue(field))
        }
    }

    pub fn vec2(&mut self, field: &'static str) -> (r: Result<Vec2, FxCoreSnapshotError>)
        requires
            old(self).wf(),
        ensures
            final(self).follows(*old(self)),
            gives(get_vec(old(self).bytes@, old(self).pos as int, field), r, final(self).pos as int),
    {
        let x = self.scalar(field)?;
        let y = self.scalar(field)?;
        Ok(Vec2 { x, y })
    }

    pub fn grid_coord(&mut self) -> (r: Result<GridCoord, FxCoreSnapshotError>)
        requires
            old(self).wf(),
        ensures
            final(self).follows(*old(self)),
            gives(get_coord(old(self).bytes@, old(self).pos as int), r, final(self).pos as int),
    {
        let x = self.u32("grid_coord.x")?;
        let y = self.u32("grid_coord.y")?;
        Ok(GridCoord { x, y })
    }

    pub fn lattice_point(&mut self) -> (r: Result<LatticePoint, FxCoreSnapshotError>)
        requires
            old(self).wf(),
        ensures
            final(self).follows(*old(self)),
            gives(get_point(old(self).bytes@, old(self).pos as int), r, final(self).pos as int),
    {
        let x = self.u32("lattice_point.x")?;
        let y = self.u32("lattice_point.y")?;
        Ok(LatticePoint { x, y })
    }

    pub fn opt_id(&mut self, field: &'static str) -> (r: Result<Option<u32>, FxCoreSnapshotError>)
        requires
            old(self).wf(),
        ensures
            final(self).follows(*old(self)),
            gives(
                get_opt_id(old(self).bytes@, old(self).pos as int, field),
                r,
                final(self).pos as int,
            ),
    {
        let tag = self.u8(field)?;
        if tag == 0 {
            Ok(None)
        } else if tag == 1 {
            let v = self.u32(field)?;
            Ok(Some(v))
        } else {
            Err(FxCoreSnapshotError::InvalidValue(field))
        }
    }

    pub fn opt_u16(&mut self, field: &'static str) -> (r: Result<Option<u16>, FxCoreSnapshotError>)
        requires
            old(self).wf(),
        ensures
            final(self).follows(*old(self)),
            gives(
                get_opt_u16(old(self).bytes@, old(self).pos as int, field),
                r,
                final(self).pos as int,
            ),
    {
        let tag = self.u8(field)?;
        if tag == 0 {
            Ok(None)
        } else if tag == 1 {
            let v = self.u16(field)?;
            Ok(Some(v))
        } else {
            Err(FxCoreSnapshotError::InvalidValue(field))
        }
    }
}

/// A value that can be read from a snapshot.
pub trait Readable: Sized {
    type Model;

    spec fn model(&self) -> Self::Model;

    /// What is read at each place of the bytes.
    spec fn item(b: Seq<u8>) -> spec_fn(int) -> Got<Self::Model>;

    fn read_item(reader: &mut Reader) -> (r: Result<Self, FxCoreSnapshotError>)
        requires
            old(reader).wf(),
        ensures
            final(reader).follows(*old(reader)),
            match r {
                Ok(v) => Self::item(old(reader).bytes@)(old(reader).pos as int) == Ok::<
                    (Self::Model, int),
                    FxCoreSnapshotError,
                >((v.model(), final(reader).pos as int)),
                Err(e) => Self::item(old(reader).bytes@)(old(reader).pos as int) == Err::<
                    (Self::Model, int),
                    FxCoreSnapshotError,
                >(e),
            },
    ;
}

pub open spec fn models<T: Readable>(s: Seq<T>) -> Seq<T::Model> {
    s.map_values(|x: T| x.model())
}

/// The list has the models that were got, or the error is the one that was got.
pub open spec fn gives_list<T: Readable>(
    g: Got<Seq<T::Model>>,
    r: Result<Vec<T>, FxCoreSnapshotError>,
    pos: int,
) -> bool {
    match r {
        Ok(v) => g == Ok::<(Seq<T::Model>, int), FxCoreSnapshotError>((models(v@), pos)),
        Err(e) => g == Err::<(Seq<T::Model>, int), FxCoreSnapshotError>(e),
    }
}

/// Reads `n` values.
pub fn read_many<T: Readable>(reader: &mut Reader, n: u32) -> (r: Result<
    Vec<T>,
    FxCoreSnapshotError,
>)
    requires
        old(reader).wf(),
    ensures
        final(reader).follows(*old(reader)),
        gives_list(
            get_many(old(reader).pos as int, n as nat, T::item(old(reader).bytes@)),
            r,
            final(reader).pos as int,
        ),
{
    let ghost b = reader.bytes@;
    let ghost start = reader.pos as int;
    let mut items: Vec<T> = Vec::new();
    let mut i: u32 = 0;
    assert(models(items@) =~= Seq::empty());
    while i < n
        invariant
            i <= n,
            reader.wf(),
            reader.bytes@ == b,
            b == old(reader).bytes@,
            start == old(reader).pos,
            get_many(start, i as nat, T::item(b)) == Ok::<
                (Seq<T::Model>, int),
                FxCoreSnapshotError,
            >((models(items@), reader.pos as int)),
        decreases n - i,
    {
        match T::read_item(reader) {
            Ok(item) => {
                assert(models(items@.push(item)) =~= models(items@).push(item.model()));
                items.push(item);
            },
            Err(e) => {
                proof {
                    lemma_many_stops(start, i as nat, n as nat, T::item(b), e);
                }
                return Err(e);
            },
        }
        i = i + 1;
    }
    Ok(items)
}

/// Reads a count and as many values.
pub fn read_list<T: Readable>(reader: &mut Reader, field: &'static str) -> (r: Result<
    Vec<T>,
    FxCoreSnapshotError,
>)
    requires
        old(reader).wf(),
    ensures
        final(reader).follows(*old(reader)),
        gives_list(
            get_list(
                old(reader).bytes@,
                old(reader).pos as int,
                field,
                T::item(old(reader).bytes@),
            ),
            r,
            final(reader).pos as int,
        ),
{
    let n = reader.u32(field)?;
    read_many(reader, n)
}

pub open spec fn put_vec(v: Vec2) -> Seq<u8> {
    le32(v.x.bits) + le32(v.y.bits)
}

pub open spec fn put_coord(c: GridCoord) -> Seq<u8> {
    le32(c.x) + le32(c.y)
}

pub open spec fn put_point(p: LatticePoint) -> Seq<u8> {
    le32(p.x) + le32(p.y)
}

pub open spec fn put_opt_id(o: Option<u32>) -> Seq<u8> {
    match o {
        Some(v) => seq![1u8] + le32(v),
        None => seq![0u8],
    }
}

pub open spec fn put_opt_u16(o: Option<u16>) -> Seq<u8> {
    match o {
        Some(v) => seq![1u8] + le16(v),
        None => seq![0u8],
    }
}

/// The bytes of the first `n` items.
pub open spec fn put_many<T>(s: Seq<T>, item: spec_fn(T) -> Seq<u8>, n: int) -> Seq<u8>
    decreases n,
{
    if n <= 0 {
        Seq::empty()
    } else {
        put_many(s, item, n - 1) + item(s[n - 1])
    }
}

/// The number of items and then the items.
pub open spec fn put_list<T>(s: Seq<T>, item: spec_fn(T) -> Seq<u8>) -> Seq<u8> {
    le32(s.len() as u32) + put_many(s, item, s.len() as int)
}

/// Bytes to which more are added at the end.
pub struct Writer {
    pub bytes: Vec<u8>,
}

impl Writer {
    pub fn new() -> (r: Self)
        ensures
            r.bytes@ == Seq::<u8>::empty(),
    {
        Writer { bytes: Vec::new() }
    }

    pub fn into_inner(self) -> (r: Vec<u8>)
        ensures
            r@ == self.bytes@,
    {
        self.bytes
    }

    pub fn u8(&mut self, value: u8)
        ensures
            final(self).bytes@ == old(self).bytes@ + seq![value],
    {
        let ghost before = self.bytes@;
        self.bytes.push(value);
        assert(self.bytes@ =~= before + seq![value]);
    }

    pub fn u16(&mut self, value: u16)
        ensures
            final(self).bytes@ == old(self).bytes@ + le16(value),
    {
        let ghost before = self.bytes@;
        self.bytes.push((value % 0x100) as u8);
        self.bytes.push((value / 0x100) as u8);
        assert(self.bytes@ =~= before + le16(value));
    }

    pub fn u32(&mut self, value: u32)
        ensures
            final(self).bytes@ == old(self).bytes@ + le32(value),
    {
        let ghost before = self.bytes@;
        self.bytes.push((value % 0x100) as u8);
        self.bytes.push((value / 0x100 % 0x100) as u8);
        self.bytes.push((value / 0x1_0000 % 0x100) as u8);
        self.bytes.push((value / 0x100_0000) as u8);
        assert(self.bytes@ =~= before + le32(value));
    }

    pub fn u64(&mut self, value: u64)
        ensures
            final(self).bytes@ == old(self).bytes@ + le64(value),
    {
        let ghost before = self.bytes@;
        self.u32((value % 0x1_0000_0000) as u32);
        self.u32((value / 0x1_0000_0000) as u32);
        assert(self.bytes@ =~= before + le64(value));
    }

    pub fn vec2(&mut self, value: Vec2)
        ensures
            final(self).bytes@ == old(self).bytes@ + put_vec(value),
    {
        let ghost before = self.bytes@;
        self.u32(value.x.bits);
        self.u32(value.y.bits);
        assert(self.bytes@ =~= before + put_vec(value));
    }

    pub fn grid_coord(&mut self, value: GridCoord)
        ensures
            final(self).bytes@ == old(self).bytes@ + put_coord(value),
    {
        let ghost before = self.bytes@;
        self.u32(value.x);
        self.u32(value.y);
        assert(self.bytes@ =~= before + put_coord(value));
    }

    pub fn lattice_point(&mut self, value: LatticePoint)
        ensures
            final(self).bytes@ == old(self).bytes@ + put_point(value),
    {
        let ghost before = self.bytes@;
        self.u32(value.x);
        self.u32(value.y);
        assert(self.bytes@ =~= before + put_point(value));
    }

    pub fn opt_id(&mut self, value: Option<u32>)
        ensures
            final(self).bytes@ == old(self).bytes@ + put_opt_id(value),
    {
        let ghost before = self.bytes@;
        match value {
            Some(v) => {
                self.u8(1);
                self.u32(v);
            },
            None => {
                self.u8(0);
            },
        }
        assert(self.bytes@ =~= before + put_opt_id(value));
    }

    pub fn opt_u16(&mut self, value: Option<u16>)
        ensures
            final(self).bytes@ == old(self).bytes@ + put_opt_u16(value),
    {
        let ghost before = self.bytes@;
        match value {
            Some(v) => {
                self.u8(1);
                self.u16(v);
            },
            None => {
                self.u8(0);
            },
        }
        assert(self.bytes@ =~= before + put_opt_u16(value));
    }
}

/// The bytes stand at the position.
#[verifier::opaque]
pub open spec fn at(b: Seq<u8>, pos: int, s: Seq<u8>) -> bool {
    &&& 0 <= pos
    &&& pos + s.len() <= b.len()
    &&& forall|i: int| 0 <= i < s.len() ==> b[pos + i] == #[trigger] s[i]
}

pub proof fn lemma_at_split(b: Seq<u8>, pos: int, x: Seq<u8>, y: Seq<u8>)
    requires
        at(b, pos, x + y),
    ensures
        at(b, pos, x),
        at(b, pos + x.len(), y),
        (x + y).len() == x.len() + y.len(),
{
    reveal(at);
    let s = x + y;
    assert forall|i: int| 0 <= i < x.len() implies b[pos + i] == #[trigger] x[i] by {
        assert(s[i] == x[i]);
    }
    assert forall|i: int| 0 <= i < y.len() implies b[pos + x.len() + i] == #[trigger] y[i] by {
        assert(s[x.len() + i] == y[i]);
    }
}

pub proof fn lemma_u8_back(b: Seq<u8>, pos: int, v: u8, field: &'static str)
    requires
        at(b, pos, seq![v]),
    ensures
        get_u8(b, pos, field) == Ok::<(u8, int), FxCoreSnapshotError>((v, pos + 1)),
{
    reveal(at);
    assert(seq![v][0] == v);
    assert(b[pos + 0] == v);
}

pub proof fn lemma_u16_back(b: Seq<u8>, pos: int, v: u16, field: &'static str)
    requires
        at(b, pos, le16(v)),
    ensures
        get_u16(b, pos, field) == Ok::<(u16, int), FxCoreSnapshotError>((v, pos + 2)),
{
    reveal(at);
    let s = le16(v);
    assert(b[pos + 0] == s[0] && b[pos + 1] == s[1]);
}

pub proof fn lemma_u32_at(b: Seq<u8>, pos: int, v: u32)
    requires
        at(b, pos, le32(v)),
    ensures
        u32_at(b, pos) == v,
{
    reveal(at);
    let s = le32(v);
    assert(b[pos + 0] == s[0] && b[pos + 1] == s[1] && b[pos + 2] == s[2] && b[pos + 3] == s[3]);
}

pub proof fn lemma_u32_back(b: Seq<u8>, pos: int, v: u32, field: &'static str)
    requires
        at(b, pos, le32(v)),
    ensures
        get_u32(b, pos, field) == Ok::<(u32, int), FxCoreSnapshotError>((v, pos + 4)),
{
    reveal(at);
    lemma_u32_at(b, pos, v);
}

pub proof fn lemma_u64_back(b: Seq<u8>, pos: int, v: u64, field: &'static str)
    requires
        at(b, pos, le64(v)),
    ensures
        get_u64(b, pos, field) == Ok::<(u64, int), FxCoreSnapshotError>((v, pos + 8)),
{
    reveal(at);
    let low = (v % 0x1_0000_0000) as u32;
    let high = (v / 0x1_0000_0000) as u32;
    lemma_at_split(b, pos, le32(low), le32(high));
    lemma_u32_at(b, pos, low);
    lemma_u32_at(b, pos + 4, high);
}

pub proof fn lemma_scalar_back(b: Seq<u8>, pos: int, v: Scalar, field: &'static str)
    requires
        at(b, pos, le32(v.bits)),
        v.finite(),
    ensures
        get_scalar(b, pos, field) == Ok::<(Scalar, int), FxCoreSnapshotError>((v, pos + 4)),
{
    lemma_u32_back(b, pos, v.bits, field);
}

pub proof fn lemma_vec_back(b: Seq<u8>, pos: int, v: Vec2, field: &'static str)
    requires
        at(b, pos, put_vec(v)),
        vec_finite(v),
    ensures
        get_vec(b, pos, field) == Ok::<(Vec2, int), FxCoreSnapshotError>((v, pos + 8)),
{
    lemma_at_split(b, pos, le32(v.x.bits), le32(v.y.bits));
    lemma_scalar_back(b, pos, v.x, field);
    lemma_scalar_back(b, pos + 4, v.y, field);
}

pub proof fn lemma_coord_back(b: Seq<u8>, pos: int, c: GridCoord)
    requires
        at(b, pos, put_coord(c)),
    ensures
        get_coord(b, pos) == Ok::<(GridCoord, int), FxCoreSnapshotError>((c, pos + 8)),
{
    lemma_at_split(b, pos, le32(c.x), le32(c.y));
    lemma_u32_back(b, pos, c.x, "grid_coord.x");
    lemma_u32_back(b, pos + 4, c.y, "grid_coord.y");
}

pub proof fn lemma_point_back(b: Seq<u8>, pos: int, c: LatticePoint)
    requires
        at(b, pos, put_point(c)),
    ensures
        get_point(b, pos) == Ok::<(LatticePoint, int), FxCoreSnapshotError>((c, pos + 8)),
{
    lemma_at_split(b, pos, le32(c.x), le32(c.y));
    lemma_u32_back(b, pos, c.x, "lattice_point.x");
    lemma_u32_back(b, pos + 4, c.y, "lattice_point.y");
}

pub proof fn lemma_opt_id_back(b: Seq<u8>, pos: int, o: Option<u32>, field: &'static str)
    requires
        at(b, pos, put_opt_id(o)),
    ensures
        get_opt_id(b, pos, field) == Ok::<(Option<u32>, int), FxCoreSnapshotError>(
            (o, pos + put_opt_id(o).len()),
        ),
{
    match o {
        Some(v) => {
            lemma_at_split(b, pos, seq![1u8], le32(v));
            lemma_u8_back(b, pos, 1, field);
            lemma_u32_back(b, pos + 1, v, field);
        },
        None => {
            lemma_u8_back(b, pos, 0, field);
        },
    }
}

pub proof fn lemma_opt_u16_back(b: Seq<u8>, pos: int, o: Option<u16>, field: &'static str)
    requires
        at(b, pos, put_opt_u16(o)),
    ensures
        get_opt_u16(b, pos, field) == Ok::<(Option<u16>, int), FxCoreSnapshotError>(
            (o, pos + put_opt_u16(o).len()),
        ),
{
    match o {
        Some(v) => {
            lemma_at_split(b, pos, seq![1u8], le16(v));
            lemma_u8_back(b, pos, 1, field);
            lemma_u16_back(b, pos + 1, v, field);
        },
        None => {
            lemma_u8_back(b, pos, 0, field);
        },
    }
}

/// Reading undoes writing for an item wherever it stands.
pub open spec fn reads_back<T>(
    b: Seq<u8>,
    x: T,
    write: spec_fn(T) -> Seq<u8>,
    read: spec_fn(int) -> Got<T>,
) -> bool {
    forall|p: int| #[trigger]
        at(b, p, write(x)) ==> read(p) == Ok::<(T, int), FxCoreSnapshotError>(
            (x, p + write(x).len()),
        )
}

pub proof fn lemma_many_back<T>(
    b: Seq<u8>,
    pos: int,
    s: Seq<T>,
    write: spec_fn(T) -> Seq<u8>,
    read: spec_fn(int) -> Got<T>,
    n: int,
)
    requires
        0 <= n <= s.len(),
        at(b, pos, put_many(s, write, n)),
        forall|i: int| 0 <= i < n ==> reads_back(b, #[trigger] s[i], write, read),
    ensures
        get_many(pos, n as nat, read) == Ok::<(Seq<T>, int), FxCoreSnapshotError>(
            (s.take(n), pos + put_many(s, write, n).len()),
        ),
    decreases n,
{
    if n > 0 {
        lemma_at_split(b, pos, put_many(s, write, n - 1), write(s[n - 1]));
        lemma_many_back(b, pos, s, write, read, n - 1);
        assert(reads_back(b, s[n - 1], write, read));
        assert(s.take(n - 1).push(s[n - 1]) =~= s.take(n));
    } else {
        assert(s.take(0) =~= Seq::<T>::empty());
    }
}

/// A list that was written is read back.
pub proof fn lemma_list_back<T>(
    b: Seq<u8>,
    pos: int,
    s: Seq<T>,
    write: spec_fn(T) -> Seq<u8>,
    read: spec_fn(int) -> Got<T>,
    field: &'static str,
)
    requires
        s.len() <= u32::MAX,
        at(b, pos, put_list(s, write)),
        forall|i: int| 0 <= i < s.len() ==> reads_back(b, #[trigger] s[i], write, read),
    ensures
        get_list(b, pos, field, read) == Ok::<(Seq<T>, int), FxCoreSnapshotError>(
            (s, pos + put_list(s, write).len()),
        ),
{
    lemma_at_split(b, pos, le32(s.len() as u32), put_many(s, write, s.len() as int));
    lemma_u32_back(b, pos, s.len() as u32, field);
    lemma_many_back(b, pos + 4, s, write, read, s.len() as int);
    assert(s.take(s.len() as int) =~= s);
}

} // verus!
