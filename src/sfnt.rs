//! The OpenType/SFNT container: the table directory, its table records, and
//! the `name` and `DSIG` tables, decoded from a `ByteCursor`.

use crate::char_sets::{
    be_u16, decode_prefix, natives, CharSetChar, CharSetStr, MacOsRoman, Utf16, Utf16BMPOnly, Utf8,
};
use crate::cursor::ByteCursor;
use vstd::prelude::*;
use vstd::string::StrSliceExecFns;

verus! {

/// Why a value could not be decoded.
#[derive(Debug, Clone, PartialEq, Eq)]
pub enum FromFileErr<InvalidData, OtherType> {
    /// The source ended inside the value.
    EOF,
    /// The bytes are there but break a rule of the format.
    InvalidData(InvalidData),
    /// Anything else, with what the caller needs to know of it.
    Other(OtherType),
}

/// The bytes from `pos` to `pos + n` are all in `data`.
pub open spec fn fits(data: Seq<u8>, pos: int, n: int) -> bool {
    0 <= pos && pos + n <= data.len()
}

/// The big-endian 16-bit integer at `pos`.
pub open spec fn u16_at(data: Seq<u8>, pos: int) -> u16 {
    be_u16(data[pos], data[pos + 1])
}

/// The big-endian 32-bit integer at `pos`.
pub open spec fn u32_at(data: Seq<u8>, pos: int) -> u32 {
    (u16_at(data, pos) as int * 0x10000 + u16_at(data, pos + 2) as int) as u32
}

/// A value that is decoded from the read position of a source, taking
/// exactly the bytes of its encoding.
pub trait FromFile<InvalidData, OtherType>: Sized {
    /// Where the encoding that starts at `pos` of `data` ends, or why it
    /// cannot be decoded.
    spec fn extent(data: Seq<u8>, pos: int) -> Result<int, FromFileErr<InvalidData, OtherType>>;

    /// `self` is the value encoded at `pos` of `data`.
    spec fn decoded_from(&self, data: Seq<u8>, pos: int) -> bool;

    /// Decodes the value at the read position and moves past it.
    fn from_file(f: &mut ByteCursor) -> (r: Result<Self, FromFileErr<InvalidData, OtherType>>)
        ensures
            final(f).bytes() == old(f).bytes(),
            match Self::extent(old(f).bytes(), old(f).pos() as int) {
                Ok(end) => r is Ok && r->Ok_0.decoded_from(old(f).bytes(), old(f).pos() as int)
                    && final(f).pos() == end,
                Err(e) => r == Err::<Self, FromFileErr<InvalidData, OtherType>>(e),
            },
    ;
}

impl FromFile<(), ()> for u8 {
    open spec fn extent(data: Seq<u8>, pos: int) -> Result<int, FromFileErr<(), ()>> {
        if fits(data, pos, 1) {
            Ok(pos + 1)
        } else {
            Err(FromFileErr::EOF)
        }
    }

    open spec fn decoded_from(&self, data: Seq<u8>, pos: int) -> bool {
        *self == data[pos]
    }

    fn from_file(f: &mut ByteCursor) -> (r: Result<Self, FromFileErr<(), ()>>) {
        match f.read_u8() {
            Some(b) => Ok(b),
            None => Err(FromFileErr::EOF),
        }
    }
}

impl FromFile<(), ()> for u16 {
    open spec fn extent(data: Seq<u8>, pos: int) -> Result<int, FromFileErr<(), ()>> {
        if fits(data, pos, 2) {
            Ok(pos + 2)
        } else {
            Err(FromFileErr::EOF)
        }
    }

    open spec fn decoded_from(&self, data: Seq<u8>, pos: int) -> bool {
        *self == u16_at(data, pos)
    }

    fn from_file(f: &mut ByteCursor) -> (r: Result<Self, FromFileErr<(), ()>>) {
        let hi = match u8::from_file(f) {
            Ok(b) => b,
            Err(e) => return Err(e),
        };
        let lo = match u8::from_file(f) {
            Ok(b) => b,
            Err(e) => return Err(e),
        };
        Ok((hi as u16) * 256 + (lo as u16))
    }
}

impl FromFile<(), ()> for u32 {
    open spec fn extent(data: Seq<u8>, pos: int) -> Result<int, FromFileErr<(), ()>> {
        if fits(data, pos, 4) {
            Ok(pos + 4)
        } else {
            Err(FromFileErr::EOF)
        }
    }

    open spec fn decoded_from(&self, data: Seq<u8>, pos: int) -> bool {
        *self == u32_at(data, pos)
    }

    fn from_file(f: &mut ByteCursor) -> (r: Result<Self, FromFileErr<(), ()>>) {
        let hi = match u16::from_file(f) {
            Ok(v) => v,
            Err(e) => return Err(e),
        };
        let lo = match u16::from_file(f) {
            Ok(v) => v,
            Err(e) => return Err(e),
        };
        Ok((hi as u32) * 0x10000 + (lo as u32))
    }
}

/// Where `count` values of `T` decoded one after another from `pos` end, or
/// the first error among them.
pub open spec fn array_extent<T: FromFile<I, O>, I, O>(data: Seq<u8>, pos: int, count: nat) -> Result<
    int,
    FromFileErr<I, O>,
>
    decreases count,
{
    if count == 0 {
        Ok(pos)
    } else {
        match array_extent::<T, I, O>(data, pos, (count - 1) as nat) {
            Ok(p) => T::extent(data, p),
            Err(e) => Err(e),
        }
    }
}

/// `items` are the values decoded one after another from `pos` of `data`.
pub open spec fn array_decoded<T: FromFile<I, O>, I, O>(items: Seq<T>, data: Seq<u8>, pos: int) -> bool
    decreases items.len(),
{
    if items.len() == 0 {
        true
    } else {
        let k = (items.len() - 1) as nat;
        &&& array_decoded::<T, I, O>(items.drop_last(), data, pos)
        &&& array_extent::<T, I, O>(data, pos, k) is Ok
        &&& items.last().decoded_from(data, array_extent::<T, I, O>(data, pos, k)->Ok_0)
    }
}

proof fn lemma_array_err<T: FromFile<I, O>, I, O>(data: Seq<u8>, pos: int, i: nat, n: nat)
    requires
        i <= n,
        array_extent::<T, I, O>(data, pos, i) is Err,
    ensures
        array_extent::<T, I, O>(data, pos, n) == array_extent::<T, I, O>(data, pos, i),
    decreases n - i,
{
    if i < n {
        lemma_array_err::<T, I, O>(data, pos, i, (n - 1) as nat);
    }
}

proof fn lemma_array_decoded_push<T: FromFile<I, O>, I, O>(
    items: Seq<T>,
    v: T,
    data: Seq<u8>,
    pos: int,
)
    requires
        array_decoded::<T, I, O>(items, data, pos),
        array_extent::<T, I, O>(data, pos, items.len()) is Ok,
        v.decoded_from(data, array_extent::<T, I, O>(data, pos, items.len())->Ok_0),
    ensures
        array_decoded::<T, I, O>(items.push(v), data, pos),
{
    assert(items.push(v).drop_last() =~= items);
}

/// Decodes `count` values of `T` one after another.
pub fn array_from_file<T: FromFile<I, O>, I, O>(f: &mut ByteCursor, count: usize) -> (r: Result<
    Vec<T>,
    FromFileErr<I, O>,
>)
    ensures
        final(f).bytes() == old(f).bytes(),
        match array_extent::<T, I, O>(old(f).bytes(), old(f).pos() as int, count as nat) {
            Ok(end) => r is Ok && r->Ok_0@.len() == count && array_decoded::<T, I, O>(
                r->Ok_0@,
                old(f).bytes(),
                old(f).pos() as int,
            ) && final(f).pos() == end,
            Err(e) => r == Err::<Vec<T>, FromFileErr<I, O>>(e),
        },
{
    let ghost data = f.bytes();
    let ghost start = f.pos() as int;
    let mut buf: Vec<T> = Vec::with_capacity(count);
    let mut i: usize = 0;
    while i < count
        invariant
            i <= count,
            f.bytes() == data,
            data == old(f).bytes(),
            start == old(f).pos() as int,
            buf@.len() == i,
            array_extent::<T, I, O>(data, start, i as nat) == Ok::<int, FromFileErr<I, O>>(
                f.pos() as int,
            ),
            array_decoded::<T, I, O>(buf@, data, start),
        decreases count - i,
    {
        let ghost p = f.pos() as int;
        match T::from_file(f) {
            Ok(v) => {
                proof {
                    assert(array_extent::<T, I, O>(data, start, (i + 1) as nat) == T::extent(data, p));
                    lemma_array_decoded_push::<T, I, O>(buf@, v, data, start);
                }
                buf.push(v);
                i = i + 1;
            },
            Err(e) => {
                proof {
                    lemma_array_err::<T, I, O>(data, start, (i + 1) as nat, count as nat);
                }
                return Err(e);
            },
        }
    }
    Ok(buf)
}

/// A byte allowed in a tag: printable ASCII.
pub open spec fn tag_byte(b: u8) -> bool {
    0x20 <= b <= 0x7E
}

/// Why the tag byte at `q` stops decoding, if it does.
pub open spec fn tag_byte_error(data: Seq<u8>, q: int) -> Option<FromFileErr<(), ()>> {
    if !fits(data, q, 1) {
        Some(FromFileErr::EOF)
    } else if !tag_byte(data[q]) {
        Some(FromFileErr::InvalidData(()))
    } else {
        None
    }
}

/// Decoding the bytes `k` to 3 of a tag at `pos`: the end of the tag, or the
/// first of those bytes that is missing or not allowed.
pub open spec fn tag_extent_from(data: Seq<u8>, pos: int, k: int) -> Result<int, FromFileErr<(), ()>>
    decreases 4 - k,
{
    if k >= 4 {
        Ok(pos + 4)
    } else {
        match tag_byte_error(data, pos + k) {
            Some(e) => Err(e),
            None => tag_extent_from(data, pos, k + 1),
        }
    }
}

proof fn lemma_tag_extent(data: Seq<u8>, pos: int, k: int)
    requires
        0 <= k,
    ensures
        tag_extent_from(data, pos, k) is Ok ==> tag_extent_from(data, pos, k) == Ok::<
            int,
            FromFileErr<(), ()>,
        >(pos + 4),
    decreases 4 - k,
{
    if k < 4 {
        lemma_tag_extent(data, pos, k + 1);
    }
}

/// Four printable ASCII bytes that name a table, a script, a feature or
/// another resource.
#[derive(Debug, Clone)]
pub struct Tag {
    pub data: String,
}

impl Tag {
    /// The tag reads `name`.
    pub fn is(&self, name: &str) -> (r: bool)
        ensures
            r == (self.data@ == name@),
    {
        let a = self.data.as_str();
        let n = a.unicode_len();
        if n != name.unicode_len() {
            return false;
        }
        let mut i: usize = 0;
        while i < n
            invariant
                i <= n,
                n == a@.len(),
                n == name@.len(),
                a@ == self.data@,
                forall|j: int| 0 <= j < i ==> a@[j] == name@[j],
            decreases n - i,
        {
            if a.get_char(i) != name.get_char(i) {
                return false;
            }
            i = i + 1;
        }
        assert(a@ =~= name@);
        true
    }
}

fn read_tag_byte(f: &mut ByteCursor) -> (r: Result<u8, FromFileErr<(), ()>>)
    ensures
        final(f).bytes() == old(f).bytes(),
        match tag_byte_error(old(f).bytes(), old(f).pos() as int) {
            Some(e) => r == Err::<u8, FromFileErr<(), ()>>(e),
            None => r == Ok::<u8, FromFileErr<(), ()>>(old(f).bytes()[old(f).pos() as int])
                && final(f).pos() == old(f).pos() + 1,
        },
{
    match f.read_u8() {
        Some(b) => if 0x20 <= b && b <= 0x7E {
            Ok(b)
        } else {
            Err(FromFileErr::InvalidData(()))
        },
        None => Err(FromFileErr::EOF),
    }
}

impl FromFile<(), ()> for Tag {
    open spec fn extent(data: Seq<u8>, pos: int) -> Result<int, FromFileErr<(), ()>> {
        tag_extent_from(data, pos, 0)
    }

    open spec fn decoded_from(&self, data: Seq<u8>, pos: int) -> bool {
        self.data@ == seq![
            data[pos] as char,
            data[pos + 1] as char,
            data[pos + 2] as char,
            data[pos + 3] as char,
        ]
    }

    fn from_file(f: &mut ByteCursor) -> (r: Result<Self, FromFileErr<(), ()>>) {
        let ghost d = f.bytes();
        let ghost p = f.pos() as int;
        let mut data = String::new();
        let mut k: usize = 0;
        while k < 4
            invariant
                k <= 4,
                d == old(f).bytes(),
                p == old(f).pos() as int,
                f.bytes() == d,
                f.pos() == p + k,
                data@.len() == k,
                forall|j: int| 0 <= j < k ==> data@[j] == d[p + j] as char,
                tag_extent_from(d, p, 0) == tag_extent_from(d, p, k as int),
            decreases 4 - k,
        {
            let b = match read_tag_byte(f) {
                Ok(b) => b,
                Err(e) => return Err(e),
            };
            data.push(b as char);
            k = k + 1;
        }
        assert(data@ =~= seq![d[p] as char, d[p + 1] as char, d[p + 2] as char, d[p + 3] as char]);
        Ok(Tag { data })
    }
}

/// The outline format of a font.
#[derive(Debug, Clone, Copy, PartialEq, Eq)]
pub enum SFNTVer {
    /// TrueType outlines (0x00010000).
    TrueType,
    /// CFF outlines (0x4F54544F, "OTTO").
    CFF,
    /// Any other version value.
    Unknown(u32),
}

/// The outline format that the version value `v` names.
pub open spec fn sfnt_version_of(v: u32) -> SFNTVer {
    if v == 0x00010000 {
        SFNTVer::TrueType
    } else if v == 0x4F54544F {
        SFNTVer::CFF
    } else {
        SFNTVer::Unknown(v)
    }
}

impl SFNTVer {
    /// The outline format that the version value `v` names.
    pub fn from_u32(v: u32) -> (r: Self)
        ensures
            r == sfnt_version_of(v),
    {
        if v == 0x00010000 {
            SFNTVer::TrueType
        } else if v == 0x4F54544F {
            SFNTVer::CFF
        } else {
            SFNTVer::Unknown(v)
        }
    }
}

impl FromFile<(), ()> for SFNTVer {
    open spec fn extent(data: Seq<u8>, pos: int) -> Result<int, FromFileErr<(), ()>> {
        <u32 as FromFile<(), ()>>::extent(data, pos)
    }

    open spec fn decoded_from(&self, data: Seq<u8>, pos: int) -> bool {
        *self == sfnt_version_of(u32_at(data, pos))
    }

    fn from_file(f: &mut ByteCursor) -> (r: Result<Self, FromFileErr<(), ()>>) {
        match u32::from_file(f) {
            Ok(v) => Ok(SFNTVer::from_u32(v)),
            Err(e) => Err(e),
        }
    }
}

/// Reads a big-endian 16-bit field.
fn read_u16(f: &mut ByteCursor) -> (r: Result<u16, FromFileErr<(), ()>>)
    ensures
        final(f).bytes() == old(f).bytes(),
        fits(old(f).bytes(), old(f).pos() as int, 2) ==> r == Ok::<u16, FromFileErr<(), ()>>(
            u16_at(old(f).bytes(), old(f).pos() as int),
        ) && final(f).pos() == old(f).pos() + 2,
        !fits(old(f).bytes(), old(f).pos() as int, 2) ==> r == Err::<u16, FromFileErr<(), ()>>(
            FromFileErr::EOF,
        ),
{
    u16::from_file(f)
}

/// Reads a big-endian 32-bit field.
fn read_u32(f: &mut ByteCursor) -> (r: Result<u32, FromFileErr<(), ()>>)
    ensures
        final(f).bytes() == old(f).bytes(),
        fits(old(f).bytes(), old(f).pos() as int, 4) ==> r == Ok::<u32, FromFileErr<(), ()>>(
            u32_at(old(f).bytes(), old(f).pos() as int),
        ) && final(f).pos() == old(f).pos() + 4,
        !fits(old(f).bytes(), old(f).pos() as int, 4) ==> r == Err::<u32, FromFileErr<(), ()>>(
            FromFileErr::EOF,
        ),
{
    u32::from_file(f)
}

/// The end of a record of `width` bytes at `pos`, or `EOF` where the source
/// ends inside it.
pub open spec fn fixed_extent(data: Seq<u8>, pos: int, width: int) -> Result<int, FromFileErr<(), ()>> {
    if fits(data, pos, width) {
        Ok(pos + width)
    } else {
        Err(FromFileErr::EOF)
    }
}

/// One string of a name table: which platform, encoding, language and name
/// it is for, and where its bytes lie in the storage area.
#[derive(Debug, Clone, Copy, PartialEq, Eq)]
pub struct NameRecord {
    /// Platform ID.
    pub platform_id: u16,
    /// Platform-specific encoding ID.
    pub encoding_id: u16,
    /// Language ID.
    pub language_id: u16,
    /// Name ID.
    pub name_id: u16,
    /// String length (in bytes).
    pub length: u16,
    /// String offset from start of storage area (in bytes).
    pub string_offset: u16,
}

impl FromFile<(), ()> for NameRecord {
    open spec fn extent(data: Seq<u8>, pos: int) -> Result<int, FromFileErr<(), ()>> {
        fixed_extent(data, pos, 12)
    }

    open spec fn decoded_from(&self, data: Seq<u8>, pos: int) -> bool {
        &&& self.platform_id == u16_at(data, pos)
        &&& self.encoding_id == u16_at(data, pos + 2)
        &&& self.language_id == u16_at(data, pos + 4)
        &&& self.name_id == u16_at(data, pos + 6)
        &&& self.length == u16_at(data, pos + 8)
        &&& self.string_offset == u16_at(data, pos + 10)
    }

    fn from_file(f: &mut ByteCursor) -> (r: Result<Self, FromFileErr<(), ()>>) {
        let platform_id = match read_u16(f) {
            Ok(v) => v,
            Err(e) => return Err(e),
        };
        let encoding_id = match read_u16(f) {
            Ok(v) => v,
            Err(e) => return Err(e),
        };
        let language_id = match read_u16(f) {
            Ok(v) => v,
            Err(e) => return Err(e),
        };
        let name_id = match read_u16(f) {
            Ok(v) => v,
            Err(e) => return Err(e),
        };
        let length = match read_u16(f) {
            Ok(v) => v,
            Err(e) => return Err(e),
        };
        let string_offset = match read_u16(f) {
            Ok(v) => v,
            Err(e) => return Err(e),
        };
        Ok(NameRecord { platform_id, encoding_id, language_id, name_id, length, string_offset })
    }
}

/// A language tag of a name table: where its bytes lie in the storage area.
#[derive(Debug, Clone, Copy, PartialEq, Eq)]
pub struct LangTagRecord {
    /// Language-tag string length (in bytes).
    pub length: u16,
    /// Language-tag string offset from start of storage area (in bytes).
    pub lang_tag_offset: u16,
}

impl FromFile<(), ()> for LangTagRecord {
    open spec fn extent(data: Seq<u8>, pos: int) -> Result<int, FromFileErr<(), ()>> {
        fixed_extent(data, pos, 4)
    }

    open spec fn decoded_from(&self, data: Seq<u8>, pos: int) -> bool {
        &&& self.length == u16_at(data, pos)
        &&& self.lang_tag_offset == u16_at(data, pos + 2)
    }

    fn from_file(f: &mut ByteCursor) -> (r: Result<Self, FromFileErr<(), ()>>) {
        let length = match read_u16(f) {
            Ok(v) => v,
            Err(e) => return Err(e),
        };
        let lang_tag_offset = match read_u16(f) {
            Ok(v) => v,
            Err(e) => return Err(e),
        };
        Ok(LangTagRecord { length, lang_tag_offset })
    }
}

/// One signature of a DSIG table.
#[derive(Debug, Clone, Copy, PartialEq, Eq)]
pub struct SignatureRecord {
    /// Format of the signature.
    pub format: u32,
    /// Length of signature in bytes.
    pub length: u32,
    /// Offset to the signature block from the beginning of the table.
    pub signature_block_offset: u32,
}

impl FromFile<(), ()> for SignatureRecord {
    open spec fn extent(data: Seq<u8>, pos: int) -> Result<int, FromFileErr<(), ()>> {
        fixed_extent(data, pos, 12)
    }

    open spec fn decoded_from(&self, data: Seq<u8>, pos: int) -> bool {
        &&& self.format == u32_at(data, pos)
        &&& self.length == u32_at(data, pos + 4)
        &&& self.signature_block_offset == u32_at(data, pos + 8)
    }

    fn from_file(f: &mut ByteCursor) -> (r: Result<Self, FromFileErr<(), ()>>) {
        let format = match read_u32(f) {
            Ok(v) => v,
            Err(e) => return Err(e),
        };
        let length = match read_u32(f) {
            Ok(v) => v,
            Err(e) => return Err(e),
        };
        let signature_block_offset = match read_u32(f) {
            Ok(v) => v,
            Err(e) => return Err(e),
        };
        Ok(SignatureRecord { format, length, signature_block_offset })
    }
}

/// The digital signature table.
#[derive(Debug, Clone)]
pub struct DSIGTable {
    /// Version number of the DSIG table (0x00000001).
    pub version: u32,
    /// Number of signatures in the table.
    pub num_signatures: u16,
    /// Permission flags; bit 0: cannot be resigned.
    pub flags: u16,
    /// The signature records, `num_signatures` of them.
    pub signature_records: Vec<SignatureRecord>,
}

impl FromFile<(), ()> for DSIGTable {
    open spec fn extent(data: Seq<u8>, pos: int) -> Result<int, FromFileErr<(), ()>> {
        if !fits(data, pos, 8) {
            Err(FromFileErr::EOF)
        } else {
            array_extent::<SignatureRecord, (), ()>(data, pos + 8, u16_at(data, pos + 4) as nat)
        }
    }

    open spec fn decoded_from(&self, data: Seq<u8>, pos: int) -> bool {
        &&& self.version == u32_at(data, pos)
        &&& self.num_signatures == u16_at(data, pos + 4)
        &&& self.flags == u16_at(data, pos + 6)
        &&& self.signature_records@.len() == self.num_signatures
        &&& array_decoded::<SignatureRecord, (), ()>(self.signature_records@, data, pos + 8)
    }

    fn from_file(f: &mut ByteCursor) -> (r: Result<Self, FromFileErr<(), ()>>) {
        let version = match read_u32(f) {
            Ok(v) => v,
            Err(e) => return Err(e),
        };
        let num_signatures = match read_u16(f) {
            Ok(v) => v,
            Err(e) => return Err(e),
        };
        let flags = match read_u16(f) {
            Ok(v) => v,
            Err(e) => return Err(e),
        };
        let signature_records = match array_from_file(f, num_signatures as usize) {
            Ok(v) => v,
            Err(e) => return Err(e),
        };
        Ok(DSIGTable { version, num_signatures, flags, signature_records })
    }
}

/// The `name` table: the strings that name the font, and where they lie.
#[derive(Debug, Clone)]
pub struct NameTable {
    /// Table version number.
    pub version: u16,
    /// Number of name records.
    pub count: u16,
    /// Offset to start of string storage (from start of table).
    pub storage_offset: u16,
    storage_absolute: usize,
    /// The name records, `count` of them.
    pub name_records: Vec<NameRecord>,
    /// Number of language-tag records; only in version 1 and later.
    pub lang_tag_count: Option<u16>,
    /// The language-tag records; only in version 1 and later.
    pub lang_tag_record: Option<Vec<LangTagRecord>>,
}

impl NameTable {
    /// Where the string storage of the table starts in the source.
    pub closed spec fn storage_base(&self) -> int {
        self.storage_absolute as int
    }

    /// Where the string storage of the table starts in the source.
    pub fn storage_absolute(&self) -> (r: usize)
        ensures
            r == self.storage_base(),
    {
        self.storage_absolute
    }
}

impl FromFile<(), ()> for NameTable {
    open spec fn extent(data: Seq<u8>, pos: int) -> Result<int, FromFileErr<(), ()>> {
        if !fits(data, pos, 6) || pos + u16_at(data, pos + 4) > usize::MAX {
            Err(FromFileErr::EOF)
        } else {
            match array_extent::<NameRecord, (), ()>(data, pos + 6, u16_at(data, pos + 2) as nat) {
                Err(e) => Err(e),
                Ok(q) => if u16_at(data, pos) == 0 {
                    Ok(q)
                } else if !fits(data, q, 2) {
                    Err(FromFileErr::EOF)
                } else {
                    array_extent::<LangTagRecord, (), ()>(data, q + 2, u16_at(data, q) as nat)
                },
            }
        }
    }

    closed spec fn decoded_from(&self, data: Seq<u8>, pos: int) -> bool {
        let q = array_extent::<NameRecord, (), ()>(data, pos + 6, self.count as nat)->Ok_0;
        &&& self.version == u16_at(data, pos)
        &&& self.count == u16_at(data, pos + 2)
        &&& self.storage_offset == u16_at(data, pos + 4)
        &&& self.storage_absolute == pos + self.storage_offset
        &&& self.name_records@.len() == self.count
        &&& array_decoded::<NameRecord, (), ()>(self.name_records@, data, pos + 6)
        &&& self.version == 0 ==> self.lang_tag_count is None && self.lang_tag_record is None
        &&& self.version != 0 ==> {
            &&& self.lang_tag_count == Some(u16_at(data, q))
            &&& self.lang_tag_record is Some
            &&& self.lang_tag_record->Some_0@.len() == u16_at(data, q)
            &&& array_decoded::<LangTagRecord, (), ()>(self.lang_tag_record->Some_0@, data, q + 2)
        }
    }

    fn from_file(f: &mut ByteCursor) -> (r: Result<Self, FromFileErr<(), ()>>) {
        let start = f.position();
        let version = match read_u16(f) {
            Ok(v) => v,
            Err(e) => return Err(e),
        };
        let count = match read_u16(f) {
            Ok(v) => v,
            Err(e) => return Err(e),
        };
        let storage_offset = match read_u16(f) {
            Ok(v) => v,
            Err(e) => return Err(e),
        };
        let storage_absolute = match start.checked_add(storage_offset as usize) {
            Some(v) => v,
            None => return Err(FromFileErr::EOF),
        };
        let name_records = match array_from_file(f, count as usize) {
            Ok(v) => v,
            Err(e) => return Err(e),
        };
        let lang_tag_count = if version == 0 {
            None
        } else {
            match read_u16(f) {
                Ok(v) => Some(v),
                Err(e) => return Err(e),
            }
        };
        let lang_tag_record = match lang_tag_count {
            Some(n) => match array_from_file(f, n as usize) {
                Ok(v) => Some(v),
                Err(e) => return Err(e),
            },
            None => None,
        };
        Ok(
            NameTable {
                version,
                count,
                storage_offset,
                storage_absolute,
                name_records,
                lang_tag_count,
                lang_tag_record,
            },
        )
    }
}

/// A decoded table body.
#[derive(Debug, Clone)]
pub enum Table {
    Name(NameTable),
    DSIG(DSIGTable),
}

/// The error of a table decoder as a table record reports it: the source's
/// end as it is, any other failure as invalid data.
pub open spec fn table_error(e: FromFileErr<(), ()>) -> FromFileErr<(), Vec<u8>> {
    match e {
        FromFileErr::EOF => FromFileErr::EOF,
        _ => FromFileErr::InvalidData(()),
    }
}

fn to_table_error(e: FromFileErr<(), ()>) -> (r: FromFileErr<(), Vec<u8>>)
    ensures
        r == table_error(e),
{
    match e {
        FromFileErr::EOF => FromFileErr::EOF,
        _ => FromFileErr::InvalidData(()),
    }
}

/// `outcome` is what decoding the table with tag `tag` at `offset` of `data`
/// gives: a `name` or `DSIG` table, the decoder's error, `EOF` for an offset
/// past the end, or `Other` with no bytes for a tag that has no decoder.
pub open spec fn table_outcome(
    tag: Seq<char>,
    data: Seq<u8>,
    offset: int,
    outcome: Result<Table, FromFileErr<(), Vec<u8>>>,
) -> bool {
    if offset > data.len() {
        outcome == Err::<Table, FromFileErr<(), Vec<u8>>>(FromFileErr::EOF)
    } else if tag == "DSIG"@ {
        match DSIGTable::extent(data, offset) {
            Ok(_) => outcome is Ok && outcome->Ok_0 is DSIG && outcome->Ok_0->DSIG_0.decoded_from(
                data,
                offset,
            ),
            Err(e) => outcome == Err::<Table, FromFileErr<(), Vec<u8>>>(table_error(e)),
        }
    } else if tag == "name"@ {
        match NameTable::extent(data, offset) {
            Ok(_) => outcome is Ok && outcome->Ok_0 is Name && outcome->Ok_0->Name_0.decoded_from(
                data,
                offset,
            ),
            Err(e) => outcome == Err::<Table, FromFileErr<(), Vec<u8>>>(table_error(e)),
        }
    } else {
        outcome is Err && outcome->Err_0 is Other && outcome->Err_0->Other_0@.len() == 0
    }
}

/// An entry of the table directory: a table's tag, checksum, offset from the
/// start of the file and length, and the table once it has been decoded.
#[derive(Debug)]
pub struct TableRecord {
    /// Table identifier.
    pub table_tag: Tag,
    /// Checksum for this table.
    pub checksum: u32,
    /// Offset from beginning of font file.
    pub offset: u32,
    /// Length of this table.
    pub length: u32,
    cache: Option<Result<Table, FromFileErr<(), Vec<u8>>>>,
}

/// `after` and `after_src` are `before` and `before_src` after a call of
/// `get_table`: the table is decoded once, at the record's offset, and kept;
/// the source's position is where it was.
pub closed spec fn get_table_done(
    before: TableRecord,
    after: TableRecord,
    before_src: ByteCursor,
    after_src: ByteCursor,
) -> bool {
    &&& after.table_tag == before.table_tag
    &&& after.checksum == before.checksum
    &&& after.offset == before.offset
    &&& after.length == before.length
    &&& after_src.bytes() == before_src.bytes()
    &&& after_src.pos() == before_src.pos()
    &&& after.cached() is Some
    &&& before.cached() is Some ==> after.cached() == before.cached() && after_src == before_src
    &&& before.cached() is None ==> table_outcome(
        before.table_tag.data@,
        before_src.bytes(),
        before.offset as int,
        after.cached()->Some_0,
    )
}

impl TableRecord {
    /// The decoded table, once `get_table` has been called.
    pub closed spec fn cached(&self) -> Option<Result<Table, FromFileErr<(), Vec<u8>>>> {
        self.cache
    }

    /// The table this record points at. The first call decodes it at the
    /// record's offset and keeps the outcome; later calls give the kept
    /// outcome without reading. The source's position is left as it was.
    pub fn get_table<'a>(&'a mut self, f: &mut ByteCursor) -> (r: &'a Result<
        Table,
        FromFileErr<(), Vec<u8>>,
    >)
        ensures
            get_table_done(*old(self), *final(self), *old(f), *final(f)),
            *r == final(self).cached()->Some_0,
    {
        if self.cache.is_none() {
            let cur = f.position();
            let outcome = if f.seek_to(self.offset as usize).is_err() {
                Err(FromFileErr::EOF)
            } else {
                let o = if self.table_tag.is("DSIG") {
                    match DSIGTable::from_file(f) {
                        Ok(t) => Ok(Table::DSIG(t)),
                        Err(e) => Err(to_table_error(e)),
                    }
                } else if self.table_tag.is("name") {
                    match NameTable::from_file(f) {
                        Ok(t) => Ok(Table::Name(t)),
                        Err(e) => Err(to_table_error(e)),
                    }
                } else {
                    Err(FromFileErr::Other(Vec::new()))
                };
                let _ = f.seek_to(cur);
                o
            };
            self.cache = Some(outcome);
        }
        self.cache.as_ref().unwrap()
    }
}

impl FromFile<(), ()> for TableRecord {
    open spec fn extent(data: Seq<u8>, pos: int) -> Result<int, FromFileErr<(), ()>> {
        match Tag::extent(data, pos) {
            Err(e) => Err(e),
            Ok(_) => fixed_extent(data, pos, 16),
        }
    }

    closed spec fn decoded_from(&self, data: Seq<u8>, pos: int) -> bool {
        &&& self.table_tag.decoded_from(data, pos)
        &&& self.checksum == u32_at(data, pos + 4)
        &&& self.offset == u32_at(data, pos + 8)
        &&& self.length == u32_at(data, pos + 12)
        &&& self.cache is None
    }

    fn from_file(f: &mut ByteCursor) -> (r: Result<Self, FromFileErr<(), ()>>) {
        proof {
            lemma_tag_extent(f.bytes(), f.pos() as int, 0);
        }
        let table_tag = match Tag::from_file(f) {
            Ok(v) => v,
            Err(e) => return Err(e),
        };
        let checksum = match read_u32(f) {
            Ok(v) => v,
            Err(e) => return Err(e),
        };
        let offset = match read_u32(f) {
            Ok(v) => v,
            Err(e) => return Err(e),
        };
        let length = match read_u32(f) {
            Ok(v) => v,
            Err(e) => return Err(e),
        };
        Ok(TableRecord { table_tag, checksum, offset, length, cache: None })
    }
}

/// The table directory at the start of a font file.
#[derive(Debug)]
pub struct TableDirectory {
    /// 0x00010000 or 0x4F54544F ('OTTO').
    pub sfnt_version: SFNTVer,
    /// Number of tables.
    pub num_tables: u16,
    /// Maximum power of 2 less than or equal to numTables, times 16.
    pub search_range: u16,
    /// Log2 of the maximum power of 2 less than or equal to numTables.
    pub entry_selector: u16,
    /// numTables times 16, minus searchRange.
    pub range_shift: u16,
    /// The table records, `num_tables` of them.
    pub table_records: Vec<TableRecord>,
}

impl FromFile<(), ()> for TableDirectory {
    open spec fn extent(data: Seq<u8>, pos: int) -> Result<int, FromFileErr<(), ()>> {
        if !fits(data, pos, 12) {
            Err(FromFileErr::EOF)
        } else {
            array_extent::<TableRecord, (), ()>(data, pos + 12, u16_at(data, pos + 4) as nat)
        }
    }

    open spec fn decoded_from(&self, data: Seq<u8>, pos: int) -> bool {
        &&& self.sfnt_version == sfnt_version_of(u32_at(data, pos))
        &&& self.num_tables == u16_at(data, pos + 4)
        &&& self.search_range == u16_at(data, pos + 6)
        &&& self.entry_selector == u16_at(data, pos + 8)
        &&& self.range_shift == u16_at(data, pos + 10)
        &&& self.table_records@.len() == self.num_tables
        &&& array_decoded::<TableRecord, (), ()>(self.table_records@, data, pos + 12)
    }

    fn from_file(f: &mut ByteCursor) -> (r: Result<Self, FromFileErr<(), ()>>) {
        let sfnt_version = match SFNTVer::from_file(f) {
            Ok(v) => v,
            Err(e) => return Err(e),
        };
        let num_tables = match read_u16(f) {
            Ok(v) => v,
            Err(e) => return Err(e),
        };
        let search_range = match read_u16(f) {
            Ok(v) => v,
            Err(e) => return Err(e),
        };
        let entry_selector = match read_u16(f) {
            Ok(v) => v,
            Err(e) => return Err(e),
        };
        let range_shift = match read_u16(f) {
            Ok(v) => v,
            Err(e) => return Err(e),
        };
        let table_records = match array_from_file(f, num_tables as usize) {
            Ok(v) => v,
            Err(e) => return Err(e),
        };
        Ok(
            TableDirectory {
                sfnt_version,
                num_tables,
                search_range,
                entry_selector,
                range_shift,
                table_records,
            },
        )
    }
}

/// A font file: its table directory.
#[derive(Debug)]
pub struct OTTF {
    pub table_directory: TableDirectory,
}

impl FromFile<(), ()> for OTTF {
    open spec fn extent(data: Seq<u8>, pos: int) -> Result<int, FromFileErr<(), ()>> {
        TableDirectory::extent(data, pos)
    }

    open spec fn decoded_from(&self, data: Seq<u8>, pos: int) -> bool {
        self.table_directory.decoded_from(data, pos)
    }

    fn from_file(f: &mut ByteCursor) -> (r: Result<Self, FromFileErr<(), ()>>) {
        match TableDirectory::from_file(f) {
            Ok(table_directory) => Ok(OTTF { table_directory }),
            Err(e) => Err(e),
        }
    }
}

/// Decoding a table twice through one record gives the same outcome both
/// times, wherever the source's position was moved in between, and neither
/// call moves that position.
pub proof fn lemma_get_table_twice(
    r0: TableRecord,
    r1: TableRecord,
    r2: TableRecord,
    s0: ByteCursor,
    s1: ByteCursor,
    s2: ByteCursor,
    s3: ByteCursor,
)
    requires
        get_table_done(r0, r1, s0, s1),
        get_table_done(r1, r2, s2, s3),
    ensures
        r1.cached() is Some,
        r2.cached()->Some_0 == r1.cached()->Some_0,
        s1.pos() == s0.pos(),
        s3.pos() == s2.pos(),
        s3 == s2,
{
}

proof fn lemma_byte_extent(data: Seq<u8>, pos: int, n: nat)
    requires
        0 <= pos <= data.len(),
    ensures
        array_extent::<u8, (), ()>(data, pos, n) == fixed_extent(data, pos, n as int),
    decreases n,
{
    if n > 0 {
        lemma_byte_extent(data, pos, (n - 1) as nat);
    }
}

proof fn lemma_byte_items(items: Seq<u8>, data: Seq<u8>, pos: int)
    requires
        array_decoded::<u8, (), ()>(items, data, pos),
        0 <= pos,
        pos + items.len() <= data.len(),
    ensures
        items == data.subrange(pos, pos + items.len()),
    decreases items.len(),
{
    if items.len() > 0 {
        let k = (items.len() - 1) as nat;
        lemma_byte_items(items.drop_last(), data, pos);
        lemma_byte_extent(data, pos, k);
        assert(items =~= data.subrange(pos, pos + items.len()));
    }
}

/// Why the bytes of a name record could not be turned into text.
#[derive(Debug, Clone, Copy, PartialEq, Eq)]
pub enum TranslateError {
    /// The platform and encoding are defined, but their decoding is not
    /// written yet.
    Unimplemented { platform_id: u16, encoding_id: u16 },
    /// The encoding ID is not defined for the platform.
    InvalidEncodingId { platform_id: u16, encoding_id: u16 },
    /// The platform ID is not defined.
    InvalidPlatformId(u16),
    /// The bytes are not valid in the encoding.
    InvalidString,
}

/// The character sets that name strings are decoded from.
#[derive(Debug, Clone, Copy, PartialEq, Eq)]
pub enum NameEncoding {
    Utf16BMPOnly,
    Utf16,
    MacOsRoman,
    Utf8,
}

/// The character set of a name string of the given platform and encoding,
/// or why there is none.
pub open spec fn name_encoding(platform_id: u16, encoding_id: u16) -> Result<NameEncoding, TranslateError> {
    let unimplemented = TranslateError::Unimplemented { platform_id, encoding_id };
    let invalid = TranslateError::InvalidEncodingId { platform_id, encoding_id };
    if platform_id == 0 {
        if encoding_id == 3 {
            Ok(NameEncoding::Utf16BMPOnly)
        } else if encoding_id == 4 {
            Ok(NameEncoding::Utf16)
        } else if encoding_id <= 2 {
            Err(unimplemented)
        } else {
            Err(invalid)
        }
    } else if platform_id == 1 {
        if encoding_id == 0 {
            Ok(NameEncoding::MacOsRoman)
        } else if encoding_id <= 32 {
            Err(unimplemented)
        } else {
            Err(invalid)
        }
    } else if platform_id == 3 {
        if encoding_id == 1 {
            Ok(NameEncoding::Utf16BMPOnly)
        } else if encoding_id == 10 {
            Ok(NameEncoding::Utf8)
        } else if encoding_id <= 9 {
            Err(unimplemented)
        } else {
            Err(invalid)
        }
    } else {
        Err(TranslateError::InvalidPlatformId(platform_id))
    }
}

/// The text that `b` holds in the character set `T`, if all of `b` reads
/// as characters of it.
pub open spec fn text_of<T: CharSetChar>(b: Seq<u8>) -> Option<Seq<char>> {
    let (chars, n) = decode_prefix::<T>(b);
    if n == b.len() {
        Some(natives(chars))
    } else {
        None
    }
}

/// The text that `b` holds in the encoding `e`.
pub open spec fn encoded_text(e: NameEncoding, b: Seq<u8>) -> Option<Seq<char>> {
    match e {
        NameEncoding::Utf16BMPOnly => text_of::<Utf16BMPOnly>(b),
        NameEncoding::Utf16 => text_of::<Utf16>(b),
        NameEncoding::MacOsRoman => text_of::<MacOsRoman>(b),
        NameEncoding::Utf8 => text_of::<Utf8>(b),
    }
}

fn decode_text<T: CharSetChar>(b: &[u8]) -> (r: Result<String, TranslateError>)
    ensures
        match text_of::<T>(b@) {
            Some(t) => r is Ok && r->Ok_0@ == t,
            None => r == Err::<String, TranslateError>(TranslateError::InvalidString),
        },
{
    match CharSetStr::<T>::from_bytes(b) {
        Ok(s) => Ok(s.to_string()),
        Err(_) => Err(TranslateError::InvalidString),
    }
}

impl NameRecord {
    /// The character set that the record's string is stored in.
    pub fn encoding(&self) -> (r: Result<NameEncoding, TranslateError>)
        ensures
            r == name_encoding(self.platform_id, self.encoding_id),
    {
        let platform_id = self.platform_id;
        let encoding_id = self.encoding_id;
        let unimplemented = TranslateError::Unimplemented { platform_id, encoding_id };
        let invalid = TranslateError::InvalidEncodingId { platform_id, encoding_id };
        if platform_id == 0 {
            if encoding_id == 3 {
                Ok(NameEncoding::Utf16BMPOnly)
            } else if encoding_id == 4 {
                Ok(NameEncoding::Utf16)
            } else if encoding_id <= 2 {
                Err(unimplemented)
            } else {
                Err(invalid)
            }
        } else if platform_id == 1 {
            if encoding_id == 0 {
                Ok(NameEncoding::MacOsRoman)
            } else if encoding_id <= 32 {
                Err(unimplemented)
            } else {
                Err(invalid)
            }
        } else if platform_id == 3 {
            if encoding_id == 1 {
                Ok(NameEncoding::Utf16BMPOnly)
            } else if encoding_id == 10 {
                Ok(NameEncoding::Utf8)
            } else if encoding_id <= 9 {
                Err(unimplemented)
            } else {
                Err(invalid)
            }
        } else {
            Err(TranslateError::InvalidPlatformId(platform_id))
        }
    }

    /// The raw bytes of the record's string, read from the storage area of
    /// `parent`; the source's position is left as it was.
    pub fn get_string(&self, f: &mut ByteCursor, parent: &NameTable) -> (r: Result<
        Vec<u8>,
        FromFileErr<(), ()>,
    >)
        ensures
            final(f).bytes() == old(f).bytes(),
            final(f).pos() == old(f).pos(),
            ({
                let start = parent.storage_base() + self.string_offset;
                if start + self.length <= old(f).bytes().len() {
                    r is Ok && r->Ok_0@ == old(f).bytes().subrange(start, start + self.length)
                } else {
                    r == Err::<Vec<u8>, FromFileErr<(), ()>>(FromFileErr::EOF)
                }
            }),
    {
        let pos = f.position();
        let start = match parent.storage_absolute().checked_add(self.string_offset as usize) {
            Some(v) => v,
            None => return Err(FromFileErr::EOF),
        };
        if f.seek_to(start).is_err() {
            return Err(FromFileErr::EOF);
        }
        proof {
            lemma_byte_extent(f.bytes(), start as int, self.length as nat);
        }
        let rv = array_from_file::<u8, (), ()>(f, self.length as usize);
        proof {
            if rv is Ok {
                lemma_byte_items(rv->Ok_0@, f.bytes(), start as int);
            }
        }
        let _ = f.seek_to(pos);
        rv
    }

    /// The text of the record's string bytes, decoded in the character set
    /// that its platform and encoding select.
    pub fn translate_string(&self, string: Vec<u8>) -> (r: Result<String, TranslateError>)
        ensures
            match name_encoding(self.platform_id, self.encoding_id) {
                Err(e) => r == Err::<String, TranslateError>(e),
                Ok(enc) => match encoded_text(enc, string@) {
                    Some(t) => r is Ok && r->Ok_0@ == t,
                    None => r == Err::<String, TranslateError>(TranslateError::InvalidString),
                },
            },
    {
        match self.encoding() {
            Err(e) => Err(e),
            Ok(NameEncoding::Utf16BMPOnly) => decode_text::<Utf16BMPOnly>(string.as_slice()),
            Ok(NameEncoding::Utf16) => decode_text::<Utf16>(string.as_slice()),
            Ok(NameEncoding::MacOsRoman) => decode_text::<MacOsRoman>(string.as_slice()),
            Ok(NameEncoding::Utf8) => decode_text::<Utf8>(string.as_slice()),
        }
    }
}

/// The number of 32-bit words that a table of `length` bytes takes, the last
/// one padded with zero bytes.
pub open spec fn word_count(length: u32) -> int {
    (length as int + 3) / 4
}

/// The sum of `words`.
pub open spec fn sum_words(words: Seq<u32>) -> int
    decreases words.len(),
{
    if words.len() == 0 {
        0
    } else {
        sum_words(words.drop_last()) + words.last()
    }
}

/// The checksum of a table of `length` bytes whose 32-bit words `table`
/// gives by index: their sum modulo 2^32.
pub fn calc_table_checksum<T: Fn(usize) -> u32>(table: T, length: u32) -> (r: u32)
    requires
        forall|i: usize| (i as int) < word_count(length) ==> call_requires(table, (i,)),
    ensures
        exists|words: Seq<u32>|
            {
                &&& words.len() == word_count(length)
                &&& forall|i: int|
                    0 <= i < words.len() ==> call_ensures(table, (i as usize,), #[trigger] words[i])
                &&& r == sum_words(words) % 0x1_0000_0000
            },
{
    let end = ((length as u64 + 3) / 4) as usize;
    let mut sum: u32 = 0;
    let mut i: usize = 0;
    let ghost mut words: Seq<u32> = Seq::empty();
    while i < end
        invariant
            i <= end,
            end == word_count(length),
            forall|j: usize| (j as int) < word_count(length) ==> call_requires(table, (j,)),
            words.len() == i,
            forall|j: int| 0 <= j < i ==> call_ensures(table, (j as usize,), #[trigger] words[j]),
            sum == sum_words(words) % 0x1_0000_0000,
        decreases end - i,
    {
        let w = table(i);
        proof {
            let next = words.push(w);
            assert(next.drop_last() =~= words);
            vstd::arithmetic::div_mod::lemma_add_mod_noop(
                sum_words(words),
                w as int,
                0x1_0000_0000,
            );
            vstd::arithmetic::div_mod::lemma_small_mod(w as nat, 0x1_0000_0000);
            assert forall|j: int| 0 <= j < i + 1 implies call_ensures(
                table,
                (j as usize,),
                #[trigger] next[j],
            ) by {
                if j < i {
                    assert(next[j] == words[j]);
                }
            }
            words = next;
        }
        sum = sum.wrapping_add(w);
        i = i + 1;
    }
    sum
}

} // verus!
