//! Validating an image buffer and lazily walking its entries.
//!
//! [`spec_parse_header`], [`spec_parse_metadata`] and [`parse_step`] state
//! what each decoding step means on the raw bytes; [`parse_entries`] is the
//! sequence of complete entries a full walk yields. The executable functions
//! are proved to follow these specifications exactly.

use vstd::prelude::*;
use vstd::slice::slice_subrange;
use vstd::utf8::decode_utf8;
use vstd::utf8::encode_utf8;
use vstd::utf8::encode_utf8_decode_utf8;
use vstd::utf8::is_char_boundary;
use vstd::utf8::is_char_boundary_iff_not_is_continuation_byte;
use vstd::utf8::is_char_boundary_start_end_of_seq;
use vstd::utf8::valid_utf8;

use crate::Error;
use crate::FormatVersion;
use crate::Time;
use crate::be::spec_u32_from_be_bytes;
use crate::be::u32_from_be_bytes;
use crate::layout::Entry;
use crate::layout::EntryMetadata;
use crate::layout::EntryModel;
use crate::layout::MetadataModel;
use crate::layout::magic;
use crate::layout::version_bytes;

verus! {

/// Relies on `core::str::from_utf8`: it returns a string slice over exactly
/// the given bytes when they are valid UTF-8, and an error otherwise.
#[verifier::external_body]
fn bytes_as_str(b: &[u8]) -> (r: Option<&str>)
    ensures
        r is Some <==> valid_utf8(b@),
        r matches Some(s) ==> encode_utf8(s@) == b@,
{
    core::str::from_utf8(b).ok()
}

/// Index of the first zero byte of `f`, or `f.len()` when it has none.
pub open spec fn first_nul(f: Seq<u8>) -> int
    decreases f.len(),
{
    if f.len() == 0 {
        0
    } else if f[0] == 0 {
        0
    } else {
        1 + first_nul(f.drop_first())
    }
}

/// `first_nul(f)` is the unique index with no zero byte before it and a
/// zero byte (or the end of `f`) at it.
pub proof fn lemma_first_nul_is(f: Seq<u8>, k: int)
    requires
        0 <= k <= f.len(),
        forall|j: int| 0 <= j < k ==> f[j] != 0,
        k < f.len() ==> f[k] == 0,
    ensures
        first_nul(f) == k,
    decreases f.len(),
{
    if f.len() == 0 {
    } else if f[0] == 0 {
        assert(k == 0);
    } else {
        lemma_first_nul_is(f.drop_first(), k - 1);
    }
}

/// What the 16-byte header of `data` declares: on success, the total size
/// the image claims and the bytes that follow the header.
pub open spec fn spec_parse_header(data: Seq<u8>) -> Result<(u32, Seq<u8>), Error> {
    if data.len() < 8 {
        Err(Error::BufferTooSmall)
    } else if data.subrange(0, 8) != magic() {
        Err(Error::InvalidMagicHeader)
    } else if data.len() < 12 {
        Err(Error::BufferTooSmall)
    } else if data.subrange(8, 12) != version_bytes() {
        Err(Error::UnknownVersion)
    } else if data.len() < 16 {
        Err(Error::BufferTooSmall)
    } else {
        Ok((spec_u32_from_be_bytes(data.subrange(12, 16)), data.skip(16)))
    }
}

/// What the leading 24-byte metadata record of `b` holds: on success, its
/// value and the bytes that follow the record. The stored name is the text
/// before the first padding null; the whole 14-byte field must be UTF-8.
#[verifier::opaque]
pub open spec fn spec_parse_metadata(b: Seq<u8>) -> Result<(MetadataModel, Seq<u8>), Error> {
    if b.len() < 24 {
        Err(Error::BufferTooSmall)
    } else if !valid_utf8(b.subrange(0, 14)) {
        Err(Error::NonUnicodeFilename)
    } else {
        let field = b.subrange(0, 14);
        Ok(
            (
                MetadataModel {
                    name: decode_utf8(field.subrange(0, first_nul(field))),
                    ctime: Time {
                        year_since_1970: b[18],
                        zero_indexed_month: b[19],
                        zero_indexed_day: b[20],
                        hours: b[21],
                        minutes: b[22],
                        seconds: b[23],
                    },
                    file_size: spec_u32_from_be_bytes(b.subrange(14, 18)),
                },
                b.skip(24),
            ),
        )
    }
}

/// On success the record occupies the leading 24 bytes: what follows it is
/// exactly the region after them.
pub proof fn lemma_parse_metadata_shape(b: Seq<u8>)
    ensures
        spec_parse_metadata(b) matches Ok(p) ==> b.len() >= 24 && p.1 == b.skip(24),
{
    reveal(spec_parse_metadata);
}

/// One step of walking the entry region.
pub enum ParseStep {
    /// A complete entry, and how many bytes of the region it occupies.
    Item { entry: EntryModel, consumed: int },
    /// A metadata record that cannot be decoded; the walk stops here.
    Fail { error: Error },
    /// The region is exhausted, or the next entry's contents are cut off.
    End,
}

/// What one step of the walk yields on the remaining region `b`: nothing
/// when `b` is empty or the declared contents exceed what remains after the
/// metadata record; otherwise the entry, or the error that stops the walk.
pub open spec fn parse_step(b: Seq<u8>) -> ParseStep {
    if b.len() == 0 {
        ParseStep::End
    } else {
        match spec_parse_metadata(b) {
            Err(e) => ParseStep::Fail { error: e },
            Ok((m, rest)) => {
                if m.file_size > rest.len() {
                    ParseStep::End
                } else {
                    ParseStep::Item {
                        entry: EntryModel {
                            metadata: m,
                            contents: rest.take(m.file_size as int),
                        },
                        consumed: 24 + m.file_size,
                    }
                }
            },
        }
    }
}

/// Every complete entry a full walk of the region `b` yields, in order.
pub open spec fn parse_entries(b: Seq<u8>) -> Seq<EntryModel>
    decreases b.len(),
{
    match parse_step(b) {
        ParseStep::Item { entry, consumed } => {
            if 0 < consumed <= b.len() {
                seq![entry] + parse_entries(b.skip(consumed))
            } else {
                Seq::empty()
            }
        },
        _ => Seq::empty(),
    }
}

/// True when a full walk of the region `b` yields no error.
pub open spec fn parse_ok(b: Seq<u8>) -> bool
    decreases b.len(),
{
    match parse_step(b) {
        ParseStep::Item { entry, consumed } => {
            0 < consumed <= b.len() && parse_ok(b.skip(consumed))
        },
        ParseStep::Fail { error } => false,
        ParseStep::End => true,
    }
}

/// The first entry of `es` named `name`, if any.
pub open spec fn spec_find(es: Seq<EntryModel>, name: Seq<char>) -> Option<EntryModel>
    decreases es.len(),
{
    if es.len() == 0 {
        None
    } else if es[0].metadata.name == name {
        Some(es[0])
    } else {
        spec_find(es.drop_first(), name)
    }
}

/// The fixed header found at the start of every image.
#[derive(Debug, Copy, Clone, PartialEq, Eq, Structural)]
pub struct Header {
    /// The format version the image declares.
    pub format_version: FormatVersion,
    /// The byte length of the whole image, header included.
    pub total_size: u32,
}

impl Header {
    /// Reads the 16-byte header, returning it and the bytes that follow.
    pub fn from_bytes<'a>(data: &'a [u8]) -> (r: Result<(Header, &'a [u8]), Error>)
        ensures
            match r {
                Ok(p) => spec_parse_header(data@) == Ok::<_, Error>((p.0.total_size, p.1@))
                    && p.0.format_version == FormatVersion::Version100,
                Err(e) => spec_parse_header(data@) == Err::<(u32, Seq<u8>), Error>(e),
            },
    {
        if data.len() < 8 {
            return Err(Error::BufferTooSmall);
        }
        if !(data[0] == 0x4e && data[1] == 0x65 && data[2] == 0x6f && data[3] == 0x52
            && data[4] == 0x4f && data[5] == 0x4d && data[6] == 0x46 && data[7] == 0x53) {
            proof {
                assert(data@.subrange(0, 8) != magic()) by {
                    assert(forall|j: int|
                        0 <= j < 8 ==> data@.subrange(0, 8)[j] == data@[j]);
                }
            }
            return Err(Error::InvalidMagicHeader);
        }
        assert(data@.subrange(0, 8) =~= magic());
        if data.len() < 12 {
            return Err(Error::BufferTooSmall);
        }
        if !(data[8] == 0x00 && data[9] == 0x01 && data[10] == 0x00 && data[11] == 0x00) {
            proof {
                assert(data@.subrange(8, 12) != version_bytes()) by {
                    assert(forall|j: int|
                        0 <= j < 4 ==> data@.subrange(8, 12)[j] == data@[8 + j]);
                }
            }
            return Err(Error::UnknownVersion);
        }
        assert(data@.subrange(8, 12) =~= version_bytes());
        if data.len() < 16 {
            return Err(Error::BufferTooSmall);
        }
        let total_size = u32_from_be_bytes(data[12], data[13], data[14], data[15]);
        assert(seq![data@[12], data@[13], data@[14], data@[15]] =~= data@.subrange(12, 16));
        let rest = slice_subrange(data, 16, data.len());
        Ok((Header { format_version: FormatVersion::Version100, total_size }, rest))
    }
}

impl<'a> EntryMetadata<'a> {
    /// Reads the leading 24-byte metadata record of `data`, returning it and
    /// the bytes that follow it.
    pub fn from_bytes(data: &'a [u8]) -> (r: Result<(EntryMetadata<'a>, &'a [u8]), Error>)
        ensures
            match r {
                Ok(p) => spec_parse_metadata(data@) == Ok::<_, Error>((p.0@, p.1@)),
                Err(e) => spec_parse_metadata(data@) == Err::<(MetadataModel, Seq<u8>), Error>(e),
            },
    {
        proof {
            reveal(spec_parse_metadata);
        }
        if data.len() < 24 {
            return Err(Error::BufferTooSmall);
        }
        let field = slice_subrange(data, 0, 14);
        let Some(full_name) = bytes_as_str(field) else {
            return Err(Error::NonUnicodeFilename);
        };
        let mut k: usize = 0;
        while k < 14 && field[k] != 0
            invariant
                0 <= k <= 14,
                field@.len() == 14,
                forall|j: int| 0 <= j < k ==> field@[j] != 0,
            decreases 14 - k,
        {
            k = k + 1;
        }
        proof {
            lemma_first_nul_is(field@, k as int);
            if k < 14 {
                is_char_boundary_iff_not_is_continuation_byte(field@, k as int);
            } else {
                is_char_boundary_start_end_of_seq(field@);
            }
            assert(is_char_boundary(encode_utf8(full_name@), k as int));
        }
        let (name, _) = full_name.split_at(k);
        proof {
            encode_utf8_decode_utf8(name@);
            assert(encode_utf8(name@) == field@.subrange(0, first_nul(field@)));
        }
        let file_size = u32_from_be_bytes(data[14], data[15], data[16], data[17]);
        assert(seq![data@[14], data@[15], data@[16], data@[17]] =~= data@.subrange(14, 18));
        let ctime = Time {
            year_since_1970: data[18],
            zero_indexed_month: data[19],
            zero_indexed_day: data[20],
            hours: data[21],
            minutes: data[22],
            seconds: data[23],
        };
        let rest = slice_subrange(data, 24, data.len());
        let metadata = EntryMetadata { file_name: name, ctime, file_size };
        proof {
            let (m, rest_s) = spec_parse_metadata(data@)->Ok_0;
            assert(metadata@.name =~= m.name);
            assert(metadata@ == m);
            assert(rest@ =~= rest_s);
        }
        Ok((metadata, rest))
    }
}

/// A ROM filing system image, backed by a borrowed byte buffer.
pub struct RomFs<'a> {
    contents: &'a [u8],
}

impl<'a> View for RomFs<'a> {
    type V = Seq<u8>;

    /// The entry region of the image: every byte after the header.
    closed spec fn view(&self) -> Seq<u8> {
        self.contents@
    }
}

impl<'a> RomFs<'a> {
    /// Mounts an image held in the given block of memory.
    ///
    /// Succeeds exactly when the buffer starts with a well-formed header
    /// whose declared total size equals the buffer's length; the mounted
    /// image then views the bytes after the header.
    pub fn new(contents: &'a [u8]) -> (r: Result<RomFs<'a>, Error>)
        ensures
            match r {
                Ok(fs) => spec_parse_header(contents@) matches Ok((total, rest))
                    && total == contents@.len() && fs@ == rest,
                Err(Error::WrongSize) => spec_parse_header(contents@) matches Ok((total, _))
                    && total != contents@.len(),
                Err(e) => spec_parse_header(contents@) == Err::<(u32, Seq<u8>), Error>(e),
            },
    {
        let (header, remainder) = match Header::from_bytes(contents) {
            Ok(p) => p,
            Err(e) => {
                return Err(e);
            },
        };
        if contents.len() != header.total_size as usize {
            return Err(Error::WrongSize);
        }
        Ok(RomFs { contents: remainder })
    }

    /// Starts a fresh walk over the entries of the image.
    pub fn into_iter(self) -> (r: RomFsEntryIter<'a>)
        ensures
            r@ == self@,
    {
        RomFsEntryIter { contents: self.contents }
    }

    /// Finds the first entry whose name equals `file_name`, walking the
    /// entries in order and skipping nothing but a trailing decode error.
    pub fn find(&self, file_name: &str) -> (r: Option<Entry<'a>>)
        ensures
            match r {
                Some(e) => spec_find(parse_entries(self@), file_name@) == Some(e@),
                None => spec_find(parse_entries(self@), file_name@) is None,
            },
    {
        let mut iter = RomFsEntryIter { contents: self.contents };
        loop
            invariant
                spec_find(parse_entries(self@), file_name@) == spec_find(
                    parse_entries(iter@),
                    file_name@,
                ),
            decreases iter@.len(),
        {
            let ghost before = iter@;
            match iter.next() {
                None => {
                    return None;
                },
                Some(Err(_)) => {
                    return None;
                },
                Some(Ok(entry)) => {
                    proof {
                        lemma_parse_metadata_shape(before);
                        assert(parse_entries(before) == seq![entry@] + parse_entries(iter@));
                        assert((seq![entry@] + parse_entries(iter@)).drop_first() =~= parse_entries(
                            iter@,
                        ));
                    }
                    if str_eq(entry.metadata.file_name, file_name) {
                        return Some(entry);
                    }
                },
            }
        }
    }
}

/// A walk over the entries of an image, front to back.
pub struct RomFsEntryIter<'a> {
    contents: &'a [u8],
}

impl<'a> View for RomFsEntryIter<'a> {
    type V = Seq<u8>;

    /// The part of the entry region the walk has not consumed yet.
    closed spec fn view(&self) -> Seq<u8> {
        self.contents@
    }
}

impl<'a> RomFsEntryIter<'a> {
    /// Yields the next entry, an error that ends the walk, or nothing once
    /// the region is exhausted or the next entry's contents are cut off.
    pub fn next(&mut self) -> (r: Option<Result<Entry<'a>, Error>>)
        ensures
            match parse_step(old(self)@) {
                ParseStep::Item { entry, consumed } => r matches Some(res) && res matches Ok(e)
                    && e@ == entry && final(self)@ == old(self)@.skip(consumed),
                ParseStep::Fail { error } => r == Some(Err::<Entry<'a>, Error>(error))
                    && final(self)@ == Seq::<u8>::empty(),
                ParseStep::End => r is None && final(self)@ == old(self)@,
            },
    {
        if self.contents.len() == 0 {
            return None;
        }
        match EntryMetadata::from_bytes(self.contents) {
            Err(e) => {
                self.contents = slice_subrange(self.contents, 0, 0);
                assert(self.contents@ =~= Seq::<u8>::empty());
                Some(Err(e))
            },
            Ok((metadata, remainder)) => {
                if metadata.file_size as usize > remainder.len() {
                    return None;
                }
                let contents = slice_subrange(remainder, 0, metadata.file_size as usize);
                let rest = slice_subrange(
                    remainder,
                    metadata.file_size as usize,
                    remainder.len(),
                );
                proof {
                    lemma_parse_metadata_shape(old(self)@);
                    let consumed = 24 + metadata.file_size as int;
                    assert(rest@ =~= old(self)@.skip(consumed));
                }
                self.contents = rest;
                Some(Ok(Entry { metadata, contents }))
            },
        }
    }
}

/// Compares two strings by comparing their UTF-8 bytes.
fn str_eq(a: &str, b: &str) -> (r: bool)
    ensures
        r == (a@ == b@),
{
    let ab = a.as_bytes();
    let bb = b.as_bytes();
    proof {
        encode_utf8_decode_utf8(a@);
        encode_utf8_decode_utf8(b@);
    }
    if ab.len() != bb.len() {
        return false;
    }
    let n = ab.len();
    let mut i: usize = 0;
    while i < n
        invariant
            0 <= i <= n,
            n == ab@.len() == bb@.len(),
            ab@ == encode_utf8(a@),
            bb@ == encode_utf8(b@),
            decode_utf8(encode_utf8(a@)) == a@,
            decode_utf8(encode_utf8(b@)) == b@,
            forall|j: int| 0 <= j < i ==> ab@[j] == bb@[j],
        decreases n - i,
    {
        if ab[i] != bb[i] {
            return false;
        }
        i = i + 1;
    }
    assert(ab@ =~= bb@);
    true
}

} // verus!
