//! The byte-exact layout of an image, and the entry types it stores.
//!
//! An image is `header_bytes` followed by `entries_bytes`: every multi-byte
//! integer is big-endian, every entry is a 24-byte metadata record (14 bytes
//! of null-padded UTF-8 name, a 4-byte content length, 6 timestamp bytes)
//! followed immediately by exactly that many content bytes.

use vstd::prelude::*;
use vstd::utf8::encode_utf8;

use crate::Time;
use crate::be::spec_u32_to_be_bytes;

verus! {

/// Number of bytes in the fixed image header.
pub const HEADER_SIZE: usize = 16;

/// Number of bytes in one entry's metadata record.
pub const METADATA_SIZE: usize = 24;

/// Number of bytes reserved for a file name in a metadata record.
pub const NAME_SIZE: usize = 14;

/// Metadata for one entry: its name, creation time and content length.
#[derive(Debug, Copy, Clone)]
pub struct EntryMetadata<'a> {
    /// The file name of this entry.
    pub file_name: &'a str,
    /// The creation time of the file this entry holds.
    pub ctime: Time,
    /// The length in bytes of the contents that follow the metadata.
    pub file_size: u32,
}

/// One entry of an image: metadata plus the content bytes themselves.
#[derive(Debug, Copy, Clone)]
pub struct Entry<'a> {
    /// Metadata for this entry.
    pub metadata: EntryMetadata<'a>,
    /// The file contents of this entry.
    pub contents: &'a [u8],
}

/// The mathematical value of an [`EntryMetadata`].
pub struct MetadataModel {
    /// The file name, as a sequence of characters.
    pub name: Seq<char>,
    /// The creation time.
    pub ctime: Time,
    /// The declared content length.
    pub file_size: u32,
}

/// The mathematical value of an [`Entry`].
pub struct EntryModel {
    /// The metadata of the entry.
    pub metadata: MetadataModel,
    /// The content bytes of the entry.
    pub contents: Seq<u8>,
}

impl<'a> View for EntryMetadata<'a> {
    type V = MetadataModel;

    open spec fn view(&self) -> MetadataModel {
        MetadataModel { name: self.file_name@, ctime: self.ctime, file_size: self.file_size }
    }
}

impl<'a> DeepView for EntryMetadata<'a> {
    type V = MetadataModel;

    open spec fn deep_view(&self) -> MetadataModel {
        self.view()
    }
}

impl<'a> View for Entry<'a> {
    type V = EntryModel;

    open spec fn view(&self) -> EntryModel {
        EntryModel { metadata: self.metadata@, contents: self.contents@ }
    }
}

impl<'a> DeepView for Entry<'a> {
    type V = EntryModel;

    open spec fn deep_view(&self) -> EntryModel {
        self.view()
    }
}

impl MetadataModel {
    /// The UTF-8 bytes of the entry's name, before padding.
    pub open spec fn name_bytes(self) -> Seq<u8> {
        encode_utf8(self.name)
    }

    /// True when the name's UTF-8 encoding fits the 14-byte name field.
    pub open spec fn name_fits(self) -> bool {
        self.name_bytes().len() <= NAME_SIZE
    }
}

impl EntryModel {
    /// True when the declared length matches the contents actually held.
    pub open spec fn size_consistent(self) -> bool {
        self.metadata.file_size == self.contents.len()
    }
}

/// True when every entry of `es` has a name that fits its 14-byte field.
pub open spec fn all_names_fit(es: Seq<EntryModel>) -> bool {
    forall|i: int| 0 <= i < es.len() ==> (#[trigger] es[i]).metadata.name_fits()
}

/// True when every entry of `es` declares the length it actually holds.
pub open spec fn all_sizes_consistent(es: Seq<EntryModel>) -> bool {
    forall|i: int| 0 <= i < es.len() ==> (#[trigger] es[i]).size_consistent()
}

/// The eight magic bytes at the start of every image: ASCII `NeoROMFS`.
pub open spec fn magic() -> Seq<u8> {
    seq![0x4e, 0x65, 0x6f, 0x52, 0x4f, 0x4d, 0x46, 0x53]
}

/// The four version bytes of the only recognised format version.
pub open spec fn version_bytes() -> Seq<u8> {
    seq![0x00, 0x01, 0x00, 0x00]
}

/// The 16 header bytes of an image declaring `total_size` bytes overall.
pub open spec fn header_bytes(total_size: u32) -> Seq<u8> {
    magic() + version_bytes() + spec_u32_to_be_bytes(total_size)
}

/// The 14-byte name field: the name's UTF-8 bytes, null-padded on the right.
pub open spec fn name_field(m: MetadataModel) -> Seq<u8>
    recommends
        m.name_fits(),
{
    m.name_bytes() + Seq::new((NAME_SIZE - m.name_bytes().len()) as nat, |i: int| 0u8)
}

/// The six timestamp bytes, in wire order.
pub open spec fn time_bytes(t: Time) -> Seq<u8> {
    seq![
        t.year_since_1970,
        t.zero_indexed_month,
        t.zero_indexed_day,
        t.hours,
        t.minutes,
        t.seconds,
    ]
}

/// The 24 bytes of one metadata record.
pub open spec fn metadata_bytes(m: MetadataModel) -> Seq<u8>
    recommends
        m.name_fits(),
{
    name_field(m) + spec_u32_to_be_bytes(m.file_size) + time_bytes(m.ctime)
}

/// The bytes of one entry: its metadata record, then its contents.
pub open spec fn entry_bytes(e: EntryModel) -> Seq<u8>
    recommends
        e.metadata.name_fits(),
{
    metadata_bytes(e.metadata) + e.contents
}

/// The bytes of a sequence of entries, concatenated without padding.
pub open spec fn entries_bytes(es: Seq<EntryModel>) -> Seq<u8>
    decreases es.len(),
{
    if es.len() == 0 {
        Seq::empty()
    } else {
        entry_bytes(es[0]) + entries_bytes(es.drop_first())
    }
}

/// The exact byte length of the image holding `es`: the header, then for
/// each entry its metadata record and its contents.
pub open spec fn spec_size_required(es: Seq<EntryModel>) -> int
    decreases es.len(),
{
    if es.len() == 0 {
        HEADER_SIZE as int
    } else {
        spec_size_required(es.drop_first()) + METADATA_SIZE + es[0].contents.len()
    }
}

/// The whole image holding `es`: the header declaring the exact total
/// length, then the entries.
pub open spec fn image_bytes(es: Seq<EntryModel>) -> Seq<u8>
    recommends
        all_names_fit(es),
        all_sizes_consistent(es),
        spec_size_required(es) <= u32::MAX,
{
    header_bytes(spec_size_required(es) as u32) + entries_bytes(es)
}

/// The image is never smaller than its bare header.
pub proof fn lemma_size_required_min(es: Seq<EntryModel>)
    ensures
        spec_size_required(es) >= HEADER_SIZE,
    decreases es.len(),
{
    if es.len() != 0 {
        lemma_size_required_min(es.drop_first());
    }
}

/// Appending one entry grows the required size by that entry's metadata
/// record and contents.
pub proof fn lemma_size_required_snoc(es: Seq<EntryModel>, e: EntryModel)
    ensures
        spec_size_required(es.push(e)) == spec_size_required(es) + METADATA_SIZE
            + e.contents.len(),
    decreases es.len(),
{
    if es.len() == 0 {
        assert(es.push(e).drop_first() =~= es);
    } else {
        assert(es.push(e).drop_first() =~= es.drop_first().push(e));
        lemma_size_required_snoc(es.drop_first(), e);
    }
}

/// The required size of `es` splits at any index `i` into the sizes of the
/// two halves, counting the fixed header once.
pub proof fn lemma_size_required_split(es: Seq<EntryModel>, i: int)
    requires
        0 <= i <= es.len(),
    ensures
        spec_size_required(es) == spec_size_required(es.take(i)) + spec_size_required(es.skip(i))
            - HEADER_SIZE,
    decreases i,
{
    if i == 0 {
        assert(es.take(0) =~= Seq::<EntryModel>::empty());
        assert(es.skip(0) =~= es);
    } else {
        assert(es.take(i).drop_first() =~= es.drop_first().take(i - 1));
        assert(es.skip(i) =~= es.drop_first().skip(i - 1));
        assert(es.take(i)[0] == es[0]);
        lemma_size_required_split(es.drop_first(), i - 1);
    }
}

/// Appending one entry appends exactly that entry's bytes.
pub proof fn lemma_entries_bytes_snoc(es: Seq<EntryModel>, e: EntryModel)
    ensures
        entries_bytes(es.push(e)) == entries_bytes(es) + entry_bytes(e),
    decreases es.len(),
{
    if es.len() == 0 {
        assert(es.push(e)[0] == e);
        assert(es.push(e).drop_first() =~= es);
        assert(entries_bytes(es.push(e)) == entry_bytes(e) + entries_bytes(es));
        assert(entry_bytes(e) + entries_bytes(es) =~= entries_bytes(es) + entry_bytes(e));
    } else {
        assert(es.push(e)[0] == es[0]);
        assert(es.push(e).drop_first() =~= es.drop_first().push(e));
        lemma_entries_bytes_snoc(es.drop_first(), e);
        assert(entries_bytes(es.push(e)) =~= entries_bytes(es) + entry_bytes(e));
    }
}

/// For entries whose names fit, the entry region's byte length is exactly
/// what `spec_size_required` counts beyond the header.
pub proof fn lemma_entries_bytes_len(es: Seq<EntryModel>)
    requires
        all_names_fit(es),
    ensures
        entries_bytes(es).len() == spec_size_required(es) - HEADER_SIZE,
    decreases es.len(),
{
    if es.len() != 0 {
        assert(es[0].metadata.name_fits());
        assert(all_names_fit(es.drop_first())) by {
            assert(forall|i: int|
                0 <= i < es.drop_first().len() ==> es.drop_first()[i] == es[i + 1]);
        }
        lemma_entries_bytes_len(es.drop_first());
    }
}

} // verus!
