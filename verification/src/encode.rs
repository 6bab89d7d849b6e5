//! Serializing entries into the header-plus-entries byte layout.
//!
//! The encoder is a single pass with no state of its own: it sizes the
//! image, validates every name, and then writes the header followed by each
//! entry's metadata record and contents, in input order. Output goes either
//! into a caller-supplied byte buffer ([`RomFs::construct`]) or into any
//! append-only [`Sink`] ([`RomFs::construct_into`]).

use vstd::prelude::*;
use vstd::utf8::encode_utf8;

use crate::Error;
use crate::FormatVersion;
use crate::be::push_u32_be_bytes;
use crate::decode::Header;
use crate::layout::Entry;
use crate::layout::EntryMetadata;
use crate::layout::EntryModel;
use crate::layout::HEADER_SIZE;
use crate::layout::METADATA_SIZE;
use crate::layout::NAME_SIZE;
use crate::layout::all_names_fit;
use crate::layout::all_sizes_consistent;
use crate::layout::entries_bytes;
use crate::layout::entry_bytes;
use crate::layout::header_bytes;
use crate::layout::image_bytes;
use crate::layout::lemma_entries_bytes_len;
use crate::layout::lemma_entries_bytes_snoc;
use crate::layout::lemma_size_required_min;
use crate::layout::lemma_size_required_snoc;
use crate::layout::lemma_size_required_split;
use crate::layout::metadata_bytes;
use crate::layout::name_field;
use crate::layout::spec_size_required;

verus! {

/// An append-only destination for bytes that may refuse a write.
///
/// This is the minimal capability the encoder needs of an output channel:
/// a write either appends the whole block to what the sink has taken so
/// far, or fails with the sink left in an unspecified state.
pub trait Sink {
    /// The bytes the sink has accepted so far.
    spec fn sunk(&self) -> Seq<u8>;

    /// Appends every byte of `data` to the sink, or fails.
    fn accept(&mut self, data: &[u8]) -> (r: Result<(), ()>)
        ensures
            r is Ok ==> final(self).sunk() == old(self).sunk() + data@,
    ;
}

/// A [`Sink`] that grows a byte vector in memory and never fails.
pub struct VecSink {
    /// Every byte the sink has accepted, in order.
    pub data: Vec<u8>,
}

impl VecSink {
    /// An empty sink.
    pub fn new() -> (r: VecSink)
        ensures
            r.sunk() == Seq::<u8>::empty(),
    {
        VecSink { data: Vec::new() }
    }
}

impl Sink for VecSink {
    open spec fn sunk(&self) -> Seq<u8> {
        self.data@
    }

    fn accept(&mut self, data: &[u8]) -> (r: Result<(), ()>)
        ensures
            r is Ok,
            final(self).sunk() == old(self).sunk() + data@,
    {
        self.data.extend_from_slice(data);
        Ok(())
    }
}

/// Builds the 16 header bytes declaring `total_size` bytes overall.
fn header_to_bytes(total_size: u32) -> (r: Vec<u8>)
    ensures
        r@ == header_bytes(total_size),
{
    let mut v: Vec<u8> = Vec::new();
    v.push(0x4e);
    v.push(0x65);
    v.push(0x6f);
    v.push(0x52);
    v.push(0x4f);
    v.push(0x4d);
    v.push(0x46);
    v.push(0x53);
    v.push(0x00);
    v.push(0x01);
    v.push(0x00);
    v.push(0x00);
    push_u32_be_bytes(&mut v, total_size);
    assert(v@ =~= header_bytes(total_size));
    v
}

impl Header {
    /// Writes the 16 header bytes to the sink.
    pub fn write_into<S: Sink>(&self, sink: &mut S) -> (r: Result<usize, Error>)
        ensures
            match r {
                Ok(n) => n == HEADER_SIZE && final(sink).sunk() == old(sink).sunk()
                    + header_bytes(self.total_size),
                Err(e) => e == Error::SinkError,
            },
    {
        let bytes = header_to_bytes(self.total_size);
        match sink.accept(bytes.as_slice()) {
            Ok(_) => Ok(HEADER_SIZE),
            Err(_) => Err(Error::SinkError),
        }
    }
}

impl<'a> EntryMetadata<'a> {
    /// Builds the 24 bytes of this metadata record, or fails when the name
    /// does not fit its field.
    pub fn to_bytes(&self) -> (r: Result<Vec<u8>, Error>)
        ensures
            match r {
                Ok(v) => self@.name_fits() && v@ == metadata_bytes(self@) && v@.len()
                    == METADATA_SIZE,
                Err(e) => e == Error::FilenameTooLong && !self@.name_fits(),
            },
    {
        let name_bytes = self.file_name.as_bytes();
        if name_bytes.len() > NAME_SIZE {
            return Err(Error::FilenameTooLong);
        }
        let ghost name_len = name_bytes@.len() as int;
        let mut v: Vec<u8> = Vec::new();
        v.extend_from_slice(name_bytes);
        let mut pad: usize = name_bytes.len();
        while pad < NAME_SIZE
            invariant
                name_len == name_bytes@.len(),
                name_len <= pad <= NAME_SIZE,
                v@.len() == pad,
                v@.subrange(0, name_len) == name_bytes@,
                forall|k: int| name_len <= k < pad ==> v@[k] == 0,
            decreases NAME_SIZE - pad,
        {
            v.push(0u8);
            assert(v@.subrange(0, name_len) =~= name_bytes@);
            pad = pad + 1;
        }
        assert(v@ =~= name_field(self@));
        push_u32_be_bytes(&mut v, self.file_size);
        v.push(self.ctime.year_since_1970);
        v.push(self.ctime.zero_indexed_month);
        v.push(self.ctime.zero_indexed_day);
        v.push(self.ctime.hours);
        v.push(self.ctime.minutes);
        v.push(self.ctime.seconds);
        assert(v@ =~= metadata_bytes(self@));
        Ok(v)
    }

    /// Writes the 24 bytes of this metadata record to the sink: the name
    /// null-padded to 14 bytes, the big-endian content length, and the six
    /// timestamp bytes. Writes nothing when the name does not fit.
    pub fn write_into<S: Sink>(&self, sink: &mut S) -> (r: Result<usize, Error>)
        ensures
            match r {
                Ok(n) => n == METADATA_SIZE && self@.name_fits() && final(sink).sunk() == old(
                    sink,
                ).sunk() + metadata_bytes(self@),
                Err(Error::FilenameTooLong) => !self@.name_fits() && final(sink).sunk() == old(
                    sink,
                ).sunk(),
                Err(e) => e == Error::SinkError && self@.name_fits(),
            },
    {
        let bytes = match self.to_bytes() {
            Ok(v) => v,
            Err(e) => {
                return Err(e);
            },
        };
        match sink.accept(bytes.as_slice()) {
            Ok(_) => Ok(METADATA_SIZE),
            Err(_) => Err(Error::SinkError),
        }
    }
}

/// Builds the complete image for `entries` in memory, or fails with the
/// first name that does not fit its field, building nothing.
fn encode_image(entries: &[Entry]) -> (r: Result<Vec<u8>, Error>)
    requires
        all_sizes_consistent(entries.deep_view()),
        spec_size_required(entries.deep_view()) <= u32::MAX,
    ensures
        ({
            let es = entries.deep_view();
            match r {
                Ok(v) => all_names_fit(es) && v@ == image_bytes(es) && v@.len()
                    == spec_size_required(es),
                Err(e) => e == Error::FilenameTooLong && !all_names_fit(es),
            }
        }),
{
    let ghost es = entries.deep_view();
    proof {
        assert(spec_size_required(es) <= usize::MAX);
    }
    let total = crate::decode::RomFs::size_required(entries);
    let mut v = header_to_bytes(total as u32);
    let mut i: usize = 0;
    while i < entries.len()
        invariant
            es == entries.deep_view(),
            es.len() == entries@.len(),
            all_sizes_consistent(es),
            spec_size_required(es) <= u32::MAX,
            total == spec_size_required(es),
            0 <= i <= es.len(),
            all_names_fit(es.take(i as int)),
            v@ == header_bytes(total as u32) + entries_bytes(es.take(i as int)),
        decreases es.len() - i,
    {
        let e = entries[i];
        assert(e@ == es[i as int]);
        match e.metadata.to_bytes() {
            Err(_) => {
                assert(!all_names_fit(es));
                return Err(Error::FilenameTooLong);
            },
            Ok(mb) => {
                v.extend_from_slice(mb.as_slice());
                v.extend_from_slice(e.contents);
                proof {
                    lemma_entries_bytes_snoc(es.take(i as int), es[i as int]);
                    assert(es.take(i as int).push(es[i as int]) =~= es.take(i as int + 1));
                    assert(all_names_fit(es.take(i as int + 1)));
                    assert(v@ =~= header_bytes(total as u32) + entries_bytes(
                        es.take(i as int + 1),
                    ));
                }
            },
        }
        i = i + 1;
    }
    proof {
        assert(es.take(es.len() as int) =~= es);
        lemma_entries_bytes_len(es);
    }
    Ok(v)
}

impl<'a> crate::decode::RomFs<'a> {
    /// The exact number of bytes an image holding `entries` occupies: the
    /// 16-byte header plus, for each entry, its 24-byte metadata record and
    /// its contents.
    pub fn size_required(entries: &[Entry]) -> (r: usize)
        requires
            spec_size_required(entries.deep_view()) <= usize::MAX,
        ensures
            r == spec_size_required(entries.deep_view()),
    {
        let ghost es = entries.deep_view();
        let mut total: usize = HEADER_SIZE;
        let mut i: usize = 0;
        while i < entries.len()
            invariant
                es == entries.deep_view(),
                es.len() == entries@.len(),
                spec_size_required(es) <= usize::MAX,
                0 <= i <= es.len(),
                total == spec_size_required(es.take(i as int)),
            decreases es.len() - i,
        {
            let e = entries[i];
            assert(e@ == es[i as int]);
            proof {
                lemma_size_required_snoc(es.take(i as int), es[i as int]);
                assert(es.take(i as int).push(es[i as int]) =~= es.take(i as int + 1));
                lemma_size_required_split(es, i as int + 1);
                lemma_size_required_min(es.skip(i as int + 1));
            }
            total = total + METADATA_SIZE + e.contents.len();
            i = i + 1;
        }
        proof {
            assert(es.take(es.len() as int) =~= es);
        }
        total
    }

    /// Serializes `entries` into the front of `buffer`, returning the number
    /// of bytes used; the rest of the buffer is left as it was. Fails with
    /// [`Error::BufferTooSmall`] when the buffer is shorter than
    /// [`RomFs::size_required`], and with [`Error::FilenameTooLong`] when
    /// some name does not fit its 14-byte field; either failure leaves the
    /// whole buffer unchanged.
    pub fn construct(buffer: &mut [u8], entries: &[Entry]) -> (r: Result<usize, Error>)
        requires
            all_sizes_consistent(entries.deep_view()),
            spec_size_required(entries.deep_view()) <= u32::MAX,
        ensures
            ({
                let es = entries.deep_view();
                match r {
                    Ok(n) => all_names_fit(es) && n == spec_size_required(es) && final(buffer)@
                        == image_bytes(es) + old(buffer)@.skip(n as int),
                    Err(Error::BufferTooSmall) => old(buffer)@.len() < spec_size_required(es)
                        && final(buffer)@ == old(buffer)@,
                    Err(Error::FilenameTooLong) => old(buffer)@.len() >= spec_size_required(es)
                        && !all_names_fit(es) && final(buffer)@ == old(buffer)@,
                    Err(_) => false,
                }
            }),
    {
        let ghost es = entries.deep_view();
        proof {
            assert(spec_size_required(es) <= usize::MAX);
        }
        let total = Self::size_required(entries);
        if buffer.len() < total {
            return Err(Error::BufferTooSmall);
        }
        let image = match encode_image(entries) {
            Ok(v) => v,
            Err(e) => {
                return Err(e);
            },
        };
        let mut j: usize = 0;
        while j < image.len()
            invariant
                image@.len() == spec_size_required(es),
                buffer@.len() == old(buffer)@.len(),
                image@.len() <= buffer@.len(),
                0 <= j <= image@.len(),
                forall|k: int| 0 <= k < j ==> buffer@[k] == image@[k],
                forall|k: int| j <= k < buffer@.len() ==> buffer@[k] == old(buffer)@[k],
            decreases image@.len() - j,
        {
            let b = image[j];
            buffer[j] = b;
            j = j + 1;
        }
        assert(buffer@ =~= image@ + old(buffer)@.skip(total as int));
        Ok(total)
    }

    /// Serializes `entries` into the given sink, returning the number of
    /// bytes written: the header first, then each entry's metadata record
    /// and contents, in input order. All names are validated before the
    /// first write, so a name that does not fit leaves the sink untouched;
    /// a write the sink refuses surfaces as [`Error::SinkError`].
    pub fn construct_into<S: Sink>(sink: &mut S, entries: &[Entry]) -> (r: Result<usize, Error>)
        requires
            all_sizes_consistent(entries.deep_view()),
            spec_size_required(entries.deep_view()) <= u32::MAX,
        ensures
            ({
                let es = entries.deep_view();
                match r {
                    Ok(n) => all_names_fit(es) && n == spec_size_required(es) && final(sink).sunk()
                        == old(sink).sunk() + image_bytes(es),
                    Err(Error::FilenameTooLong) => !all_names_fit(es) && final(sink).sunk() == old(
                        sink,
                    ).sunk(),
                    Err(Error::SinkError) => all_names_fit(es),
                    Err(_) => false,
                }
            }),
    {
        let ghost es = entries.deep_view();
        let mut i: usize = 0;
        while i < entries.len()
            invariant
                es == entries.deep_view(),
                es.len() == entries@.len(),
                0 <= i <= es.len(),
                all_names_fit(es.take(i as int)),
            decreases es.len() - i,
        {
            let e = entries[i];
            assert(e@ == es[i as int]);
            if e.metadata.file_name.as_bytes().len() > NAME_SIZE {
                assert(!es[i as int].metadata.name_fits());
                return Err(Error::FilenameTooLong);
            }
            proof {
                assert(es[i as int].metadata.name_fits());
                assert(es.take(i as int + 1) =~= es.take(i as int).push(es[i as int]));
            }
            i = i + 1;
        }
        proof {
            assert(es.take(es.len() as int) =~= es);
            assert(all_names_fit(es));
            assert(spec_size_required(es) <= usize::MAX);
        }
        let total = Self::size_required(entries);
        let header = Header { format_version: FormatVersion::Version100, total_size: total as u32 };
        let mut used = match header.write_into(sink) {
            Ok(n) => n,
            Err(_) => {
                return Err(Error::SinkError);
            },
        };
        let mut i: usize = 0;
        while i < entries.len()
            invariant
                es == entries.deep_view(),
                es.len() == entries@.len(),
                all_sizes_consistent(es),
                all_names_fit(es),
                spec_size_required(es) <= u32::MAX,
                total == spec_size_required(es),
                0 <= i <= es.len(),
                used == spec_size_required(es.take(i as int)),
                sink.sunk() == old(sink).sunk() + header_bytes(total as u32) + entries_bytes(
                    es.take(i as int),
                ),
            decreases es.len() - i,
        {
            let e = entries[i];
            assert(e@ == es[i as int]);
            proof {
                lemma_size_required_snoc(es.take(i as int), es[i as int]);
                assert(es.take(i as int).push(es[i as int]) =~= es.take(i as int + 1));
                lemma_size_required_split(es, i as int + 1);
                lemma_size_required_min(es.skip(i as int + 1));
            }
            match e.metadata.write_into(sink) {
                Ok(n) => {
                    used = used + n;
                },
                Err(err) => {
                    assert(err == Error::SinkError);
                    return Err(Error::SinkError);
                },
            }
            match sink.accept(e.contents) {
                Ok(_) => {},
                Err(_) => {
                    return Err(Error::SinkError);
                },
            }
            used = used + e.contents.len();
            proof {
                lemma_entries_bytes_snoc(es.take(i as int), es[i as int]);
                assert(entry_bytes(es[i as int]) == metadata_bytes(es[i as int].metadata)
                    + es[i as int].contents);
                assert(sink.sunk() =~= old(sink).sunk() + header_bytes(total as u32)
                    + entries_bytes(es.take(i as int + 1)));
            }
            i = i + 1;
        }
        proof {
            assert(es.take(es.len() as int) =~= es);
            assert(old(sink).sunk() + header_bytes(total as u32) + entries_bytes(es) =~= old(
                sink,
            ).sunk() + image_bytes(es));
        }
        Ok(used)
    }
}

} // verus!
