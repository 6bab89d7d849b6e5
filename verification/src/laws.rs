//! Properties that tie the encoder and decoder together.
//!
//! The central results: an image built from entries parses back to exactly
//! those entries ([`lemma_round_trip`]); its length is exactly what
//! [`crate::decode::RomFs::size_required`] counts ([`lemma_image_len`]); and
//! cutting an image short inside the last entry's contents silently drops
//! that entry and nothing else ([`lemma_truncated_entries`]).

use vstd::prelude::*;
use vstd::utf8::char_is_scalar;
use vstd::utf8::char_u32_cast;
use vstd::utf8::decode_utf8;
use vstd::utf8::encode_scalar;
use vstd::utf8::encode_utf8;
use vstd::utf8::encode_utf8_decode_utf8;
use vstd::utf8::encode_utf8_valid_utf8;
use vstd::utf8::is_scalar;
use vstd::utf8::valid_utf8;
use vstd::utf8::valid_utf8_concat;

use crate::Error;
use crate::be::lemma_u32_be_bytes_roundtrip;
use crate::be::spec_u32_to_be_bytes;
use crate::decode::ParseStep;
use crate::decode::first_nul;
use crate::decode::lemma_first_nul_is;
use crate::decode::parse_entries;
use crate::decode::parse_ok;
use crate::decode::parse_step;
use crate::decode::spec_parse_header;
use crate::decode::spec_parse_metadata;
use crate::layout::EntryModel;
use crate::layout::HEADER_SIZE;
use crate::layout::METADATA_SIZE;
use crate::layout::MetadataModel;
use crate::layout::NAME_SIZE;
use crate::layout::all_names_fit;
use crate::layout::all_sizes_consistent;
use crate::layout::entries_bytes;
use crate::layout::entry_bytes;
use crate::layout::header_bytes;
use crate::layout::image_bytes;
use crate::layout::lemma_entries_bytes_len;
use crate::layout::lemma_entries_bytes_snoc;
use crate::layout::lemma_size_required_min;
use crate::layout::magic;
use crate::layout::metadata_bytes;
use crate::layout::name_field;
use crate::layout::spec_size_required;
use crate::layout::version_bytes;

verus! {

/// True when no character of the name is the padding null.
///
/// A null character inside a name survives encoding but is indistinguishable
/// from padding on the way back, so only such names decode to themselves.
pub open spec fn name_nul_free(m: MetadataModel) -> bool {
    forall|i: int| 0 <= i < m.name.len() ==> m.name[i] != '\0'
}

/// A run of zero bytes is valid UTF-8: each is the one-byte encoding of the
/// null character.
proof fn lemma_zeros_valid_utf8(n: nat)
    ensures
        valid_utf8(Seq::new(n, |i: int| 0u8)),
    decreases n,
{
    if n > 0 {
        let zeros = Seq::new(n, |i: int| 0u8);
        assert(zeros[0] == 0u8);
        lemma_zeros_valid_utf8((n - 1) as nat);
        assert(zeros.subrange(1, n as int) =~= Seq::new((n - 1) as nat, |i: int| 0u8));
    }
}

/// The encoding of a non-null scalar contains no zero byte.
proof fn lemma_encode_scalar_nonzero(v: u32)
    requires
        is_scalar(v),
        v != 0,
    ensures
        forall|j: int| 0 <= j < encode_scalar(v).len() ==> encode_scalar(v)[j] != 0,
{
    if v <= 0x7F {
        assert(((v & 0x7F) as u8) != 0) by (bit_vector)
            requires
                0 < v <= 0x7F,
        ;
    }
    assert((0xC0u8 | ((v >> 6) & 0x1F) as u8) != 0) by (bit_vector);
    assert((0xE0u8 | ((v >> 12) & 0x0F) as u8) != 0) by (bit_vector);
    assert((0xF0u8 | ((v >> 18) & 0x7) as u8) != 0) by (bit_vector);
    assert((0x80u8 | (v & 0x3F) as u8) != 0) by (bit_vector);
    assert((0x80u8 | ((v >> 6) & 0x3F) as u8) != 0) by (bit_vector);
    assert((0x80u8 | ((v >> 12) & 0x3F) as u8) != 0) by (bit_vector);
}

/// The encoding of a null-free name contains no zero byte.
proof fn lemma_encode_utf8_nul_free(name: Seq<char>)
    requires
        forall|i: int| 0 <= i < name.len() ==> name[i] != '\0',
    ensures
        forall|j: int| 0 <= j < encode_utf8(name).len() ==> encode_utf8(name)[j] != 0,
    decreases name.len(),
{
    if name.len() > 0 {
        let c = name[0];
        let v = c as u32;
        char_is_scalar(c);
        assert(v != 0) by {
            if v == 0 {
                char_u32_cast(c, v);
                assert('\0' as u32 == 0);
                char_u32_cast('\0', 0);
                assert(c == '\0');
            }
        }
        lemma_encode_scalar_nonzero(v);
        assert(forall|i: int| 0 <= i < name.drop_first().len() ==> name.drop_first()[i] != '\0');
        lemma_encode_utf8_nul_free(name.drop_first());
        assert forall|j: int| 0 <= j < encode_utf8(name).len() implies encode_utf8(name)[j]
            != 0 by {
            let head = encode_scalar(v);
            if j < head.len() {
                assert(encode_utf8(name)[j] == head[j]);
            } else {
                assert(encode_utf8(name)[j] == encode_utf8(name.drop_first())[j - head.len()]);
            }
        }
    }
}

/// The 14-byte name field of a fitting, null-free name is valid UTF-8, its
/// first zero byte sits right after the name's bytes, and the bytes before
/// it decode back to the name.
proof fn lemma_name_field_round_trip(m: MetadataModel)
    requires
        m.name_fits(),
        name_nul_free(m),
    ensures
        valid_utf8(name_field(m)),
        first_nul(name_field(m)) == m.name_bytes().len(),
        name_field(m).subrange(0, m.name_bytes().len() as int) =~= m.name_bytes(),
        decode_utf8(m.name_bytes()) == m.name,
        name_field(m).len() == NAME_SIZE,
{
    let nb = m.name_bytes();
    let field = name_field(m);
    let pad = Seq::new((NAME_SIZE - nb.len()) as nat, |i: int| 0u8);
    encode_utf8_valid_utf8(m.name);
    lemma_zeros_valid_utf8((NAME_SIZE - nb.len()) as nat);
    valid_utf8_concat(nb, pad);
    lemma_encode_utf8_nul_free(m.name);
    assert forall|j: int| 0 <= j < nb.len() implies field[j] != 0 by {
        assert(field[j] == nb[j]);
    }
    if nb.len() < field.len() {
        assert(field[nb.len() as int] == pad[0]);
    }
    lemma_first_nul_is(field, nb.len() as int);
    assert(field.subrange(0, nb.len() as int) =~= nb);
    encode_utf8_decode_utf8(m.name);
}

/// True when no entry of `es` has a padding null in its name.
pub open spec fn all_names_nul_free(es: Seq<EntryModel>) -> bool {
    forall|i: int| 0 <= i < es.len() ==> name_nul_free((#[trigger] es[i]).metadata)
}

/// A metadata record written for a fitting, null-free name parses back to
/// exactly that record, whatever bytes follow it.
proof fn lemma_parse_metadata_bytes(m: MetadataModel, suffix: Seq<u8>)
    requires
        m.name_fits(),
        name_nul_free(m),
    ensures
        spec_parse_metadata(metadata_bytes(m) + suffix) == Ok::<_, Error>((m, suffix)),
{
    reveal(spec_parse_metadata);
    let b = metadata_bytes(m) + suffix;
    let field = name_field(m);
    lemma_name_field_round_trip(m);
    assert(metadata_bytes(m).len() == METADATA_SIZE);
    assert(b.subrange(0, 14) =~= field);
    assert(b.subrange(14, 18) =~= spec_u32_to_be_bytes(m.file_size));
    lemma_u32_be_bytes_roundtrip(m.file_size);
    assert(b[18] == m.ctime.year_since_1970);
    assert(b[19] == m.ctime.zero_indexed_month);
    assert(b[20] == m.ctime.zero_indexed_day);
    assert(b[21] == m.ctime.hours);
    assert(b[22] == m.ctime.minutes);
    assert(b[23] == m.ctime.seconds);
    assert(b.skip(24) =~= suffix);
    assert(field.subrange(0, first_nul(field)) =~= m.name_bytes());
    assert(spec_parse_metadata(b) == Ok::<_, Error>((m, suffix)));
}

/// Concatenation of sequences associates.
proof fn lemma_seq_add_assoc<A>(x: Seq<A>, y: Seq<A>, z: Seq<A>)
    ensures
        (x + y) + z == x + (y + z),
{
    assert((x + y) + z =~= x + (y + z));
}

/// Taking the length of the first half of a concatenation yields it.
proof fn lemma_seq_add_take<A>(x: Seq<A>, y: Seq<A>)
    ensures
        (x + y).take(x.len() as int) == x,
{
    assert((x + y).take(x.len() as int) =~= x);
}

/// Skipping the length of the first half of a concatenation yields the rest.
proof fn lemma_seq_add_skip<A>(x: Seq<A>, y: Seq<A>)
    ensures
        (x + y).skip(x.len() as int) == y,
{
    assert((x + y).skip(x.len() as int) =~= y);
}

/// The bytes of one complete entry, followed by anything, parse as one step
/// to exactly that entry.
proof fn lemma_parse_step_entry(e: EntryModel, rest: Seq<u8>, b: Seq<u8>)
    requires
        e.metadata.name_fits(),
        e.size_consistent(),
        name_nul_free(e.metadata),
        b == entry_bytes(e) + rest,
    ensures
        parse_step(b) == (ParseStep::Item {
            entry: e,
            consumed: METADATA_SIZE + e.metadata.file_size as int,
        }),
{
    let m = e.metadata;
    assert(b == metadata_bytes(m) + (e.contents + rest)) by {
        lemma_seq_add_assoc(metadata_bytes(m), e.contents, rest);
    }
    lemma_parse_metadata_bytes(m, e.contents + rest);
    assert(metadata_bytes(m).len() == METADATA_SIZE);
    assert(b.len() > 0);
    assert(e.metadata.file_size <= (e.contents + rest).len());
    assert((e.contents + rest).take(e.metadata.file_size as int) == e.contents) by {
        lemma_seq_add_take(e.contents, rest);
    }
}

/// One unfolding of the walk: a step that yields an entry prepends it to
/// whatever the bytes after it yield.
proof fn lemma_parse_unfold(b: Seq<u8>, e: EntryModel, consumed: int)
    requires
        parse_step(b) == (ParseStep::Item { entry: e, consumed }),
        0 < consumed <= b.len(),
    ensures
        parse_entries(b) == seq![e] + parse_entries(b.skip(consumed)),
        parse_ok(b) == parse_ok(b.skip(consumed)),
{
}

/// Parsing the bytes of well-formed entries followed by any tail yields
/// those entries followed by whatever the tail yields.
proof fn lemma_parse_entries_concat(es: Seq<EntryModel>, tail: Seq<u8>)
    requires
        all_names_fit(es),
        all_sizes_consistent(es),
        all_names_nul_free(es),
    ensures
        parse_entries(entries_bytes(es) + tail) == es + parse_entries(tail),
        parse_ok(entries_bytes(es) + tail) == parse_ok(tail),
    decreases es.len(),
{
    if es.len() == 0 {
        assert(entries_bytes(es) + tail =~= tail);
        assert(es + parse_entries(tail) =~= parse_entries(tail));
    } else {
        let e = es[0];
        let rest = es.drop_first();
        assert(all_names_fit(rest) && all_sizes_consistent(rest) && all_names_nul_free(rest)) by {
            assert(forall|i: int| 0 <= i < rest.len() ==> rest[i] == es[i + 1]);
        }
        let b = entries_bytes(es) + tail;
        let consumed = METADATA_SIZE + e.metadata.file_size as int;
        assert(entries_bytes(es) == entry_bytes(e) + entries_bytes(rest));
        assert(parse_step(b) == (ParseStep::Item { entry: e, consumed })) by {
            lemma_seq_add_assoc(entry_bytes(e), entries_bytes(rest), tail);
            lemma_parse_step_entry(e, entries_bytes(rest) + tail, b);
        }
        assert(entry_bytes(e).len() == consumed) by {
            assert(metadata_bytes(e.metadata).len() == METADATA_SIZE);
        }
        assert(0 < consumed <= b.len());
        assert(b.skip(consumed) == entries_bytes(rest) + tail) by {
            lemma_seq_add_assoc(entry_bytes(e), entries_bytes(rest), tail);
            lemma_seq_add_skip(entry_bytes(e), entries_bytes(rest) + tail);
        }
        lemma_parse_unfold(b, e, consumed);
        lemma_parse_entries_concat(rest, tail);
        assert(seq![e] + (rest + parse_entries(tail)) =~= es + parse_entries(tail));
    }
}

/// A buffer whose first eight bytes differ from the magic signature is
/// rejected with the magic-header error, whatever the rest of it holds.
pub proof fn lemma_bad_magic_rejected(data: Seq<u8>)
    requires
        data.len() >= 8,
        data.subrange(0, 8) != magic(),
    ensures
        spec_parse_header(data) == Err::<(u32, Seq<u8>), Error>(Error::InvalidMagicHeader),
{
}

/// The byte length of an image is exactly what `size_required` counts: the
/// header plus each entry's metadata record and contents.
pub proof fn lemma_image_len(es: Seq<EntryModel>)
    requires
        all_names_fit(es),
    ensures
        image_bytes(es).len() == spec_size_required(es),
{
    lemma_entries_bytes_len(es);
    lemma_size_required_min(es);
}

/// Round trip: the image built from any well-formed entries decodes back to
/// exactly those entries, in order, with no error.
///
/// Well-formed means every name's UTF-8 encoding fits its 14-byte field and
/// has no null character, every declared length matches the contents held,
/// and the image fits the 32-bit size its header stores. The header parses
/// to the image's own length, and the entry region parses cleanly to the
/// original entries.
pub proof fn lemma_round_trip(es: Seq<EntryModel>)
    requires
        all_names_fit(es),
        all_sizes_consistent(es),
        all_names_nul_free(es),
        spec_size_required(es) <= u32::MAX,
    ensures
        image_bytes(es).len() == spec_size_required(es),
        spec_parse_header(image_bytes(es)) == Ok::<_, Error>(
            (spec_size_required(es) as u32, entries_bytes(es)),
        ),
        parse_entries(entries_bytes(es)) == es,
        parse_ok(entries_bytes(es)),
{
    let total = spec_size_required(es) as u32;
    let img = image_bytes(es);
    lemma_image_len(es);
    lemma_size_required_min(es);
    assert(header_bytes(total).len() == HEADER_SIZE);
    assert(img.subrange(0, 8) =~= magic());
    assert(img.subrange(8, 12) =~= version_bytes());
    assert(img.subrange(12, 16) =~= spec_u32_to_be_bytes(total));
    lemma_u32_be_bytes_roundtrip(total);
    assert(img.skip(16) =~= entries_bytes(es));
    assert(spec_parse_header(img) == Ok::<_, Error>((total, entries_bytes(es))));
    lemma_parse_entries_concat(es, Seq::empty());
    assert(entries_bytes(es) + Seq::<u8>::empty() =~= entries_bytes(es));
    assert(parse_entries(Seq::<u8>::empty()) =~= Seq::<EntryModel>::empty());
    assert(es + Seq::<EntryModel>::empty() =~= es);
}

/// Truncation tolerance: cutting the entry region short anywhere inside the
/// last entry's contents (its metadata record still whole) yields every
/// entry before it, silently drops the last, and raises no error.
pub proof fn lemma_truncated_entries(es: Seq<EntryModel>, cut: int)
    requires
        all_names_fit(es),
        all_sizes_consistent(es),
        all_names_nul_free(es),
        es.len() > 0,
        entries_bytes(es).len() - es.last().contents.len() <= cut < entries_bytes(es).len(),
    ensures
        parse_entries(entries_bytes(es).take(cut)) == es.drop_last(),
        parse_ok(entries_bytes(es).take(cut)),
{
    let prefix = es.drop_last();
    let last = es.last();
    assert(es =~= prefix.push(last));
    lemma_entries_bytes_snoc(prefix, last);
    assert(forall|i: int| 0 <= i < prefix.len() ==> prefix[i] == es[i]);
    assert(all_names_fit(prefix));
    assert(all_sizes_consistent(prefix));
    assert(all_names_nul_free(prefix));
    assert(metadata_bytes(last.metadata).len() == METADATA_SIZE);
    let eb = entries_bytes(es);
    let ep = entries_bytes(prefix);
    assert(eb == ep + entry_bytes(last));
    let pl = cut - ep.len();
    assert(METADATA_SIZE <= pl < entry_bytes(last).len());
    let ctake = last.contents.take(pl - METADATA_SIZE);
    let partial = metadata_bytes(last.metadata) + ctake;
    assert(eb.take(cut) =~= ep + partial);
    lemma_parse_metadata_bytes(last.metadata, ctake);
    assert(last.metadata.file_size > ctake.len());
    assert(parse_step(partial) == ParseStep::End);
    assert(parse_entries(partial) =~= Seq::<EntryModel>::empty());
    assert(parse_ok(partial));
    lemma_parse_entries_concat(prefix, partial);
    assert(prefix + parse_entries(partial) =~= prefix);
}

} // verus!
