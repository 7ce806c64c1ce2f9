//! Where a checksum response has the answer to each entry of a manifest, and what
//! an inventory holds.

use super::{AssetFault, AssetFile, Assets, EntryState, FileChecksum};
use crate::bytes;
use crate::outside;
use crate::text;
use vstd::prelude::*;

verus! {

/// How many of some entries ask for a checksum.
pub open spec fn asked(entries: Seq<EntryState>) -> nat {
    entries.filter(|e: EntryState| e.flags != 2).len()
}

/// The number in four little-endian bytes.
pub open spec fn number_at(s: Seq<u8>, i: int) -> int {
    s[i] + 256 * s[i + 1] + 65536 * s[i + 2] + 16777216 * s[i + 3]
}

/// A name with its letters `A` to `Z` made small, byte by byte.
pub open spec fn is_lowercase_of(lower: Seq<u8>, name: Seq<u8>) -> bool {
    &&& lower.len() == name.len()
    &&& forall|i: int|
        0 <= i < name.len() ==> #[trigger] lower[i] == (if 65 <= name[i] <= 90 {
            name[i] + 32
        } else {
            name[i] as int
        })
}

proof fn lemma_asked(entries: Seq<EntryState>)
    requires
        entries.len() > 0,
    ensures
        asked(entries) == asked(entries.drop_last()) + (if entries.last().flags != 2 {
            1int
        } else {
            0
        }),
{
    reveal(Seq::filter);
}

proof fn lemma_answers_place(
    files: Map<Seq<u8>, Option<FileChecksum>>,
    entries: Seq<EntryState>,
    i: int,
)
    requires
        0 <= i < entries.len(),
        entries[i].flags != 2,
    ensures
        ({
            let all = super::answers(files, entries);
            let at = 6 * asked(entries.take(i)) as int;
            &&& at + 6 <= all.len()
            &&& all.subrange(at, at + 6) == bytes::le16(entries[i].id) + bytes::le32(
                super::answer(files, entries[i].name),
            )
        }),
    decreases entries.len(),
{
    let rest = entries.drop_last();
    let all = super::answers(files, entries);
    let before = super::answers(files, rest);
    super::law_response_length(files, entries);
    super::law_response_length(files, rest);
    let at = 6 * asked(entries.take(i)) as int;
    if i == entries.len() - 1 {
        assert(entries.take(i) =~= rest);
        assert(all.subrange(at, at + 6) =~= bytes::le16(entries[i].id) + bytes::le32(
            super::answer(files, entries[i].name),
        ));
    } else {
        assert(rest.take(i) =~= entries.take(i));
        lemma_answers_place(files, rest, i);
        assert(all.subrange(at, at + 6) =~= before.subrange(at, at + 6));
    }
}

/// Every entry that is not skipped is answered, whatever stands before it: behind
/// the checksum of the manifest and six bytes for each earlier entry that is not
/// skipped stand its id and the checksum that the inventory has under its
/// lowercase name, both in little-endian order. A file that is absent or unknown
/// has the checksum zero.
pub proof fn law_every_entry_is_answered(
    files: Map<Seq<u8>, Option<FileChecksum>>,
    manifest: Seq<u8>,
    entries: Seq<EntryState>,
    i: int,
    lower: Seq<u8>,
)
    requires
        0 <= i < entries.len(),
        entries[i].flags != 2,
        is_lowercase_of(lower, entries[i].name),
    ensures
        ({
            let body = super::response_body(files, manifest, entries);
            let at = 4 + 6 * asked(entries.take(i)) as int;
            &&& at + 6 <= body.len()
            &&& body[at] + 256 * body[at + 1] == entries[i].id
            &&& number_at(body, at + 2) == (if files.contains_key(lower) && files[lower] is Some {
                files[lower]->0.crc32
            } else {
                0
            })
        }),
{
    let body = super::response_body(files, manifest, entries);
    let all = super::answers(files, entries);
    let at = 6 * asked(entries.take(i)) as int;
    lemma_answers_place(files, entries, i);
    lemma_lowercase(lower, entries[i].name);
    let part = all.subrange(at, at + 6);
    assert(forall|j: int| 0 <= j < 6 ==> part[j] == body[4 + at + j]);
    assert(part[0] == body[4 + at] && part[1] == body[4 + at + 1] && part[2] == body[4 + at + 2]
        && part[3] == body[4 + at + 3] && part[4] == body[4 + at + 4] && part[5] == body[4 + at
        + 5]);
}

proof fn lemma_lowercase(lower: Seq<u8>, name: Seq<u8>)
    requires
        is_lowercase_of(lower, name),
    ensures
        bytes::lowered(name) == lower,
{
    assert(bytes::lowered(name) =~= lower);
}

/// A response begins with the checksum of the manifest, in little-endian order,
/// and holds nothing but that and six bytes for each entry that is not skipped.
pub proof fn law_response_starts_with_the_manifest(
    files: Map<Seq<u8>, Option<FileChecksum>>,
    manifest: Seq<u8>,
    entries: Seq<EntryState>,
)
    ensures
        ({
            let body = super::response_body(files, manifest, entries);
            &&& body.len() == 4 + 6 * asked(entries)
            &&& number_at(body, 0) == outside::crc32_of(manifest)
        }),
{
    super::law_response_length(files, entries);
}

/// The files that are reported as unknown are the names of the entries that are
/// not skipped and that the inventory has not under their lowercase names, in the
/// order of the manifest.
pub proof fn law_unknown_files_are_named(
    files: Map<Seq<u8>, Option<FileChecksum>>,
    entries: Seq<EntryState>,
)
    ensures
        super::unknown(files, entries) == entries.filter(
            |e: EntryState|
                e.flags != 2 && !exists|lower: Seq<u8>|
                    #[trigger] is_lowercase_of(lower, e.name) && files.contains_key(lower),
        ).map_values(|e: EntryState| e.name),
    decreases entries.len(),
{
    reveal(Seq::filter);
    let missing = |e: EntryState|
        e.flags != 2 && !exists|lower: Seq<u8>|
            #[trigger] is_lowercase_of(lower, e.name) && files.contains_key(lower);
    if entries.len() > 0 {
        let rest = entries.drop_last();
        let e = entries.last();
        law_unknown_files_are_named(files, rest);
        let lower = bytes::lowered(e.name);
        assert(is_lowercase_of(lower, e.name));
        assert(files.contains_key(lower) <==> exists|l: Seq<u8>|
            #[trigger] is_lowercase_of(l, e.name) && files.contains_key(l)) by {
            if exists|l: Seq<u8>|
                #[trigger] is_lowercase_of(l, e.name) && files.contains_key(l) {
                let l = choose|l: Seq<u8>|
                    #[trigger] is_lowercase_of(l, e.name) && files.contains_key(l);
                lemma_lowercase(l, e.name);
            }
        }
        if missing(e) {
            assert(rest.filter(missing).push(e).map_values(|e: EntryState| e.name)
                =~= rest.filter(missing).map_values(|e: EntryState| e.name).push(e.name));
            assert(entries.filter(missing) == rest.filter(missing).push(e));
        } else {
            assert(entries.filter(missing) == rest.filter(missing));
        }
    } else {
        assert(entries.filter(missing) =~= Seq::empty());
        assert(entries.filter(missing).map_values(|e: EntryState| e.name) =~= Seq::empty());
    }
}

/// An inventory has a file exactly where it lists one of that name, with the
/// checksum of the last one.
pub proof fn law_inventory_holds_its_files(files: Seq<AssetFile>, i: int)
    requires
        0 <= i < files.len(),
        forall|j: int|
            i < j < files.len() ==> text::utf8((#[trigger] files[j]).name@) != text::utf8(
                files[i].name@,
            ),
    ensures
        super::file_map(files).contains_key(text::utf8(files[i].name@)),
        super::file_map(files)[text::utf8(files[i].name@)] == files[i].checksum,
        forall|name: Seq<u8>| #[trigger]
            super::file_map(files).contains_key(name) ==> exists|j: int|
                0 <= j < files.len() && text::utf8((#[trigger] files[j]).name@) == name,
{
    super::lemma_file_map(files, text::utf8(files[i].name@), i);
    assert forall|name: Seq<u8>| #[trigger]
        super::file_map(files).contains_key(name) implies exists|j: int|
        0 <= j < files.len() && text::utf8((#[trigger] files[j]).name@) == name by {
        if !(exists|j: int|
            0 <= j < files.len() && text::utf8((#[trigger] files[j]).name@) == name) {
            super::lemma_file_map(files, name, -1);
        }
    }
}

/// Whether a byte may stand in a file name: a letter, a digit, `.` or `_`.
pub open spec fn allowed(b: u8) -> bool {
    48 <= b <= 57 || 65 <= b <= 90 || 97 <= b <= 122 || b == 46 || b == 95
}

/// A name is accepted exactly where it has 1 to 200 bytes, all of them letters,
/// digits, dots or underscores, and is neither `.` nor `..`.
pub proof fn law_plain_names(name: Seq<u8>)
    ensures
        super::plain_name(name) <==> {
            &&& 1 <= name.len() <= 200
            &&& forall|i: int| 0 <= i < name.len() ==> allowed(#[trigger] name[i])
            &&& !(name.len() == 1 && name[0] == 46)
            &&& !(name.len() == 2 && name[0] == 46 && name[1] == 46)
        },
{
    if name.len() == 1 && name[0] == 46 {
        assert(name =~= seq![0x2eu8]);
    }
    if name.len() == 2 && name[0] == 46 && name[1] == 46 {
        assert(name =~= seq![0x2eu8, 0x2eu8]);
    }
    assert(forall|i: int| 0 <= i < name.len() ==> allowed(name[i]) == super::name_byte(#[trigger] name[i]));
    if super::plain_name(name) {
        assert forall|i: int| 0 <= i < name.len() implies allowed(#[trigger] name[i]) by {
            assert(super::name_byte(name[i]));
        }
    }
}

/// The flags of an entry say whether a checksum is asked for; other values than
/// 1, 2, 5 and 9 are refused, and so are a manifest without entries and one that
/// ends in the middle of an entry.
pub proof fn law_malformed_manifests_are_refused(data: Seq<u8>)
    ensures
        data.len() == 0 ==> super::manifest_entries(data) == Err::<Seq<EntryState>, _>(
            AssetFault::Empty,
        ),
        0 < data.len() < 4 ==> super::manifest_entries(data) == Err::<Seq<EntryState>, _>(
            AssetFault::Truncated,
        ),
        data.len() >= 4 && data[2] != 1 && data[2] != 2 && data[2] != 5 && data[2] != 9
            ==> super::manifest_entries(data) == Err::<Seq<EntryState>, _>(AssetFault::Flags),
        data.len() >= 4 && (data[2] == 1 || data[2] == 2 || data[2] == 5 || data[2] == 9) && (
        forall|i: int| 3 <= i < data.len() ==> #[trigger] data[i] != 0) ==> super::manifest_entries(
            data,
        ) == Err::<Seq<EntryState>, _>(AssetFault::Unterminated),
{
    if data.len() >= 4 {
        bytes::lemma_until(data.skip(3), 0);
        let name = bytes::until_nul(data.skip(3));
        if name.len() < data.skip(3).len() {
            assert(data.skip(3)[name.len() as int] == data[3 + name.len() as int]);
        }
    }
}

proof fn lemma_read_up_to(entries: Seq<EntryState>, tail: Seq<u8>, seen: Seq<EntryState>)
    requires
        forall|i: int| 0 <= i < entries.len() ==> super::entry_valid(#[trigger] entries[i]),
        super::distinct_ids(seen + entries),
    ensures
        super::entries_from(super::manifest_of(entries) + tail, seen) == super::entries_from(
            tail,
            seen + entries,
        ),
    decreases entries.len(),
{
    if entries.len() == 0 {
        assert(seen + entries =~= seen);
        assert(super::manifest_of(entries) + tail =~= tail);
    } else {
        let e = entries[0];
        let rest = entries.skip(1);
        assert(super::entry_valid(e));
        assert forall|i: int| 0 <= i < seen.len() implies (#[trigger] seen[i]).id != e.id by {
            assert((seen + entries)[i] == seen[i]);
            assert((seen + entries)[seen.len() as int] == e);
        }
        let more = super::manifest_of(rest) + tail;
        assert(super::manifest_of(entries) + tail =~= bytes::le16(e.id) + seq![e.flags] + e.name
            + seq![0u8] + more);
        super::lemma_first_entry(e, more, seen);
        assert forall|i: int| 0 <= i < rest.len() implies super::entry_valid(#[trigger] rest[i]) by {
            assert(rest[i] == entries[i + 1]);
        }
        assert(seen.push(e) + rest =~= seen + entries);
        lemma_read_up_to(rest, tail, seen.push(e));
    }
}

/// One entry in error refuses the whole manifest, whatever stands before it: one that is
/// cut off, whose flags are none of the four, whose name is not ended, no text or no
/// plain name, or whose id an earlier entry has.
pub proof fn law_one_bad_entry_refuses_the_manifest(
    entries: Seq<EntryState>,
    id: u16,
    flags: u8,
    name: Seq<u8>,
    rest: Seq<u8>,
    short: Seq<u8>,
)
    requires
        forall|i: int| 0 <= i < entries.len() ==> super::entry_valid(#[trigger] entries[i]),
        super::distinct_ids(entries),
        forall|i: int| 0 <= i < name.len() ==> name[i] != 0,
    ensures
        0 < short.len() < 4 ==> super::manifest_entries(super::manifest_of(entries) + short) == Err::<
            Seq<EntryState>,
            _,
        >(AssetFault::Truncated),
        ({
            let known = flags == 1 || flags == 2 || flags == 5 || flags == 9;
            let text = vstd::utf8::valid_utf8(name);
            let plain = super::plain_name(name);
            let taken = exists|i: int| 0 <= i < entries.len() && (#[trigger] entries[i]).id == id;
            let open = seq![(id % 256) as u8, (id / 256) as u8, flags] + name;
            let r = super::manifest_entries(super::manifest_of(entries) + (open.push(0) + rest));
            &&& !known ==> r == Err::<Seq<EntryState>, _>(AssetFault::Flags)
            &&& known && name.len() > 0 ==> super::manifest_entries(
                super::manifest_of(entries) + open,
            ) == Err::<Seq<EntryState>, _>(AssetFault::Unterminated)
            &&& known && !text ==> r == Err::<Seq<EntryState>, _>(AssetFault::NameEncoding)
            &&& known && text && !plain ==> r == Err::<Seq<EntryState>, _>(AssetFault::Name)
            &&& known && text && plain && taken ==> r == Err::<Seq<EntryState>, _>(
                AssetFault::Duplicate,
            )
        }),
{
    let none = Seq::<EntryState>::empty();
    assert(none + entries =~= entries);
    let open = seq![(id % 256) as u8, (id / 256) as u8, flags] + name;
    let tail = open.push(0) + rest;
    lemma_read_up_to(entries, short, none);
    lemma_read_up_to(entries, open, none);
    lemma_read_up_to(entries, tail, none);
    assert(tail.skip(3) =~= name.push(0) + rest);
    bytes::lemma_until_unique(tail.skip(3), 0, name.len() as int);
    assert(tail.skip(3).take(name.len() as int) =~= name);
    assert(open.skip(3) =~= name);
    bytes::lemma_until_unique(open.skip(3), 0, name.len() as int);
    assert(name.take(name.len() as int) =~= name);
}

/// The spell file is the one of its name, and only where it was measured.
pub proof fn law_the_spell_file_is_found_by_name(assets: Assets, checksum: FileChecksum)
    ensures
        ({
            let name = text::utf8("spells_us.txt"@);
            assets.spell_file() == Some(checksum) <==> assets@.contains_key(name) && assets@[name]
                == Some(checksum)
        }),
{
}

} // verus!
