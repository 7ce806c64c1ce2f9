//! What an inventory of an installation has to measure.
//!
//! The host lists directories and reads files; which files those are, and what
//! the inventory says of each, is decided here.

use super::{AssetError, AssetFault, Assets, FileChecksum};
use crate::bytes;
use crate::outside;
use crate::text;
use vstd::prelude::*;

pub mod laws;

verus! {

/// An entry of the installation directory, by its lowercase name. `text` is the
/// content of a zone companion list and empty for every other file.
#[derive(Debug)]
pub struct ListedFile {
    pub name: String,
    pub is_file: bool,
    pub text: String,
}

/// Where a file of the inventory is measured: at a place in the listing of the
/// installation or of its resources directory, or nowhere.
#[derive(Clone, Copy, Debug, PartialEq, Eq, Structural)]
pub enum Source {
    Installed(usize),
    Resources(usize),
    Absent,
}

/// A file that an inventory names.
#[derive(Debug)]
pub struct ScanEntry {
    pub name: String,
    pub source: Source,
}

/// The files that an inventory names, each with the place to measure it.
#[derive(Debug)]
pub struct Scan {
    pub entries: Vec<ScanEntry>,
}

/// The meaning of a `ListedFile`.
#[verifier::ext_equal]
pub struct Listed {
    pub name: Seq<u8>,
    pub is_file: bool,
    pub text: Seq<u8>,
}

pub open spec fn listed(f: ListedFile) -> Listed {
    Listed { name: text::utf8(f.name@), is_file: f.is_file, text: text::utf8(f.text@) }
}

pub open spec fn listing(files: Seq<ListedFile>) -> Seq<Listed> {
    files.map_values(|f: ListedFile| listed(f))
}

pub open spec fn listed_names(files: Seq<Listed>) -> Seq<Seq<u8>> {
    files.map_values(|f: Listed| f.name)
}

// File name endings, in ASCII.

pub open spec fn s3d() -> Seq<u8> {
    seq![0x2eu8, 0x73u8, 0x33u8, 0x64u8]
}

pub open spec fn eqg() -> Seq<u8> {
    seq![0x2eu8, 0x65u8, 0x71u8, 0x67u8]
}

pub open spec fn txt() -> Seq<u8> {
    seq![0x2eu8, 0x74u8, 0x78u8, 0x74u8]
}

pub open spec fn obj() -> Seq<u8> {
    seq![0x5fu8, 0x6fu8, 0x62u8, 0x6au8]
}

pub open spec fn chr() -> Seq<u8> {
    seq![0x5fu8, 0x63u8, 0x68u8, 0x72u8]
}

pub open spec fn chr_txt() -> Seq<u8> {
    chr() + txt()
}

pub open spec fn assets_txt() -> Seq<u8> {
    seq![0x5fu8, 0x61u8, 0x73u8, 0x73u8, 0x65u8, 0x74u8, 0x73u8] + txt()
}

fn s3d_bytes() -> (v: Vec<u8>)
    ensures
        v@ == s3d(),
{
    let v: Vec<u8> = vec![0x2e, 0x73, 0x33, 0x64];
    assert(v@ =~= s3d());
    v
}

fn eqg_bytes() -> (v: Vec<u8>)
    ensures
        v@ == eqg(),
{
    let v: Vec<u8> = vec![0x2e, 0x65, 0x71, 0x67];
    assert(v@ =~= eqg());
    v
}

fn chr_bytes() -> (v: Vec<u8>)
    ensures
        v@ == chr(),
{
    let v: Vec<u8> = vec![0x5f, 0x63, 0x68, 0x72];
    assert(v@ =~= chr());
    v
}

fn chr_txt_bytes() -> (v: Vec<u8>)
    ensures
        v@ == chr_txt(),
{
    let v: Vec<u8> = vec![0x5f, 0x63, 0x68, 0x72, 0x2e, 0x74, 0x78, 0x74];
    assert(v@ =~= chr_txt());
    v
}

fn assets_txt_bytes() -> (v: Vec<u8>)
    ensures
        v@ == assets_txt(),
{
    let v: Vec<u8> = vec![0x5f, 0x61, 0x73, 0x73, 0x65, 0x74, 0x73, 0x2e, 0x74, 0x78, 0x74];
    assert(v@ =~= assets_txt());
    v
}

/// A name without its ending, where it has it.
pub open spec fn without_ending(name: Seq<u8>, tail: Seq<u8>) -> Option<Seq<u8>> {
    if bytes::ends(name, tail) {
        Some(name.take(name.len() - tail.len()))
    } else {
        None
    }
}

/// The first of two.
pub open spec fn either(a: Option<Seq<u8>>, b: Option<Seq<u8>>) -> Option<Seq<u8>> {
    if a is Some {
        a
    } else {
        b
    }
}

/// The stem of a zone or model archive.
pub open spec fn archive_stem(name: Seq<u8>) -> Option<Seq<u8>> {
    either(without_ending(name, s3d()), without_ending(name, eqg()))
}

/// The zone of a companion list.
pub open spec fn companion_stem(name: Seq<u8>) -> Option<Seq<u8>> {
    either(without_ending(name, chr_txt()), without_ending(name, assets_txt()))
}

/// The zone that a file belongs to. An archive with an underscore in its stem is
/// a companion of another one.
pub open spec fn zone_of(name: Seq<u8>) -> Option<Seq<u8>> {
    let archive = archive_stem(name);
    if companion_stem(name) is Some {
        companion_stem(name)
    } else if archive is Some && !archive->0.contains(0x5fu8) {
        archive
    } else {
        None
    }
}

/// The optional files of a zone, which a manifest can ask for even where they
/// are not installed.
pub open spec fn zone_files(zone: Seq<u8>) -> Set<Seq<u8>> {
    set![
        zone + s3d(),
        zone + eqg(),
        zone + (obj() + s3d()),
        zone + (seq![0x5fu8, 0x32u8] + obj() + s3d()),
        zone + (chr() + s3d()),
        zone + chr_txt(),
        zone + assets_txt(),
    ]
}

/// A file name that can be inventoried.
pub open spec fn asset_name(name: Seq<u8>) -> bool {
    super::plain_name(name)
}

/// Whether a name can be inventoried: a file name without path components.
pub fn valid_asset_name(name: &[u8]) -> (valid: bool)
    ensures
        valid == asset_name(name@),
{
    super::is_plain_name(name)
}

/// The lines of a text. A line ends at a line feed, with a carriage return that
/// stands before it; nothing follows the last line feed.
pub open spec fn lines_of(text: Seq<u8>) -> Seq<Seq<u8>>
    decreases text.len(),
{
    let line = bytes::until(text, 10);
    if text.len() == 0 {
        Seq::empty()
    } else if line.len() >= text.len() {
        seq![text]
    } else {
        seq![
            if line.len() > 0 && line.last() == 13 {
                line.drop_last()
            } else {
                line
            },
        ] + lines_of(text.skip(line.len() as int + 1))
    }
}

pub open spec fn slices(s: Seq<&[u8]>) -> Seq<Seq<u8>> {
    s.map_values(|p: &[u8]| p@)
}

/// Split a text into its lines.
fn lines<'a>(text: &'a [u8]) -> (r: Vec<&'a [u8]>)
    ensures
        slices(r@) == lines_of(text@),
{
    let mut r: Vec<&'a [u8]> = Vec::new();
    let mut at: usize = 0;
    proof {
        assert(text@.skip(0) =~= text@);
        assert(slices(r@) + lines_of(text@) =~= lines_of(text@));
    }
    while at < text.len()
        invariant
            at <= text@.len(),
            lines_of(text@) == slices(r@) + lines_of(text@.skip(at as int)),
        decreases text@.len() - at,
    {
        let rest: &'a [u8] = &text[at..text.len()];
        assert(rest@ =~= text@.skip(at as int));
        let line = bytes::prefix_until(rest, 10);
        proof {
            bytes::lemma_until(rest@, 10);
        }
        let ghost before = slices(r@);
        if line.len() >= rest.len() {
            r.push(rest);
            proof {
                assert(slices(r@) =~= before + seq![rest@]);
            }
            return r;
        }
        let kept: &'a [u8] = if line.len() > 0 && line[line.len() - 1] == 13 {
            &line[0..line.len() - 1]
        } else {
            line
        };
        proof {
            assert(line@.len() > 0 && line@.last() == 13 ==> kept@ =~= line@.drop_last());
        }
        r.push(kept);
        proof {
            let tail = lines_of(rest@.skip(line@.len() as int + 1));
            assert(rest@.skip(line@.len() as int + 1) =~= text@.skip(
                at + line@.len() as int + 1,
            ));
            assert(before + (seq![kept@] + tail) =~= slices(r@) + tail);
        }
        at = at + line.len() + 1;
    }
    assert(slices(r@) + Seq::<Seq<u8>>::empty() =~= slices(r@));
    r
}

/// The width of a three-byte space character.
pub open spec fn wide_space(a: u8, b: u8, c: u8) -> bool {
    ||| a == 0xe1 && b == 0x9a && c == 0x80
    ||| a == 0xe2 && b == 0x80 && (0x80 <= c <= 0x8a || c == 0xa8 || c == 0xa9 || c == 0xaf)
    ||| a == 0xe2 && b == 0x81 && c == 0x9f
    ||| a == 0xe3 && b == 0x80 && c == 0x80
}

/// Bytes of the white space character, after Unicode, that a text starts with.
pub open spec fn space_before(s: Seq<u8>) -> nat {
    if s.len() >= 1 && (9 <= s[0] <= 13 || s[0] == 32) {
        1
    } else if s.len() >= 2 && s[0] == 0xc2 && (s[1] == 0x85 || s[1] == 0xa0) {
        2
    } else if s.len() >= 3 && wide_space(s[0], s[1], s[2]) {
        3
    } else {
        0
    }
}

/// Bytes of the white space character that a text ends with.
pub open spec fn space_after(s: Seq<u8>) -> nat {
    let n = s.len() as int;
    if n >= 1 && (9 <= s[n - 1] <= 13 || s[n - 1] == 32) {
        1
    } else if n >= 2 && s[n - 2] == 0xc2 && (s[n - 1] == 0x85 || s[n - 1] == 0xa0) {
        2
    } else if n >= 3 && wide_space(s[n - 3], s[n - 2], s[n - 1]) {
        3
    } else {
        0
    }
}

pub open spec fn trimmed_start(s: Seq<u8>) -> Seq<u8>
    decreases s.len(),
{
    if space_before(s) == 0 {
        s
    } else {
        trimmed_start(s.skip(space_before(s) as int))
    }
}

pub open spec fn trimmed_end(s: Seq<u8>) -> Seq<u8>
    decreases s.len(),
{
    if space_after(s) == 0 {
        s
    } else {
        trimmed_end(s.take(s.len() - space_after(s)))
    }
}

/// Text without white space at both ends.
pub open spec fn trimmed(s: Seq<u8>) -> Seq<u8> {
    trimmed_end(trimmed_start(s))
}

fn is_wide_space(a: u8, b: u8, c: u8) -> (r: bool)
    ensures
        r == wide_space(a, b, c),
{
    (a == 0xe1 && b == 0x9a && c == 0x80) || (a == 0xe2 && b == 0x80 && ((0x80 <= c && c <= 0x8a)
        || c == 0xa8 || c == 0xa9 || c == 0xaf)) || (a == 0xe2 && b == 0x81 && c == 0x9f) || (a
        == 0xe3 && b == 0x80 && c == 0x80)
}

/// Take white space off both ends of a text.
fn trim<'a>(s: &'a [u8]) -> (r: &'a [u8])
    ensures
        r@ == trimmed(s@),
{
    let mut from: usize = 0;
    assert(s@.skip(0) =~= s@);
    loop
        invariant_except_break
            from <= s@.len(),
            trimmed_start(s@) == trimmed_start(s@.skip(from as int)),
        ensures
            from <= s@.len(),
            trimmed_start(s@) == s@.skip(from as int),
        decreases s@.len() - from,
    {
        let n: usize = s.len() - from;
        let ghost rest = s@.skip(from as int);
        let width: usize = if n >= 1 && ((9 <= s[from] && s[from] <= 13) || s[from] == 32) {
            1
        } else if n >= 2 && s[from] == 0xc2 && (s[from + 1] == 0x85 || s[from + 1] == 0xa0) {
            2
        } else if n >= 3 && is_wide_space(s[from], s[from + 1], s[from + 2]) {
            3
        } else {
            0
        };
        assert(width == space_before(rest));
        if width == 0 {
            break;
        }
        assert(rest.skip(width as int) =~= s@.skip(from + width));
        from = from + width;
    }
    let ghost rest = s@.skip(from as int);
    let mut to: usize = s.len();
    assert(s@.subrange(from as int, to as int) =~= rest);
    loop
        invariant_except_break
            from <= to <= s@.len(),
            trimmed_end(rest) == trimmed_end(s@.subrange(from as int, to as int)),
        ensures
            from <= to <= s@.len(),
            trimmed_end(rest) == s@.subrange(from as int, to as int),
        decreases to - from,
    {
        let n: usize = to - from;
        let ghost now = s@.subrange(from as int, to as int);
        let width: usize = if n >= 1 && ((9 <= s[to - 1] && s[to - 1] <= 13) || s[to - 1] == 32) {
            1
        } else if n >= 2 && s[to - 2] == 0xc2 && (s[to - 1] == 0x85 || s[to - 1] == 0xa0) {
            2
        } else if n >= 3 && is_wide_space(s[to - 3], s[to - 2], s[to - 1]) {
            3
        } else {
            0
        };
        assert(width == space_after(now));
        if width == 0 {
            break;
        }
        assert(now.take(now.len() - width) =~= s@.subrange(from as int, to - width));
        to = to - width;
    }
    &s[from..to]
}

/// The archives that a line of a companion list names. A line of an asset list
/// is an archive; one of a character list has a model and an archive stem,
/// which may have either format.
pub open spec fn line_names(line: Seq<u8>, is_assets: bool) -> Result<Set<Seq<u8>>, AssetFault> {
    let content = trimmed(line);
    let lower = bytes::lowered(content);
    let model = bytes::until(content, 0x2c);
    let stem = trimmed(bytes::until(content.skip(model.len() as int + 1), 0x2c));
    if content.len() == 0 {
        Ok(Set::empty())
    } else if is_assets {
        if asset_name(lower) && (bytes::ends(lower, s3d()) || bytes::ends(lower, eqg())) {
            Ok(set![lower])
        } else {
            Err(AssetFault::AssetList)
        }
    } else if model.len() >= content.len() {
        Ok(Set::empty())
    } else if !asset_name(stem) {
        Err(AssetFault::CharacterList)
    } else {
        Ok(set![bytes::lowered(stem) + s3d(), bytes::lowered(stem) + eqg()])
    }
}

/// The archives of the first lines of a list, up to the first bad one.
pub open spec fn list_names(lines: Seq<Seq<u8>>, is_assets: bool) -> Result<
    Set<Seq<u8>>,
    AssetFault,
>
    decreases lines.len(),
{
    if lines.len() == 0 {
        Ok(Set::empty())
    } else {
        match list_names(lines.drop_last(), is_assets) {
            Err(e) => Err(e),
            Ok(before) => match line_names(lines.last(), is_assets) {
                Err(e) => Err(e),
                Ok(more) => Ok(before.union(more)),
            },
        }
    }
}

/// What one entry of the installation adds to the inventory.
pub open spec fn file_names(file: Listed) -> Result<Set<Seq<u8>>, AssetFault> {
    let companion = companion_stem(file.name);
    let zone = zone_of(file.name);
    if (archive_stem(file.name) is None && companion is None) || !file.is_file {
        Ok(Set::empty())
    } else {
        let own = set![file.name].union(
            if zone is Some {
                zone_files(zone->0)
            } else {
                Set::empty()
            },
        );
        if companion is None {
            Ok(own)
        } else {
            match list_names(lines_of(file.text), bytes::ends(file.name, assets_txt())) {
                Err(e) => Err(e),
                Ok(named) => Ok(own.union(named)),
            }
        }
    }
}

/// What the entries of the installation add, up to the first bad list.
pub open spec fn installed_names(files: Seq<Listed>) -> Result<Set<Seq<u8>>, AssetFault>
    decreases files.len(),
{
    if files.len() == 0 {
        Ok(Set::empty())
    } else {
        match installed_names(files.drop_last()) {
            Err(e) => Err(e),
            Ok(before) => match file_names(files.last()) {
                Err(e) => Err(e),
                Ok(more) => Ok(before.union(more)),
            },
        }
    }
}

/// Lowercase lines of the list of validation files.
pub open spec fn known_names(known: Seq<u8>) -> Set<Seq<u8>> {
    lines_of(known).map_values(|line: Seq<u8>| bytes::lowered(line)).to_set()
}

pub open spec fn byte_strings(v: Seq<Vec<u8>>) -> Seq<Seq<u8>> {
    v.map_values(|n: Vec<u8>| n@)
}

/// Names collected so far, without duplicates.
pub open spec fn collected(v: Seq<Vec<u8>>) -> Set<Seq<u8>> {
    byte_strings(v).to_set()
}

/// Add a name, unless it is there.
fn add_name(names: &mut Vec<Vec<u8>>, name: Vec<u8>)
    ensures
        collected(final(names)@) == collected(old(names)@).insert(name@),
        byte_strings(old(names)@).no_duplicates() ==> byte_strings(
            final(names)@,
        ).no_duplicates(),
{
    let mut i: usize = 0;
    while i < names.len()
        invariant
            i <= names@.len(),
            names@ == old(names)@,
            forall|j: int| 0 <= j < i ==> (#[trigger] names@[j])@ != name@,
        decreases names@.len() - i,
    {
        if bytes::same_bytes(&names[i], &name) {
            proof {
                assert(byte_strings(names@)[i as int] == name@);
                assert(collected(names@).contains(name@));
                assert(collected(names@) =~= collected(names@).insert(name@));
            }
            return;
        }
        i = i + 1;
    }
    let ghost before = byte_strings(names@);
    names.push(name);
    proof {
        let after = byte_strings(names@);
        assert(after =~= before.push(name@));
        assert forall|n: Seq<u8>| after.to_set().contains(n) <==> before.to_set().insert(
            name@,
        ).contains(n) by {
            if before.contains(n) {
                let m = choose|m: int| 0 <= m < before.len() && before[m] == n;
                assert(after[m] == n);
            }
            assert(after[before.len() as int] == name@);
        }
        assert(after.to_set() =~= before.to_set().insert(name@));
        assert forall|j: int| 0 <= j < before.len() implies before[j] != name@ by {
            assert(old(names)@[j]@ != name@);
        }
    }
}

/// Two byte strings in one.
fn plus(a: &[u8], b: &[u8]) -> (r: Vec<u8>)
    ensures
        r@ == a@ + b@,
{
    let mut r = vstd::slice::slice_to_vec(a);
    r.extend_from_slice(b);
    r
}

/// The stem of a name with one of two endings.
fn strip<'a>(name: &'a [u8], tail: &[u8], other: &[u8]) -> (r: Option<&'a [u8]>)
    ensures
        match r {
            Some(stem) => either(without_ending(name@, tail@), without_ending(name@, other@))
                == Some(stem@),
            None => either(without_ending(name@, tail@), without_ending(name@, other@)) is None,
        },
{
    if bytes::ends_with(name, tail) {
        let stem: &'a [u8] = &name[0..name.len() - tail.len()];
        assert(stem@ =~= name@.take(name@.len() - tail@.len()));
        Some(stem)
    } else if bytes::ends_with(name, other) {
        let stem: &'a [u8] = &name[0..name.len() - other.len()];
        assert(stem@ =~= name@.take(name@.len() - other@.len()));
        Some(stem)
    } else {
        None
    }
}

/// Whether the content of an installed file is needed to know what to measure.
pub fn is_companion(name: &str) -> (r: bool)
    ensures
        r == companion_stem(text::utf8(name@)) is Some,
{
    strip(name.as_bytes(), &chr_txt_bytes(), &assets_txt_bytes()).is_some()
}

/// Add the optional files of a zone.
fn add_zone(names: &mut Vec<Vec<u8>>, zone: &[u8])
    requires
        byte_strings(old(names)@).no_duplicates(),
    ensures
        byte_strings(final(names)@).no_duplicates(),
        collected(final(names)@) == collected(old(names)@).union(zone_files(zone@)),
{
    let ghost before = collected(names@);
    let s3d = s3d_bytes();
    let obj: Vec<u8> = vec![0x5f, 0x6f, 0x62, 0x6a, 0x2e, 0x73, 0x33, 0x64];
    let obj2: Vec<u8> = vec![0x5f, 0x32, 0x5f, 0x6f, 0x62, 0x6a, 0x2e, 0x73, 0x33, 0x64];
    let chr = plus(&chr_bytes(), &s3d);
    proof {
        assert(obj@ =~= self::obj() + self::s3d());
        assert(obj2@ =~= seq![0x5fu8, 0x32u8] + self::obj() + self::s3d());
    }
    add_name(names, plus(zone, &s3d));
    add_name(names, plus(zone, &eqg_bytes()));
    add_name(names, plus(zone, &obj));
    add_name(names, plus(zone, &obj2));
    add_name(names, plus(zone, &chr));
    add_name(names, plus(zone, &chr_txt_bytes()));
    add_name(names, plus(zone, &assets_txt_bytes()));
    assert(collected(names@) =~= before.union(zone_files(zone@)));
}

/// Add the archives that a line of a companion list names.
fn add_line(names: &mut Vec<Vec<u8>>, line: &[u8], is_assets: bool) -> (r: Result<(), AssetError>)
    requires
        byte_strings(old(names)@).no_duplicates(),
    ensures
        byte_strings(final(names)@).no_duplicates(),
        match line_names(line@, is_assets) {
            Ok(more) => r is Ok && collected(final(names)@) == collected(old(names)@).union(more),
            Err(e) => r matches Err(error) && error@ == e,
        },
{
    let ghost before = collected(names@);
    let content = trim(line);
    if content.len() == 0 {
        assert(before =~= before.union(Set::empty()));
        return Ok(());
    }
    if is_assets {
        let lower = bytes::ascii_lowercase(content);
        if valid_asset_name(&lower) && (bytes::ends_with(&lower, &s3d_bytes())
            || bytes::ends_with(&lower, &eqg_bytes())) {
            let ghost name = lower@;
            add_name(names, lower);
            assert(before.insert(name) =~= before.union(set![name]));
            return Ok(());
        }
        return Err(AssetError::AssetList);
    }
    let model = bytes::prefix_until(content, 0x2c);
    if model.len() >= content.len() {
        assert(before =~= before.union(Set::empty()));
        return Ok(());
    }
    let rest = &content[model.len() + 1..content.len()];
    assert(rest@ =~= content@.skip(model@.len() as int + 1));
    let stem = trim(bytes::prefix_until(rest, 0x2c));
    if !valid_asset_name(stem) {
        return Err(AssetError::CharacterList);
    }
    let lower = bytes::ascii_lowercase(stem);
    add_name(names, plus(&lower, &s3d_bytes()));
    add_name(names, plus(&lower, &eqg_bytes()));
    assert(collected(names@) =~= before.union(set![lower@ + s3d(), lower@ + eqg()]));
    Ok(())
}

/// Add the archives that a companion list names.
fn add_list(names: &mut Vec<Vec<u8>>, content: &[u8], is_assets: bool) -> (r: Result<
    (),
    AssetError,
>)
    requires
        byte_strings(old(names)@).no_duplicates(),
    ensures
        byte_strings(final(names)@).no_duplicates(),
        match list_names(lines_of(content@), is_assets) {
            Ok(more) => r is Ok && collected(final(names)@) == collected(old(names)@).union(more),
            Err(e) => r matches Err(error) && error@ == e,
        },
{
    let parts = lines(content);
    let ghost all = slices(parts@);
    let ghost before = collected(names@);
    let mut i: usize = 0;
    proof {
        assert(all.take(0) =~= Seq::empty());
        assert(before =~= before.union(Set::empty()));
    }
    while i < parts.len()
        invariant
            i <= parts@.len(),
            all == slices(parts@),
            all == lines_of(content@),
            byte_strings(names@).no_duplicates(),
            before == collected(old(names)@),
            list_names(all.take(i as int), is_assets) matches Ok(more) && collected(names@)
                == before.union(more),
        decreases parts@.len() - i,
    {
        let ghost done = list_names(all.take(i as int), is_assets)->Ok_0;
        proof {
            assert(all.take(i + 1).drop_last() =~= all.take(i as int));
            assert(all.take(i + 1).last() == parts@[i as int]@);
        }
        match add_line(names, parts[i], is_assets) {
            Ok(_) => {
                proof {
                    let more = line_names(parts@[i as int]@, is_assets)->Ok_0;
                    assert(before.union(done).union(more) =~= before.union(done.union(more)));
                }
            },
            Err(e) => {
                proof {
                    lemma_list_stops(all, is_assets, i + 1);
                }
                return Err(e);
            },
        }
        i = i + 1;
    }
    assert(all.take(i as int) =~= all);
    Ok(())
}

/// A bad line spoils the whole list.
proof fn lemma_list_stops(lines: Seq<Seq<u8>>, is_assets: bool, n: int)
    requires
        0 <= n <= lines.len(),
        list_names(lines.take(n), is_assets) is Err,
    ensures
        list_names(lines, is_assets) == list_names(lines.take(n), is_assets),
    decreases lines.len(),
{
    if n == lines.len() {
        assert(lines.take(n) =~= lines);
    } else {
        assert(lines.drop_last().take(n) =~= lines.take(n));
        lemma_list_stops(lines.drop_last(), is_assets, n);
    }
}

/// A bad file spoils the whole listing.
proof fn lemma_listing_stops(files: Seq<Listed>, n: int)
    requires
        0 <= n <= files.len(),
        installed_names(files.take(n)) is Err,
    ensures
        installed_names(files) == installed_names(files.take(n)),
    decreases files.len(),
{
    if n == files.len() {
        assert(files.take(n) =~= files);
    } else {
        assert(files.drop_last().take(n) =~= files.take(n));
        lemma_listing_stops(files.drop_last(), n);
    }
}

/// Add what one entry of the installation brings.
fn add_file(names: &mut Vec<Vec<u8>>, file: &ListedFile) -> (r: Result<(), AssetError>)
    requires
        byte_strings(old(names)@).no_duplicates(),
    ensures
        byte_strings(final(names)@).no_duplicates(),
        match file_names(listed(*file)) {
            Ok(more) => r is Ok && collected(final(names)@) == collected(old(names)@).union(more),
            Err(e) => r matches Err(error) && error@ == e,
        },
{
    let ghost before = collected(names@);
    let name = text::bytes_of(&file.name);
    let archive = strip(name, &s3d_bytes(), &eqg_bytes());
    let companion = strip(name, &chr_txt_bytes(), &assets_txt_bytes());
    if (archive.is_none() && companion.is_none()) || !file.is_file {
        assert(before =~= before.union(Set::empty()));
        return Ok(());
    }
    let zone = match (companion, archive) {
        (Some(stem), _) => Some(stem),
        (None, Some(stem)) => if bytes::contains(stem, 0x5f) {
            None
        } else {
            Some(stem)
        },
        (None, None) => None,
    };
    assert(zone_of(name@) == (match zone {
        Some(stem) => Some(stem@),
        None => None,
    }));
    add_name(names, vstd::slice::slice_to_vec(name));
    match zone {
        Some(stem) => {
            add_zone(names, stem);
        },
        None => {},
    }
    let ghost own = set![name@].union(
        if zone is Some {
            zone_files(zone->0@)
        } else {
            Set::empty()
        },
    );
    assert(collected(names@) =~= before.union(own));
    if companion.is_none() {
        return Ok(());
    }
    let is_assets = bytes::ends_with(name, &assets_txt_bytes());
    match add_list(names, text::bytes_of(&file.text), is_assets) {
        Ok(_) => {
            proof {
                let named = list_names(lines_of(text::utf8(file.text@)), is_assets)->Ok_0;
                assert(before.union(own).union(named) =~= before.union(own.union(named)));
            }
            Ok(())
        },
        Err(e) => Err(e),
    }
}

/// The names that a full inventory of an installation covers: the known
/// validation files, every installed zone and model archive, what the zone
/// companion lists name, and the optional companions of each zone.
///
/// `known` lists the validation files, one per line. Other files of the
/// installation are not named, so nothing personal is measured.
pub fn inventory_names(known: &str, files: &Vec<ListedFile>) -> (r: Result<
    Vec<Vec<u8>>,
    AssetError,
>)
    ensures
        match installed_names(listing(files@)) {
            Ok(more) => r matches Ok(names) && byte_strings(names@).no_duplicates() && collected(
                names@,
            ) == known_names(text::utf8(known@)).union(more),
            Err(e) => r matches Err(error) && error@ == e,
        },
{
    let mut names: Vec<Vec<u8>> = Vec::new();
    let parts = lines(known.as_bytes());
    let ghost known_lines = slices(parts@);
    let ghost lower = known_lines.map_values(|line: Seq<u8>| bytes::lowered(line));
    let mut i: usize = 0;
    assert(collected(names@) =~= lower.take(0).to_set());
    while i < parts.len()
        invariant
            i <= parts@.len(),
            known_lines == slices(parts@),
            lower == known_lines.map_values(|line: Seq<u8>| bytes::lowered(line)),
            byte_strings(names@).no_duplicates(),
            collected(names@) == lower.take(i as int).to_set(),
        decreases parts@.len() - i,
    {
        add_name(&mut names, bytes::ascii_lowercase(parts[i]));
        proof {
            assert(lower.take(i + 1) =~= lower.take(i as int).push(lower[i as int]));
            lemma_push_to_set(lower.take(i as int), lower[i as int]);
        }
        i = i + 1;
    }
    assert(lower.take(i as int) =~= lower);
    let ghost start = collected(names@);
    let ghost all = listing(files@);
    let mut k: usize = 0;
    proof {
        assert(all.take(0) =~= Seq::empty());
        assert(start =~= start.union(Set::empty()));
    }
    while k < files.len()
        invariant
            k <= files@.len(),
            all == listing(files@),
            byte_strings(names@).no_duplicates(),
            installed_names(all.take(k as int)) matches Ok(more) && collected(names@)
                == start.union(more),
        decreases files@.len() - k,
    {
        let ghost done = installed_names(all.take(k as int))->Ok_0;
        proof {
            assert(all.take(k + 1).drop_last() =~= all.take(k as int));
            assert(all.take(k + 1).last() == listed(files@[k as int]));
        }
        match add_file(&mut names, &files[k]) {
            Ok(_) => {
                proof {
                    let more = file_names(listed(files@[k as int]))->Ok_0;
                    assert(start.union(done).union(more) =~= start.union(done.union(more)));
                }
            },
            Err(e) => {
                proof {
                    lemma_listing_stops(all, k + 1);
                }
                return Err(e);
            },
        }
        k = k + 1;
    }
    assert(all.take(k as int) =~= all);
    Ok(names)
}

proof fn lemma_push_to_set(s: Seq<Seq<u8>>, x: Seq<u8>)
    ensures
        s.push(x).to_set() == s.to_set().insert(x),
{
    assert forall|n: Seq<u8>| s.push(x).to_set().contains(n) <==> s.to_set().insert(x).contains(
        n,
    ) by {
        if s.contains(n) {
            let m = choose|m: int| 0 <= m < s.len() && s[m] == n;
            assert(s.push(x)[m] == n);
        }
        assert(s.push(x)[s.len() as int] == x);
    }
    assert(s.push(x).to_set() =~= s.to_set().insert(x));
}

/// Names by their bytes.
pub open spec fn name_list(names: Seq<String>) -> Seq<Seq<u8>> {
    names.map_values(|n: String| text::utf8(n@))
}

/// Lowercase names of a directory, in its order.
pub open spec fn lower_names(names: Seq<Seq<u8>>) -> Seq<Seq<u8>> {
    names.map_values(|n: Seq<u8>| bytes::lowered(n))
}

/// Where a name occurs first.
pub open spec fn position(names: Seq<Seq<u8>>, name: Seq<u8>) -> Option<nat>
    decreases names.len(),
{
    if names.len() == 0 {
        None
    } else if names[0] == name {
        Some(0)
    } else {
        match position(names.skip(1), name) {
            Some(i) => Some(i + 1),
            None => None,
        }
    }
}

/// Find a name among others.
fn find(names: &Vec<String>, name: &[u8]) -> (r: Option<usize>)
    ensures
        position(name_list(names@), name@) == (match r {
            Some(i) => Some(i as nat),
            None => None,
        }),
{
    let ghost all = name_list(names@);
    let mut i: usize = 0;
    assert(all.skip(0) =~= all);
    while i < names.len()
        invariant
            i <= names@.len(),
            all == name_list(names@),
            position(all, name@) == (match position(all.skip(i as int), name@) {
                Some(n) => Some((n + i) as nat),
                None => None,
            }),
        decreases names@.len() - i,
    {
        assert(all.skip(i as int)[0] == text::utf8(names@[i as int]@));
        assert(all.skip(i as int).skip(1) =~= all.skip(i + 1));
        if text::is(&names[i], name) {
            return Some(i);
        }
        i = i + 1;
    }
    None
}

/// Index filenames once so a full installation scan does not repeatedly list
/// it. Names that differ in case only cannot be told apart.
pub fn directory_entries(names: &Vec<String>) -> (r: Result<Vec<String>, AssetError>)
    ensures
        match r {
            Ok(index) => {
                &&& name_list(index@) == lower_names(name_list(names@))
                &&& lower_names(name_list(names@)).no_duplicates()
            },
            Err(e) => e@ == AssetFault::Ambiguous && !lower_names(
                name_list(names@),
            ).no_duplicates(),
        },
{
    let ghost lower = lower_names(name_list(names@));
    let mut index: Vec<String> = Vec::new();
    let mut i: usize = 0;
    assert(name_list(index@) =~= lower.take(0));
    while i < names.len()
        invariant
            i <= names@.len(),
            lower == lower_names(name_list(names@)),
            name_list(index@) == lower.take(i as int),
            lower.take(i as int).no_duplicates(),
        decreases names@.len() - i,
    {
        let name = outside::text_lowercase(names[i].as_str());
        let ghost key = lower[i as int];
        assert(text::utf8(name@) == key);
        proof {
            lemma_position(lower.take(i as int), key);
        }
        if find(&index, text::bytes_of(&name)).is_some() {
            proof {
                let m = position(lower.take(i as int), key)->0 as int;
                assert(lower.take(i as int)[m] == lower[m]);
                assert(lower[m] == lower[i as int]);
            }
            return Err(AssetError::Ambiguous);
        }
        let ghost before = name_list(index@);
        index.push(name);
        proof {
            assert(name_list(index@) =~= before.push(key));
            assert(lower.take(i + 1) =~= lower.take(i as int).push(key));
        }
        i = i + 1;
    }
    assert(lower.take(i as int) =~= lower);
    Ok(index)
}

/// A name has a position exactly where it occurs.
proof fn lemma_position(names: Seq<Seq<u8>>, name: Seq<u8>)
    ensures
        match position(names, name) {
            Some(i) => i < names.len() && names[i as int] == name,
            None => forall|i: int| 0 <= i < names.len() ==> #[trigger] names[i] != name,
        },
    decreases names.len(),
{
    if names.len() > 0 && names[0] != name {
        lemma_position(names.skip(1), name);
        match position(names.skip(1), name) {
            Some(i) => {},
            None => {
                assert forall|i: int| 0 <= i < names.len() implies #[trigger] names[i]
                    != name by {
                    if i > 0 {
                        assert(names.skip(1)[i - 1] == names[i]);
                    }
                }
            },
        }
    }
}

/// The name of the model list that belongs to the resources directory.
pub open spec fn global_load() -> Seq<u8> {
    seq![
        0x67u8,
        0x6cu8,
        0x6fu8,
        0x62u8,
        0x61u8,
        0x6cu8,
        0x6cu8,
        0x6fu8,
        0x61u8,
        0x64u8,
        0x2eu8,
        0x74u8,
        0x78u8,
        0x74u8,
    ]
}

fn global_load_bytes() -> (v: Vec<u8>)
    ensures
        v@ == global_load(),
{
    let v: Vec<u8> = vec![
        0x67, 0x6c, 0x6f, 0x62, 0x61, 0x6c, 0x6c, 0x6f, 0x61, 0x64, 0x2e, 0x74, 0x78, 0x74,
    ];
    assert(v@ =~= global_load());
    v
}

/// The names in a list: its lines without white space at both ends, where
/// anything is left of them.
pub open spec fn names_in(lines: Seq<Seq<u8>>) -> Seq<Seq<u8>>
    decreases lines.len(),
{
    if lines.len() == 0 {
        Seq::empty()
    } else {
        let before = names_in(lines.drop_last());
        let name = trimmed(lines.last());
        if name.len() == 0 {
            before
        } else {
            before.push(name)
        }
    }
}

/// The file names in a list, one on a line. Blank lines are left out.
pub fn file_list(list: &str) -> (names: Vec<Vec<u8>>)
    ensures
        byte_strings(names@) == names_in(lines_of(text::utf8(list@))),
{
    let parts = lines(list.as_bytes());
    let ghost all = slices(parts@);
    let mut names: Vec<Vec<u8>> = Vec::new();
    let mut i: usize = 0;
    assert(all.take(0) =~= Seq::empty());
    assert(byte_strings(names@) =~= names_in(all.take(0)));
    while i < parts.len()
        invariant
            i <= parts@.len(),
            all == slices(parts@),
            byte_strings(names@) == names_in(all.take(i as int)),
        decreases parts@.len() - i,
    {
        let ghost before = byte_strings(names@);
        assert(all.take(i + 1).drop_last() =~= all.take(i as int));
        assert(all.take(i + 1).last() == parts@[i as int]@);
        let name = trim(parts[i]);
        if name.len() > 0 {
            names.push(vstd::slice::slice_to_vec(name));
            assert(byte_strings(names@) =~= before.push(name@));
        }
        i = i + 1;
    }
    assert(all.take(i as int) =~= all);
    names
}

/// Whether an inventory of these names looks into the resources directory.
pub fn wants_resources(names: &Vec<Vec<u8>>) -> (r: bool)
    ensures
        r == exists|i: int|
            0 <= i < names@.len() && bytes::lowered((#[trigger] names@[i])@) == global_load(),
{
    let target = global_load_bytes();
    assert(bytes::lowered(target@) =~= target@);
    let mut i: usize = 0;
    while i < names.len()
        invariant
            i <= names@.len(),
            bytes::lowered(target@) == global_load(),
            forall|j: int|
                0 <= j < i ==> bytes::lowered((#[trigger] names@[j])@) != global_load(),
        decreases names@.len() - i,
    {
        if bytes::eq_ignore_ascii_case(&names[i], &target) {
            assert(bytes::lowered(names@[i as int]@) == global_load());
            return true;
        }
        i = i + 1;
    }
    false
}

/// Where a lowercase name is measured.
pub open spec fn source_of(
    name: Seq<u8>,
    installed: Seq<Seq<u8>>,
    resources: Option<Seq<Seq<u8>>>,
) -> Source {
    if name == global_load() {
        match resources {
            Some(names) => match position(names, name) {
                Some(i) => Source::Resources(i as usize),
                None => Source::Absent,
            },
            None => Source::Absent,
        }
    } else {
        match position(installed, name) {
            Some(i) => Source::Installed(i as usize),
            None => Source::Absent,
        }
    }
}

/// The meaning of a `Scan`.
pub open spec fn scan_state(entries: Seq<ScanEntry>) -> Seq<(Seq<u8>, Source)> {
    entries.map_values(|e: ScanEntry| (text::utf8(e.name@), e.source))
}

/// The plan for some names, each of which has to be a file name.
pub open spec fn planned(
    names: Seq<Seq<u8>>,
    installed: Seq<Seq<u8>>,
    resources: Option<Seq<Seq<u8>>>,
) -> Result<Seq<(Seq<u8>, Source)>, AssetFault> {
    if forall|i: int| 0 <= i < names.len() ==> asset_name(#[trigger] names[i]) {
        Ok(
            names.map_values(
                |n: Seq<u8>|
                    (bytes::lowered(n), source_of(bytes::lowered(n), installed, resources)),
            ),
        )
    } else {
        Err(AssetFault::Filename)
    }
}

pub open spec fn resource_names(resources: Option<Vec<String>>) -> Option<Seq<Seq<u8>>> {
    match resources {
        Some(names) => Some(name_list(names@)),
        None => None,
    }
}

/// ASCII bytes are UTF-8.
proof fn lemma_plain_is_utf8(name: Seq<u8>)
    requires
        super::plain_name(name),
    ensures
        vstd::utf8::valid_utf8(name),
{
    let chars = Seq::new(name.len(), |i: int| name[i] as char);
    assert forall|i: int| 0 <= i < name.len() implies name[i] < 128 by {
        assert(super::name_byte(name[i]));
    }
    assert(vstd::utf8::is_ascii_chars(chars));
    vstd::utf8::is_ascii_chars_encode_utf8(chars);
    assert(vstd::utf8::encode_utf8(chars) =~= name);
    vstd::utf8::encode_utf8_valid_utf8(chars);
}

/// A lowercase file name is a file name.
proof fn lemma_lowered_plain(name: Seq<u8>)
    requires
        super::plain_name(name),
    ensures
        super::plain_name(bytes::lowered(name)),
{
    let lower = bytes::lowered(name);
    assert forall|i: int| 0 <= i < name.len() implies super::name_byte(#[trigger] lower[i]) by {
        assert(super::name_byte(name[i]));
    }
    if lower == seq![0x2eu8] {
        assert(lower[0] == 0x2e);
        assert(name =~= seq![0x2eu8]);
    }
    if lower == seq![0x2eu8, 0x2eu8] {
        assert(lower[0] == 0x2e && lower[1] == 0x2e);
        assert(name =~= seq![0x2eu8, 0x2eu8]);
    }
}

/// Plan the inventory of exactly these names.
fn plan(
    names: &Vec<Vec<u8>>,
    installed: &Vec<String>,
    resources: &Option<Vec<String>>,
) -> (r: Result<Scan, AssetError>)
    ensures
        planned(byte_strings(names@), name_list(installed@), resource_names(*resources)) == (
        match r {
            Ok(scan) => Ok(scan_state(scan.entries@)),
            Err(e) => Err(e@),
        }),
{
    let ghost all = byte_strings(names@);
    let ghost done = all.map_values(
        |n: Seq<u8>|
            (
                bytes::lowered(n),
                source_of(bytes::lowered(n), name_list(installed@), resource_names(*resources)),
            ),
    );
    let mut entries: Vec<ScanEntry> = Vec::new();
    let mut i: usize = 0;
    assert(scan_state(entries@) =~= done.take(0));
    while i < names.len()
        invariant
            i <= names@.len(),
            all == byte_strings(names@),
            done == all.map_values(
                |n: Seq<u8>|
                    (
                        bytes::lowered(n),
                        source_of(
                            bytes::lowered(n),
                            name_list(installed@),
                            resource_names(*resources),
                        ),
                    ),
            ),
            forall|j: int| 0 <= j < i ==> asset_name(#[trigger] all[j]),
            scan_state(entries@) == done.take(i as int),
        decreases names@.len() - i,
    {
        if !valid_asset_name(&names[i]) {
            assert(!asset_name(all[i as int]));
            return Err(AssetError::Filename);
        }
        let key = bytes::ascii_lowercase(&names[i]);
        proof {
            lemma_lowered_plain(all[i as int]);
            lemma_plain_is_utf8(key@);
        }
        let source = if bytes::same_bytes(&key, &global_load_bytes()) {
            match resources {
                Some(listed) => match find(listed, &key) {
                    Some(at) => Source::Resources(at),
                    None => Source::Absent,
                },
                None => Source::Absent,
            }
        } else {
            match find(installed, &key) {
                Some(at) => Source::Installed(at),
                None => Source::Absent,
            }
        };
        let ghost lower = key@;
        match outside::text_from_utf8(key) {
            Some(name) => {
                let ghost before = scan_state(entries@);
                entries.push(ScanEntry { name, source });
                assert(scan_state(entries@) =~= before.push((lower, source)));
            },
            None => {
                return Err(AssetError::Filename);
            },
        }
        i = i + 1;
        assert(done.take(i as int) =~= done.take(i - 1).push(done[i - 1]));
    }
    assert(done.take(i as int) =~= done);
    Ok(Scan { entries })
}

/// Measure a file by its content.
pub fn measure(content: &[u8]) -> (checksum: FileChecksum)
    ensures
        checksum.crc32 == outside::crc32_of(content@),
        checksum.size == content@.len(),
{
    FileChecksum { crc32: outside::crc32(content), size: content.len() as u64 }
}

/// An inventory with what each name measures; a name that occurs twice has the
/// later value.
pub open spec fn inventory_of(
    entries: Seq<(Seq<u8>, Source)>,
    measured: Seq<Option<FileChecksum>>,
) -> Map<Seq<u8>, Option<FileChecksum>>
    decreases entries.len(),
{
    if entries.len() == 0 {
        Map::empty()
    } else {
        inventory_of(entries.drop_last(), measured).insert(
            entries.last().0,
            if entries.last().1 is Absent {
                None
            } else {
                measured[entries.len() - 1]
            },
        )
    }
}

impl Assets {
    /// Inventory known validation files and every installed zone/model archive.
    /// Check optional zone companions explicitly, including files that are absent.
    ///
    /// `files` describes the installation directory, in the order of its names;
    /// `resources` lists the resources directory in it, where there is one.
    pub fn scan_all(known: &str, files: &Vec<ListedFile>, resources: &Option<Vec<String>>) -> (r:
        Result<Scan, AssetError>)
        ensures
            match installed_names(listing(files@)) {
                Err(e) => r matches Err(error) && error@ == e,
                Ok(more) => exists|names: Seq<Seq<u8>>|
                    {
                        &&& names.no_duplicates()
                        &&& names.to_set() == known_names(text::utf8(known@)).union(more)
                        &&& #[trigger] planned(
                            names,
                            listed_names(listing(files@)),
                            resource_names(*resources),
                        ) == (match r {
                            Ok(scan) => Ok(scan_state(scan.entries@)),
                            Err(e) => Err(e@),
                        })
                    },
            },
    {
        let names = match inventory_names(known, files) {
            Ok(names) => names,
            Err(e) => {
                return Err(e);
            },
        };
        let mut installed: Vec<String> = Vec::new();
        let ghost target = listed_names(listing(files@));
        let mut i: usize = 0;
        assert(name_list(installed@) =~= target.take(0));
        while i < files.len()
            invariant
                i <= files@.len(),
                target == listed_names(listing(files@)),
                name_list(installed@) == target.take(i as int),
            decreases files@.len() - i,
        {
            let name = files[i].name.clone();
            let ghost before = name_list(installed@);
            installed.push(name);
            proof {
                assert(target[i as int] == text::utf8(name@));
                assert(name_list(installed@) =~= before.push(target[i as int]));
                assert(target.take(i + 1) =~= target.take(i as int).push(target[i as int]));
            }
            i = i + 1;
        }
        assert(target.take(i as int) =~= target);
        plan(&names, &installed, resources)
    }

    /// Inventory exactly the files in a list, one name on a line.
    pub fn scan_list(list: &str, installed: &Vec<String>, resources: &Option<Vec<String>>) -> (r:
        Result<Scan, AssetError>)
        ensures
            planned(
                names_in(lines_of(text::utf8(list@))),
                name_list(installed@),
                resource_names(*resources),
            ) == (match r {
                Ok(scan) => Ok(scan_state(scan.entries@)),
                Err(e) => Err(e@),
            }),
    {
        plan(&file_list(list), installed, resources)
    }

    /// Inventory exactly the named files. Absence is explicit, distinct from a
    /// profile which has never checked a requested filename.
    pub fn scan(
        names: &Vec<String>,
        installed: &Vec<String>,
        resources: &Option<Vec<String>>,
    ) -> (r: Result<Scan, AssetError>)
        ensures
            planned(name_list(names@), name_list(installed@), resource_names(*resources)) == (
            match r {
                Ok(scan) => Ok(scan_state(scan.entries@)),
                Err(e) => Err(e@),
            }),
    {
        let mut raw: Vec<Vec<u8>> = Vec::new();
        let mut i: usize = 0;
        assert(byte_strings(raw@) =~= name_list(names@).take(0));
        while i < names.len()
            invariant
                i <= names@.len(),
                byte_strings(raw@) == name_list(names@).take(i as int),
            decreases names@.len() - i,
        {
            let ghost before = byte_strings(raw@);
            raw.push(vstd::slice::slice_to_vec(text::bytes_of(&names[i])));
            proof {
                let all = name_list(names@);
                assert(byte_strings(raw@) =~= before.push(all[i as int]));
                assert(all.take(i + 1) =~= all.take(i as int).push(all[i as int]));
            }
            i = i + 1;
        }
        assert(name_list(names@).take(i as int) =~= name_list(names@));
        plan(&raw, installed, resources)
    }
}

impl Scan {
    /// The inventory, with what the host measured for each entry in turn.
    pub fn inventory(&self, measured: &Vec<Option<FileChecksum>>) -> (assets: Assets)
        requires
            measured@.len() == self.entries@.len(),
        ensures
            assets@ == inventory_of(scan_state(self.entries@), measured@),
            assets.client@ == "Titanium/P99-V62"@,
            assets.unique(),
    {
        let ghost all = scan_state(self.entries@);
        let mut assets = Assets { client: "Titanium/P99-V62".to_owned(), files: Vec::new() };
        let mut i: usize = 0;
        proof {
            assert(all.take(0) =~= Seq::empty());
            assert(assets@ =~= Map::empty());
        }
        while i < self.entries.len()
            invariant
                i <= self.entries@.len(),
                measured@.len() == self.entries@.len(),
                all == scan_state(self.entries@),
                assets@ == inventory_of(all.take(i as int), measured@),
                assets.client@ == "Titanium/P99-V62"@,
                assets.unique(),
            decreases self.entries@.len() - i,
        {
            let value = match self.entries[i].source {
                Source::Absent => None,
                _ => measured[i],
            };
            proof {
                assert(all.take(i + 1).drop_last() =~= all.take(i as int));
                assert(all.take(i + 1).last() == all[i as int]);
            }
            assets.insert(self.entries[i].name.clone(), value);
            i = i + 1;
        }
        assert(all.take(i as int) =~= all);
        assets
    }
}

/// A zone or model archive, or a zone companion list, by its name.
pub open spec fn game_file(name: Seq<u8>) -> bool {
    ||| bytes::ends(name, s3d())
    ||| bytes::ends(name, eqg())
    ||| bytes::ends(name, chr_txt())
    ||| bytes::ends(name, assets_txt())
}

/// What is put at the end of a name ends it.
proof fn lemma_ends(head: Seq<u8>, tail: Seq<u8>)
    ensures
        bytes::ends(head + tail, tail),
{
    assert((head + tail).skip((head + tail).len() - tail.len()) =~= tail);
}

proof fn lemma_zone_files(zone: Seq<u8>)
    ensures
        forall|n: Seq<u8>| #[trigger] zone_files(zone).contains(n) ==> game_file(n),
{
    let two = seq![0x5fu8, 0x32u8] + obj();
    lemma_ends(zone, s3d());
    lemma_ends(zone, eqg());
    lemma_ends(zone + obj(), s3d());
    assert(zone + (obj() + s3d()) =~= zone + obj() + s3d());
    lemma_ends(zone + two, s3d());
    assert(zone + (two + s3d()) =~= zone + two + s3d());
    lemma_ends(zone + chr(), s3d());
    assert(zone + (chr() + s3d()) =~= zone + chr() + s3d());
    lemma_ends(zone, chr_txt());
    lemma_ends(zone, assets_txt());
}

proof fn lemma_list_names(lines: Seq<Seq<u8>>, is_assets: bool)
    requires
        list_names(lines, is_assets) is Ok,
    ensures
        forall|n: Seq<u8>| #[trigger]
            list_names(lines, is_assets)->Ok_0.contains(n) ==> game_file(n),
    decreases lines.len(),
{
    if lines.len() > 0 {
        lemma_list_names(lines.drop_last(), is_assets);
        let content = trimmed(lines.last());
        let model = bytes::until(content, 0x2c);
        let stem = trimmed(bytes::until(content.skip(model.len() as int + 1), 0x2c));
        lemma_ends(bytes::lowered(stem), s3d());
        lemma_ends(bytes::lowered(stem), eqg());
    }
}

/// An inventory of an installation names nothing but archives and companion
/// lists besides the known validation files: account settings, character
/// settings and chat logs stay unread.
pub proof fn law_personal_files_stay_unread(files: Seq<Listed>)
    requires
        installed_names(files) is Ok,
    ensures
        forall|n: Seq<u8>| #[trigger] installed_names(files)->Ok_0.contains(n) ==> game_file(n),
    decreases files.len(),
{
    if files.len() > 0 {
        law_personal_files_stay_unread(files.drop_last());
        let file = files.last();
        if zone_of(file.name) is Some {
            lemma_zone_files(zone_of(file.name)->0);
        }
        if companion_stem(file.name) is Some && file.is_file {
            lemma_list_names(lines_of(file.text), bytes::ends(file.name, assets_txt()));
        }
    }
}

} // verus!
