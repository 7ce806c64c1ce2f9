//! What the files of an installation are called, and which of them are measured.

use super::{
    asset_name, companion_stem, file_names, game_file, global_load, installed_names, inventory_of,
    known_names, line_names, lines_of, list_names, lower_names, names_in, planned, source_of, trimmed, zone_files,
    zone_of, FileChecksum, Listed, Source,
};
use crate::assets::AssetFault;
use crate::bytes;
use vstd::prelude::*;

verus! {

/// The bytes of ASCII text.
pub open spec fn ascii(s: Seq<char>) -> Seq<u8> {
    Seq::new(s.len(), |i: int| s[i] as u8)
}

proof fn lemma_endings()
    ensures
        ascii(".s3d"@) == super::s3d(),
        ascii(".eqg"@) == super::eqg(),
        ascii("_obj.s3d"@) == super::obj() + super::s3d(),
        ascii("_2_obj.s3d"@) == seq![0x5fu8, 0x32u8] + super::obj() + super::s3d(),
        ascii("_chr.s3d"@) == super::chr() + super::s3d(),
        ascii("_chr.txt"@) == super::chr_txt(),
        ascii("_assets.txt"@) == super::assets_txt(),
        ascii("globalload.txt"@) == global_load(),
{
    reveal_strlit(".s3d");
    reveal_strlit(".eqg");
    reveal_strlit("_obj.s3d");
    reveal_strlit("_2_obj.s3d");
    reveal_strlit("_chr.s3d");
    reveal_strlit("_chr.txt");
    reveal_strlit("_assets.txt");
    reveal_strlit("globalload.txt");
    assert(ascii(".s3d"@) =~= super::s3d());
    assert(ascii(".eqg"@) =~= super::eqg());
    assert(ascii("_obj.s3d"@) =~= super::obj() + super::s3d());
    assert(ascii("_2_obj.s3d"@) =~= seq![0x5fu8, 0x32u8] + super::obj() + super::s3d());
    assert(ascii("_chr.s3d"@) =~= super::chr() + super::s3d());
    assert(ascii("_chr.txt"@) =~= super::chr_txt());
    assert(ascii("_assets.txt"@) =~= super::assets_txt());
    assert(ascii("globalload.txt"@) =~= global_load());
}

/// The files of a zone, each by its ending.
pub proof fn law_zone_files(zone: Seq<u8>, name: Seq<u8>)
    ensures
        zone_files(zone).contains(name) <==> {
            ||| name == zone + ascii(".s3d"@)
            ||| name == zone + ascii(".eqg"@)
            ||| name == zone + ascii("_obj.s3d"@)
            ||| name == zone + ascii("_2_obj.s3d"@)
            ||| name == zone + ascii("_chr.s3d"@)
            ||| name == zone + ascii("_chr.txt"@)
            ||| name == zone + ascii("_assets.txt"@)
        },
{
    lemma_endings();
}

proof fn lemma_stem(stem: Seq<u8>, tail: Seq<u8>)
    ensures
        bytes::ends(stem + tail, tail),
        super::without_ending(stem + tail, tail) == Some(stem),
{
    assert((stem + tail).skip(stem.len() as int) =~= tail);
    assert((stem + tail).take(stem.len() as int) =~= stem);
}

/// The zone that a file belongs to: an archive without an underscore in its stem
/// belongs to the zone of that name, and a companion list to the zone before its
/// ending. Other files belong to none.
pub proof fn law_files_belong_to_zones(stem: Seq<u8>, name: Seq<u8>)
    ensures
        zone_of(stem + ascii("_chr.txt"@)) == Some(stem),
        zone_of(stem + ascii("_assets.txt"@)) == Some(stem),
        companion_stem(stem + ascii("_chr.txt"@)) == Some(stem),
        companion_stem(stem + ascii("_assets.txt"@)) == Some(stem),
        !stem.contains(0x5fu8) ==> zone_of(stem + ascii(".s3d"@)) == Some(stem) && zone_of(
            stem + ascii(".eqg"@),
        ) == Some(stem),
        stem.contains(0x5fu8) ==> zone_of(stem + ascii(".s3d"@)) is None && zone_of(
            stem + ascii(".eqg"@),
        ) is None,
        !game_file(name) ==> zone_of(name) is None && companion_stem(name) is None,
        game_file(name) <==> {
            ||| bytes::ends(name, ascii(".s3d"@))
            ||| bytes::ends(name, ascii(".eqg"@))
            ||| bytes::ends(name, ascii("_chr.txt"@))
            ||| bytes::ends(name, ascii("_assets.txt"@))
        },
{
    lemma_endings();
    lemma_stem(stem, super::chr_txt());
    lemma_stem(stem, super::assets_txt());
    lemma_stem(stem, super::s3d());
    lemma_stem(stem, super::eqg());
    lemma_last_bytes(stem, super::chr_txt());
    lemma_last_bytes(stem, super::assets_txt());
    lemma_last_bytes(stem, super::s3d());
    lemma_last_bytes(stem, super::eqg());
}

/// A name ends with the last bytes of its tail.
proof fn lemma_last_bytes(stem: Seq<u8>, tail: Seq<u8>)
    requires
        tail.len() >= 4,
    ensures
        bytes::ends(stem + tail, super::chr_txt()) ==> (stem + tail).last() == 0x74 && (stem + tail)[(
        stem + tail).len() - 5] == 0x72,
        bytes::ends(stem + tail, super::assets_txt()) ==> (stem + tail).last() == 0x74 && (stem
            + tail)[(stem + tail).len() - 5] == 0x73,
        bytes::ends(stem + tail, super::s3d()) ==> (stem + tail).last() == 0x64,
        bytes::ends(stem + tail, super::eqg()) ==> (stem + tail).last() == 0x67,
        (stem + tail).last() == tail.last(),
{
    let name = stem + tail;
    let n = name.len() as int;
    let c = super::chr_txt();
    let a = super::assets_txt();
    let s = super::s3d();
    let e = super::eqg();
    if bytes::ends(name, c) {
        assert(name.skip(n - 8)[7] == c[7] && name.skip(n - 8)[3] == c[3]);
    }
    if bytes::ends(name, a) {
        assert(name.skip(n - 11)[10] == a[10] && name.skip(n - 11)[6] == a[6]);
    }
    if bytes::ends(name, s) {
        assert(name.skip(n - 4)[3] == s[3]);
    }
    if bytes::ends(name, e) {
        assert(name.skip(n - 4)[3] == e[3]);
    }
}

/// A line ends before the next newline, and before a carriage return that stands in
/// front of it. The last line needs no newline, and none is counted behind one.
pub proof fn law_lines_end_at_newlines(line: Seq<u8>, rest: Seq<u8>)
    requires
        forall|i: int| 0 <= i < line.len() ==> line[i] != 10,
    ensures
        lines_of(Seq::empty()) == Seq::<Seq<u8>>::empty(),
        line.len() > 0 ==> lines_of(line) == seq![line],
        line.len() == 0 || line.last() != 13 ==> lines_of(line.push(10) + rest) == seq![line]
            + lines_of(rest),
        lines_of(line.push(13).push(10) + rest) == seq![line] + lines_of(rest),
{
    bytes::lemma_until_unique(line, 10, line.len() as int);
    assert(line.take(line.len() as int) =~= line);
    let plain = line.push(10) + rest;
    bytes::lemma_until_unique(plain, 10, line.len() as int);
    assert(plain.take(line.len() as int) =~= line);
    assert(plain.skip(line.len() as int + 1) =~= rest);
    let returned = line.push(13).push(10) + rest;
    bytes::lemma_until_unique(returned, 10, line.len() as int + 1);
    assert(returned.take(line.len() as int + 1) =~= line.push(13));
    assert(line.push(13).drop_last() =~= line);
    assert(returned.skip(line.len() as int + 2) =~= rest);
}

/// Whether bytes are one character of white space in UTF-8.
pub open spec fn is_space(p: Seq<u8>) -> bool {
    ||| p.len() == 1 && (9 <= p[0] <= 13 || p[0] == 32)
    ||| p.len() == 2 && p[0] == 0xc2 && (p[1] == 0x85 || p[1] == 0xa0)
    ||| p.len() == 3 && p[0] == 0xe1 && p[1] == 0x9a && p[2] == 0x80
    ||| p.len() == 3 && p[0] == 0xe2 && p[1] == 0x80 && (0x80 <= p[2] <= 0x8a || p[2] == 0xa8
        || p[2] == 0xa9 || p[2] == 0xaf)
    ||| p.len() == 3 && p[0] == 0xe2 && p[1] == 0x81 && p[2] == 0x9f
    ||| p.len() == 3 && p[0] == 0xe3 && p[1] == 0x80 && p[2] == 0x80
}

/// Whether no white space stands at the front or at the end.
pub open spec fn is_trim(s: Seq<u8>) -> bool {
    forall|n: int|
        0 < n <= s.len() ==> !is_space(#[trigger] s.take(n)) && !is_space(s.skip(s.len() - n))
}

proof fn lemma_no_space(s: Seq<u8>)
    requires
        is_trim(s),
    ensures
        super::space_before(s) == 0,
        super::space_after(s) == 0,
{
    if s.len() >= 1 {
        assert(!is_space(s.take(1)));
    }
    if s.len() >= 2 {
        assert(!is_space(s.take(2)));
    }
    if s.len() >= 3 {
        assert(!is_space(s.take(3)));
    }
}

proof fn lemma_trim_front(spaces: Seq<Seq<u8>>, s: Seq<u8>)
    requires
        forall|i: int| 0 <= i < spaces.len() ==> is_space(#[trigger] spaces[i]),
    ensures
        super::trimmed_start(spaces.flatten() + s) == super::trimmed_start(s),
    decreases spaces.len(),
{
    if spaces.len() == 0 {
        assert(spaces.flatten() + s =~= s);
    } else {
        let p = spaces.first();
        assert(is_space(spaces[0]));
        let rest = spaces.drop_first().flatten() + s;
        let all = spaces.flatten() + s;
        assert(all =~= p + rest);
        assert(super::space_before(all) == p.len());
        assert(all.skip(p.len() as int) =~= rest);
        lemma_trim_front(spaces.drop_first(), s);
    }
}

proof fn lemma_trim_end(spaces: Seq<Seq<u8>>, s: Seq<u8>)
    requires
        forall|i: int| 0 <= i < spaces.len() ==> is_space(#[trigger] spaces[i]),
    ensures
        super::trimmed_end(s + spaces.flatten()) == super::trimmed_end(s),
    decreases spaces.len(),
{
    if spaces.len() == 0 {
        assert(s + spaces.flatten() =~= s);
    } else {
        let p = spaces.last();
        let before = spaces.drop_last();
        assert(is_space(spaces[spaces.len() - 1]));
        before.lemma_flatten_push(p);
        assert(before.push(p) =~= spaces);
        let rest = s + before.flatten();
        let all = s + spaces.flatten();
        assert(all =~= rest + p);
        let n = all.len() as int;
        assert(all[n - 1] == p.last());
        if p.len() >= 2 {
            assert(all[n - 2] == p[p.len() - 2]);
        }
        if p.len() >= 3 {
            assert(all[n - 3] == p[p.len() - 3]);
        }
        assert(super::space_after(all) == p.len());
        assert(all.take(n - p.len()) =~= rest);
        lemma_trim_end(before, s);
    }
}

/// White space is taken off both ends of whole characters, all of it and nothing else.
pub proof fn law_white_space_is_trimmed(
    before: Seq<Seq<u8>>,
    content: Seq<u8>,
    after: Seq<Seq<u8>>,
)
    requires
        forall|i: int| 0 <= i < before.len() ==> is_space(#[trigger] before[i]),
        forall|i: int| 0 <= i < after.len() ==> is_space(#[trigger] after[i]),
        is_trim(content),
        content.len() == 1 ==> content[0] < 0x80,
        content.len() == 2 ==> content[0] < 0xe0,
    ensures
        content.len() > 0 ==> trimmed(before.flatten() + content + after.flatten()) == content,
        trimmed(before.flatten() + content) == content,
        trimmed(after.flatten()) == Seq::<u8>::empty(),
{
    let tail = content + after.flatten();
    assert(before.flatten() + content + after.flatten() =~= before.flatten() + tail);
    lemma_trim_front(before, tail);
    lemma_trim_front(before, content);
    lemma_no_space(content);
    lemma_trim_end(after, content);
    lemma_trim_front(after, Seq::empty());
    assert(after.flatten() + Seq::<u8>::empty() =~= after.flatten());
    assert(forall|i: int| 0 <= i < content.len() ==> tail[i] == content[i]);
    if content.len() > 0 {
        assert(super::space_before(tail) == 0);
    }
}

/// The names in a list are its lines without the white space around them, in their
/// order and without the blank ones.
pub proof fn law_names_are_taken_line_by_line(
    first: Seq<Seq<u8>>,
    second: Seq<Seq<u8>>,
    line: Seq<u8>,
)
    ensures
        names_in(first + second) == names_in(first) + names_in(second),
        trimmed(line).len() == 0 ==> names_in(seq![line]) == Seq::<Seq<u8>>::empty(),
        trimmed(line).len() > 0 ==> names_in(seq![line]) == seq![trimmed(line)],
    decreases second.len(),
{
    reveal_with_fuel(names_in, 2);
    assert(seq![line].drop_last() =~= Seq::empty());
    assert(seq![line].last() == line);
    if second.len() == 0 {
        assert(first + second =~= first);
        assert(names_in(first) + names_in(second) =~= names_in(first));
    } else {
        law_names_are_taken_line_by_line(first, second.drop_last(), line);
        assert((first + second).drop_last() =~= first + second.drop_last());
        assert((first + second).last() == second.last());
        let a = names_in(first);
        let b = names_in(second.drop_last());
        let name = trimmed(second.last());
        assert((a + b).push(name) =~= a + b.push(name));
    }
}

/// Each line of an asset list names an archive, in small letters. A blank line names
/// none, and a line that names no archive is refused.
pub proof fn law_asset_lists_name_archives(line: Seq<u8>, name: Seq<u8>)
    ensures
        ({
            let lower = bytes::lowered(trimmed(line));
            let archive = bytes::ends(lower, ascii(".s3d"@)) || bytes::ends(lower, ascii(".eqg"@));
            &&& trimmed(line).len() == 0 ==> line_names(line, true) == Ok::<_, AssetFault>(
                Set::<Seq<u8>>::empty(),
            )
            &&& trimmed(line).len() > 0 && !(asset_name(lower) && archive) ==> line_names(
                line,
                true,
            ) == Err::<Set<Seq<u8>>, _>(AssetFault::AssetList)
            &&& trimmed(line).len() > 0 && asset_name(lower) && archive ==> {
                &&& line_names(line, true) is Ok
                &&& line_names(line, true)->Ok_0.contains(name) <==> name == lower
            }
        }),
{
    lemma_endings();
}

/// A line of a character list names a model behind its first comma: both archives of
/// that name, in small letters. What stands behind a second comma is not read, and a
/// line without a comma names none.
pub proof fn law_character_lists_name_models(
    line: Seq<u8>,
    model: Seq<u8>,
    stem: Seq<u8>,
    more: Seq<u8>,
    name: Seq<u8>,
)
    requires
        forall|i: int| 0 <= i < model.len() ==> model[i] != 0x2c,
        forall|i: int| 0 <= i < stem.len() ==> stem[i] != 0x2c,
        more.len() == 0 || more[0] == 0x2c,
    ensures
        trimmed(line) == model ==> line_names(line, false) == Ok::<_, AssetFault>(
            Set::<Seq<u8>>::empty(),
        ),
        trimmed(line) == model.push(0x2c) + stem + more && !asset_name(trimmed(stem)) ==> line_names(
            line,
            false,
        ) == Err::<Set<Seq<u8>>, _>(AssetFault::CharacterList),
        trimmed(line) == model.push(0x2c) + stem + more && asset_name(trimmed(stem)) ==> {
            let lower = bytes::lowered(trimmed(stem));
            &&& line_names(line, false) is Ok
            &&& line_names(line, false)->Ok_0.contains(name) <==> name == lower + ascii(".s3d"@)
                || name == lower + ascii(".eqg"@)
        },
{
    lemma_endings();
    bytes::lemma_until_unique(model, 0x2c, model.len() as int);
    assert(model.take(model.len() as int) =~= model);
    let content = model.push(0x2c) + stem + more;
    bytes::lemma_until_unique(content, 0x2c, model.len() as int);
    assert(content.take(model.len() as int) =~= model);
    let behind = content.skip(model.len() as int + 1);
    assert(behind =~= stem + more);
    bytes::lemma_until_unique(behind, 0x2c, stem.len() as int);
    assert(behind.take(stem.len() as int) =~= stem);
}

/// A list names what each of its lines names. The first line in error decides where
/// there is one.
pub proof fn law_lists_name_what_their_lines_name(
    lines: Seq<Seq<u8>>,
    is_assets: bool,
    i: int,
    name: Seq<u8>,
)
    ensures
        (forall|k: int| 0 <= k < lines.len() ==> line_names(#[trigger] lines[k], is_assets) is Ok)
            ==> {
            &&& list_names(lines, is_assets) is Ok
            &&& list_names(lines, is_assets)->Ok_0.contains(name) <==> exists|k: int|
                0 <= k < lines.len() && line_names(
                    #[trigger] lines[k],
                    is_assets,
                )->Ok_0.contains(name)
        },
        0 <= i < lines.len() && line_names(lines[i], is_assets) is Err && (forall|k: int|
            0 <= k < i ==> line_names(#[trigger] lines[k], is_assets) is Ok) ==> list_names(
            lines,
            is_assets,
        ) == Err::<Set<Seq<u8>>, _>(line_names(lines[i], is_assets)->Err_0),
    decreases lines.len(),
{
    if lines.len() > 0 {
        let before = lines.drop_last();
        law_lists_name_what_their_lines_name(before, is_assets, i, name);
        assert(forall|k: int| 0 <= k < before.len() ==> #[trigger] before[k] == lines[k]);
        assert(lines.last() == lines[lines.len() - 1]);
        if forall|k: int| 0 <= k < lines.len() ==> line_names(#[trigger] lines[k], is_assets) is Ok {
            if exists|k: int|
                0 <= k < lines.len() && line_names(#[trigger] lines[k], is_assets)->Ok_0.contains(
                    name,
                ) {
                let k = choose|k: int|
                    0 <= k < lines.len() && line_names(
                        #[trigger] lines[k],
                        is_assets,
                    )->Ok_0.contains(name);
                if k < before.len() {
                    assert(before[k] == lines[k]);
                }
            }
            assert(forall|k: int|
                0 <= k < before.len() ==> line_names(#[trigger] before[k], is_assets) is Ok);
        }
        if 0 <= i < lines.len() && line_names(lines[i], is_assets) is Err && (forall|k: int|
            0 <= k < i ==> line_names(#[trigger] lines[k], is_assets) is Ok) {
            assert(forall|k: int|
                0 <= k < i && k < before.len() ==> line_names(
                    #[trigger] before[k],
                    is_assets,
                ) is Ok);
        }
    }
}

/// What an entry of an installation has measured: an archive and a companion list
/// themselves, the files of their zone, and what a companion list names. Directories
/// and other files have nothing measured.
pub proof fn law_files_name_their_companions(file: Listed, name: Seq<u8>)
    ensures
        !file.is_file || !game_file(file.name) ==> file_names(file) == Ok::<_, AssetFault>(
            Set::<Seq<u8>>::empty(),
        ),
        file.is_file && game_file(file.name) ==> {
            let companion = companion_stem(file.name) is Some;
            let list = list_names(
                lines_of(file.text),
                bytes::ends(file.name, ascii("_assets.txt"@)),
            );
            &&& companion && list is Err ==> file_names(file) == Err::<Set<Seq<u8>>, _>(list->Err_0)
            &&& !(companion && list is Err) ==> {
                &&& file_names(file) is Ok
                &&& file_names(file)->Ok_0.contains(name) <==> {
                    ||| name == file.name
                    ||| zone_of(file.name) is Some && zone_files(zone_of(file.name)->0).contains(
                        name,
                    )
                    ||| companion && list->Ok_0.contains(name)
                }
            }
        },
{
    lemma_endings();
}

/// An installation has measured what each of its entries has measured. The first entry
/// in error decides where there is one.
pub proof fn law_installations_name_what_their_files_name(
    files: Seq<Listed>,
    i: int,
    name: Seq<u8>,
)
    ensures
        (forall|k: int| 0 <= k < files.len() ==> file_names(#[trigger] files[k]) is Ok) ==> {
            &&& installed_names(files) is Ok
            &&& installed_names(files)->Ok_0.contains(name) <==> exists|k: int|
                0 <= k < files.len() && file_names(#[trigger] files[k])->Ok_0.contains(name)
        },
        0 <= i < files.len() && file_names(files[i]) is Err && (forall|k: int|
            0 <= k < i ==> file_names(#[trigger] files[k]) is Ok) ==> installed_names(files) == Err::<
            Set<Seq<u8>>,
            _,
        >(file_names(files[i])->Err_0),
    decreases files.len(),
{
    if files.len() > 0 {
        let before = files.drop_last();
        law_installations_name_what_their_files_name(before, i, name);
        assert(forall|k: int| 0 <= k < before.len() ==> #[trigger] before[k] == files[k]);
        assert(files.last() == files[files.len() - 1]);
        if forall|k: int| 0 <= k < files.len() ==> file_names(#[trigger] files[k]) is Ok {
            if exists|k: int|
                0 <= k < files.len() && file_names(#[trigger] files[k])->Ok_0.contains(name) {
                let k = choose|k: int|
                    0 <= k < files.len() && file_names(#[trigger] files[k])->Ok_0.contains(name);
                if k < before.len() {
                    assert(before[k] == files[k]);
                }
            }
            assert(forall|k: int| 0 <= k < before.len() ==> file_names(#[trigger] before[k]) is Ok);
        }
        if 0 <= i < files.len() && file_names(files[i]) is Err && (forall|k: int|
            0 <= k < i ==> file_names(#[trigger] files[k]) is Ok) {
            assert(forall|k: int|
                0 <= k < i && k < before.len() ==> file_names(#[trigger] before[k]) is Ok);
        }
    }
}

/// The known validation files are the lines of their list, in small letters.
pub proof fn law_known_files_are_listed(known: Seq<u8>, name: Seq<u8>)
    ensures
        known_names(known).contains(name) <==> exists|k: int|
            0 <= k < lines_of(known).len() && bytes::lowered(#[trigger] lines_of(known)[k]) == name,
{
    let lines = lines_of(known);
    let lower = lines.map_values(|line: Seq<u8>| bytes::lowered(line));
    if known_names(known).contains(name) {
        let k = choose|k: int| 0 <= k < lower.len() && lower[k] == name;
        assert(bytes::lowered(lines[k]) == name);
    }
    if exists|k: int| 0 <= k < lines.len() && bytes::lowered(#[trigger] lines[k]) == name {
        let k = choose|k: int| 0 <= k < lines.len() && bytes::lowered(#[trigger] lines[k]) == name;
        assert(lower[k] == name);
    }
}

/// Whether a name stands at a place of a list, and nowhere before it.
pub open spec fn stands_first(names: Seq<Seq<u8>>, name: Seq<u8>, i: int) -> bool {
    0 <= i < names.len() && names[i] == name && forall|k: int| 0 <= k < i ==> names[k] != name
}

proof fn lemma_position(names: Seq<Seq<u8>>, name: Seq<u8>)
    ensures
        super::position(names, name) is None <==> !names.contains(name),
        super::position(names, name) matches Some(i) ==> stands_first(names, name, i as int),
    decreases names.len(),
{
    if names.len() > 0 && names[0] != name {
        let rest = names.skip(1);
        lemma_position(rest, name);
        if rest.contains(name) {
            let k = choose|k: int| 0 <= k < rest.len() && rest[k] == name;
            assert(names[k + 1] == name);
        }
        if names.contains(name) {
            let k = choose|k: int| 0 <= k < names.len() && names[k] == name;
            assert(rest[k - 1] == name);
        }
        if super::position(rest, name) is Some {
            let i = super::position(rest, name)->0;
            assert forall|k: int| 0 <= k < i + 1 implies names[k] != name by {
                if k > 0 {
                    assert(rest[k - 1] == names[k]);
                }
            }
        }
    } else if names.len() > 0 {
        assert(names.contains(names[0]));
    }
}

/// A file is measured at its first place in the listing of the installation, and the
/// model list of the resources at its place in theirs. A file that is not listed is
/// measured nowhere.
pub proof fn law_files_are_measured_where_they_are(
    name: Seq<u8>,
    installed: Seq<Seq<u8>>,
    resources: Option<Seq<Seq<u8>>>,
)
    requires
        installed.len() <= usize::MAX,
        resources matches Some(names) ==> names.len() <= usize::MAX,
    ensures
        ({
            let source = source_of(name, installed, resources);
            &&& name != ascii("globalload.txt"@) ==> {
                &&& source is Absent <==> !installed.contains(name)
                &&& source matches Source::Installed(i) ==> stands_first(installed, name, i as int)
                &&& !(source is Resources)
            }
            &&& name == ascii("globalload.txt"@) ==> {
                &&& source is Absent <==> resources is None || !resources->0.contains(name)
                &&& source matches Source::Resources(i) ==> stands_first(
                    resources->0,
                    name,
                    i as int,
                )
                &&& !(source is Installed)
            }
        }),
{
    lemma_endings();
    lemma_position(installed, name);
    if resources is Some {
        lemma_position(resources->0, name);
    }
}

/// A plan keeps every name in its place, in small letters and with where to measure
/// it. A name that is no plain file name refuses the plan.
pub proof fn law_plans_cover_every_name(
    names: Seq<Seq<u8>>,
    installed: Seq<Seq<u8>>,
    resources: Option<Seq<Seq<u8>>>,
    i: int,
)
    ensures
        ({
            let plan = planned(names, installed, resources);
            &&& plan is Ok <==> forall|k: int|
                0 <= k < names.len() ==> asset_name(#[trigger] names[k])
            &&& plan is Err ==> plan->Err_0 == AssetFault::Filename
            &&& plan is Ok ==> plan->Ok_0.len() == names.len()
            &&& plan is Ok && 0 <= i < names.len() ==> plan->Ok_0[i] == (
                bytes::lowered(names[i]),
                source_of(bytes::lowered(names[i]), installed, resources),
            )
        }),
{
}

/// An inventory holds what was measured of every file that is somewhere, and that the
/// others are absent; it says nothing of other files.
pub proof fn law_inventories_hold_what_was_measured(
    entries: Seq<(Seq<u8>, Source)>,
    measured: Seq<Option<FileChecksum>>,
    i: int,
    name: Seq<u8>,
)
    ensures
        0 <= i < entries.len() && (forall|k: int|
            i < k < entries.len() ==> (#[trigger] entries[k]).0 != entries[i].0) ==> {
            let inventory = inventory_of(entries, measured);
            &&& inventory.contains_key(entries[i].0)
            &&& entries[i].1 is Absent ==> inventory[entries[i].0] is None
            &&& !(entries[i].1 is Absent) ==> inventory[entries[i].0] == measured[i]
        },
        (forall|k: int| 0 <= k < entries.len() ==> (#[trigger] entries[k]).0 != name)
            ==> !inventory_of(entries, measured).contains_key(name),
    decreases entries.len(),
{
    if entries.len() > 0 {
        let before = entries.drop_last();
        law_inventories_hold_what_was_measured(before, measured, i, name);
        assert(forall|k: int| 0 <= k < before.len() ==> #[trigger] before[k] == entries[k]);
        assert(entries.last() == entries[entries.len() - 1]);
    }
}

/// The index of a directory keeps every name in its place, in small letters.
pub proof fn law_directories_are_indexed_in_order(names: Seq<Seq<u8>>, i: int)
    ensures
        lower_names(names).len() == names.len(),
        0 <= i < names.len() ==> lower_names(names)[i] == bytes::lowered(names[i]),
{
}

} // verus!
