//! The checksum inventory: what the installed game files measure, and the
//! answers to the file manifests of the servers.

use crate::bytes;
use crate::outside;
use crate::text;
use vstd::prelude::*;
use vstd::string::StringExecFns;

pub mod laws;
pub mod scan;

verus! {

/// Size and CRC-32 of a file.
#[derive(Clone, Copy, Debug, PartialEq, Eq, Structural)]
pub struct FileChecksum {
    pub crc32: u32,
    pub size: u64,
}

/// A file of the inventory. Without a checksum it is known to be absent.
#[derive(Debug)]
pub struct AssetFile {
    pub name: String,
    pub checksum: Option<FileChecksum>,
}

/// Checksums of an installation, by lowercase file name.
#[derive(Debug)]
pub struct Assets {
    pub client: String,
    pub files: Vec<AssetFile>,
}

/// Files by the bytes of their names; a later entry replaces an earlier one.
pub open spec fn file_map(files: Seq<AssetFile>) -> Map<Seq<u8>, Option<FileChecksum>>
    decreases files.len(),
{
    if files.len() == 0 {
        Map::empty()
    } else {
        file_map(files.drop_last()).insert(text::utf8(files.last().name@), files.last().checksum)
    }
}

impl View for Assets {
    type V = Map<Seq<u8>, Option<FileChecksum>>;

    open spec fn view(&self) -> Map<Seq<u8>, Option<FileChecksum>> {
        file_map(self.files@)
    }
}

impl Assets {
    /// Whether no file stands in the inventory twice.
    pub open spec fn unique(&self) -> bool {
        forall|i: int, j: int|
            0 <= i < j < self.files@.len() ==> text::utf8((#[trigger] self.files@[i]).name@)
                != text::utf8((#[trigger] self.files@[j]).name@)
    }
}

/// The map holds a name exactly where some file has it, with the checksum of
/// the last such file.
pub(crate) proof fn lemma_file_map(files: Seq<AssetFile>, name: Seq<u8>, i: int)
    requires
        -1 <= i < files.len(),
        i >= 0 ==> text::utf8(files[i].name@) == name,
        forall|j: int| i < j < files.len() ==> text::utf8((#[trigger] files[j]).name@) != name,
    ensures
        file_map(files).contains_key(name) <==> i >= 0,
        i >= 0 ==> file_map(files)[name] == files[i].checksum,
    decreases files.len(),
{
    if files.len() > 0 {
        let last = files.len() - 1;
        if i < last {
            assert(text::utf8(files[last].name@) != name);
            let rest = files.drop_last();
            assert forall|j: int| i < j < rest.len() implies text::utf8((#[trigger] rest[j]).name@)
                != name by {
                assert(rest[j] == files[j]);
            }
            lemma_file_map(rest, name, i);
        }
    }
}

/// A file that a server asks for.
#[derive(Debug, PartialEq, Eq)]
pub struct ManifestEntry {
    pub id: u16,
    pub flags: u8,
    pub name: String,
}

/// The meaning of a `ManifestEntry`.
#[verifier::ext_equal]
pub struct EntryState {
    pub id: u16,
    pub flags: u8,
    pub name: Seq<u8>,
}

pub open spec fn entry_state(e: ManifestEntry) -> EntryState {
    EntryState { id: e.id, flags: e.flags, name: text::utf8(e.name@) }
}

pub open spec fn entry_states(s: Seq<ManifestEntry>) -> Seq<EntryState> {
    s.map_values(|e: ManifestEntry| entry_state(e))
}

impl ManifestEntry {
    /// Whether the server wants no checksum of this file.
    pub fn is_skipped(&self) -> (skipped: bool)
        ensures
            skipped == (self.flags == 2),
    {
        self.flags == 2
    }
}

/// Why a manifest or an inventory is not usable.
#[derive(Debug)]
pub enum AssetError {
    Truncated,
    Flags,
    Unterminated,
    NameEncoding,
    Name,
    Duplicate,
    Empty,
    NoEntry(String),
    NoSpells,
    Ambiguous,
    Filename,
    AssetList,
    CharacterList,
}

/// The kinds of error, with the file name that one of them carries.
#[verifier::ext_equal]
pub enum AssetFault {
    Truncated,
    Flags,
    Unterminated,
    NameEncoding,
    Name,
    Duplicate,
    Empty,
    NoEntry(Seq<char>),
    NoSpells,
    Ambiguous,
    Filename,
    AssetList,
    CharacterList,
}

impl View for AssetError {
    type V = AssetFault;

    open spec fn view(&self) -> AssetFault {
        match self {
            AssetError::Truncated => AssetFault::Truncated,
            AssetError::Flags => AssetFault::Flags,
            AssetError::Unterminated => AssetFault::Unterminated,
            AssetError::NameEncoding => AssetFault::NameEncoding,
            AssetError::Name => AssetFault::Name,
            AssetError::Duplicate => AssetFault::Duplicate,
            AssetError::Empty => AssetFault::Empty,
            AssetError::NoEntry(name) => AssetFault::NoEntry(name@),
            AssetError::NoSpells => AssetFault::NoSpells,
            AssetError::Ambiguous => AssetFault::Ambiguous,
            AssetError::Filename => AssetFault::Filename,
            AssetError::AssetList => AssetFault::AssetList,
            AssetError::CharacterList => AssetFault::CharacterList,
        }
    }
}

impl AssetFault {
    /// The wording of each error.
    pub open spec fn text(self) -> Seq<char> {
        match self {
            AssetFault::Truncated => "truncated file manifest"@,
            AssetFault::Flags => "unsupported file manifest flags"@,
            AssetFault::Unterminated => "unterminated manifest filename"@,
            AssetFault::NameEncoding => "manifest filename is not UTF-8"@,
            AssetFault::Name => "invalid manifest filename"@,
            AssetFault::Duplicate => "duplicate manifest ID"@,
            AssetFault::Empty => "empty file manifest"@,
            AssetFault::NoEntry(name) => "asset inventory has no entry for "@ + name,
            AssetFault::NoSpells => "spells_us.txt missing from asset inventory"@,
            AssetFault::Ambiguous => "ambiguous case-insensitive filename in asset directory"@,
            AssetFault::Filename => "asset inventory entries must be filenames"@,
            AssetFault::AssetList => "invalid asset-list archive"@,
            AssetFault::CharacterList => "invalid character-list archive"@,
        }
    }
}

impl AssetError {
    /// Describe the error to a user.
    pub fn message(&self) -> (text: String)
        ensures
            text@ == self@.text(),
    {
        match self {
            AssetError::Truncated => "truncated file manifest".to_owned(),
            AssetError::Flags => "unsupported file manifest flags".to_owned(),
            AssetError::Unterminated => "unterminated manifest filename".to_owned(),
            AssetError::NameEncoding => "manifest filename is not UTF-8".to_owned(),
            AssetError::Name => "invalid manifest filename".to_owned(),
            AssetError::Duplicate => "duplicate manifest ID".to_owned(),
            AssetError::Empty => "empty file manifest".to_owned(),
            AssetError::NoEntry(name) => "asset inventory has no entry for ".to_owned().concat(
                name.as_str(),
            ),
            AssetError::NoSpells => "spells_us.txt missing from asset inventory".to_owned(),
            AssetError::Ambiguous =>
                "ambiguous case-insensitive filename in asset directory".to_owned(),
            AssetError::Filename => "asset inventory entries must be filenames".to_owned(),
            AssetError::AssetList => "invalid asset-list archive".to_owned(),
            AssetError::CharacterList => "invalid character-list archive".to_owned(),
        }
    }
}

/// Whether a byte may stand in a file name: a letter, a digit, a dot or an
/// underscore.
pub open spec fn name_byte(b: u8) -> bool {
    ||| 0x30 <= b <= 0x39
    ||| 0x41 <= b <= 0x5a
    ||| 0x61 <= b <= 0x7a
    ||| b == 0x2e
    ||| b == 0x5f
}

/// A file name without path components, of up to 200 bytes: it names neither a
/// directory nor its parent.
pub open spec fn plain_name(name: Seq<u8>) -> bool {
    &&& 0 < name.len() <= 200
    &&& forall|i: int| 0 <= i < name.len() ==> name_byte(#[trigger] name[i])
    &&& name != seq![0x2eu8]
    &&& name != seq![0x2eu8, 0x2eu8]
}

fn is_plain_name(name: &[u8]) -> (valid: bool)
    ensures
        valid == plain_name(name@),
{
    if name.len() == 0 || name.len() > 200 {
        return false;
    }
    if name.len() == 1 && name[0] == 0x2e {
        assert(name@ =~= seq![0x2eu8]);
        return false;
    }
    if name.len() == 2 && name[0] == 0x2e && name[1] == 0x2e {
        assert(name@ =~= seq![0x2eu8, 0x2eu8]);
        return false;
    }
    let mut i: usize = 0;
    while i < name.len()
        invariant
            i <= name@.len(),
            forall|j: int| 0 <= j < i ==> name_byte(#[trigger] name@[j]),
        decreases name@.len() - i,
    {
        let b: u8 = name[i];
        let valid = (0x30 <= b && b <= 0x39) || (0x41 <= b && b <= 0x5a) || (0x61 <= b && b
            <= 0x7a) || b == 0x2e || b == 0x5f;
        if !valid {
            assert(!name_byte(name@[i as int]));
            return false;
        }
        i = i + 1;
    }
    true
}

/// Whether an identifier occurs among entries.
pub open spec fn has_id(entries: Seq<EntryState>, id: u16) -> bool {
    exists|i: int| 0 <= i < entries.len() && (#[trigger] entries[i]).id == id
}

/// The entries of a manifest after those already `seen`. Each has an
/// identifier, a flag byte and a NUL-terminated file name.
pub open spec fn entries_from(data: Seq<u8>, seen: Seq<EntryState>) -> Result<
    Seq<EntryState>,
    AssetFault,
>
    decreases data.len(),
{
    let name = bytes::until_nul(data.skip(3));
    let flags = data[2];
    if data.len() == 0 {
        Ok(seen)
    } else if data.len() < 4 {
        Err(AssetFault::Truncated)
    } else if flags != 1 && flags != 2 && flags != 5 && flags != 9 {
        Err(AssetFault::Flags)
    } else if 3 + name.len() >= data.len() {
        Err(AssetFault::Unterminated)
    } else if !vstd::utf8::valid_utf8(name) {
        Err(AssetFault::NameEncoding)
    } else if !plain_name(name) {
        Err(AssetFault::Name)
    } else if has_id(seen, bytes::le16_at(data, 0)) {
        Err(AssetFault::Duplicate)
    } else {
        entries_from(
            data.skip(3 + name.len() as int + 1),
            seen.push(EntryState { id: bytes::le16_at(data, 0), flags, name }),
        )
    }
}

/// The entries of a manifest, of which there is at least one.
pub open spec fn manifest_entries(data: Seq<u8>) -> Result<Seq<EntryState>, AssetFault> {
    match entries_from(data, Seq::empty()) {
        Ok(entries) => if entries.len() == 0 {
            Err(AssetFault::Empty)
        } else {
            Ok(entries)
        },
        Err(e) => Err(e),
    }
}

/// Whether an identifier occurs among entries.
fn has_entry(entries: &Vec<ManifestEntry>, id: u16) -> (found: bool)
    ensures
        found == has_id(entry_states(entries@), id),
{
    let ghost states = entry_states(entries@);
    let mut i: usize = 0;
    while i < entries.len()
        invariant
            i <= entries@.len(),
            states == entry_states(entries@),
            forall|j: int| 0 <= j < i ==> (#[trigger] states[j]).id != id,
        decreases entries@.len() - i,
    {
        if entries[i].id == id {
            assert(states[i as int].id == id);
            return true;
        }
        i = i + 1;
    }
    false
}

/// Parse and validate a V62 file manifest without accepting path components.
pub fn parse_manifest(data: &[u8]) -> (r: Result<Vec<ManifestEntry>, AssetError>)
    ensures
        manifest_entries(data@) == (match r {
            Ok(entries) => Ok(entry_states(entries@)),
            Err(e) => Err(e@),
        }),
{
    let mut entries: Vec<ManifestEntry> = Vec::new();
    let mut at: usize = 0;
    proof {
        assert(data@.skip(0) =~= data@);
        assert(entry_states(entries@) =~= Seq::empty());
    }
    while at < data.len()
        invariant
            at <= data@.len(),
            entries_from(data@, Seq::empty()) == entries_from(
                data@.skip(at as int),
                entry_states(entries@),
            ),
        decreases data@.len() - at,
    {
        let ghost rest = data@.skip(at as int);
        if data.len() - at < 4 {
            return Err(AssetError::Truncated);
        }
        let id = bytes::read_le16(data, at);
        assert(bytes::le16_at(rest, 0) == id);
        let flags: u8 = data[at + 2];
        if flags != 1 && flags != 2 && flags != 5 && flags != 9 {
            return Err(AssetError::Flags);
        }
        let tail = &data[at + 3..data.len()];
        assert(tail@ =~= rest.skip(3));
        let name = bytes::cstr(tail);
        proof {
            bytes::lemma_until(tail@, 0);
        }
        if name.len() >= tail.len() {
            return Err(AssetError::Unterminated);
        }
        let name_text = match outside::text_from_utf8(vstd::slice::slice_to_vec(name)) {
            Some(t) => t,
            None => {
                return Err(AssetError::NameEncoding);
            },
        };
        if !is_plain_name(name) {
            return Err(AssetError::Name);
        }
        if has_entry(&entries, id) {
            return Err(AssetError::Duplicate);
        }
        let entry = ManifestEntry { id, flags, name: name_text };
        let ghost before = entry_states(entries@);
        entries.push(entry);
        proof {
            assert(entry_states(entries@) =~= before.push(entry_state(entry)));
            assert(rest.skip(3 + name@.len() as int + 1) =~= data@.skip(
                at + 3 + name@.len() as int + 1,
            ));
        }
        at = at + 3 + name.len() + 1;
    }
    if entries.len() == 0 {
        return Err(AssetError::Empty);
    }
    Ok(entries)
}

/// The checksum that answers a manifest entry: zero for an absent file and for
/// one that the inventory does not know.
pub open spec fn answer(files: Map<Seq<u8>, Option<FileChecksum>>, name: Seq<u8>) -> u32 {
    let key = bytes::lowered(name);
    if !files.contains_key(key) {
        0
    } else {
        match files[key] {
            Some(checksum) => checksum.crc32,
            None => 0,
        }
    }
}

/// The answers to manifest entries, in their order, without skipped ones.
pub open spec fn answers(
    files: Map<Seq<u8>, Option<FileChecksum>>,
    entries: Seq<EntryState>,
) -> Seq<u8>
    decreases entries.len(),
{
    if entries.len() == 0 {
        Seq::empty()
    } else {
        let e = entries.last();
        let before = answers(files, entries.drop_last());
        if e.flags == 2 {
            before
        } else {
            before + bytes::le16(e.id) + bytes::le32(answer(files, e.name))
        }
    }
}

/// The names, in manifest order, that the inventory does not know.
pub open spec fn unknown(
    files: Map<Seq<u8>, Option<FileChecksum>>,
    entries: Seq<EntryState>,
) -> Seq<Seq<u8>>
    decreases entries.len(),
{
    if entries.len() == 0 {
        Seq::empty()
    } else {
        let e = entries.last();
        let before = unknown(files, entries.drop_last());
        if e.flags == 2 || files.contains_key(bytes::lowered(e.name)) {
            before
        } else {
            before.push(e.name)
        }
    }
}

/// The body of a checksum response: the checksum of the manifest itself and the
/// answers to its entries.
pub open spec fn response_body(
    files: Map<Seq<u8>, Option<FileChecksum>>,
    manifest: Seq<u8>,
    entries: Seq<EntryState>,
) -> Seq<u8> {
    bytes::le32(outside::crc32_of(manifest)) + answers(files, entries)
}

/// A checksum response, with the files that the inventory does not know.
#[derive(Debug)]
pub struct FileResponse {
    pub body: Vec<u8>,
    pub unknown_files: Vec<String>,
}

pub open spec fn name_bytes(names: Seq<String>) -> Seq<Seq<u8>> {
    names.map_values(|n: String| text::utf8(n@))
}

impl Assets {
    /// Look up a file by the bytes of its lowercase name.
    fn lookup(&self, name: &[u8]) -> (found: Option<Option<FileChecksum>>)
        ensures
            match found {
                Some(checksum) => self@.contains_key(name@) && self@[name@] == checksum,
                None => !self@.contains_key(name@),
            },
    {
        let mut i: usize = self.files.len();
        while i > 0
            invariant
                i <= self.files@.len(),
                forall|j: int|
                    i <= j < self.files@.len() ==> text::utf8((#[trigger] self.files@[j]).name@)
                        != name@,
            decreases i,
        {
            i = i - 1;
            if text::is(&self.files[i].name, name) {
                proof {
                    lemma_file_map(self.files@, name@, i as int);
                }
                return Some(self.files[i].checksum);
            }
        }
        proof {
            lemma_file_map(self.files@, name@, -1);
        }
        None
    }

    /// What the inventory says of a file: `None` where it was never checked,
    /// and no checksum where it is known to be absent.
    pub fn get(&self, name: &str) -> (found: Option<Option<FileChecksum>>)
        ensures
            match found {
                Some(checksum) => self@.contains_key(text::utf8(name@)) && self@[text::utf8(name@)]
                    == checksum,
                None => !self@.contains_key(text::utf8(name@)),
            },
    {
        self.lookup(name.as_bytes())
    }

    /// Record what a file measures, or that it is absent.
    pub fn insert(&mut self, name: String, checksum: Option<FileChecksum>)
        ensures
            final(self)@ == old(self)@.insert(text::utf8(name@), checksum),
            final(self).client == old(self).client,
            old(self).unique() ==> final(self).unique(),
    {
        let mut i: usize = 0;
        while i < self.files.len()
            invariant
                i <= self.files@.len(),
                *self == *old(self),
                forall|j: int|
                    0 <= j < i ==> text::utf8((#[trigger] self.files@[j]).name@) != text::utf8(
                        name@,
                    ),
            decreases self.files@.len() - i,
        {
            if text::is(&self.files[i].name, text::bytes_of(&name)) {
                let ghost before = self.files@;
                let _ = self.files.remove(i);
                self.files.push(AssetFile { name, checksum });
                proof {
                    lemma_removed(before, i as int);
                    assert(self.files@.drop_last() =~= before.remove(i as int));
                    let key = text::utf8(name@);
                    assert(file_map(before.remove(i as int)).insert(key, checksum) =~= file_map(
                        before,
                    ).insert(key, checksum));
                }
                return;
            }
            i = i + 1;
        }
        let ghost before = self.files@;
        self.files.push(AssetFile { name, checksum });
        assert(self.files@.drop_last() =~= before);
    }

    /// Answer a manifest. Files that the inventory does not know are answered
    /// with checksum zero and named, which leaves the decision to the server.
    pub fn checksum_response(&self, manifest: &[u8]) -> (r: Result<FileResponse, AssetError>)
        ensures
            match manifest_entries(manifest@) {
                Ok(entries) => r matches Ok(response) && response.body@ == response_body(
                    self@,
                    manifest@,
                    entries,
                ) && name_bytes(response.unknown_files@) == unknown(self@, entries),
                Err(e) => r matches Err(error) && error@ == e,
            },
    {
        let entries = match parse_manifest(manifest) {
            Ok(entries) => entries,
            Err(e) => {
                return Err(e);
            },
        };
        let ghost all = entry_states(entries@);
        let mut body: Vec<u8> = Vec::new();
        bytes::push_le32(&mut body, outside::crc32(manifest));
        let mut unknown_files: Vec<String> = Vec::new();
        let mut i: usize = 0;
        proof {
            assert(all.take(0) =~= Seq::empty());
            assert(body@ =~= response_body(self@, manifest@, all.take(0)));
            assert(name_bytes(unknown_files@) =~= unknown(self@, all.take(0)));
        }
        while i < entries.len()
            invariant
                i <= entries@.len(),
                all == entry_states(entries@),
                body@ == response_body(self@, manifest@, all.take(i as int)),
                name_bytes(unknown_files@) == unknown(self@, all.take(i as int)),
            decreases entries@.len() - i,
        {
            let ghost e = all[i as int];
            proof {
                assert(all.take(i + 1).drop_last() =~= all.take(i as int));
                assert(all.take(i + 1).last() == e);
            }
            if !entries[i].is_skipped() {
                let key = bytes::ascii_lowercase(text::bytes_of(&entries[i].name));
                let crc: u32 = match self.lookup(&key) {
                    Some(Some(checksum)) => checksum.crc32,
                    Some(None) => 0,
                    None => {
                        let name = entries[i].name.clone();
                        let ghost before = unknown_files@;
                        unknown_files.push(name);
                        assert(name_bytes(unknown_files@) =~= name_bytes(before).push(e.name));
                        0
                    },
                };
                let ghost before = body@;
                bytes::push_le16(&mut body, entries[i].id);
                bytes::push_le32(&mut body, crc);
                assert(body@ =~= response_body(self@, manifest@, all.take(i + 1)));
            }
            i = i + 1;
        }
        assert(all.take(i as int) =~= all);
        Ok(FileResponse { body, unknown_files })
    }

    /// Build the checksum response requested by a world or zone manifest, of
    /// which every file has to be in the inventory.
    pub fn file_response(&self, manifest: &[u8]) -> (r: Result<Vec<u8>, AssetError>)
        ensures
            match manifest_entries(manifest@) {
                Ok(entries) => if unknown(self@, entries).len() == 0 {
                    r matches Ok(body) && body@ == response_body(self@, manifest@, entries)
                } else {
                    r matches Err(AssetError::NoEntry(name)) && text::utf8(name@) == unknown(
                        self@,
                        entries,
                    )[0]
                },
                Err(e) => r matches Err(error) && error@ == e,
            },
    {
        let response = match self.checksum_response(manifest) {
            Ok(response) => response,
            Err(e) => {
                return Err(e);
            },
        };
        if response.unknown_files.len() > 0 {
            let name = response.unknown_files[0].clone();
            assert(name_bytes(response.unknown_files@)[0] == text::utf8(name@));
            return Err(AssetError::NoEntry(name));
        }
        assert(name_bytes(response.unknown_files@).len() == 0);
        Ok(response.body)
    }

    /// The spell-file metadata used by the V62 CRC1 response.
    pub fn spells(&self) -> (r: Result<FileChecksum, AssetError>)
        ensures
            match self.spell_file() {
                Some(checksum) => r == Ok::<_, AssetError>(checksum),
                None => r matches Err(e) && e@ == AssetFault::NoSpells,
            },
    {
        match self.get("spells_us.txt") {
            Some(Some(checksum)) => Ok(checksum),
            _ => Err(AssetError::NoSpells),
        }
    }

    /// The measured spell file, if the inventory has one.
    pub open spec fn spell_file(&self) -> Option<FileChecksum> {
        if self@.contains_key(text::utf8("spells_us.txt"@)) {
            self@[text::utf8("spells_us.txt"@)]
        } else {
            None
        }
    }
}

/// Removing a file takes away no other name.
proof fn lemma_removed(files: Seq<AssetFile>, i: int)
    requires
        0 <= i < files.len(),
    ensures
        forall|name: Seq<u8>|
            name != text::utf8(files[i].name@) ==> {
                &&& #[trigger] file_map(files.remove(i)).contains_key(name) == file_map(
                    files,
                ).contains_key(name)
                &&& file_map(files).contains_key(name) ==> file_map(files.remove(i))[name]
                    == file_map(files)[name]
            },
    decreases files.len(),
{
    let rest = files.drop_last();
    if i == files.len() - 1 {
        assert(files.remove(i) =~= rest);
    } else {
        lemma_removed(rest, i);
        assert(files.remove(i).drop_last() =~= rest.remove(i));
        assert(files.remove(i).last() == files.last());
        assert(rest[i] == files[i]);
        let key = text::utf8(files.last().name@);
        assert(file_map(files.remove(i)) == file_map(rest.remove(i)).insert(
            key,
            files.last().checksum,
        ));
        assert forall|name: Seq<u8>| name != text::utf8(files[i].name@) implies {
            &&& #[trigger] file_map(files.remove(i)).contains_key(name) == file_map(
                files,
            ).contains_key(name)
            &&& file_map(files).contains_key(name) ==> file_map(files.remove(i))[name] == file_map(
                files,
            )[name]
        } by {
            assert(file_map(rest.remove(i)).contains_key(name) == file_map(rest).contains_key(
                name,
            ));
        }
    }
}

/// A manifest with some entries, as a server writes it.
pub open spec fn manifest_of(entries: Seq<EntryState>) -> Seq<u8>
    decreases entries.len(),
{
    if entries.len() == 0 {
        Seq::empty()
    } else {
        let e = entries[0];
        bytes::le16(e.id) + seq![e.flags] + e.name + seq![0u8] + manifest_of(entries.skip(1))
    }
}

/// An entry that a manifest may hold.
pub open spec fn entry_valid(e: EntryState) -> bool {
    &&& e.flags == 1 || e.flags == 2 || e.flags == 5 || e.flags == 9
    &&& plain_name(e.name)
    &&& vstd::utf8::valid_utf8(e.name)
}

pub open spec fn distinct_ids(entries: Seq<EntryState>) -> bool {
    forall|i: int, j: int|
        0 <= i < j < entries.len() ==> (#[trigger] entries[i]).id != (#[trigger] entries[j]).id
}

/// One entry at the front of a manifest is read first.
pub(crate) proof fn lemma_first_entry(e: EntryState, tail: Seq<u8>, seen: Seq<EntryState>)
    requires
        entry_valid(e),
        !has_id(seen, e.id),
    ensures
        entries_from(bytes::le16(e.id) + seq![e.flags] + e.name + seq![0u8] + tail, seen)
            == entries_from(tail, seen.push(e)),
{
    let data = bytes::le16(e.id) + seq![e.flags] + e.name + seq![0u8] + tail;
    bytes::lemma_integers_round_trip(e.id, 0);
    assert(data[0] == bytes::le16(e.id)[0] && data[1] == bytes::le16(e.id)[1]);
    assert(data[2] == e.flags);
    assert(data.skip(3) =~= e.name + seq![0u8] + tail);
    assert forall|i: int| 0 <= i < e.name.len() implies data.skip(3)[i] != 0 by {
        assert(name_byte(e.name[i]));
    }
    bytes::lemma_until_unique(data.skip(3), 0, e.name.len() as int);
    assert(data.skip(3).take(e.name.len() as int) =~= e.name);
    assert(data.skip(3 + e.name.len() as int + 1) =~= tail);
}

proof fn lemma_manifest_round_trip(entries: Seq<EntryState>, seen: Seq<EntryState>)
    requires
        forall|i: int| 0 <= i < entries.len() ==> entry_valid(#[trigger] entries[i]),
        distinct_ids(seen + entries),
    ensures
        entries_from(manifest_of(entries), seen) == Ok::<_, AssetFault>(seen + entries),
    decreases entries.len(),
{
    if entries.len() == 0 {
        assert(seen + entries =~= seen);
    } else {
        let e = entries[0];
        let rest = entries.skip(1);
        assert forall|i: int| 0 <= i < seen.len() implies (#[trigger] seen[i]).id != e.id by {
            assert((seen + entries)[i] == seen[i]);
            assert((seen + entries)[seen.len() as int] == e);
        }
        lemma_first_entry(e, manifest_of(rest), seen);
        assert forall|i: int| 0 <= i < rest.len() implies entry_valid(#[trigger] rest[i]) by {
            assert(rest[i] == entries[i + 1]);
        }
        assert(seen.push(e) + rest =~= seen + entries);
        lemma_manifest_round_trip(rest, seen.push(e));
    }
}

/// A manifest reads back as the entries it was written from.
pub proof fn law_manifest_entries_come_back(entries: Seq<EntryState>)
    requires
        entries.len() > 0,
        forall|i: int| 0 <= i < entries.len() ==> entry_valid(#[trigger] entries[i]),
        distinct_ids(entries),
    ensures
        manifest_entries(manifest_of(entries)) == Ok::<_, AssetFault>(entries),
{
    assert(Seq::<EntryState>::empty() + entries =~= entries);
    lemma_manifest_round_trip(entries, Seq::empty());
}

proof fn lemma_entries_valid(data: Seq<u8>, seen: Seq<EntryState>)
    requires
        entries_from(data, seen) is Ok,
        distinct_ids(seen),
        forall|i: int| 0 <= i < seen.len() ==> entry_valid(#[trigger] seen[i]),
    ensures
        distinct_ids(entries_from(data, seen)->Ok_0),
        forall|i: int|
            0 <= i < entries_from(data, seen)->Ok_0.len() ==> entry_valid(
                #[trigger] entries_from(data, seen)->Ok_0[i],
            ),
    decreases data.len(),
{
    if data.len() > 0 {
        let name = bytes::until_nul(data.skip(3));
        let e = EntryState { id: bytes::le16_at(data, 0), flags: data[2], name };
        assert(distinct_ids(seen.push(e)));
        lemma_entries_valid(data.skip(3 + name.len() as int + 1), seen.push(e));
    }
}

/// What was read of a manifest is all that it holds.
proof fn lemma_entries_complete(data: Seq<u8>, seen: Seq<EntryState>)
    requires
        entries_from(data, seen) is Ok,
    ensures
        ({
            let all = entries_from(data, seen)->Ok_0;
            &&& seen.len() <= all.len()
            &&& all.take(seen.len() as int) == seen
            &&& manifest_of(all.skip(seen.len() as int)) == data
        }),
    decreases data.len(),
{
    let all = entries_from(data, seen)->Ok_0;
    if data.len() == 0 {
        assert(seen.take(seen.len() as int) =~= seen);
        assert(seen.skip(seen.len() as int) =~= Seq::empty());
        assert(data =~= Seq::empty());
    } else {
        let name = bytes::until_nul(data.skip(3));
        let e = EntryState { id: bytes::le16_at(data, 0), flags: data[2], name };
        let tail = data.skip(3 + name.len() as int + 1);
        lemma_entries_complete(tail, seen.push(e));
        let rest = all.skip(seen.len() as int);
        assert(all.take(seen.len() as int) =~= all.take(seen.len() as int + 1).drop_last());
        assert(seen.push(e).drop_last() =~= seen);
        assert(rest[0] == all.take(seen.len() as int + 1).last());
        assert(rest.skip(1) =~= all.skip(seen.len() as int + 1));
        bytes::lemma_until(data.skip(3), 0);
        assert(data.skip(3)[name.len() as int] == 0);
        assert(bytes::le16(e.id) =~= data.take(2));
        assert forall|i: int| 0 <= i < name.len() implies name[i] == data[3 + i] by {
            assert(name[i] == data.skip(3)[i]);
        }
        assert(manifest_of(rest) =~= data);
    }
}

/// A manifest that is accepted has at least one entry, no identifier twice and
/// no name with a path component, and consists of its entries and nothing else.
pub proof fn law_accepted_manifest_is_sound(data: Seq<u8>)
    requires
        manifest_entries(data) is Ok,
    ensures
        manifest_entries(data)->Ok_0.len() > 0,
        distinct_ids(manifest_entries(data)->Ok_0),
        forall|i: int|
            0 <= i < manifest_entries(data)->Ok_0.len() ==> entry_valid(
                #[trigger] manifest_entries(data)->Ok_0[i],
            ),
        manifest_of(manifest_entries(data)->Ok_0) == data,
{
    lemma_entries_valid(data, Seq::empty());
    lemma_entries_complete(data, Seq::empty());
    let all = manifest_entries(data)->Ok_0;
    assert(all.skip(0) =~= all);
}

/// A response answers every entry that is not skipped with six bytes.
pub proof fn law_response_length(
    files: Map<Seq<u8>, Option<FileChecksum>>,
    entries: Seq<EntryState>,
)
    ensures
        answers(files, entries).len() == 6 * entries.filter(|e: EntryState| e.flags != 2).len(),
    decreases entries.len(),
{
    reveal(Seq::filter);
    if entries.len() > 0 {
        law_response_length(files, entries.drop_last());
    }
}

} // verus!
