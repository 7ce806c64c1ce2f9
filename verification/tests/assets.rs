//! Checksum inventories and the manifests they answer.

use p99_logger_client::assets::scan::{
    directory_entries, file_list, is_companion, measure, wants_resources, ListedFile, Scan, Source,
};
use p99_logger_client::assets::{
    parse_manifest, AssetError, AssetFile, Assets, FileChecksum, ManifestEntry,
};

/// The list of validation files, as far as these tests go.
const KNOWN: &str = "GlobalLoad.txt\nspells_us.txt\n";

/// An installation directory in memory.
struct Installation(Vec<(String, Vec<u8>)>);

impl Installation {
    fn new() -> Self {
        Self(Vec::new())
    }

    fn write(&mut self, name: &str, body: &[u8]) {
        self.0.push((name.to_owned(), body.to_vec()));
    }

    /// The contents of a directory: names and, for a file, its bytes.
    fn listing(&self, directory: &str) -> Vec<(String, Option<Vec<u8>>)> {
        let mut entries: Vec<(String, Option<Vec<u8>>)> = Vec::new();
        for (path, body) in &self.0 {
            let entry = match path.split_once('/') {
                None if directory.is_empty() => (path.clone(), Some(body.clone())),
                Some((parent, _)) if directory.is_empty() => (parent.to_owned(), None),
                Some((parent, name)) if parent == directory => {
                    (name.to_owned(), Some(body.clone()))
                }
                _ => continue,
            };
            if !entries.contains(&entry) {
                entries.push(entry);
            }
        }
        entries
    }

    fn names(&self, directory: &str) -> Result<Vec<String>, AssetError> {
        let names: Vec<String> = self.listing(directory).into_iter().map(|e| e.0).collect();
        directory_entries(&names)
    }

    /// Measure what a scan names.
    fn inventory(&self, scan: &Scan) -> Assets {
        let root = self.listing("");
        let resources = self.listing("resources");
        let measured: Vec<Option<FileChecksum>> = scan
            .entries
            .iter()
            .map(|entry| match entry.source {
                Source::Installed(i) => Some(measure(root[i].1.as_ref().unwrap())),
                Source::Resources(i) => Some(measure(resources[i].1.as_ref().unwrap())),
                Source::Absent => None,
            })
            .collect();
        scan.inventory(&measured)
    }

    fn scan_all(&self) -> Result<Assets, AssetError> {
        let files: Vec<ListedFile> = self
            .names("")?
            .into_iter()
            .zip(self.listing(""))
            .map(|(name, (_, body))| ListedFile {
                is_file: body.is_some(),
                text: match body {
                    Some(body) if is_companion(&name) => String::from_utf8(body).unwrap(),
                    _ => String::new(),
                },
                name,
            })
            .collect();
        let resources = Some(self.names("resources")?);
        let scan = Assets::scan_all(KNOWN, &files, &resources)?;
        Ok(self.inventory(&scan))
    }

    fn scan(&self, names: &[String]) -> Result<Assets, AssetError> {
        let scan = Assets::scan(&names.to_vec(), &self.names("")?, &None)?;
        Ok(self.inventory(&scan))
    }
}

fn manifest(entries: &[(u16, u8, &str)]) -> Vec<u8> {
    let mut bytes = Vec::new();
    for (id, flags, name) in entries {
        bytes.extend_from_slice(&id.to_le_bytes());
        bytes.push(*flags);
        bytes.extend_from_slice(name.as_bytes());
        bytes.push(0);
    }
    bytes
}

#[test]
fn discovers_zones_models_and_absent_dependencies_without_personal_files() {
    let mut install = Installation::new();
    install.write("NewZone.S3D", b"zone archive");
    install.write("NewZone_chr.txt", b"2\nabc,missing_chr\ndef,present\n");
    install.write("NewZone_assets.txt", b"missing_object.eqg\n");
    install.write("Present.EQG", b"model archive");
    install.write("AnotherZone.eqg", b"new format zone");
    install.write("resources/GLOBALLOAD.TXT", b"global model list");
    install.write("GlobalLoad.txt", b"incorrect root copy");
    install.write("eqclient.ini", b"private settings");
    install.write("eqlog_ExampleCharacter.txt", b"private messages");
    install.write("notes.txt", b"private notes");

    let assets = install.scan_all().unwrap();
    for (name, content) in [
        ("newzone.s3d", b"zone archive".as_slice()),
        ("present.eqg", b"model archive".as_slice()),
        ("anotherzone.eqg", b"new format zone".as_slice()),
        ("globalload.txt", b"global model list".as_slice()),
    ] {
        let file = assets.get(name).unwrap().unwrap();
        assert_eq!(file.crc32, crc32fast::hash(content));
        assert_eq!(file.size, content.len() as u64);
    }
    for name in [
        "newzone_2_obj.s3d",
        "newzone.eqg",
        "anotherzone_chr.txt",
        "missing_chr.s3d",
        "missing_chr.eqg",
        "missing_object.eqg",
    ] {
        assert!(assets.get(name).unwrap().is_none(), "{name}");
    }
    for name in ["eqclient.ini", "eqlog_examplecharacter.txt", "notes.txt"] {
        assert!(assets.get(name).is_none(), "{name}");
    }
}

#[test]
fn responds_only_to_requested_files_with_server_ids_and_manifest_order() {
    let mut install = Installation::new();
    install.write("FirstZone.s3d", b"first zone");
    install.write("SecondZone.s3d", b"second zone");
    let assets = install.scan_all().unwrap();
    let request = manifest(&[
        (42, 1, "SECONDZONE.S3D"),
        (8, 9, "secondzone_assets.txt"),
        (99, 2, "unscanned_skipped_file.eqg"),
    ]);
    let mut expected = crc32fast::hash(&request).to_le_bytes().to_vec();
    expected.extend_from_slice(&42_u16.to_le_bytes());
    expected.extend_from_slice(&crc32fast::hash(b"second zone").to_le_bytes());
    expected.extend_from_slice(&8_u16.to_le_bytes());
    expected.extend_from_slice(&0_u32.to_le_bytes());
    assert_eq!(assets.file_response(&request).unwrap(), expected);

    let unknown = manifest(&[(5, 1, "unscanned_file.eqg")]);
    assert!(assets
        .file_response(&unknown)
        .unwrap_err()
        .message()
        .contains("no entry"));
}

#[test]
fn explicit_scan_is_limited_to_requested_filenames() {
    let mut install = Installation::new();
    install.write("NewZone.s3d", b"zone");
    install.write("OtherZone.s3d", b"other");
    let assets = install
        .scan(&["newzone.s3d".into(), "missing.eqg".into()])
        .unwrap();
    assert_eq!(assets.files.len(), 2);
    assert!(assets.get("newzone.s3d").unwrap().is_some());
    assert!(assets.get("missing.eqg").unwrap().is_none());
    assert!(install.scan(&["../outside.s3d".into()]).is_err());
}

#[test]
fn unknown_files_are_named_and_answered_with_zero() {
    let assets = Assets {
        client: "test".into(),
        files: vec![AssetFile {
            name: "absent.eqg".into(),
            checksum: None,
        }],
    };
    let request = manifest(&[(0x11, 1, "unknown.eqg"), (0x12, 1, "absent.eqg")]);
    let response = assets.checksum_response(&request).unwrap();
    let mut expected = crc32fast::hash(&request).to_le_bytes().to_vec();
    expected.extend(b"\x11\x00\x00\x00\x00\x00\x12\x00\x00\x00\x00\x00");
    assert_eq!(response.body, expected);
    assert_eq!(response.unknown_files, ["unknown.eqg"]);
}

#[test]
fn manifest_entries_come_back_as_they_were_written() {
    let entries = parse_manifest(&manifest(&[(7, 5, "Zone_1.eqg"), (8, 2, "a.txt")])).unwrap();
    assert_eq!(
        entries,
        [
            ManifestEntry {
                id: 7,
                flags: 5,
                name: "Zone_1.eqg".into()
            },
            ManifestEntry {
                id: 8,
                flags: 2,
                name: "a.txt".into()
            },
        ]
    );
    assert!(!entries[0].is_skipped() && entries[1].is_skipped());
}

#[test]
fn malformed_manifests_are_refused_for_what_is_wrong_with_them() {
    for (bytes, expected) in [
        (vec![], "empty file manifest"),
        (vec![1, 0, 1], "truncated file manifest"),
        (manifest(&[(1, 3, "a")]), "unsupported file manifest flags"),
        (vec![1, 0, 1, b'a'], "unterminated manifest filename"),
        (vec![1, 0, 1, 0xff, 0], "manifest filename is not UTF-8"),
        (manifest(&[(1, 1, "../a")]), "invalid manifest filename"),
        (manifest(&[(1, 1, "")]), "invalid manifest filename"),
        (
            manifest(&[(1, 1, "a"), (1, 1, "b")]),
            "duplicate manifest ID",
        ),
    ] {
        assert_eq!(parse_manifest(&bytes).unwrap_err().message(), expected);
    }
}

#[test]
fn manifests_name_no_directories() {
    for name in [".", "..", "../a", "a/b", "a\\b"] {
        let error = parse_manifest(&manifest(&[(1, 1, name)])).unwrap_err();
        assert!(matches!(error, AssetError::Name), "{name}");
    }
    assert!(parse_manifest(b"\x01\x00\x01..\0").is_err());
    assert!(parse_manifest(&manifest(&[(1, 1, "...")])).is_ok());
}

#[test]
fn inventories_are_keyed_by_name() {
    let mut assets = Assets {
        client: "test".into(),
        files: Vec::new(),
    };
    assert!(matches!(assets.spells(), Err(AssetError::NoSpells)));
    assets.insert("spells_us.txt".into(), None);
    assert!(assets.spells().is_err());
    let spells = FileChecksum {
        crc32: 1234,
        size: 5678,
    };
    assets.insert("spells_us.txt".into(), Some(spells));
    assert_eq!(assets.spells().unwrap(), spells);
    assert_eq!(assets.files.len(), 1);
    assert_eq!(assets.get("other.txt"), None);
}

#[test]
fn names_that_differ_in_case_only_are_ambiguous() {
    assert!(matches!(
        directory_entries(&vec!["Zone.s3d".into(), "ZONE.S3D".into()]),
        Err(AssetError::Ambiguous)
    ));
    assert_eq!(
        directory_entries(&vec!["Zone.s3d".into(), "\u{c4}.TXT".into()]).unwrap(),
        ["zone.s3d", "\u{c4}.txt"]
    );
}

#[test]
fn zone_companions_have_to_name_archives() {
    let mut assets = Installation::new();
    assets.write("zone_assets.txt", b"../object.eqg\n");
    assert!(matches!(assets.scan_all(), Err(AssetError::AssetList)));
    let mut characters = Installation::new();
    characters.write("zone_chr.txt", b"abc, ../model ,3\n");
    assert!(matches!(
        characters.scan_all(),
        Err(AssetError::CharacterList)
    ));
}

#[test]
fn the_resources_directory_is_read_for_one_file() {
    assert!(wants_resources(&vec![b"GLOBALLOAD.txt".to_vec()]));
    assert!(!wants_resources(&vec![b"zone.s3d".to_vec()]));
    assert_eq!(
        measure(b"abc"),
        FileChecksum {
            crc32: 0x3524_41c2,
            size: 3
        }
    );
}

#[test]
fn file_lists_leave_out_blank_lines_and_white_space() {
    let list = " spells_us.txt\r\n\n\t\nGlobalLoad.txt \u{3000}\n  a.eqg";
    assert_eq!(
        file_list(list),
        [&b"spells_us.txt"[..], b"GlobalLoad.txt", b"a.eqg"]
    );
    assert!(file_list(" \n\r\n").is_empty());
    let installed = vec!["a.eqg".to_owned(), "spells_us.txt".to_owned()];
    let scan = Assets::scan_list(list, &installed, &None).unwrap();
    let names: Vec<&str> = scan.entries.iter().map(|e| e.name.as_str()).collect();
    assert_eq!(names, ["spells_us.txt", "globalload.txt", "a.eqg"]);
    assert!(matches!(scan.entries[0].source, Source::Installed(1)));
    assert!(matches!(scan.entries[1].source, Source::Absent));
    assert!(matches!(scan.entries[2].source, Source::Installed(0)));
    assert!(Assets::scan_list("a/b", &installed, &None).is_err());
}
