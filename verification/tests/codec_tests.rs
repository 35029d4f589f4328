use basedchar::character::{CharacterData, Emotion, EmotionFrame};
use basedchar::codec::{build_archive, decode_archive, CodecError, ImageStore};
use basedchar::doc::{encode_document, parse_document};
use basedchar::escape::{escape, unescape};
use basedchar::paths::{base_name, ensure_extension, extraction_dir, join_path};

fn ava() -> CharacterData {
    CharacterData {
        name: "Ava".to_string(),
        emotions: vec![Emotion {
            name: "Happy".to_string(),
            frames: vec![(
                "default".to_string(),
                EmotionFrame {
                    frame_type: "static".to_string(),
                    path: "/tmp/ava_happy.png".to_string(),
                },
            )],
        }],
    }
}

fn ava_store() -> ImageStore {
    let mut store = ImageStore::new();
    store.add("/tmp/ava_happy.png".to_string(), vec![137, 80, 78, 71, 13, 10]);
    store
}

#[test]
fn extension_appended_when_absent() {
    assert_eq!(ensure_extension(&"out".to_string()), "out.basedchar");
    assert_eq!(ensure_extension(&"dir/out".to_string()), "dir/out.basedchar");
}

#[test]
fn extension_kept_when_present() {
    assert_eq!(ensure_extension(&"out.basedchar".to_string()), "out.basedchar");
}

#[test]
fn base_name_of_paths() {
    assert_eq!(base_name(&"/tmp/ava_happy.png".to_string()), Some("ava_happy.png".to_string()));
    assert_eq!(base_name(&"plain.png".to_string()), Some("plain.png".to_string()));
    assert_eq!(base_name(&"dir/".to_string()), Some("dir".to_string()));
    assert_eq!(base_name(&"a/.".to_string()), Some("a".to_string()));
    assert_eq!(base_name(&"a/./".to_string()), Some("a".to_string()));
    assert_eq!(base_name(&"".to_string()), None);
    assert_eq!(base_name(&"/".to_string()), None);
    assert_eq!(base_name(&"a/..".to_string()), None);
    assert_eq!(base_name(&"..".to_string()), None);
    assert_eq!(base_name(&".".to_string()), None);
}

#[test]
fn extraction_dir_beside_source() {
    assert_eq!(extraction_dir(&"a/out.basedchar".to_string()), Some("a/extracted".to_string()));
    assert_eq!(extraction_dir(&"out.basedchar".to_string()), Some("extracted".to_string()));
    assert_eq!(extraction_dir(&"".to_string()), None);
}

#[test]
fn join_path_single_slash() {
    assert_eq!(join_path(&"a".to_string(), &"x.png".to_string()), "a/x.png");
    assert_eq!(join_path(&"a/".to_string(), &"x.png".to_string()), "a/x.png");
    assert_eq!(join_path(&"".to_string(), &"x.png".to_string()), "x.png");
}

#[test]
fn escape_round_trip() {
    let tricky: Vec<char> = "a\"b\\c\nd\re\tf".chars().collect();
    let escaped = escape(&tricky);
    assert!(!escaped.contains(&'\n'));
    assert_eq!(unescape(&escaped), Some(tricky));
}

#[test]
fn unescape_rejects_raw_quote() {
    let bad: Vec<char> = "a\"b".chars().collect();
    assert_eq!(unescape(&bad), None);
}

#[test]
fn document_round_trip_in_memory() {
    let data = ava();
    let lines = encode_document(&data);
    let parsed = parse_document(&lines).expect("document should parse back");
    assert_eq!(parsed.name, "Ava");
    assert_eq!(parsed.emotions.len(), 1);
    assert_eq!(parsed.emotions[0].name, "Happy");
    assert_eq!(parsed.emotions[0].frames.len(), 1);
    assert_eq!(parsed.emotions[0].frames[0].0, "default");
    assert_eq!(parsed.emotions[0].frames[0].1.frame_type, "static");
    assert_eq!(parsed.emotions[0].frames[0].1.path, "/tmp/ava_happy.png");
}

#[test]
fn document_round_trip_tricky_names() {
    let data = CharacterData {
        name: "A\"v\\a\nwith lines".to_string(),
        emotions: vec![Emotion {
            name: "[[emotions]]".to_string(),
            frames: vec![(
                "key = \"x\"".to_string(),
                EmotionFrame {
                    frame_type: "st\tatic".to_string(),
                    path: "/tmp/od\rd.png".to_string(),
                },
            )],
        }],
    };
    let lines = encode_document(&data);
    let parsed = parse_document(&lines).expect("document should parse back");
    assert_eq!(parsed.name, data.name);
    assert_eq!(parsed.emotions[0].name, "[[emotions]]");
    assert_eq!(parsed.emotions[0].frames[0].0, "key = \"x\"");
    assert_eq!(parsed.emotions[0].frames[0].1.frame_type, "st\tatic");
    assert_eq!(parsed.emotions[0].frames[0].1.path, "/tmp/od\rd.png");
}

#[test]
fn document_rejects_duplicate_frame_names() {
    let lines: Vec<Vec<char>> = [
        "name = \"Ava\"",
        "[[emotions]]",
        "name = \"Happy\"",
        "[[emotions.frames]]",
        "key = \"default\"",
        "frame_type = \"static\"",
        "path = \"a.png\"",
        "[[emotions.frames]]",
        "key = \"default\"",
        "frame_type = \"static\"",
        "path = \"b.png\"",
    ]
        .iter()
        .map(|l| l.chars().collect())
        .collect();
    assert!(parse_document(&lines).is_none());
}

#[test]
fn document_rejects_garbage() {
    let lines: Vec<Vec<char>> = ["not a document"].iter().map(|l| l.chars().collect()).collect();
    assert!(parse_document(&lines).is_none());
}

#[test]
fn save_produces_expected_entries() {
    let bytes = build_archive(&ava(), &ava_store()).expect("save should succeed");
    let mut zip = zip::ZipArchive::new(std::io::Cursor::new(bytes)).expect("valid container");
    {
        let entry = zip.by_name("character.toml").expect("metadata entry present");
        assert!(entry.size() > 0);
    }
    {
        let mut entry = zip.by_name("ava_happy.png").expect("image entry present");
        let mut content = Vec::new();
        std::io::Read::read_to_end(&mut entry, &mut content).unwrap();
        assert_eq!(content, vec![137, 80, 78, 71, 13, 10]);
    }
    assert_eq!(zip.len(), 2);
}

#[test]
fn metadata_entry_is_the_expected_document() {
    let bytes = build_archive(&ava(), &ava_store()).expect("save should succeed");
    let mut zip = zip::ZipArchive::new(std::io::Cursor::new(bytes)).unwrap();
    let mut entry = zip.by_name("character.toml").unwrap();
    let mut text = String::new();
    std::io::Read::read_to_string(&mut entry, &mut text).unwrap();
    assert_eq!(
        text,
        "name = \"Ava\"\n[[emotions]]\nname = \"Happy\"\n[[emotions.frames]]\nkey = \"default\"\nframe_type = \"static\"\npath = \"ava_happy.png\"\n"
    );
}

#[test]
fn archive_round_trip() {
    let bytes = build_archive(&ava(), &ava_store()).expect("save should succeed");
    let loaded = decode_archive(&bytes).expect("load should succeed");
    assert_eq!(loaded.data.name, "Ava");
    assert_eq!(loaded.data.emotions.len(), 1);
    assert_eq!(loaded.data.emotions[0].name, "Happy");
    assert_eq!(loaded.data.emotions[0].frames[0].0, "default");
    assert_eq!(loaded.data.emotions[0].frames[0].1.frame_type, "static");
    assert_eq!(loaded.data.emotions[0].frames[0].1.path, "ava_happy.png");
    assert_eq!(loaded.images.len(), 1);
    assert_eq!(loaded.images[0].0, "ava_happy.png");
    assert_eq!(loaded.images[0].1, vec![137, 80, 78, 71, 13, 10]);
}

#[test]
fn loaded_paths_point_into_extraction_dir() {
    let bytes = build_archive(&ava(), &ava_store()).expect("save should succeed");
    let loaded = decode_archive(&bytes).expect("load should succeed");
    let dir = extraction_dir(&"work/out.basedchar".to_string()).unwrap();
    assert_eq!(dir, "work/extracted");
    let placed = basedchar::codec::prefix_paths(&loaded.data, &dir);
    assert_eq!(placed.emotions[0].frames[0].1.path, "work/extracted/ava_happy.png");
}

#[test]
fn save_fails_on_missing_image() {
    let store = ImageStore::new();
    match build_archive(&ava(), &store) {
        Err(CodecError::ImageMissing(p)) => assert_eq!(p, "/tmp/ava_happy.png"),
        other => panic!("expected a missing-image error, got {:?}", other.is_ok()),
    }
}

#[test]
fn save_fails_on_invalid_path() {
    let mut data = ava();
    data.emotions[0].frames[0].1.path = "images/..".to_string();
    match build_archive(&data, &ava_store()) {
        Err(CodecError::InvalidPath(p)) => assert_eq!(p, "images/.."),
        other => panic!("expected an invalid-path error, got {:?}", other.is_ok()),
    }
}

#[test]
fn load_fails_without_metadata_entry() {
    let mut w = zip::ZipWriter::new(std::io::Cursor::new(Vec::new()));
    w.start_file("something.png", zip::write::SimpleFileOptions::default()).unwrap();
    std::io::Write::write_all(&mut w, &[1, 2, 3]).unwrap();
    let bytes = w.finish().unwrap().into_inner();
    assert!(matches!(decode_archive(&bytes), Err(CodecError::MetadataMissing)));
}

#[test]
fn load_fails_on_malformed_metadata() {
    let mut w = zip::ZipWriter::new(std::io::Cursor::new(Vec::new()));
    w.start_file("character.toml", zip::write::SimpleFileOptions::default()).unwrap();
    std::io::Write::write_all(&mut w, b"not a document").unwrap();
    let bytes = w.finish().unwrap().into_inner();
    assert!(matches!(decode_archive(&bytes), Err(CodecError::Malformed)));
}

#[test]
fn load_fails_on_missing_image_entry() {
    let full = build_archive(&ava(), &ava_store()).expect("save should succeed");
    let mut zip = zip::ZipArchive::new(std::io::Cursor::new(full)).unwrap();
    let mut text = String::new();
    {
        let mut entry = zip.by_name("character.toml").unwrap();
        std::io::Read::read_to_string(&mut entry, &mut text).unwrap();
    }
    let mut w = zip::ZipWriter::new(std::io::Cursor::new(Vec::new()));
    w.start_file("character.toml", zip::write::SimpleFileOptions::default()).unwrap();
    std::io::Write::write_all(&mut w, text.as_bytes()).unwrap();
    let bytes = w.finish().unwrap().into_inner();
    match decode_archive(&bytes) {
        Err(CodecError::EntryMissing(n)) => assert_eq!(n, "ava_happy.png"),
        other => panic!("expected a missing-entry error, got {:?}", other.is_ok()),
    }
}

#[test]
fn load_fails_on_garbage_container() {
    let bytes = vec![0u8, 1, 2, 3, 4, 5];
    assert!(matches!(decode_archive(&bytes), Err(CodecError::Archive)));
}

#[test]
fn multi_emotion_round_trip() {
    let data = CharacterData {
        name: "Zoe".to_string(),
        emotions: vec![
            Emotion {
                name: "Happy".to_string(),
                frames: vec![
                    (
                        "default".to_string(),
                        EmotionFrame {
                            frame_type: "static".to_string(),
                            path: "a/one.png".to_string(),
                        },
                    ),
                    (
                        "blink".to_string(),
                        EmotionFrame {
                            frame_type: "animated".to_string(),
                            path: "a/two.png".to_string(),
                        },
                    ),
                ],
            },
            Emotion { name: "Sad".to_string(), frames: vec![] },
            Emotion {
                name: "Angry".to_string(),
                frames: vec![(
                    "default".to_string(),
                    EmotionFrame {
                        frame_type: "static".to_string(),
                        path: "b/three.png".to_string(),
                    },
                )],
            },
        ],
    };
    let mut store = ImageStore::new();
    store.add("a/one.png".to_string(), vec![1]);
    store.add("a/two.png".to_string(), vec![2, 2]);
    store.add("b/three.png".to_string(), vec![3, 3, 3]);
    let bytes = build_archive(&data, &store).expect("save should succeed");
    let loaded = decode_archive(&bytes).expect("load should succeed");
    assert_eq!(loaded.data.name, "Zoe");
    assert_eq!(loaded.data.emotions.len(), 3);
    assert_eq!(loaded.data.emotions[0].frames.len(), 2);
    assert_eq!(loaded.data.emotions[1].frames.len(), 0);
    assert_eq!(loaded.data.emotions[0].frames[1].1.path, "two.png");
    assert_eq!(loaded.data.emotions[2].frames[0].1.path, "three.png");
    assert_eq!(loaded.images.len(), 3);
    assert_eq!(loaded.images[0], ("one.png".to_string(), vec![1]));
    assert_eq!(loaded.images[1], ("two.png".to_string(), vec![2, 2]));
    assert_eq!(loaded.images[2], ("three.png".to_string(), vec![3, 3, 3]));
}

#[test]
fn store_lookup_is_first_match() {
    let mut store = ImageStore::new();
    store.add("p".to_string(), vec![1]);
    store.add("p".to_string(), vec![2]);
    assert_eq!(store.get(&"p".to_string()), Some(&vec![1]));
    assert_eq!(store.get(&"q".to_string()), None);
}

#[test]
fn duplicate_base_names_refused_by_container() {
    // two frames whose paths share one base file name: the container refuses
    // the second entry, so the save fails with a container error
    let data = CharacterData {
        name: "Twin".to_string(),
        emotions: vec![Emotion {
            name: "Happy".to_string(),
            frames: vec![
                (
                    "a".to_string(),
                    EmotionFrame {
                        frame_type: "static".to_string(),
                        path: "one/img.png".to_string(),
                    },
                ),
                (
                    "b".to_string(),
                    EmotionFrame {
                        frame_type: "static".to_string(),
                        path: "two/img.png".to_string(),
                    },
                ),
            ],
        }],
    };
    let mut store = ImageStore::new();
    store.add("one/img.png".to_string(), vec![1]);
    store.add("two/img.png".to_string(), vec![2]);
    match build_archive(&data, &store) {
        Err(CodecError::BaseNameCollision(n)) => {
            assert_eq!(n, "img.png");
        },
        other => panic!("expected a collision error, got {:?}", other.is_ok()),
    }
}

#[test]
fn image_named_like_metadata_entry_refused() {
    let mut data = ava();
    data.emotions[0].frames[0].1.path = "/tmp/character.toml".to_string();
    let mut store = ImageStore::new();
    store.add("/tmp/character.toml".to_string(), vec![1]);
    match build_archive(&data, &store) {
        Err(CodecError::BaseNameCollision(n)) => {
            assert_eq!(n, "character.toml");
            assert_eq!(
                CodecError::BaseNameCollision(n).message(),
                "Duplicate base file name in archive: character.toml"
            );
        },
        other => panic!("expected a collision error, got {:?}", other.is_ok()),
    }
}

#[test]
fn load_strips_stored_paths_to_base_names() {
    // a foreign archive whose metadata stores a path with directories: the
    // image entry is looked up, and the loaded path rewritten, by base name
    let doc = "name = \"Ava\"\n[[emotions]]\nname = \"Happy\"\n[[emotions.frames]]\nkey = \"default\"\nframe_type = \"static\"\npath = \"x/y.png\"\n";
    let mut w = zip::ZipWriter::new(std::io::Cursor::new(Vec::new()));
    w.start_file("character.toml", zip::write::SimpleFileOptions::default()).unwrap();
    std::io::Write::write_all(&mut w, doc.as_bytes()).unwrap();
    w.start_file("y.png", zip::write::SimpleFileOptions::default()).unwrap();
    std::io::Write::write_all(&mut w, &[7, 7]).unwrap();
    let bytes = w.finish().unwrap().into_inner();
    let loaded = decode_archive(&bytes).expect("load should succeed");
    assert_eq!(loaded.data.emotions[0].frames[0].1.path, "y.png");
    assert_eq!(loaded.images[0], ("y.png".to_string(), vec![7, 7]));
}

#[test]
fn load_fails_on_invalid_stored_path() {
    let doc = "name = \"Ava\"\n[[emotions]]\nname = \"Happy\"\n[[emotions.frames]]\nkey = \"default\"\nframe_type = \"static\"\npath = \"x/..\"\n";
    let mut w = zip::ZipWriter::new(std::io::Cursor::new(Vec::new()));
    w.start_file("character.toml", zip::write::SimpleFileOptions::default()).unwrap();
    std::io::Write::write_all(&mut w, doc.as_bytes()).unwrap();
    let bytes = w.finish().unwrap().into_inner();
    match decode_archive(&bytes) {
        Err(CodecError::InvalidPath(p)) => assert_eq!(p, "x/.."),
        other => panic!("expected an invalid-path error, got {:?}", other.is_ok()),
    }
}

#[test]
fn non_ascii_names_round_trip() {
    let data = CharacterData {
        name: "Ävä 猫".to_string(),
        emotions: vec![Emotion {
            name: "Glücklich".to_string(),
            frames: vec![(
                "défaut".to_string(),
                EmotionFrame {
                    frame_type: "static".to_string(),
                    path: "/tmp/bild ö.png".to_string(),
                },
            )],
        }],
    };
    let mut store = ImageStore::new();
    store.add("/tmp/bild ö.png".to_string(), vec![9, 9]);
    let bytes = build_archive(&data, &store).expect("save should succeed");
    let loaded = decode_archive(&bytes).expect("load should succeed");
    assert_eq!(loaded.data.name, "Ävä 猫");
    assert_eq!(loaded.data.emotions[0].name, "Glücklich");
    assert_eq!(loaded.data.emotions[0].frames[0].0, "défaut");
    assert_eq!(loaded.data.emotions[0].frames[0].1.path, "bild ö.png");
    assert_eq!(loaded.images[0].1, vec![9, 9]);
}

#[test]
fn error_messages_name_the_file() {
    let store = ImageStore::new();
    match build_archive(&ava(), &store) {
        Err(e) => assert_eq!(e.message(), "Image file not found: /tmp/ava_happy.png"),
        Ok(_) => panic!("expected an error"),
    }
    let mut data = ava();
    data.emotions[0].frames[0].1.path = "images/..".to_string();
    match build_archive(&data, &ava_store()) {
        Err(e) => assert_eq!(e.message(), "Invalid file path: images/.."),
        Ok(_) => panic!("expected an error"),
    }
    match decode_archive(&vec![0u8, 1, 2]) {
        Err(e) => assert_eq!(e.message(), "Archive could not be read or written"),
        Ok(_) => panic!("expected an error"),
    }
}
