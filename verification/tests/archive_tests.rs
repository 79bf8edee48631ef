use glue::{
    Archive, ArchiveCreationError, ArchiveExtractionError, ExtractAction, ExtractEvent,
    FileRecord,
};

fn record_of(name: &str, content: &[u8]) -> FileRecord {
    FileRecord {
        filename: name.as_bytes().to_vec(),
        size: content.len() as u64,
        content: content.to_vec(),
    }
}

/// Runs an extraction into an in-memory directory in which every file can be
/// created and written, as the archiver runs it on disk.
fn extract_in_memory(archive: &Archive) -> (Vec<(String, Vec<u8>)>, Result<(), ArchiveExtractionError>) {
    let mut dir: Vec<(String, Vec<u8>)> = Vec::new();
    let mut next = 0;
    let mut event = ExtractEvent::Start;
    loop {
        match archive.extract_step(next, event) {
            ExtractAction::Create { index, filename } => {
                dir.push((filename, archive.records[index].content.clone()));
                next = index + 1;
                event = ExtractEvent::Written;
            }
            ExtractAction::Finish(result) => return (dir, result),
        }
    }
}

#[test]
fn archive_from_paths_detects_duplicate_filenames() {
    let filename = "my-file.txt";
    let sources = vec![
        ("dir-a/my-file.txt".to_string(), record_of(filename, b"")),
        ("dir-b/my-file.txt".to_string(), record_of(filename, b"")),
    ];

    let result = Archive::from_paths(sources);

    assert!(
        result.is_err(),
        "archive with duplicate filenames should return error"
    );
}

#[test]
fn from_paths_lists_the_paths_of_each_duplicate_name() {
    let sources = vec![
        ("x/a.txt".to_string(), record_of("a.txt", b"1")),
        ("x/b.txt".to_string(), record_of("b.txt", b"2")),
        ("y/a.txt".to_string(), record_of("a.txt", b"3")),
    ];
    match Archive::from_paths(sources) {
        Err(ArchiveCreationError::DuplicateFilenames(groups)) => {
            assert_eq!(
                *groups.entries(),
                vec![
                    (
                        "a.txt".to_string(),
                        vec!["x/a.txt".to_string(), "y/a.txt".to_string()]
                    ),
                    ("b.txt".to_string(), vec!["x/b.txt".to_string()]),
                ]
            );
            assert_eq!(
                groups.to_string(),
                "a.txt: [\"x/a.txt\", \"y/a.txt\"]; b.txt: [\"x/b.txt\"]; "
            );
        }
        _ => panic!("duplicates were not reported"),
    }
}

#[test]
fn from_paths_keeps_records_in_order() {
    let sources = vec![
        ("x/1.txt".to_string(), record_of("1.txt", b"one")),
        ("y/2.txt".to_string(), record_of("2.txt", b"two")),
    ];
    let archive = Archive::from_paths(sources).unwrap();
    assert_eq!(archive.records.len(), 2);
    assert_eq!(archive.records[0].filename, b"1.txt".to_vec());
    assert_eq!(archive.records[0].content, b"one".to_vec());
    assert_eq!(archive.records[1].filename, b"2.txt".to_vec());
    assert_eq!(archive.records[1].size, 3);
}

#[test]
fn from_paths_of_nothing_is_empty() {
    let archive = Archive::from_paths(Vec::new()).unwrap();
    assert!(archive.records.is_empty());
}

#[test]
fn archive_extract() {
    let archive = Archive {
        records: vec![
            FileRecord {
                filename: b"1.txt".to_vec(),
                size: 5,
                content: "hello".into(),
            },
            FileRecord {
                filename: b"2.txt".to_vec(),
                size: 6,
                content: vec![1, 2, 3, 4, 5, 6],
            },
        ],
    };

    let (dir, result) = extract_in_memory(&archive);
    result.unwrap();

    assert_eq!(dir.len(), 2, "there should be two extracted files");

    assert_eq!(dir[0].0, "1.txt");
    assert_eq!(5, dir[0].1.len());
    assert_eq!("hello".as_bytes(), dir[0].1.as_slice());

    assert_eq!(dir[1].0, "2.txt");
    assert_eq!(6, dir[1].1.len());
    assert_eq!(vec![1, 2, 3, 4, 5, 6], dir[1].1);
}

#[test]
fn test_archive_filename_is_valid() {
    assert!(Archive::filename_is_valid("foo.txt"));
    assert!(!Archive::filename_is_valid("./foo.txt"));
    assert!(!Archive::filename_is_valid("../foo.txt"));
    assert!(!Archive::filename_is_valid("C:\\foo.txt"));
}

#[test]
fn directory_names_are_not_valid_filenames() {
    assert!(!Archive::filename_is_valid(".."));
    assert!(!Archive::filename_is_valid("."));
    assert!(!Archive::filename_is_valid(""));
    assert!(Archive::filename_is_valid("..."));
    assert!(Archive::filename_is_valid(".hidden"));
    assert!(Archive::filename_is_valid("a.."));
}

#[test]
fn extraction_refuses_parent_directory_name() {
    let archive = Archive { records: vec![record_of("..", b"x")] };
    let (dir, result) = extract_in_memory(&archive);
    match result {
        Err(ArchiveExtractionError::InvalidFilename(name)) => assert_eq!(name, ".."),
        _ => panic!("\"..\" was not refused"),
    }
    assert!(dir.is_empty());
}

#[test]
fn extraction_refuses_non_utf8_names() {
    let archive = Archive {
        records: vec![FileRecord { filename: vec![0xff], size: 1, content: vec![b'x'] }],
    };
    let (dir, result) = extract_in_memory(&archive);
    match result {
        Err(ArchiveExtractionError::InvalidFilename(name)) => assert_eq!(name, "\u{FFFD}"),
        _ => panic!("a non-UTF-8 name was not refused"),
    }
    assert!(dir.is_empty());
}

#[test]
fn archive_extract_prevents_invalid_filenames() {
    let archive = Archive {
        records: vec![FileRecord {
            filename: b"../1.txt".to_vec(),
            size: 5,
            content: "hello".into(),
        }],
    };

    let (dir, result) = extract_in_memory(&archive);
    assert!(matches!(
        result,
        Err(ArchiveExtractionError::InvalidFilename(_))
    ));
    assert!(dir.is_empty());
}

#[test]
fn extraction_stops_at_the_first_invalid_name() {
    let archive = Archive {
        records: vec![
            record_of("ok.txt", b"fine"),
            record_of("sub/evil.txt", b"no"),
            record_of("later.txt", b"never"),
        ],
    };
    let (dir, result) = extract_in_memory(&archive);
    match result {
        Err(ArchiveExtractionError::InvalidFilename(name)) => assert_eq!(name, "sub/evil.txt"),
        _ => panic!("the invalid name was not reported"),
    }
    assert_eq!(dir.len(), 1);
    assert_eq!(dir[0].0, "ok.txt");
}

#[test]
fn extraction_reports_failures_of_the_last_file() {
    let archive = Archive { records: vec![record_of("a.txt", b"x")] };
    let error = std::io::Error::new(std::io::ErrorKind::AlreadyExists, "exists");
    match archive.extract_step(1, ExtractEvent::CreateFailed(error)) {
        ExtractAction::Finish(Err(ArchiveExtractionError::FileCreationError(e))) => {
            assert_eq!(e.kind(), std::io::ErrorKind::AlreadyExists)
        }
        _ => panic!("creation failure not reported"),
    }
    assert!(matches!(
        archive.extract_step(1, ExtractEvent::WriteFailed),
        ExtractAction::Finish(Err(ArchiveExtractionError::FileRecordError))
    ));
}

#[test]
fn extraction_of_an_empty_archive_succeeds() {
    let archive = Archive { records: vec![] };
    assert!(matches!(
        archive.extract_step(0, ExtractEvent::Start),
        ExtractAction::Finish(Ok(()))
    ));
}

#[test]
fn grouping_keeps_first_occurrence_order() {
    let pairs = vec![
        ("b".to_string(), "1/b".to_string()),
        ("a".to_string(), "1/a".to_string()),
        ("b".to_string(), "2/b".to_string()),
    ];
    let groups = glue::FilenameToPath::from_pairs(pairs);
    assert_eq!(groups.entries().len(), 2);
    assert_eq!(groups.entries()[0].0, "b");
    assert_eq!(groups.entries()[0].1, vec!["1/b".to_string(), "2/b".to_string()]);
    assert_eq!(groups.entries()[1].0, "a");
    assert!(groups.has_shared_name());

    let single = glue::FilenameToPath::from_pairs(vec![("a".to_string(), "x/a".to_string())]);
    assert!(!single.has_shared_name());
}

#[test]
fn joined_entries_text() {
    let entries = vec![
        ("a".to_string(), "[1]".to_string()),
        ("b".to_string(), "[2]".to_string()),
    ];
    assert_eq!(glue::FilenameToPath::join_entries(&entries), "a: [1]; b: [2]; ");
    assert_eq!(glue::FilenameToPath::join_entries(&Vec::new()), "");
}

#[test]
fn duplicate_paths_are_shown_as_paths() {
    let sources = vec![
        ("d/it's.txt".to_string(), record_of("it's.txt", b"1")),
        ("e/it's.txt".to_string(), record_of("it's.txt", b"2")),
    ];
    match Archive::from_paths(sources) {
        Err(ArchiveCreationError::DuplicateFilenames(groups)) => {
            let paths = vec![
                std::path::PathBuf::from("d/it's.txt"),
                std::path::PathBuf::from("e/it's.txt"),
            ];
            assert_eq!(groups.to_string(), format!("it's.txt: {:?}; ", paths));
        }
        _ => panic!("duplicates were not reported"),
    }
}

#[test]
fn archive_made_from_files_extracts_to_the_same_files() {
    let sources = vec![
        ("data/1.txt".to_string(), record_of("1.txt", b"first file\n")),
        ("data/2.txt".to_string(), record_of("2.txt", "second 🦀\n".as_bytes())),
        ("data/data.bin".to_string(), record_of("data.bin", &[0, 1, 2, 255, 254])),
    ];
    let expected: Vec<(String, Vec<u8>)> = sources
        .iter()
        .map(|(_, r)| (String::from_utf8(r.filename.clone()).unwrap(), r.content.clone()))
        .collect();
    let archive = Archive::from_paths(sources).unwrap();
    let bytes = archive.encode().unwrap();
    let read_back = Archive::decode(&bytes).unwrap();
    let (dir, result) = extract_in_memory(&read_back);
    result.unwrap();
    assert_eq!(dir, expected);
}
