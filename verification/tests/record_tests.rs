use glue::{FileRecord, Preview};

fn record_of(name: &str, content: &[u8]) -> FileRecord {
    FileRecord {
        filename: name.as_bytes().to_vec(),
        size: content.len() as u64,
        content: content.to_vec(),
    }
}

#[test]
fn preview_handles_utf8() {
    let input = "Hello 🦀";
    let raw_input = input.as_bytes();
    let record = FileRecord {
        filename: "foo.txt".as_bytes().to_vec(),
        size: raw_input.len() as u64,
        content: raw_input.to_vec(),
    };

    // Cut off before the emoji
    let Preview::String { preview, .. } = record.preview(5).unwrap() else {
        panic!("preview failed for partial contents")
    };
    assert_eq!(preview, "Hello");

    // Include the whole contents
    let Preview::String { preview, .. } = record.preview(raw_input.len() as u64).unwrap() else {
        panic!("preview failed for full contents")
    };
    assert_eq!(preview, "Hello 🦀");

    // Cut off mid-emoji
    let Preview::String { preview, .. } = record.preview(7).unwrap() else {
        panic!("preview failed in mid-emoji")
    };
    assert_eq!(preview, "Hello ");
}

#[test]
fn preview_of_empty_record_is_none() {
    let record = record_of("empty.txt", b"");
    assert!(record.preview(64).is_none());
    assert_eq!(record.preview_label(64), "<empty>");
}

#[test]
fn preview_marks_truncation() {
    let record = record_of("a.txt", b"hello world");
    match record.preview(5).unwrap() {
        Preview::String { preview, truncated } => {
            assert_eq!(preview, "hello");
            assert!(truncated);
        }
        Preview::Data => panic!("text previewed as data"),
    }
    match record.preview(11).unwrap() {
        Preview::String { preview, truncated } => {
            assert_eq!(preview, "hello world");
            assert!(!truncated);
        }
        Preview::Data => panic!("text previewed as data"),
    }
    assert_eq!(record.preview_label(5), "hello...");
    assert_eq!(record.preview_label(64), "hello world");
}

#[test]
fn preview_cut_mid_character_is_truncated() {
    // The whole record fits, but the limit falls inside the emoji.
    let record = record_of("crab.txt", "Hello 🦀".as_bytes());
    match record.preview(8).unwrap() {
        Preview::String { preview, truncated } => {
            assert_eq!(preview, "Hello ");
            assert!(truncated);
        }
        Preview::Data => panic!("text previewed as data"),
    }
}

#[test]
fn preview_of_binary_is_data() {
    let record = record_of("data.bin", &[0xff, 0xfe, 0xfd, 0xfc, 0xfb, 0xfa]);
    assert!(matches!(record.preview(64), Some(Preview::Data)));
    assert_eq!(record.preview_label(64), "<data>");
}

#[test]
fn preview_of_short_binary_is_data() {
    // No non-empty prefix is text: the back-off must not end on the empty prefix.
    let record = record_of("x", &[0xff, 0xff]);
    assert!(matches!(record.preview(64), Some(Preview::Data)));
    assert_eq!(record.preview_label(64), "<data>");

    let record = record_of("foo.bin", &[0xff]);
    assert!(matches!(record.preview(64), Some(Preview::Data)));

    // A text prefix after a cut is still text.
    let record = record_of("y", &[b'a', 0xff]);
    match record.preview(64).unwrap() {
        Preview::String { preview, truncated } => {
            assert_eq!(preview, "a");
            assert!(truncated);
        }
        Preview::Data => panic!("expected a text preview"),
    }
}

#[test]
fn preview_of_size_zero_limit() {
    let record = record_of("a.txt", b"abc");
    match record.preview(0).unwrap() {
        Preview::String { preview, truncated } => {
            assert_eq!(preview, "");
            assert!(truncated);
        }
        Preview::Data => panic!("expected an empty text preview"),
    }
}

#[test]
fn filename_text_replaces_invalid_bytes() {
    let record = FileRecord {
        filename: vec![b'a', 0xff, b'b'],
        size: 0,
        content: vec![],
    };
    assert_eq!(record.filename_text(), "a\u{FFFD}b");
    assert_eq!(record_of("naïve.txt", b"").filename_text(), "naïve.txt");
}
