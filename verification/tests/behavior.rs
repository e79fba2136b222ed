//! Behaviour of the generator and runtime together: the compression
//! policy, every error kind, directory iteration, traversal order and
//! reproducible generation.

use erfs::gen::{generate, id_ok};
use erfs::model::{Entry, ErfsHandle, ErfsRoot, FsError, FLAG_COMPRESSED, FLAG_DIR, OPT_COMPRESS};
use erfs::rt::{entry_flags, entry_name, entry_size, open, read, read_dir, read_file, traverse};
use erfs::tree::{forest_check, sort_children, SrcNode};

fn file(name: &str, data: &[u8]) -> SrcNode {
    SrcNode::File {
        name: name.as_bytes().to_vec(),
        data: data.to_vec(),
    }
}

fn dir(name: &str, children: Vec<SrcNode>) -> SrcNode {
    SrcNode::Dir {
        name: name.as_bytes().to_vec(),
        children,
    }
}

/// The scenario tree: a tiny text file that does not benefit from
/// compression and a large run of zeros that does.
fn scenario_fs() -> ErfsRoot {
    let tree = vec![
        file("a.txt", b"hello"),
        dir("sub", vec![file("b.bin", &[0u8; 5000])]),
    ];
    generate(&tree, b"scenario", OPT_COMPRESS)
}

#[test]
fn compression_is_decided_per_file() {
    let fs = scenario_fs();

    let (small, size) = open(&fs, "/a.txt").expect("open a.txt");
    assert_eq!(size, 5);
    assert_eq!(read(&fs, "/a.txt").unwrap(), b"hello".to_vec());
    let flags = entry_flags(&fs, small).unwrap();
    assert_eq!(flags & FLAG_COMPRESSED, 0, "a.txt must stay raw");

    let (big, size) = open(&fs, "/sub/b.bin").expect("open b.bin");
    assert_eq!(size, 5000);
    assert_eq!(read(&fs, "/sub/b.bin").unwrap(), vec![0u8; 5000]);
    let flags = entry_flags(&fs, big).unwrap();
    assert_ne!(flags & FLAG_COMPRESSED, 0, "b.bin must be compressed");
    let row = &fs.entries[big.idx as usize];
    assert!(
        (row.stored_len as usize) < 5000,
        "stored payload must shrink, got {}",
        row.stored_len
    );
}

#[test]
fn missing_path_is_not_found() {
    let fs = scenario_fs();
    assert_eq!(open(&fs, "/missing"), Err(FsError::NotFound));
    assert_eq!(read(&fs, "/missing"), Err(FsError::NotFound));
}

#[test]
fn file_in_the_middle_is_not_a_directory() {
    let fs = scenario_fs();
    assert_eq!(open(&fs, "/a.txt/x"), Err(FsError::NotADirectory));
    assert_eq!(open(&fs, "/sub/b.bin/deeper"), Err(FsError::NotADirectory));
}

#[test]
fn reading_a_directory_fails() {
    let fs = scenario_fs();
    assert_eq!(read(&fs, "/sub"), Err(FsError::IsADirectory));
    assert_eq!(read(&fs, "/"), Err(FsError::IsADirectory));
    let (h, _) = open(&fs, "/sub").unwrap();
    assert_eq!(read_file(&fs, h), Err(FsError::IsADirectory));
}

#[test]
fn read_dir_iterates_exactly_the_children() {
    let fs = scenario_fs();
    let root = ErfsHandle { idx: erfs::ROOT_HANDLE };
    let n = entry_size(&fs, root).unwrap();
    assert_eq!(n, 2);
    for i in 0..n {
        let child = read_dir(&fs, root, i).expect("child must exist");
        assert!(entry_name(&fs, child).is_ok());
    }
    assert_eq!(read_dir(&fs, root, n), Err(FsError::OutOfRange));
    assert_eq!(read_dir(&fs, root, 999), Err(FsError::OutOfRange));
}

#[test]
fn read_dir_on_a_file_fails() {
    let fs = scenario_fs();
    let (h, _) = open(&fs, "/a.txt").unwrap();
    assert_eq!(read_dir(&fs, h, 0), Err(FsError::NotADirectory));
}

#[test]
fn stale_handles_are_invalid() {
    let fs = scenario_fs();
    let bad = ErfsHandle { idx: 9999 };
    assert_eq!(entry_name(&fs, bad), Err(FsError::InvalidHandle));
    assert_eq!(entry_flags(&fs, bad), Err(FsError::InvalidHandle));
    assert_eq!(entry_size(&fs, bad), Err(FsError::InvalidHandle));
    assert_eq!(read_file(&fs, bad), Err(FsError::InvalidHandle));
    assert_eq!(read_dir(&fs, bad, 0), Err(FsError::InvalidHandle));
}

#[test]
fn corrupt_payloads_are_reported() {
    // A compressed entry whose stored bytes are not a valid stream.
    let fs = ErfsRoot {
        id: b"corrupt".to_vec(),
        entries: vec![
            Entry {
                flags: FLAG_DIR,
                name: Vec::new(),
                size: 1,
                offset: 0,
                stored_len: 0,
                children: vec![1],
            },
            Entry {
                flags: FLAG_COMPRESSED,
                name: b"x".to_vec(),
                size: 10,
                offset: 0,
                stored_len: 3,
                children: Vec::new(),
            },
        ],
        blob: vec![1, 2, 3],
    };
    assert_eq!(read(&fs, "/x"), Err(FsError::CorruptData));

    // A raw entry whose stored length disagrees with its recorded size.
    let fs = ErfsRoot {
        id: b"corrupt2".to_vec(),
        entries: vec![
            Entry {
                flags: FLAG_DIR,
                name: Vec::new(),
                size: 1,
                offset: 0,
                stored_len: 0,
                children: vec![1],
            },
            Entry {
                flags: 0,
                name: b"x".to_vec(),
                size: 10,
                offset: 0,
                stored_len: 3,
                children: Vec::new(),
            },
        ],
        blob: vec![1, 2, 3],
    };
    assert_eq!(read(&fs, "/x"), Err(FsError::CorruptData));
}

#[test]
fn regeneration_is_reproducible() {
    let tree = vec![
        file("a.txt", b"hello"),
        dir("sub", vec![file("b.bin", &[0u8; 5000])]),
    ];
    let fs1 = generate(&tree, b"snap", OPT_COMPRESS);
    let fs2 = generate(&tree, b"snap", OPT_COMPRESS);
    assert_eq!(fs1, fs2);
}

#[test]
fn empty_and_slash_paths_name_the_root() {
    let fs = scenario_fs();
    let (h, size) = open(&fs, "").unwrap();
    assert_eq!(h.idx, erfs::ROOT_HANDLE);
    assert_eq!(size, 2);
    let (h, _) = open(&fs, "/").unwrap();
    assert_eq!(h.idx, erfs::ROOT_HANDLE);
    let (h, _) = open(&fs, "/sub/").unwrap();
    assert_eq!(entry_name(&fs, h).unwrap(), &b"sub"[..]);
    let (h, _) = open(&fs, "sub/b.bin").unwrap();
    assert_eq!(entry_name(&fs, h).unwrap(), &b"b.bin"[..]);
}

#[test]
fn traverse_visits_every_entry_in_preorder() {
    let fs = scenario_fs();
    let (completed, visited) = traverse(&fs, |_h| true);
    assert!(completed);
    assert_eq!(visited.len(), fs.entries.len());
    for (k, h) in visited.iter().enumerate() {
        assert_eq!(h.idx as usize, k);
    }
}

#[test]
fn traverse_stops_early_when_asked() {
    let fs = scenario_fs();
    assert!(fs.entries.len() > 3);
    let (completed, visited) = traverse(&fs, |h| h.idx != 2);
    assert!(!completed);
    assert_eq!(visited.len(), 3);
    assert_eq!(visited.last().unwrap().idx, 2);
}

#[test]
fn entry_sizes_follow_kind() {
    let fs = scenario_fs();
    let (h, _) = open(&fs, "/sub").unwrap();
    assert_eq!(entry_size(&fs, h).unwrap(), 1);
    let (h, _) = open(&fs, "/sub/b.bin").unwrap();
    assert_eq!(entry_size(&fs, h).unwrap(), 5000);
}

#[test]
fn sort_children_orders_one_level() {
    let v = vec![
        file("zebra", b"z"),
        file("apple", b"a"),
        dir("mango", vec![]),
    ];
    let sorted = sort_children(v);
    let names: Vec<String> = sorted
        .iter()
        .map(|n| match n {
            SrcNode::File { name, .. } => String::from_utf8_lossy(name).into_owned(),
            SrcNode::Dir { name, .. } => String::from_utf8_lossy(name).into_owned(),
        })
        .collect();
    assert_eq!(names, vec!["apple", "mango", "zebra"]);
}

#[test]
fn forest_check_accepts_and_rejects() {
    let good = vec![file("a", b"x"), file("b", b"y")];
    let counts = forest_check(&good);
    assert_eq!(counts, Some((2, 2)));

    let nested = vec![dir("d", vec![file("a", b"xyz")])];
    assert_eq!(forest_check(&nested), Some((2, 3)));

    let unsorted = vec![file("b", b""), file("a", b"")];
    assert_eq!(forest_check(&unsorted), None);

    let duplicate = vec![file("a", b""), file("a", b"")];
    assert_eq!(forest_check(&duplicate), None);

    let bad_name = vec![file("a/b", b"")];
    assert_eq!(forest_check(&bad_name), None);

    let empty_name = vec![file("", b"")];
    assert_eq!(forest_check(&empty_name), None);
}

#[test]
fn identifiers_are_checked() {
    assert!(id_ok(b"snapshot_1"));
    assert!(id_ok(b"_x"));
    assert!(!id_ok(b""));
    assert!(!id_ok(b"1abc"));
    assert!(!id_ok(b"a-b"));
}

#[test]
fn names_reconstruct_the_path() {
    let fs = scenario_fs();
    let (h, _) = open(&fs, "/sub/b.bin").unwrap();
    assert_eq!(entry_name(&fs, h).unwrap(), &b"b.bin"[..]);
    let root = ErfsHandle { idx: erfs::ROOT_HANDLE };
    assert_eq!(entry_name(&fs, root).unwrap(), &b""[..]);
    // The parent directory's row names the first segment.
    let (parent, _) = open(&fs, "/sub").unwrap();
    assert_eq!(entry_name(&fs, parent).unwrap(), &b"sub"[..]);
    // And the resolved file is the parent's only child.
    let child = read_dir(&fs, parent, 0).unwrap();
    assert_eq!(child, h);
}

#[test]
fn compressed_bytes_differ_from_raw() {
    let fs = scenario_fs();
    let (big, _) = open(&fs, "/sub/b.bin").unwrap();
    let row = &fs.entries[big.idx as usize];
    let stored =
        &fs.blob[row.offset as usize..(row.offset as usize + row.stored_len as usize)];
    assert_ne!(stored, &[0u8; 5000][..row.stored_len as usize]);
}
