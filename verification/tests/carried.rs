//! Example access patterns: opening, reading and listing entries of a
//! snapshot generated from an in-memory picture of a small crate directory.

use erfs::gen::generate;
use erfs::model::OPT_COMPRESS;
use erfs::rt::{entry_flags, entry_name, open, read, read_dir, read_file};
use erfs::tree::SrcNode;
use erfs::ErfsRoot;

fn file(name: &str, data: &[u8]) -> SrcNode {
    SrcNode::File {
        name: name.as_bytes().to_vec(),
        data: data.to_vec(),
    }
}

fn dir(name: &str, children: Vec<SrcNode>) -> SrcNode {
    SrcNode::Dir {
        name: name.as_bytes().to_vec(),
        children,
    }
}

/// A snapshot of a small crate directory: Cargo.toml, src/, tests/.
fn crate_fs() -> ErfsRoot {
    let tree = vec![
        file("Cargo.toml", b"[package]\nname = \"example\"\n"),
        dir(
            "src",
            vec![
                file("lib.rs", b"pub fn answer() -> u32 { 42 }\n"),
                file("main.rs", b"fn main() {}\n"),
            ],
        ),
        dir("tests", vec![file("erfsgen_it.rs", b"#[test]\nfn it_works() {}\n")]),
    ];
    generate(&tree, b"example", OPT_COMPRESS)
}

/// A snapshot of the src directory alone, as the second example generated.
fn src_fs() -> ErfsRoot {
    let tree = vec![
        file("lib.rs", b"pub fn answer() -> u32 { 42 }\n"),
        file("main.rs", b"fn main() {}\n"),
    ];
    generate(&tree, b"example_src", 0)
}

#[test]
fn test_read() {
    let fs = crate_fs();
    let file = "/tests/erfsgen_it.rs";
    let data = read(&fs, file).expect("read error");
    let data = String::from_utf8_lossy(&data);
    println!("read content of {}: {:?}", file, data);
    assert_eq!(data, "#[test]\nfn it_works() {}\n");
}

#[test]
fn test_open_file() {
    let fs = crate_fs();
    let file = "/src/lib.rs";
    let (handle, size) = open(&fs, file).expect("open error");
    println!("size of {}: {}", file, size);
    assert_eq!(size as usize, b"pub fn answer() -> u32 { 42 }\n".len());

    let name = entry_name(&fs, handle).unwrap();
    let name = String::from_utf8_lossy(name);
    println!("name of {}: {}", file, name);
    assert_eq!(name, "lib.rs");

    let flags = entry_flags(&fs, handle).unwrap();
    println!("flags of {}: {}", file, flags);
}

#[test]
fn test_open_file1() {
    let fs = crate_fs();
    let file = "/tests/erfsgen_it.rs";
    let (handle, size) = open(&fs, file).expect("open error");
    println!("size of {}: {}", file, size);

    let name = entry_name(&fs, handle).unwrap();
    let name = String::from_utf8_lossy(name);
    println!("name of {}: {}", file, name);
    assert_eq!(name, "erfsgen_it.rs");

    let flags = entry_flags(&fs, handle).unwrap();
    println!("flags of {}: {}", file, flags);

    let data = read_file(&fs, handle).unwrap();
    let data = String::from_utf8_lossy(&data);
    println!("content of {}: {}", file, data);
    assert_eq!(data, "#[test]\nfn it_works() {}\n");
    assert_eq!(size as usize, data.len());
}

#[test]
fn test_open_dir() {
    let fs = crate_fs();
    let file = "/src";
    let (handle, size) = open(&fs, file).expect("open error");
    println!("size of {}: {}", file, size);
    assert_eq!(size, 2);

    let name = entry_name(&fs, handle).unwrap();
    let name = String::from_utf8_lossy(name);
    println!("name of {}: {}", file, name);
    assert_eq!(name, "src");

    let flags = entry_flags(&fs, handle).unwrap();
    println!("flags of {}: {}", file, flags);
    assert_eq!(flags, erfs::FLAG_DIR);

    // read first child
    let entry = read_dir(&fs, handle, 0).unwrap();

    let name = entry_name(&fs, entry).unwrap();
    let name = String::from_utf8_lossy(name);
    println!("name of child [0]: {}", name);
    assert_eq!(name, "lib.rs");

    let flags = entry_flags(&fs, entry).unwrap();
    println!("flags of child [0]: {}", flags);
}

#[test]
fn main_test_openfile() {
    let fs = src_fs();

    let (_handle, size) = open(&fs, "/lib.rs").expect("open error");

    println!("content of Cargo.toml: {:?}", size);
    assert_eq!(size as usize, b"pub fn answer() -> u32 { 42 }\n".len());
}
