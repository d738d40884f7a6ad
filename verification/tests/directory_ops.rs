use std::ptr;
use pak::crypt::encrypt_dir_inplace;
use pak::directory::{create, find, find_desc, find_dir, find_encrypted, next_sibling, remove, to_string, update_dir_address, Art};
use pak::{Descriptor, Section};

fn example_dir() -> Vec<Descriptor> {
    vec![
        Descriptor::file(b"before"),
        Descriptor::dir(b"a", 3),
        Descriptor::dir(b"b", 2),
        Descriptor::dir(b"c", 1),
        Descriptor::file(b"file"),
    ]
}

#[test]
fn test_find_empty() {
    assert_eq!(find(&[], b"path"), &[]);
}

#[test]
fn test_find_empty_path() {
    let dir = example_dir();
    assert_eq!(find(&dir, b"").len(), 0);
}

#[test]
fn test_find_desc01() {
    let mut dir = Vec::new();
    create(&mut dir, b"A/B/C");

    let result1 = find_desc(&dir, b"A/B/C");
    let result2 = find_desc(&dir, b"A/B/D");

    assert_eq!(result1.unwrap().name(), b"C");
    assert!(result2.is_none());
}

#[test]
fn test_find() {
    let dir = [
        Descriptor::file(b"before"),
        Descriptor::dir(b"a", 3),
        Descriptor::dir(b"b", 2),
        Descriptor::dir(b"c", 1),
        Descriptor::file(b"file"),
    ];

    assert!(ptr::eq(find(&dir, b"before"), &dir[0..1]));
    assert!(ptr::eq(find(&dir, b"a"), &dir[1..]));

    assert!(ptr::eq(find(&dir[2..], b"b"), &dir[2..]));

    assert_eq!(find(&dir, "file".as_ref()).len(), 0);
    assert!(ptr::eq(find(&dir[4..], b"file"), &dir[4..]));

    assert!(ptr::eq(find_desc(&dir, b"a\\b\\c\\file").unwrap(), &dir[4]));
}

#[test]
fn test_find_dir() {
    let dir = example_dir();
    assert!(find_dir(&dir, b"missing").is_none());
    let children = find_dir(&dir, b"a").unwrap();
    assert_eq!(children.len(), 3);
    let leaf = find_dir(&dir, b"before").unwrap();
    assert_eq!(leaf.len(), 0);
}

#[test]
fn test_next_sibling() {
    let dir = example_dir();
    assert_eq!(next_sibling(&dir[0], 0, dir.len()), 1);
    assert_eq!(next_sibling(&dir[1], 1, dir.len()), 5);
    assert_eq!(next_sibling(&dir[2], 2, dir.len()), 5);
    // A corrupt descendant count is clamped into the window.
    let corrupt = Descriptor::dir(b"x", 1000);
    assert_eq!(next_sibling(&corrupt, 1, 5), 5);
}

#[test]
fn test_create_simple() {
    let path = b"stuff.txt";

    let mut dir = Vec::new();
    create(&mut dir, path);

    assert_eq!(dir.len(), 1);
    let file = &dir[0];

    assert_eq!(file.content_type, 0);
    assert_eq!(file.content_size, 0);
    assert_eq!(file.section, Section::default());
    assert_eq!(file.name(), path);
}

#[test]
fn test_create_simple_dirs() {
    let path1 = b"A/FOO";
    let path2 = b"A/BAR";

    let mut dir = Vec::new();
    create(&mut dir, path1);
    create(&mut dir, path2);

    let result = [
        Descriptor::dir(b"A", 2),
        Descriptor::dir(b"FOO", 0),
        Descriptor::dir(b"BAR", 0),
    ];
    assert_eq!(dir, result);
}

#[test]
fn test_create_beside_blocking_file() {
    // A file standing where a directory is needed gets a sibling directory of
    // the same name.
    let mut dir = vec![Descriptor::file(b"A"), Descriptor::file(b"Z")];
    create(&mut dir, b"A/LEAF");
    assert_eq!(dir.len(), 4);
    assert_eq!(dir[0].name(), b"A");
    assert_eq!(dir[0].content_type, 0);
    assert_eq!(dir[0].content_size, 1);
    assert_eq!(dir[1].name(), b"LEAF");
    assert_eq!(dir[2].name(), b"A");
    assert_ne!(dir[2].content_type, 0);
    assert_eq!(dir[3].name(), b"Z");
    assert_eq!(find_desc(&dir, b"A/LEAF").unwrap().name(), b"LEAF");
}

#[test]
fn test_create_remove_duality() {
    let mut dir = Vec::new();
    create(&mut dir, b"x/y/z");
    assert_eq!(dir.len(), 3);
    assert_eq!(find_desc(&dir, b"x/y/z").unwrap().name(), b"z");

    let mut deleted = Descriptor::default();
    assert!(remove(&mut dir, b"x/y/z", Some(&mut deleted)));
    assert_eq!(deleted.name(), b"z");
    assert_eq!(dir.len(), 2);
    assert!(find_desc(&dir, b"x/y/z").is_none());
    // The parents keep their restored descendant counts.
    assert_eq!(dir[0].name(), b"x");
    assert_eq!(dir[0].content_size, 1);
    assert_eq!(dir[1].name(), b"y");
    assert_eq!(dir[1].content_size, 0);

    assert!(!remove(&mut dir, b"x/y/z", None));
    assert_eq!(dir.len(), 2);
}

#[test]
fn test_create_remove_duality_on_existing_tree() {
    // Creating into a populated tree and removing again restores it exactly,
    // ancestors' descendant counts included.
    let mut dir = example_dir();
    let before = dir.clone();
    {
        let d = create(&mut dir, b"a/b/new/leaf");
        assert_eq!(d.name(), b"leaf");
    }
    assert_eq!(dir.len(), 7);
    assert_eq!(find_desc(&dir, b"a/b/new/leaf").unwrap().name(), b"leaf");
    assert_eq!(dir[1].content_size, 5);
    assert_eq!(dir[2].content_size, 4);

    assert!(remove(&mut dir, b"a/b/new/leaf", None));
    assert!(find_desc(&dir, b"a/b/new/leaf").is_none());
    assert!(remove(&mut dir, b"a/b/new", None));
    assert_eq!(dir, before);
}

#[test]
fn test_remove_miss_behind_file_changes_nothing() {
    // The path runs into a file where a directory is needed: nothing stands
    // at the path, so nothing may be removed.
    let mut dir = vec![Descriptor::file(b"a")];
    assert!(find_desc(&dir, b"a/b").is_none());
    let mut deleted = Descriptor::file(b"untouched");
    assert!(!remove(&mut dir, b"a/b", Some(&mut deleted)));
    assert_eq!(dir, vec![Descriptor::file(b"a")]);
    assert_eq!(deleted, Descriptor::file(b"untouched"));
}

#[test]
fn test_remove_miss_inside_subtree_changes_nothing() {
    // The remainder misses inside a subtree that ends before the directory
    // does: the descriptor after that subtree must survive.
    let mut dir = vec![
        Descriptor::dir(b"a", 1),
        Descriptor::file(b"x"),
        Descriptor::file(b"after"),
    ];
    let before = dir.clone();
    assert!(find_desc(&dir, b"a/missing").is_none());
    assert!(!remove(&mut dir, b"a/missing", None));
    assert_eq!(dir, before);
    assert_eq!(dir[0].content_size, 1);
}

#[test]
fn test_remove_directory_lifts_children() {
    let mut dir = example_dir();
    assert!(remove(&mut dir, b"a\\b", None));
    // The removed directory's child moved up; ancestors lost one descendant.
    assert_eq!(dir.len(), 4);
    assert_eq!(dir[1].name(), b"a");
    assert_eq!(dir[1].content_size, 2);
    assert_eq!(dir[2].name(), b"c");
    assert_eq!(find_desc(&dir, b"a/c/file").unwrap().name(), b"file");
}

#[test]
fn test_name_truncation() {
    let long = [b'n'; 40];
    let mut d = Descriptor::default();
    d.set_name(&long);
    assert_eq!(d.name().len(), 31);
    assert_eq!(d.name(), &long[..31]);
}

#[test]
fn test_find_encrypted() {
    let mut dir = example_dir();
    let key = [42, 13];
    let nonce = [31415, 2781];
    encrypt_dir_inplace(&mut dir, &nonce, &key);
    let found = find_encrypted(&dir, b"a/b/c/file", &nonce, &key);
    assert!(matches!(found, Some(_)));
}

#[test]
fn test_find_encrypted_matches_plain_find() {
    let plain = example_dir();
    let mut dir = example_dir();
    let key = [42, 13];
    let nonce = [31415, 2781];
    encrypt_dir_inplace(&mut dir, &nonce, &key);
    let found = find_encrypted(&dir, b"a/b/c/file", &nonce, &key).unwrap();
    assert_eq!(found, plain[4]);
    assert_eq!(found.name(), b"file");
    assert!(find_encrypted(&dir, b"a/b/nope", &nonce, &key).is_none());
    assert!(find_encrypted(&dir, b"", &nonce, &key).is_none());
}

#[test]
fn test_update_dir_address() {
    let mut dir = example_dir();
    update_dir_address(&mut dir);
    assert_eq!(dir[1].section.offset, 2);
    assert_eq!(dir[1].section.size, 3);
    assert_eq!(dir[0].section, Section::default());
}

#[test]
fn test_to_string_ascii() {
    let dir = [
        Descriptor::dir(b"Foo", 2),
        Descriptor::file(b"Bar"),
        Descriptor::file(b"Baz"),
        Descriptor::dir(b"Sub", 1),
        Descriptor::dir(b"Dir", 0),
        Descriptor::file(b"File"),
    ];

    // The separator lines carry the closed margin, trailing spaces included.
    let expected = "./\n+- Foo/\n|  |  Bar\n|  `  Baz\n|  \n+- Sub/\n|  `- Dir/\n|  \n`  File\n";

    let result = to_string(&dir, &Art::ascii());
    assert_eq!(expected, result);
}
