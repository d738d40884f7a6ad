use pak::{InfoHeader, MemoryEditor, MemoryReader, Section};

#[test]
fn test_build_and_read_back() {
    let key = &[13, 42];
    let mut edit = MemoryEditor::new();
    let data = [0xCFu8; 65];
    edit.create_file(b"sub/foo", &data, key);
    let (pak_blocks, dir) = edit.finish(key);

    // The plaintext directory is the chain of the path's components.
    assert_eq!(dir.len(), 2);
    assert_eq!(dir[0].name(), b"sub");
    assert_eq!(dir[0].content_type, 0);
    assert_eq!(dir[0].content_size, 1);
    assert_eq!(dir[1].name(), b"foo");
    assert_ne!(dir[1].content_type, 0);
    assert_eq!(dir[1].content_size, 65);

    let read = MemoryReader::from_blocks(&pak_blocks, key);
    assert!(!read.is_empty());
    let desc = read.find(b"sub/foo").unwrap();
    assert!(read.is_valid_file(&desc));
    let content = read.read_data(&desc);
    assert_eq!(content, &data[..]);
}

#[test]
fn test_wrong_key_reads_nothing() {
    let key = &[13, 42];
    let mut edit = MemoryEditor::new();
    edit.create_file(b"f", &[1, 2, 3], key);
    let (pak_blocks, _) = edit.finish(key);
    let read = MemoryReader::from_blocks(&pak_blocks, &[13, 43]);
    assert!(read.find(b"f").is_none());
}

#[test]
fn test_read_into_ranged() {
    let key = &[7, 8];
    let mut edit = MemoryEditor::new();
    let data: Vec<u8> = (0..100).collect();
    edit.create_file(b"r", &data, key);
    let (pak_blocks, _) = edit.finish(key);
    let read = MemoryReader::from_blocks(&pak_blocks, key);
    let desc = read.find(b"r").unwrap();

    let mut part = [0u8; 10];
    read.read_into(&desc, 33, &mut part);
    assert_eq!(&part[..], &data[33..43]);

    // A range past the section is left untouched.
    let mut beyond = [0xEEu8; 32];
    read.read_into(&desc, 110, &mut beyond);
    assert_eq!(beyond, [0xEEu8; 32]);
}

#[test]
fn test_editor_remove() {
    let key = &[1, 2];
    let mut edit = MemoryEditor::new();
    edit.create_file(b"d/a", &[1], key);
    edit.create_file(b"d/b", &[2], key);
    assert!(edit.remove(b"d/a", None));
    assert!(!edit.remove(b"d/a", None));
    let (pak_blocks, dir) = edit.finish(key);
    assert_eq!(dir.len(), 2);
    let read = MemoryReader::from_blocks(&pak_blocks, key);
    assert!(read.find(b"d/a").is_none());
    let b = read.find(b"d/b").unwrap();
    assert_eq!(read.read_data(&b), vec![2]);
}

#[test]
fn test_gc_preserves_contents() {
    let key = &[5, 6];
    let mut edit = MemoryEditor::new();
    let one: Vec<u8> = (0..40).collect();
    let two: Vec<u8> = (100..180).collect();
    edit.create_file(b"one", &one, key);
    edit.create_file(b"two", &two, key);
    assert!(edit.remove(b"one", None));
    edit.gc();
    let (pak_blocks, _) = edit.finish(key);
    let read = MemoryReader::from_blocks(&pak_blocks, key);
    let desc = read.find(b"two").unwrap();
    assert!(read.is_valid_file(&desc));
    assert_eq!(read.read_data(&desc), two);
}

#[test]
fn test_gc_zeroes_invalid_sections() {
    let key = &[5, 6];
    let mut edit = MemoryEditor::new();
    edit.create_file(b"x", &[9; 10], key);
    // A symlink pointing far outside the archive loses its section in gc.
    let bogus = pak::Descriptor {
        content_type: 7,
        content_size: 10,
        section: Section { offset: 100_000, size: 10, nonce: [0, 0] },
        name_buf: [0; 32],
    };
    edit.create_symlink(b"bad", &bogus);
    edit.gc();
    let (_, dir) = edit.finish(key);
    let bad = dir.iter().find(|d| d.name() == b"bad").unwrap();
    assert_eq!(bad.section, Section::default());
}

#[test]
fn test_edit_file_zero_and_copy() {
    let key = &[11, 12];
    let edit = MemoryEditor::new();
    let mut f = edit.edit_file(b"z");
    f.set_content(3, 40);
    f.allocate_data();
    f.zero_data(key);
    f.copy_data(8, &[0x5A; 4], key);
    assert_eq!(f.content_type(), 3);
    assert_eq!(f.content_size(), 40);
    let edit = f.finish_edit();
    let (pak_blocks, _) = edit.finish(key);
    let read = MemoryReader::from_blocks(&pak_blocks, key);
    let desc = read.find(b"z").unwrap();
    let content = read.read_data(&desc);
    assert_eq!(content.len(), 40);
    for i in 0..40 {
        if (8..12).contains(&i) {
            assert_eq!(content[i], 0x5A);
        } else {
            assert_eq!(content[i], 0);
        }
    }
}

#[test]
fn test_reencrypt_data() {
    let old_key = &[21, 22];
    let new_key = &[31, 32];
    let mut edit = MemoryEditor::new();
    let data = [0x77u8; 20];
    edit.create_file(b"s", &data, old_key);
    let mut f = edit.edit_file(b"s");
    f.reencrypt_data(old_key, new_key);
    let edit = f.finish_edit();
    let (pak_blocks, _) = edit.finish(new_key);
    let read = MemoryReader::from_blocks(&pak_blocks, new_key);
    let desc = read.find(b"s").unwrap();
    assert_eq!(read.read_data(&desc), &data[..]);
}

#[test]
fn test_symlink_shares_section() {
    let key = &[41, 42];
    let mut edit = MemoryEditor::new();
    let data = [0x3Cu8; 30];
    edit.create_file(b"orig", &data, key);
    let edit2 = edit.clone();
    let mut f = edit2.edit_file(b"orig");
    let section = f.section();
    let ctype = f.content_type();
    let csize = f.content_size();
    let target = pak::Descriptor {
        content_type: ctype,
        content_size: csize,
        section,
        name_buf: [0; 32],
    };
    let mut edit = f.finish_edit();
    edit.create_symlink(b"link", &target);
    let (pak_blocks, _) = edit.finish(key);
    let read = MemoryReader::from_blocks(&pak_blocks, key);
    let desc = read.find(b"link").unwrap();
    assert_eq!(read.read_data(&desc), &data[..]);
}

#[test]
fn test_from_blocks_reopens_archive() {
    let key = &[51, 52];
    let mut edit = MemoryEditor::new();
    edit.create_file(b"keep", &[1, 2, 3, 4], key);
    let (pak_blocks, _) = edit.finish(key);

    let mut edit = MemoryEditor::from_blocks(pak_blocks, key);
    edit.create_file(b"more", &[9, 8], key);
    let (pak_blocks, dir) = edit.finish(key);
    assert_eq!(dir.len(), 2);

    let read = MemoryReader::from_blocks(&pak_blocks, key);
    let keep = read.find(b"keep").unwrap();
    assert_eq!(read.read_data(&keep), vec![1, 2, 3, 4]);
    let more = read.find(b"more").unwrap();
    assert_eq!(read.read_data(&more), vec![9, 8]);
}

#[test]
fn test_reader_on_garbage() {
    let key = &[61, 62];
    let blocks = [[0u64; 2]; 2];
    let read = MemoryReader::from_blocks(&blocks, key);
    assert!(read.is_empty());
    assert!(read.find(b"anything").is_none());
    let blocks = [[0x5Au64; 2]; 12];
    let read = MemoryReader::from_blocks(&blocks, key);
    assert!(read.find(b"anything").is_none());
}

#[test]
fn test_create_dir_and_find_sub() {
    let key = &[71, 72];
    let mut edit = MemoryEditor::new();
    edit.create_dir(b"top");
    edit.create_file(b"top/inner", &[42; 5], key);
    let (pak_blocks, dir) = edit.finish(key);
    assert_eq!(dir[0].content_type, 0);
    assert_eq!(dir[0].content_size, 1);

    let read = MemoryReader::from_blocks(&pak_blocks, key);
    let top = read.find(b"top").unwrap();
    assert!(read.is_valid_dir(&top));
    let inner = read.find_sub(&top, b"inner").unwrap();
    assert_eq!(read.read_data(&inner), vec![42; 5]);
}

#[test]
fn test_reader_iter() {
    let key = &[81, 82];
    let mut edit = MemoryEditor::new();
    edit.create_file(b"d/x", &[1], key);
    edit.create_file(b"d/y", &[2], key);
    edit.create_file(b"tail", &[3], key);
    let (pak_blocks, _) = edit.finish(key);
    let read = MemoryReader::from_blocks(&pak_blocks, key);
    let d = read.find(b"d").unwrap();
    assert!(read.is_valid_dir(&d));
    let mut it = read.iter(&d);
    let x = it.next().unwrap();
    assert_eq!(x.name(), b"x");
    let y = it.next().unwrap();
    assert_eq!(y.name(), b"y");
    assert!(it.next().is_none());
}

#[test]
fn test_total_blocks() {
    let good = InfoHeader {
        version: 0,
        unused: [0],
        directory: Section { offset: 9, size: 2, nonce: [0, 0] },
    };
    assert_eq!(good.total_blocks(), Some(17));
    let tiny = InfoHeader {
        version: 0,
        unused: [0],
        directory: Section { offset: 0, size: 0, nonce: [0, 0] },
    };
    assert_eq!(tiny.total_blocks(), Some(5));
    let bad = InfoHeader {
        version: 1,
        unused: [0],
        directory: Section { offset: 9, size: 2, nonce: [0, 0] },
    };
    assert_eq!(bad.total_blocks(), None);
}

#[test]
fn test_bytes2blocks() {
    assert_eq!(pak::bytes2blocks(0), 0);
    assert_eq!(pak::bytes2blocks(1), 1);
    assert_eq!(pak::bytes2blocks(16), 1);
    assert_eq!(pak::bytes2blocks(17), 2);
    assert_eq!(pak::bytes2blocks(65), 5);
    assert_eq!(pak::bytes2blocks(u32::MAX), 0x1000_0000);
}
