use fajar_wasi_p2::filesystem::{Descriptor, DescriptorFlags, FileType, FsError, OpenFlags, WasiFilesystem};

fn setup() -> (WasiFilesystem, Descriptor) {
    let mut fs = WasiFilesystem::new();
    let root = fs.open_root();
    (fs, root)
}

// ── W3.1: Types ──

#[test]
fn w3_1_filetype_display() {
    assert_eq!(FileType::RegularFile.to_string(), "regular-file");
    assert_eq!(FileType::Directory.to_string(), "directory");
    assert_eq!(FileType::SymbolicLink.to_string(), "symbolic-link");
}

#[test]
fn w3_1_fs_error_display() {
    assert_eq!(FsError::NoEntry.to_string(), "no such file or directory");
    assert_eq!(FsError::Access.to_string(), "access denied");
}

// ── W3.2: open-at ──

#[test]
fn w3_2_open_create_file() {
    let (mut fs, root) = setup();
    let flags = OpenFlags {
        create: true,
        ..Default::default()
    };
    let fd = fs
        .open_at(root, "file.txt", flags, DescriptorFlags::default())
        .unwrap();
    assert!(fd >= 3);
}

#[test]
fn w3_2_open_existing_file() {
    let (mut fs, root) = setup();
    let flags = OpenFlags {
        create: true,
        ..Default::default()
    };
    let _fd1 = fs
        .open_at(root, "file.txt", flags, DescriptorFlags::default())
        .unwrap();
    let fd2 = fs
        .open_at(
            root,
            "file.txt",
            OpenFlags::default(),
            DescriptorFlags::default(),
        )
        .unwrap();
    assert!(fd2 > 0);
}

#[test]
fn w3_2_open_nonexistent_fails() {
    let (mut fs, root) = setup();
    let err = fs
        .open_at(
            root,
            "missing.txt",
            OpenFlags::default(),
            DescriptorFlags::default(),
        )
        .unwrap_err();
    assert_eq!(err, FsError::NoEntry);
}

// ── W3.3: read-via-stream ──

#[test]
fn w3_3_read_file_in_chunks() {
    let (mut fs, root) = setup();
    let flags = OpenFlags {
        create: true,
        ..Default::default()
    };
    let fd = fs
        .open_at(root, "data.bin", flags, DescriptorFlags::default())
        .unwrap();

    // Write 1MB of data
    let data: Vec<u8> = (0..1024 * 1024).map(|i| (i % 256) as u8).collect();
    fs.write(fd, &data).unwrap();

    // Close and reopen to reset cursor
    fs.close(fd).unwrap();
    let fd2 = fs
        .open_at(
            root,
            "data.bin",
            OpenFlags::default(),
            DescriptorFlags::default(),
        )
        .unwrap();

    // Read in 4KB chunks
    let mut read_data = Vec::new();
    loop {
        let chunk = fs.read(fd2, 4096).unwrap();
        if chunk.is_empty() {
            break;
        }
        read_data.extend_from_slice(&chunk);
    }
    assert_eq!(read_data.len(), 1024 * 1024);
    assert_eq!(&read_data[..10], &data[..10]);
}

// ── W3.4: write-via-stream ──

#[test]
fn w3_4_write_and_verify() {
    let (mut fs, root) = setup();
    let flags = OpenFlags {
        create: true,
        ..Default::default()
    };
    let fd = fs
        .open_at(root, "hello.txt", flags, DescriptorFlags::default())
        .unwrap();
    let written = fs.write(fd, b"Hello, WASI!").unwrap();
    assert_eq!(written, 12);

    // Reset cursor and read back
    fs.close(fd).unwrap();
    let fd2 = fs
        .open_at(
            root,
            "hello.txt",
            OpenFlags::default(),
            DescriptorFlags::default(),
        )
        .unwrap();
    let data = fs.read(fd2, 100).unwrap();
    assert_eq!(data, b"Hello, WASI!");
}

// ── W3.5: stat ──

#[test]
fn w3_5_stat_file() {
    let (mut fs, root) = setup();
    let flags = OpenFlags {
        create: true,
        ..Default::default()
    };
    let fd = fs
        .open_at(root, "test.txt", flags, DescriptorFlags::default())
        .unwrap();
    fs.write(fd, b"hello world").unwrap();

    let stat = fs.stat(fd).unwrap();
    assert_eq!(stat.filetype, FileType::RegularFile);
    assert_eq!(stat.size, 11); // "hello world"
    assert_eq!(stat.nlink, 1);
}

#[test]
fn w3_5_stat_at_path() {
    let (mut fs, root) = setup();
    let flags = OpenFlags {
        create: true,
        ..Default::default()
    };
    let fd = fs
        .open_at(root, "data.bin", flags, DescriptorFlags::default())
        .unwrap();
    fs.write(fd, &vec![0u8; 1024]).unwrap();

    let stat = fs.stat_at(root, "data.bin").unwrap();
    assert_eq!(stat.size, 1024);
}

// ── W3.6: readdir ──

#[test]
fn w3_6_readdir_lists_entries() {
    let (mut fs, root) = setup();
    let flags = OpenFlags {
        create: true,
        ..Default::default()
    };
    fs.open_at(root, "a.txt", flags, DescriptorFlags::default())
        .unwrap();
    fs.open_at(root, "b.txt", flags, DescriptorFlags::default())
        .unwrap();
    fs.create_directory_at(root, "subdir").unwrap();

    let entries = fs.readdir(root).unwrap();
    assert_eq!(entries.len(), 3);
    assert_eq!(entries[0].name, "a.txt");
    assert_eq!(entries[0].filetype, FileType::RegularFile);
    assert_eq!(entries[1].name, "b.txt");
    assert_eq!(entries[2].name, "subdir");
    assert_eq!(entries[2].filetype, FileType::Directory);
}

// ── W3.7: path-create-directory ──

#[test]
fn w3_7_create_nested_directories() {
    let (mut fs, root) = setup();
    fs.create_directory_at(root, "a/b/c").unwrap();

    let entries = fs.readdir(root).unwrap();
    assert_eq!(entries.len(), 1);
    assert_eq!(entries[0].name, "a");

    // Open 'a' and check 'b' exists
    let a_fd = fs
        .open_at(
            root,
            "a",
            OpenFlags {
                directory: true,
                ..Default::default()
            },
            DescriptorFlags::default(),
        )
        .unwrap();
    let a_entries = fs.readdir(a_fd).unwrap();
    assert_eq!(a_entries.len(), 1);
    assert_eq!(a_entries[0].name, "b");
}

// ── W3.8: unlink-file / remove-directory ──

#[test]
fn w3_8_unlink_file() {
    let (mut fs, root) = setup();
    let flags = OpenFlags {
        create: true,
        ..Default::default()
    };
    fs.open_at(root, "to_delete.txt", flags, DescriptorFlags::default())
        .unwrap();
    assert_eq!(fs.readdir(root).unwrap().len(), 1);

    fs.unlink_file_at(root, "to_delete.txt").unwrap();
    assert_eq!(fs.readdir(root).unwrap().len(), 0);

    // stat should fail
    let err = fs.stat_at(root, "to_delete.txt").unwrap_err();
    assert_eq!(err, FsError::NoEntry);
}

#[test]
fn w3_8_remove_empty_directory() {
    let (mut fs, root) = setup();
    fs.create_directory_at(root, "empty_dir").unwrap();
    fs.remove_directory_at(root, "empty_dir").unwrap();
    assert_eq!(fs.readdir(root).unwrap().len(), 0);
}

#[test]
fn w3_8_remove_nonempty_fails() {
    let (mut fs, root) = setup();
    fs.create_directory_at(root, "nonempty").unwrap();
    let dir_fd = fs
        .open_at(
            root,
            "nonempty",
            OpenFlags {
                directory: true,
                ..Default::default()
            },
            DescriptorFlags::default(),
        )
        .unwrap();
    let flags = OpenFlags {
        create: true,
        ..Default::default()
    };
    fs.open_at(dir_fd, "child.txt", flags, DescriptorFlags::default())
        .unwrap();

    let err = fs.remove_directory_at(root, "nonempty").unwrap_err();
    assert_eq!(err, FsError::NotEmpty);
}

// ── W3.9: path-rename ──

#[test]
fn w3_9_rename_preserves_content() {
    let (mut fs, root) = setup();
    let flags = OpenFlags {
        create: true,
        ..Default::default()
    };
    let fd = fs
        .open_at(root, "old.txt", flags, DescriptorFlags::default())
        .unwrap();
    fs.write(fd, b"content here").unwrap();

    fs.rename_at(root, "old.txt", root, "new.txt").unwrap();

    // Old name gone
    assert!(fs.stat_at(root, "old.txt").is_err());

    // New name has same content
    let new_fd = fs
        .open_at(
            root,
            "new.txt",
            OpenFlags::default(),
            DescriptorFlags::default(),
        )
        .unwrap();
    let data = fs.read(new_fd, 100).unwrap();
    assert_eq!(data, b"content here");
}

// ── W3.10: Comprehensive tests ──

#[test]
fn w3_10_full_filesystem_workflow() {
    let (mut fs, root) = setup();

    // Create directory structure
    fs.create_directory_at(root, "src").unwrap();
    fs.create_directory_at(root, "src/lib").unwrap();

    // Create files
    let src_fd = fs
        .open_at(
            root,
            "src",
            OpenFlags {
                directory: true,
                ..Default::default()
            },
            DescriptorFlags::default(),
        )
        .unwrap();
    let flags = OpenFlags {
        create: true,
        ..Default::default()
    };
    let fd = fs
        .open_at(src_fd, "main.fj", flags, DescriptorFlags::default())
        .unwrap();
    fs.write(fd, b"fn main() { println(\"hello\") }").unwrap();

    let lib_fd = fs
        .open_at(
            src_fd,
            "lib",
            OpenFlags {
                directory: true,
                ..Default::default()
            },
            DescriptorFlags::default(),
        )
        .unwrap();
    let fd2 = fs
        .open_at(lib_fd, "utils.fj", flags, DescriptorFlags::default())
        .unwrap();
    fs.write(fd2, b"pub fn helper() -> i32 { 42 }").unwrap();

    // Verify stat
    let stat = fs.stat_at(src_fd, "main.fj").unwrap();
    assert_eq!(stat.filetype, FileType::RegularFile);
    assert_eq!(stat.size, 30);

    // Readdir
    let entries = fs.readdir(src_fd).unwrap();
    assert_eq!(entries.len(), 2); // lib/ + main.fj

    // Rename
    fs.rename_at(src_fd, "main.fj", src_fd, "app.fj").unwrap();
    let entries = fs.readdir(src_fd).unwrap();
    assert!(entries.iter().any(|e| e.name == "app.fj"));
    assert!(!entries.iter().any(|e| e.name == "main.fj"));
}

#[test]
fn w3_10_descriptor_close_and_reopen() {
    let (mut fs, root) = setup();
    let flags = OpenFlags {
        create: true,
        ..Default::default()
    };
    let fd = fs
        .open_at(root, "test.txt", flags, DescriptorFlags::default())
        .unwrap();
    fs.write(fd, b"hello").unwrap();
    fs.close(fd).unwrap();

    // Re-reading after close should fail
    assert!(fs.read(fd, 10).is_err());

    // But reopening works
    let fd2 = fs
        .open_at(
            root,
            "test.txt",
            OpenFlags::default(),
            DescriptorFlags::default(),
        )
        .unwrap();
    let data = fs.read(fd2, 10).unwrap();
    assert_eq!(data, b"hello");
}

// ── further cases ──

fn create_flags() -> OpenFlags {
    OpenFlags { create: true, ..Default::default() }
}

#[test]
fn fs_exclusive_open_of_existing_fails() {
    let (mut fs, root) = setup();
    fs.open_at(root, "x", create_flags(), DescriptorFlags::default()).unwrap();
    let flags = OpenFlags { create: true, exclusive: true, ..Default::default() };
    assert_eq!(fs.open_at(root, "x", flags, DescriptorFlags::default()).unwrap_err(), FsError::Exist);
}

#[test]
fn fs_directory_flag_on_file_fails() {
    let (mut fs, root) = setup();
    fs.open_at(root, "f", create_flags(), DescriptorFlags::default()).unwrap();
    let flags = OpenFlags { directory: true, ..Default::default() };
    assert_eq!(fs.open_at(root, "f", flags, DescriptorFlags::default()).unwrap_err(), FsError::NotDir);
}

#[test]
fn fs_read_and_write_on_directory_fail() {
    let (mut fs, root) = setup();
    assert_eq!(fs.read(root, 4).unwrap_err(), FsError::IsDir);
    assert_eq!(fs.write(root, b"x").unwrap_err(), FsError::IsDir);
    assert_eq!(fs.read(99, 4).unwrap_err(), FsError::BadDescriptor);
    assert_eq!(fs.close(99).unwrap_err(), FsError::BadDescriptor);
}

#[test]
fn fs_truncate_empties_file() {
    let (mut fs, root) = setup();
    let fd = fs.open_at(root, "t", create_flags(), DescriptorFlags::default()).unwrap();
    fs.write(fd, b"abcdef").unwrap();
    let flags = OpenFlags { truncate: true, ..Default::default() };
    let fd2 = fs.open_at(root, "t", flags, DescriptorFlags::default()).unwrap();
    assert_eq!(fs.stat(fd2).unwrap().size, 0);
}

#[test]
fn fs_write_past_end_fills_with_zeros() {
    let (mut fs, root) = setup();
    let fd = fs.open_at(root, "z", create_flags(), DescriptorFlags::default()).unwrap();
    fs.write(fd, b"ab").unwrap();
    let fd2 = fs.open_at(root, "z", OpenFlags::default(), DescriptorFlags::default()).unwrap();
    assert_eq!(fs.read(fd2, 1).unwrap(), b"a");
    // the first descriptor's cursor is at 2: overwrite from there
    assert_eq!(fs.write(fd, b"cd").unwrap(), 2);
    assert_eq!(fs.read(fd2, 10).unwrap(), b"bcd");
}

#[test]
fn fs_directory_stat_counts_links() {
    let (mut fs, root) = setup();
    fs.create_directory_at(root, "d").unwrap();
    fs.open_at(root, "d/a", create_flags(), DescriptorFlags::default()).unwrap();
    fs.open_at(root, "d/b", create_flags(), DescriptorFlags::default()).unwrap();
    let st = fs.stat_at(root, "d").unwrap();
    assert_eq!(st.filetype, FileType::Directory);
    assert_eq!(st.nlink, 4);
    assert_eq!(st.size, 0);
}

#[test]
fn fs_unlink_and_rmdir_errors() {
    let (mut fs, root) = setup();
    fs.create_directory_at(root, "d").unwrap();
    assert_eq!(fs.unlink_file_at(root, "d").unwrap_err(), FsError::IsDir);
    assert_eq!(fs.unlink_file_at(root, "nope").unwrap_err(), FsError::NoEntry);
    assert_eq!(fs.unlink_file_at(root, "").unwrap_err(), FsError::Invalid);
    fs.open_at(root, "f", create_flags(), DescriptorFlags::default()).unwrap();
    assert_eq!(fs.remove_directory_at(root, "f").unwrap_err(), FsError::NotDir);
    assert_eq!(fs.create_directory_at(root, "f/g").unwrap_err(), FsError::Exist);
}

#[test]
fn fs_paths_skip_empty_parts() {
    let (mut fs, root) = setup();
    fs.create_directory_at(root, "/a//b/").unwrap();
    assert_eq!(fs.stat_at(root, "a/b").unwrap().filetype, FileType::Directory);
}

#[test]
fn rename_into_file_parent_changes_nothing() {
    let (mut fs, root) = setup();
    let flags = OpenFlags {
        create: true,
        ..Default::default()
    };
    fs.open_at(root, "f.txt", flags, DescriptorFlags::default()).unwrap();
    fs.open_at(root, "g", flags, DescriptorFlags::default()).unwrap();
    assert_eq!(fs.rename_at(root, "f.txt", root, "g/x"), Err(FsError::NotDir));
    assert!(fs.stat_at(root, "f.txt").is_ok());
}
