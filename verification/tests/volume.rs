use std::collections::HashMap;
use xhfs::crypto::KeyDerivation;
use xhfs::device::disk::Controller;
use xhfs::device::kv_device::{KVDevice, MemoryKV};
use xhfs::device::logical::LogicalDevice;
use xhfs::error::{Fault, XHFSError};
use xhfs::interface::cli::split_pieces;
use xhfs::xhfs::ds::INodeKind;
use xhfs::xhfs::layout::Format;
use xhfs::xhfs::tree::WriteOption;
use xhfs::xhfs::XHFS;

type Volume = XHFS<KVDevice<MemoryKV>>;

fn memory_controller(capacity: usize) -> Controller<KVDevice<MemoryKV>> {
    assert_eq!(capacity % 8, 0);
    let dev1 = KVDevice {
        store: MemoryKV(HashMap::new()),
        total_slots: capacity / 8,
        slot_capacity: 8,
    };
    let dev1 = LogicalDevice::new(2, vec![dev1]).unwrap();
    Controller::from(vec![dev1]).unwrap()
}

fn create_simple_memory_xhfs(capacity: usize) -> Result<Volume, XHFSError> {
    XHFS::format_new(memory_controller(capacity), Some("helloworld"), &KeyDerivation::default())
}

fn plain() -> WriteOption {
    WriteOption { overwrite: false, modified: None }
}

fn over() -> WriteOption {
    WriteOption { overwrite: true, modified: None }
}

fn fault(err: Fault) -> XHFSError {
    XHFSError::Error { err }
}

#[test]
fn xhfs_test_xhfs_core_ops() -> Result<(), XHFSError> {
    let mut xhfs = create_simple_memory_xhfs(128 * 1000 * 1000)?;

    assert!(xhfs.mkdir("/", false)? == false, "root is not new");

    xhfs.mkdir("/hello", true)?;
    assert!(
        xhfs.mkdir("/hello/not/recursive", false).is_err(),
        "not recursive fail if many components"
    );
    xhfs.mkdir("/hello/foo", true)?;
    xhfs.mkdir("/hello/bar", true)?;
    xhfs.mkdir("/hello/bar", true)?;
    xhfs.mkdir("/hello/baz/aaa", true)?;
    xhfs.mkdir("/hello/baz/bbb", true)?;
    xhfs.fwrite("/hello/baz/123.bin", vec![1, 2, 3], plain())?;
    xhfs.mkdir("/world", true)?;

    {
        assert_eq!(xhfs.ls("/")?, ["hello".to_string(), "world".to_string()]);
        assert_eq!(
            xhfs.ls("/hello")?,
            ["foo".to_string(), "bar".to_string(), "baz".to_string()]
        );
        assert_eq!(xhfs.ls("/world")?, [] as [String; 0]);
        assert_eq!(
            xhfs.ls("/hello/baz/")?,
            ["aaa".to_string(), "bbb".to_string(), "123.bin".to_string()]
        );
    }

    {
        assert!(
            xhfs.unlink("/hello/baz").is_err(),
            "cannot unlink nested path"
        );
        assert!(
            xhfs.unlink("/hello/baz/123.bin").is_ok(),
            "unlink leaf file"
        );
        assert!(
            xhfs.unlink("/hello/baz/aaa").is_ok(),
            "unlink leaf folder"
        );
        assert_eq!(xhfs.ls("/hello/baz/")?, ["bbb".to_string()]);
    }

    assert!(
        xhfs.fread("/hello/notexist.exe").is_err(),
        "file does not exist works"
    );

    let data1 = "This is the content";
    let data2 = "Another content";
    {
        xhfs.fwrite(
            "/hello/baz/bbb/content1.txt",
            data1.as_bytes().to_vec(),
            plain(),
        )?;
        xhfs.fwrite(
            "/hello/baz/bbb/content2.txt",
            data2.as_bytes().to_vec(),
            plain(),
        )?;
        assert_eq!(
            data1,
            String::from_utf8(xhfs.fread("/hello/baz/bbb/content1.txt")?).unwrap(),
            "reading written content 1"
        );
        assert_eq!(
            data2,
            String::from_utf8(xhfs.fread("/hello/baz/bbb/content2.txt")?).unwrap(),
            "reading written content 2"
        );
    }

    {
        let data1 = "Another content";
        xhfs.fwrite(
            "/hello/baz/bbb/content1.txt",
            data1.as_bytes().to_vec(),
            over(),
        )?;

        // also proves dir entry remap works fine
        assert_eq!(
            data1,
            String::from_utf8(xhfs.fread("/hello/baz/bbb/content1.txt")?).unwrap(),
            "reading written content 1 HAS changed"
        );
        assert_eq!(
            data2,
            String::from_utf8(xhfs.fread("/hello/baz/bbb/content2.txt")?).unwrap(),
            "reading written content 2 remains unchanged"
        );
    }

    Ok(())
}

#[test]
fn xhfs_test_xhfs_ref_manips_and_stats() -> Result<(), XHFSError> {
    let mut xhfs = create_simple_memory_xhfs(128 * 1000 * 1000)?;

    xhfs.mkdir("/many/entries/a", true)?;
    xhfs.mkdir("/many/entries/b", true)?;
    xhfs.mkdir("/many/entries/c", true)?;
    xhfs.fwrite("/many/entries/d.txt", b"HELLO".to_vec(), plain())?;

    {
        // extent 1 = HELLO
        // extent 2 = ABC
        xhfs.fappend("/many/entries/d.txt", b"ABC".to_vec(), None)?;
        assert_eq!(
            xhfs.fread("/many/entries/d.txt")?,
            b"HELLOABC",
            "fappend works"
        );
        assert_eq!(
            xhfs.fseek("/many/entries/d.txt", 4, 7)?,
            b"OAB",
            "extent boundaries are contiguous from user POV"
        );
    }

    // non-trivial ref manips
    {
        xhfs.fcopy("/many/entries/d.txt", "/many/entries/other.txt", plain())?;
        xhfs.fcopy_stream(
            "/many/entries/d.txt",
            "/many/entries/other-but-streamed.txt",
            3,
            plain(),
            1,
        )?;
        xhfs.fmove("/many/entries", "/many/entries2")?;
        xhfs.create_symlink("/file.link", "/many/entries2/d.txt", plain())?;
        xhfs.create_hardlink("/file.hardlink", "/many/entries2/d.txt", plain())?;
        xhfs.create_symlink("/folder.link", "/many/entries2", plain())?;
    }
    assert_eq!(
        xhfs.ls("/many/entries2")?,
        xhfs.ls("/folder.link")?,
        "folder symlink"
    );
    assert_eq!(
        xhfs.fread("/many/entries2/d.txt")?,
        xhfs.fread("/file.link")?,
        "file symlink"
    );
    assert_eq!(
        xhfs.fread("/many/entries2/d.txt")?,
        xhfs.fread("/file.hardlink")?,
        "file hardlink"
    );

    assert_eq!(
        xhfs.fseek("/file.link", 4, 7)?,
        b"OAB",
        "Symlink + extent boundaries are contiguous from user POV"
    );
    assert_eq!(
        xhfs.fseek("/file.hardlink", 4, 7)?,
        b"OAB",
        "Hardlink + extent boundaries are contiguous from user POV"
    );

    assert_eq!(
        xhfs.fread("/many/entries2/d.txt")?,
        xhfs.fread("/many/entries2/other.txt")?,
        "basic fcopy output"
    );
    assert_eq!(
        xhfs.fread("/many/entries2/other.txt")?,
        xhfs.fread("/many/entries2/other-but-streamed.txt")?,
        "chunked fcopy stream"
    );

    let dtxt_stats = xhfs.stats("/many/entries2/d.txt", false)?.unwrap();
    let filelink_stats = xhfs.stats("/file.link", false)?.unwrap();
    let folder_stats = xhfs.stats("/many/entries2", false)?.unwrap();
    // basic stats
    {
        assert_eq!(
            folder_stats.size, None,
            "size not immediately calculated for folders"
        );
        assert_eq!(dtxt_stats.kind, INodeKind::File, "stats should work");
        assert_eq!(dtxt_stats.size, Some(8), "should give correct data size");
        assert_eq!(
            filelink_stats.kind,
            INodeKind::Symlink,
            "stats should not resolve symlink"
        );
    }
    // nlink
    {
        assert_eq!(folder_stats.nlink, 1, "basic nlink count should be 1");
        assert_eq!(dtxt_stats.nlink, 2, "hardlink should bump nlink");
    }

    Ok(())
}

#[test]
fn test_fremove_and_hardlinks() -> Result<(), XHFSError> {
    let mut xhfs = create_simple_memory_xhfs(128 * 1000 * 1000)?;
    xhfs.mkdir("/deeply/nested/folder/here", true)?;

    let homework = vec![7; 160000];
    let og_path = "/deeply/nested/folder/here/original.bin";

    let space_before_any_writes = xhfs.total_remaining_capacity()?;
    assert_eq!(space_before_any_writes, 83869696);

    xhfs.fwrite(og_path, homework.clone(), plain())?;
    let after_write_remaining = xhfs.total_remaining_capacity()?;
    assert_eq!(after_write_remaining, 83701760);

    let stats = xhfs.stats(og_path, false)?.unwrap();
    assert_eq!(stats.nlink, 1);

    xhfs.create_hardlink("/deeply/nested/001.hardlink", og_path, plain())?;
    assert_eq!(
        xhfs.total_remaining_capacity()?,
        after_write_remaining - 4096,
        "Hardlink should spend only INode space + 1 block for storing refered inumber"
    );
    let stats = xhfs.stats(og_path, false)?.unwrap();
    assert_eq!(stats.nlink, 2);

    xhfs.create_hardlink("/deeply/nested/002.hardlink", og_path, plain())?;
    assert_eq!(
        xhfs.total_remaining_capacity()?,
        (after_write_remaining - 4096) - 4096,
        "Hardlink should spend only INode space + 1 block for storing refered inumber"
    );
    let stats = xhfs.stats(og_path, false)?.unwrap();
    assert_eq!(stats.nlink, 3);

    xhfs.unlink("/deeply/nested/002.hardlink")?;
    let stats = xhfs.stats(og_path, false)?.unwrap();
    assert_eq!(stats.nlink, 2);

    xhfs.unlink(og_path)?;
    // At this point, the original file is no more, but we still own a link to it
    let stats = xhfs.stats("/deeply/nested/001.hardlink", true)?.unwrap();
    assert_eq!(stats.nlink, 1, "should still hold the physical file");

    // We can even read its content
    let content = xhfs.fread("/deeply/nested/001.hardlink")?;
    assert_eq!(homework, content, "same as original");

    xhfs.unlink("/deeply/nested/001.hardlink")?;
    let now_remaining = xhfs.total_remaining_capacity()?;

    assert_eq!(
        space_before_any_writes, now_remaining,
        "nlink = 0 should free up everything"
    );

    Ok(())
}

#[test]
fn xhfs_test_fstream_from_no_file() -> Result<(), XHFSError> {
    let mut xhfs = create_simple_memory_xhfs(128 * 1000 * 1000)?;
    let block_size = 4;
    xhfs.fwrite_stream("hello.txt", split_pieces(b"123456789", block_size), plain(), 1)?;

    assert_eq!(xhfs.fread("hello.txt")?, b"123456789");

    let inode = xhfs.resolve_path("hello.txt")?;

    let meta_exts = xhfs.find_full_extent_metadata(inode.extent_addr, Some(10))?;
    let header = xhfs.get_header()?;

    assert_eq!(meta_exts.len(), 3, "each write shot should use 1 extent");
    // each burst of 4 bytes wastes 4096 B (1 block) - 4 B - 16 B extent header space
    let block = header.format.block_size_bytes;
    assert_eq!(meta_exts[0].full_aligned_region.size_span(), block);
    assert_eq!(meta_exts[1].full_aligned_region.size_span(), block);
    assert_eq!(meta_exts[2].full_aligned_region.size_span(), block);

    Ok(())
}

#[test]
fn test_xhfs_fread_stream() -> Result<(), XHFSError> {
    let mut xhfs = create_simple_memory_xhfs(128 * 1000 * 1000)?;
    let part1 = vec![1; 72];
    let part2 = vec![2; 111];
    let part3 = vec![3; 1];

    xhfs.fwrite("/file.bin", vec![], plain())?;
    xhfs.fappend("/file.bin", part1.clone(), None)?;
    xhfs.fappend("/file.bin", part2.clone(), None)?;
    xhfs.fappend("/file.bin", part3.clone(), None)?;

    let examples = [13, 17, 22, 100000];
    for chunk_size in examples {
        let mut stream = xhfs.fread_stream("/file.bin", chunk_size)?;
        let mut result: Vec<u8> = vec![];
        while let Some(chunk) = xhfs.next_chunk(&mut stream)? {
            assert!(chunk.len() <= chunk_size);
            result.extend(chunk);
        }
        let mut c = 0;
        assert_eq!(
            part1,
            result[c..c + 72],
            "chunk size {chunk_size} for part 1"
        );
        c += 72;
        assert_eq!(
            part2,
            result[c..c + 111],
            "chunk size {chunk_size} for part 2"
        );
        c += 111;
        assert_eq!(
            part3,
            result[c..c + 1],
            "chunk size {chunk_size} for part 3"
        );
    }

    Ok(())
}

#[test]
fn test_xhfs_real_prelayout_deduction() -> Result<(), XHFSError> {
    let mod_8_required_by_kv = 7;
    {
        let xhfs = create_simple_memory_xhfs(84221009 + mod_8_required_by_kv)?;
        let format = xhfs.get_header()?.format;
        assert_eq!(
            format,
            Format {
                param_data_block_count_per_group: 20480,
                param_inode_count_per_group: 4096,
                block_size_bytes: 4096,
                group_count: 1
            },
        );
    }
    {
        let xhfs = create_simple_memory_xhfs(2 * (84221009 + mod_8_required_by_kv))?;
        let format = xhfs.get_header()?.format;
        assert_eq!(
            format,
            Format {
                param_data_block_count_per_group: 20480,
                param_inode_count_per_group: 4096,
                block_size_bytes: 4096,
                group_count: 2
            },
        );
    }
    {
        let xhfs = create_simple_memory_xhfs(800 * 1000 * 1000)?;
        let format = xhfs.get_header()?.format;
        assert_eq!(
            format,
            Format {
                param_data_block_count_per_group: 20480,
                param_inode_count_per_group: 4096,
                block_size_bytes: 4096,
                group_count: 9
            },
        );
    }

    Ok(())
}

#[test]
fn small_disks_are_refused() {
    let err = create_simple_memory_xhfs(84221000).err().unwrap();
    assert!(matches!(err, XHFSError::Error { err: Fault::DeviceTooSmall { .. } }));
    let none: Vec<LogicalDevice<KVDevice<MemoryKV>>> = vec![];
    let ctrl = Controller::from(none).unwrap();
    let err = XHFS::format_new(ctrl, None, &KeyDerivation::Sha256).err().unwrap();
    assert_eq!(err, fault(Fault::NothingToFormat));
}

#[test]
fn times_are_noted() -> Result<(), XHFSError> {
    let mut xhfs = XHFS::format_new_at(
        memory_controller(88000000),
        None,
        &KeyDerivation::Sha256,
        [5; 12],
        10,
    )?;
    assert_eq!(xhfs.get_header()?.chacha20_nonce, [5; 12]);
    assert_eq!(xhfs.stats("/", false)?.unwrap().ctime, 10);
    xhfs.fwrite_at("/a", vec![1], plain(), 20)?;
    let s = xhfs.stats("/a", false)?.unwrap();
    assert_eq!((s.mtime, s.ctime, s.size, s.name.as_str()), (20, 20, Some(1), "a"));
    assert_eq!(xhfs.stats("/", false)?.unwrap().mtime, 20);
    xhfs.fwrite_at("/a", vec![1, 2], over(), 30)?;
    let s = xhfs.stats("/a", false)?.unwrap();
    assert_eq!((s.mtime, s.ctime, s.size), (30, 20, Some(2)));
    xhfs.fwrite_at(
        "/a",
        vec![1, 2, 3],
        WriteOption { overwrite: true, modified: Some(77) },
        40,
    )?;
    assert_eq!(xhfs.stats("/a", false)?.unwrap().mtime, 77);
    xhfs.fappend_at("/a", vec![4], 50)?;
    let s = xhfs.stats("/a", false)?.unwrap();
    assert_eq!((s.mtime, s.size), (50, Some(4)));
    assert_eq!(xhfs.fread("/a")?, vec![1, 2, 3, 4]);
    Ok(())
}

#[test]
fn faults_of_paths() -> Result<(), XHFSError> {
    let mut xhfs = create_simple_memory_xhfs(88000000)?;
    xhfs.fwrite("/f", b"x".to_vec(), plain())?;
    xhfs.mkdir("/d/e", true)?;
    assert_eq!(xhfs.fwrite("/f", vec![], plain()), Err(fault(Fault::FileExists)));
    assert_eq!(xhfs.fwrite("/d", vec![], over()), Err(fault(Fault::NotAFile)));
    assert_eq!(xhfs.fwrite("/", vec![], plain()), Err(fault(Fault::MissingParent)));
    assert_eq!(xhfs.fwrite("..", vec![], plain()), Err(fault(Fault::MissingFilename)));
    assert_eq!(xhfs.fread("/d"), Err(fault(Fault::CannotReadDirectory)));
    assert_eq!(xhfs.fread("/x/y"), Err(fault(Fault::PathMissing { depth: 1 })));
    assert_eq!(xhfs.fread("/d/e/y"), Err(fault(Fault::PathMissing { depth: 3 })));
    assert_eq!(xhfs.fread("/f/y"), Err(fault(Fault::FileInPath { depth: 1 })));
    assert_eq!(xhfs.ls("/f"), Err(fault(Fault::CannotListFile)));
    assert_eq!(xhfs.unlink("/nope"), Err(fault(Fault::NoSuchEntry)));
    assert_eq!(xhfs.unlink("/d"), Err(fault(Fault::DirectoryNotEmpty)));
    assert_eq!(xhfs.mkdir("/f/g", true), Err(fault(Fault::NotADirectory)));
    assert_eq!(xhfs.mkdir("/q/r", false), Err(fault(Fault::DirectoryMissing { depth: 1 })));
    assert_eq!(xhfs.fmove("/d", "/d/e/z"), Err(fault(Fault::MoveIntoItself)));
    assert_eq!(xhfs.fmove("/f", "/d"), Err(fault(Fault::DestinationExists)));
    assert_eq!(xhfs.fmove("/nope", "/z"), Err(fault(Fault::NoSource)));
    assert_eq!(
        xhfs.create_hardlink("/h", "/d", plain()),
        Err(fault(Fault::HardlinkTarget { kind: INodeKind::Directory }))
    );
    assert_eq!(xhfs.fappend("/d", vec![1], None), Err(fault(Fault::CannotAppendDirectory)));
    assert_eq!(xhfs.fwrite("/bad\nname", vec![], plain()), Err(fault(Fault::NameControlCharacter)));
    let room = xhfs.total_remaining_capacity()?;
    assert_eq!(
        xhfs.fwrite("/big", vec![0; room], plain()),
        Err(fault(Fault::InsufficientSpace { size: room as u64, remaining: room as u64 }))
    );
    assert_eq!(xhfs.path_exists("/f"), Ok(true));
    assert_eq!(xhfs.path_exists("/none"), Ok(false));
    Ok(())
}

#[test]
fn links_that_lead_nowhere() -> Result<(), XHFSError> {
    let mut xhfs = create_simple_memory_xhfs(88000000)?;
    xhfs.create_symlink("/self", "/self", plain())?;
    assert_eq!(xhfs.ls("/self"), Err(fault(Fault::SymlinkToItself)));
    xhfs.create_symlink("/gone", "/missing", plain())?;
    assert_eq!(xhfs.fread("/gone"), Err(fault(Fault::PathMissing { depth: 1 })));
    xhfs.fwrite("/f", b"abc".to_vec(), plain())?;
    xhfs.create_hardlink("/h", "/f", plain())?;
    assert_eq!(xhfs.ls("/h"), Err(fault(Fault::CannotListHardlink)));
    assert_eq!(xhfs.fread("/h/x"), Err(fault(Fault::LinkInPath { depth: 1 })));
    xhfs.fappend("/h", b"de".to_vec(), None)?;
    assert_eq!(xhfs.fread("/f")?, b"abcde");
    Ok(())
}

#[test]
fn volumes_are_opened_again() -> Result<(), XHFSError> {
    let mut xhfs = create_simple_memory_xhfs(88000000)?;
    xhfs.mkdir("/d", false)?;
    xhfs.fwrite("/d/f", b"secret".to_vec(), plain())?;
    let again = XHFS::from_formatted(xhfs.ctrl, Some("helloworld"), &KeyDerivation::Sha256)?;
    assert_eq!(again.fread("/d/f")?, b"secret");
    let inode = again.resolve_path("/d/f")?;
    let at = inode.extent_addr.get() as usize;
    assert_ne!(again.ctrl.raw_read(at + 16, 6).unwrap(), b"secret");
    assert_eq!(again.ctrl.read(at + 16, 6).unwrap(), b"secret");
    let wrong = XHFS::from_formatted(again.ctrl, Some("another"), &KeyDerivation::Sha256)?;
    assert!(wrong.get_root_inode().is_err() || wrong.fread("/d/f").is_err());
    Ok(())
}

#[test]
fn argon2_derives_another_key() -> Result<(), XHFSError> {
    let kd = KeyDerivation::Argon2 { memory_cost: 64, time_cost: 1, parallelism: 1 };
    let mut xhfs =
        XHFS::format_new_at(memory_controller(88000000), Some("pw"), &kd, [1; 12], 1)?;
    xhfs.fwrite_at("/f", b"data".to_vec(), plain(), 2)?;
    let again = XHFS::from_formatted(xhfs.ctrl, Some("pw"), &kd)?;
    assert_eq!(again.fread("/f")?, b"data");
    let other = XHFS::from_formatted(again.ctrl, Some("pw"), &KeyDerivation::Sha256)?;
    assert!(other.get_root_inode().is_err() || other.fread("/f").is_err());
    Ok(())
}

#[test]
fn files_spread_over_groups() -> Result<(), XHFSError> {
    let mut xhfs = create_simple_memory_xhfs(2 * 84221016)?;
    let room = xhfs.total_remaining_capacity()?;
    let one_group = 20480 * 4096;
    assert_eq!(room, 2 * one_group);
    let big: Vec<u8> = (0..one_group + 5000).map(|i| (i % 251) as u8).collect();
    xhfs.fwrite("/big", big.clone(), plain())?;
    assert!(xhfs.fread("/big")? == big);
    assert_eq!(xhfs.fseek("/big", one_group as u64 - 2, one_group as u64 + 2)?, big[one_group - 2..one_group + 2]);
    xhfs.unlink("/big")?;
    assert_eq!(xhfs.total_remaining_capacity()?, room);
    Ok(())
}

#[test]
fn moves_keep_the_tree() -> Result<(), XHFSError> {
    let mut xhfs = create_simple_memory_xhfs(88000000)?;
    xhfs.mkdir("/a/b", true)?;
    xhfs.fwrite("/a/b/f", b"1".to_vec(), plain())?;
    xhfs.fwrite("/a/g", b"2".to_vec(), plain())?;
    xhfs.fmove("/a/b", "/c")?;
    assert_eq!(xhfs.fread("/c/f")?, b"1");
    assert_eq!(xhfs.ls("/a")?, ["g".to_string()]);
    xhfs.fmove("/a/g", "/a/h")?;
    assert_eq!(xhfs.fread("/a/h")?, b"2");
    assert_eq!(xhfs.path_exists("/a/g"), Ok(false));
    Ok(())
}

#[test]
fn report_of_a_fresh_volume() -> Result<(), XHFSError> {
    let xhfs = create_simple_memory_xhfs(84221016)?;
    let text = xhfs.format_headers_report()?;
    let lines: Vec<&str> = text.lines().collect();
    assert_eq!(lines[0], "XHFS version: 1");
    assert_eq!(lines[1], "Capacity:    84221016 B");
    assert_eq!(lines[2], "Remaining:   83886080 B");
    assert_eq!(lines[3], "Format Configuration:");
    assert_eq!(lines[4], "  Block Size:       4096 B");
    assert_eq!(lines[5], "  Blocks per Group: 20480");
    assert_eq!(lines[6], "  Total Groups:     1");
    assert_eq!(lines[7], "Geometry Layout (relative):");
    assert_eq!(lines[8], "  Group Stride:        84221025 B");
    assert_eq!(lines[9], "  Inodes per Group:    4096");
    assert_eq!(lines[10], "  Usable Blocks/Group: 20480");
    assert_eq!(lines[11], "  Header Region:       0x00000000 -- 0x00000050 (        81 B)");
    assert_eq!(xhfs.ensure_headers(), Ok(()));
    Ok(())
}

#[test]
fn failed_writes_leave_files_alone() -> Result<(), XHFSError> {
    let mut xhfs = create_simple_memory_xhfs(88000000)?;
    xhfs.mkdir("/d", false)?;
    xhfs.fwrite("/d/kept", b"kept".to_vec(), plain())?;
    xhfs.fwrite("/old", vec![7; 9000], plain())?;
    let room = xhfs.total_remaining_capacity()?;
    assert!(matches!(
        xhfs.fwrite("/d/big", vec![1; room - 1], plain()),
        Err(XHFSError::Insufficient { .. })
    ));
    assert!(matches!(
        xhfs.fwrite("/old", vec![1; room - 1], over()),
        Err(XHFSError::Insufficient { .. })
    ));
    assert_eq!(xhfs.total_remaining_capacity()?, room);
    assert_eq!(xhfs.fread("/d/kept")?, b"kept");
    assert_eq!(xhfs.fread("/old")?, vec![7; 9000]);
    assert_eq!(xhfs.path_exists("/d/big"), Ok(false));
    Ok(())
}

#[test]
fn parts_of_files_are_read_through_links() -> Result<(), XHFSError> {
    let mut xhfs = create_simple_memory_xhfs(88000000)?;
    xhfs.fwrite("/f", b"0123456789".to_vec(), plain())?;
    xhfs.create_symlink("/s", "/f", plain())?;
    xhfs.create_hardlink("/h", "/f", plain())?;
    for path in ["/f", "/s", "/h"] {
        assert_eq!(xhfs.fseek(path, 3, 6)?, b"345");
        assert_eq!(xhfs.fseek(path, 8, 100)?, b"89");
        assert_eq!(xhfs.fseek(path, 6, 6)?, b"");
    }
    xhfs.unlink("/s")?;
    assert_eq!(xhfs.fread("/f")?, b"0123456789");
    Ok(())
}

#[test]
fn full_volumes_keep_what_they_hold() -> Result<(), XHFSError> {
    let mut xhfs = create_simple_memory_xhfs(84221016)?;
    let blocks = 20480;
    assert_eq!(xhfs.total_remaining_capacity()?, blocks * 4096);
    xhfs.fwrite("/a", b"kept".to_vec(), plain())?;
    xhfs.fwrite("/big", vec![9; (blocks - 3) * 4096 - 16], plain())?;
    assert_eq!(xhfs.total_remaining_capacity()?, 4096);
    assert!(xhfs.fwrite("/c", b"x".to_vec(), plain()).is_err());
    assert_eq!(xhfs.total_remaining_capacity()?, 0);
    assert!(xhfs.mkdir("/d", false).is_err());
    assert!(xhfs.fmove("/a", "/b").is_err());
    assert!(xhfs.fappend("/a", b"more".to_vec(), None).is_err());
    assert!(xhfs.fwrite("/a", b"other".to_vec(), over()).is_err());
    assert_eq!(xhfs.ls("/")?, ["a".to_string(), "big".to_string()]);
    assert_eq!(xhfs.fread("/a")?, b"kept");
    assert_eq!(xhfs.fseek("/big", 4080 * 4096, 4080 * 4096 + 3)?, [9, 9, 9]);
    xhfs.unlink("/big")?;
    assert_eq!(xhfs.total_remaining_capacity()?, (blocks - 3) * 4096);
    assert_eq!(xhfs.fread("/a")?, b"kept");
    Ok(())
}

#[test]
fn directories_are_made_once() -> Result<(), XHFSError> {
    let mut xhfs = create_simple_memory_xhfs(88000000)?;
    assert_eq!(xhfs.mkdir("/", true), Ok(false));
    assert_eq!(xhfs.mkdir("/", false), Ok(false));
    assert_eq!(xhfs.mkdir("/a/b", false), Err(fault(Fault::DirectoryMissing { depth: 1 })));
    assert_eq!(xhfs.path_exists("/a"), Ok(false));
    assert_eq!(xhfs.mkdir("/a/b", true), Ok(true));
    let room = xhfs.total_remaining_capacity()?;
    assert_eq!(xhfs.mkdir("/a/b", true), Ok(false));
    assert_eq!(xhfs.mkdir("/a", true), Ok(false));
    assert_eq!(xhfs.total_remaining_capacity()?, room);
    assert_eq!(xhfs.ls("/a")?, ["b".to_string()]);
    Ok(())
}

#[test]
fn missing_directories_are_made_together() -> Result<(), XHFSError> {
    let mut xhfs = create_simple_memory_xhfs(88000000)?;
    xhfs.mkdir("/a", false)?;
    let room = xhfs.total_remaining_capacity()?;
    assert_eq!(xhfs.mkdir("/a/b/c/d", true), Ok(true));
    // the entries of a, b and c take a block each
    assert_eq!(xhfs.total_remaining_capacity()?, room - 3 * 4096);
    assert_eq!(xhfs.ls("/a/b/c")?, ["d".to_string()]);
    assert_eq!(xhfs.ls("/a/b/c/d")?.len(), 0);
    Ok(())
}
