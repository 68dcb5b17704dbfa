use std::collections::HashMap;
use xhfs::addr::MaybeU64;
use xhfs::bfs::ds::BruteFsError;
use xhfs::bfs::image::WriteOption;
use xhfs::bfs::records::INodeKind;
use xhfs::bfs::BruteFS;
use xhfs::crypto::KeyDerivation;
use xhfs::device::disk::Controller;
use xhfs::device::kv_device::{KVDevice, MemoryKV};
use xhfs::device::logical::LogicalDevice;
use xhfs::error::{Fault, Record};
use xhfs::xhfs::layout::AddressSlot;

type Volume = BruteFS<KVDevice<MemoryKV>>;

fn controller(capacity: usize) -> Controller<KVDevice<MemoryKV>> {
    assert_eq!(capacity % 8, 0);
    let dev1 = KVDevice {
        store: MemoryKV(HashMap::new()),
        total_slots: capacity / 8,
        slot_capacity: 8,
    };
    let dev1 = LogicalDevice::new(2, vec![dev1]).unwrap();
    Controller::from(vec![dev1]).unwrap()
}

fn create_simple_memory_brute_fs(capacity: usize) -> Result<Volume, Fault> {
    BruteFS::format_new(controller(capacity), Some("helloworld"), &KeyDerivation::Sha256)
}

fn plain() -> WriteOption {
    WriteOption { overwrite: false }
}

#[test]
fn test_base_allocate_brutefs() -> Result<(), Fault> {
    let mut bfs = create_simple_memory_brute_fs(128 * 1000 * 1000)?;

    assert_eq!(
        bfs.total_capacity()?,
        128 * 1000 * 1000,
        "size should be coherent"
    );

    {
        let offset = 16069; // header + root INode
        let addr = bfs.allocate(100)?;
        assert_eq!(addr, offset, "allocate init");
        let addr = bfs.allocate(4)?;
        assert_eq!(addr, offset + 100, "allocate test 1");

        let addr = bfs.allocate(42)?;
        assert_eq!(addr, offset + 100 + 4, "allocate test 2");
        bfs.mark_as_reusable(AddressSlot {
            addr: MaybeU64::from(addr),
            capacity: 42,
        })?;
        assert_eq!(
            bfs.get_header()?.extent_freed.items[0],
            AddressSlot {
                addr: MaybeU64::from(addr),
                capacity: 42,
            }
        );
        let addr1 = bfs.allocate(42)?;
        assert_eq!(
            bfs.get_header()?.extent_freed.items[0],
            AddressSlot::default()
        );
        let addr2 = bfs.allocate(42)?;

        assert_eq!(addr1, offset + 100 + 4, "re-use allocated in test 2");
        assert_eq!(
            addr2,
            offset + 100 + 4 + 42,
            "allocate from global offset test 2"
        );
    }

    Ok(())
}

#[test]
fn test_brutefs_core_ops() -> Result<(), Fault> {
    let mut bfs = create_simple_memory_brute_fs(128 * 1000 * 1000)?;

    assert!(bfs.mkdir("/", false)? == false, "root is not new");

    bfs.mkdir("/hello", true)?;
    assert!(
        bfs.mkdir("/hello/not/recursive", false).is_err(),
        "not recursive fail if many components"
    );
    bfs.mkdir("/hello/foo", true)?;
    bfs.mkdir("/hello/bar", true)?;
    bfs.mkdir("/hello/bar", true)?;
    bfs.mkdir("/hello/baz/aaa", true)?;
    bfs.mkdir("/hello/baz/bbb", true)?;
    bfs.fwrite("/hello/baz/123.bin", vec![1, 2, 3], plain())?;
    bfs.mkdir("/world", true)?;

    {
        assert_eq!(bfs.ls("/")?, ["hello".to_string(), "world".to_string()]);
        assert_eq!(
            bfs.ls("/hello")?,
            ["foo".to_string(), "bar".to_string(), "baz".to_string()]
        );
        assert_eq!(bfs.ls("/world")?, [] as [String; 0]);
        assert_eq!(
            bfs.ls("/hello/baz/")?,
            ["aaa".to_string(), "bbb".to_string(), "123.bin".to_string()]
        );
    }

    {
        assert_eq!(bfs.reusable_regions()?.len(), 5);
        assert!(
            bfs.unlink("/hello/baz").is_err(),
            "cannot unlink nested path"
        );
        assert!(
            bfs.unlink("/hello/baz/123.bin").is_ok(),
            "unlink leaf file"
        );
        assert!(
            bfs.unlink("/hello/baz/aaa").is_ok(),
            "unlink leaf folder"
        );
        assert_eq!(bfs.ls("/hello/baz/")?, ["bbb".to_string()]);
    }

    {
        assert_eq!(bfs.reusable_regions()?.len(), 10);
        assert_eq!(bfs.get_header()?.extent_freed.global_offset, 20584);

        let _ = bfs.allocate(535)?; // slot is 536 => 535 taken + 1 left
        assert_eq!(bfs.get_header()?.extent_freed.global_offset, 20584);
        assert_eq!(
            bfs.reusable_regions()?.len(),
            10,
            "hit a known fragmented region but did a split instead, leaving count unchanged"
        );

        let _ = bfs.allocate(10000)?;
        assert_eq!(
            bfs.get_header()?.extent_freed.global_offset,
            30584,
            "largest known fragmented region is too small, fallback to bump allocator instead"
        );
    }

    assert!(
        bfs.fread("/hello/notexist.exe").is_err(),
        "file does not exist works"
    );

    let data1 = "This is the content";
    let data2 = "Another content";
    {
        bfs.fwrite(
            "/hello/baz/bbb/content1.txt",
            data1.as_bytes().to_vec(),
            plain(),
        )?;
        bfs.fwrite(
            "/hello/baz/bbb/content2.txt",
            data2.as_bytes().to_vec(),
            plain(),
        )?;
        assert_eq!(
            data1,
            String::from_utf8(bfs.fread("/hello/baz/bbb/content1.txt")?).unwrap(),
            "reading written content 1"
        );
        assert_eq!(
            data2,
            String::from_utf8(bfs.fread("/hello/baz/bbb/content2.txt")?).unwrap(),
            "reading written content 2"
        );
    }

    {
        let data1 = "Another content";
        bfs.fwrite(
            "/hello/baz/bbb/content1.txt",
            data1.as_bytes().to_vec(),
            WriteOption { overwrite: true },
        )?;

        // also prove dir entry remap works fine
        assert_eq!(
            data1,
            String::from_utf8(bfs.fread("/hello/baz/bbb/content1.txt")?).unwrap(),
            "reading written content 1 HAS changed"
        );
        assert_eq!(
            data2,
            String::from_utf8(bfs.fread("/hello/baz/bbb/content2.txt")?).unwrap(),
            "reading written content 2 remains unchanged"
        );
    }

    Ok(())
}

#[test]
fn test_brutefs_ref_manips_and_stats() -> Result<(), Fault> {
    let mut bfs = create_simple_memory_brute_fs(128 * 1000 * 1000)?;

    bfs.mkdir("/many/entries/a", true)?;
    bfs.mkdir("/many/entries/b", true)?;
    bfs.mkdir("/many/entries/c", true)?;
    bfs.fwrite("/many/entries/d.txt", "HELLO".as_bytes().to_vec(), plain())?;

    {
        // extent 1 = HELLO
        // extent 2 = ABC
        bfs.fappend("/many/entries/d.txt", "ABC".as_bytes().to_vec())?;
        assert_eq!(
            bfs.fread("/many/entries/d.txt")?,
            "HELLOABC".as_bytes(),
            "fappend works"
        );
        assert_eq!(
            bfs.fseek("/many/entries/d.txt", 4, 7)?,
            "OAB".as_bytes(),
            "extent boundaries are contiguous from user POV"
        );
    }

    // non-trivial ref manips
    {
        bfs.fcopy("/many/entries/d.txt", "/many/entries/other.txt", plain())?;
        bfs.fmove("/many/entries", "/many/entries2")?;
        bfs.create_link("/file.link", "/many/entries2/d.txt", plain())?;
        bfs.create_link("/folder.link", "/many/entries2", plain())?;
    }

    assert_eq!(bfs.ls("/many/entries2")?, bfs.ls("/folder.link")?);
    assert_eq!(
        bfs.fread("/many/entries2/d.txt")?,
        bfs.fread("/file.link")?
    );
    assert_eq!(
        bfs.fread("/many/entries2/d.txt")?,
        bfs.fread("/many/entries2/other.txt")?,
    );

    let dtxt_stats = bfs.stats("/many/entries2/d.txt")?.unwrap();
    let filelink_stats = bfs.stats("/file.link")?.unwrap();
    let folder_stats = bfs.stats("/many/entries2")?.unwrap();

    assert_eq!(
        folder_stats.size, None,
        "size not immediately calculated for folders"
    );
    assert_eq!(dtxt_stats.kind, INodeKind::File, "stats should work");
    assert_eq!(dtxt_stats.size, Some(5), "should give correct data size");
    assert_eq!(
        filelink_stats.kind,
        INodeKind::Symlink,
        "stats should not resolve symlink"
    );

    Ok(())
}

#[test]
fn brute_faults() -> Result<(), Fault> {
    let mut bfs = create_simple_memory_brute_fs(40000)?;
    bfs.mkdir("/d/e", true)?;
    bfs.fwrite("/f", b"x".to_vec(), plain())?;
    assert_eq!(bfs.fwrite("/f", vec![], plain()), Err(Fault::FileExists));
    assert_eq!(
        bfs.fwrite("/d", vec![], WriteOption { overwrite: true }),
        Err(Fault::NotAFile)
    );
    assert_eq!(bfs.fread("/d"), Err(Fault::CannotReadDirectory));
    assert_eq!(bfs.ls("/f"), Err(Fault::CannotListFile));
    assert_eq!(bfs.fread("/f/g"), Err(Fault::FileInPath { depth: 2 }));
    assert_eq!(bfs.unlink("/d"), Err(Fault::DirectoryNotEmpty));
    assert_eq!(bfs.unlink("/z"), Err(Fault::NoSuchEntry));
    assert_eq!(bfs.fmove("/f", "/d"), Err(Fault::DestinationExists));
    assert_eq!(bfs.fmove("/z", "/y"), Err(Fault::NoSource));
    assert_eq!(bfs.fappend("/d", vec![1]), Err(Fault::CannotAppendDirectory));
    bfs.create_link("/s", "/s", plain())?;
    assert_eq!(bfs.fread("/s"), Err(Fault::SymlinkToItself));
    assert_eq!(bfs.path_exists("/f"), Ok(true));
    assert_eq!(bfs.path_exists("/nope"), Ok(false));
    assert!(matches!(
        bfs.fwrite("/big", vec![0; 40000], plain()),
        Err(Fault::NoRoom { wanted: 40016, .. })
    ));
    Ok(())
}

#[test]
fn brute_volumes_are_opened_again() -> Result<(), Fault> {
    let mut bfs = BruteFS::format_new_at(
        controller(80000),
        Some("pw"),
        &KeyDerivation::Sha256,
        [3; 12],
        86400,
    )?;
    bfs.fwrite_at("/a", b"abc".to_vec(), plain(), 86401)?;
    let report = bfs.format_headers_report()?.unwrap();
    let lines: Vec<&str> = report.lines().collect();
    assert_eq!(lines[0], "brutefs version: 1");
    assert_eq!(lines[1], "- Current global offset: 16409 (0x00004019)");
    assert_eq!(lines[2], "- Total known fragments: 0");
    assert_eq!(lines[3], "Top 3 smallest:");
    assert_eq!(lines[4], "Top 3 biggest:");
    assert_eq!(lines[5], "Capacity:      80000 B");
    assert_eq!(lines[6], "Root inode offset 16036 (0x00003ea4)");
    assert_eq!(lines[7], "- Kind: Directory");
    assert_eq!(lines[8], "- Creation time: 1970-01-02 00:00:00 UTC");
    assert_eq!(lines[9], "- Modification time: 1970-01-02 00:00:01 UTC");
    assert_eq!(bfs.ensure_headers(), Ok(()));
    let (_, node) = bfs.resolve_path("/a")?;
    let at = node.extent_addr.get();
    assert_eq!(bfs.read_extent(at)?.data, b"abc");
    let regions = bfs.find_full_extent_metadata(node.extent_addr, None)?;
    assert_eq!(regions.len(), 1);
    assert_eq!(regions[0].size_span(), 19);
    let again = BruteFS::from_formatted(bfs.ctrl, Some("pw"), &KeyDerivation::Sha256)?;
    assert_eq!(again.fread("/a")?, b"abc");
    assert_ne!(again.ctrl.raw_read(at as usize + 16, 3)?, b"abc");
    assert_eq!(
        BruteFS::from_formatted(controller(80000), None, &KeyDerivation::Sha256).err(),
        Some(Fault::BadMagic { of: Record::BruteFsHeader })
    );
    Ok(())
}

#[test]
fn brute_moves_between_directories() -> Result<(), Fault> {
    let mut bfs = create_simple_memory_brute_fs(80000)?;
    bfs.mkdir("/a", true)?;
    bfs.mkdir("/b", true)?;
    bfs.fwrite("/a/f", b"1".to_vec(), plain())?;
    bfs.fmove("/a/f", "/b/g")?;
    assert_eq!(bfs.ls("/a")?, [] as [String; 0]);
    assert_eq!(bfs.fread("/b/g")?, b"1");
    bfs.unlink("/a")?;
    assert_eq!(bfs.ls("/")?, ["b".to_string()]);
    Ok(())
}

#[test]
fn brute_errors_in_words() {
    assert_eq!(
        Fault::FileInPath { depth: 2 }.describe_brute_at("/f/g"),
        "Encountered file while traversing path '/f/g'"
    );
    assert_eq!(
        Fault::PathMissing { depth: 1 }.describe_brute_at("/f/g"),
        "Path '/f' does not exist"
    );
    let e = BruteFsError::Insufficient { wanted: 1, max_slot_size: 2, left_contiguous: 3 };
    assert_eq!(
        e.describe(),
        "Insufficient space, operation requires 1 B, max fragment available 2 B, max contiguous bloc 3"
    );
    assert_eq!(
        BruteFsError::from_error(Fault::DirectoryNotEmpty).describe(),
        "Directory is not empty"
    );
    assert_eq!(
        BruteFsError::from_report(Fault::BadMagic { of: Record::BruteFsHeader }),
        BruteFsError::Error { err: Fault::BadMagic { of: Record::BruteFsHeader } }
    );
}

#[test]
fn brute_writes_leave_other_files_alone() -> Result<(), Fault> {
    let mut bfs = create_simple_memory_brute_fs(80000)?;
    assert_eq!(bfs.ls("/")?, [] as [String; 0]);
    bfs.fwrite("/a", vec![1; 500], plain())?;
    bfs.fwrite("/b", vec![2; 300], plain())?;
    for i in 0..20u8 {
        let size = 100 + 17 * i as usize;
        bfs.fwrite("/a", vec![i; size], WriteOption { overwrite: true })?;
        assert_eq!(bfs.fread("/a")?, vec![i; size]);
        assert_eq!(bfs.fread("/b")?, vec![2; 300]);
    }
    bfs.fcopy("/b", "/c", plain())?;
    assert_eq!(bfs.fread("/c")?, bfs.fread("/b")?);
    Ok(())
}

#[test]
fn brute_removals_leave_other_files_alone() -> Result<(), Fault> {
    let mut bfs = create_simple_memory_brute_fs(80000)?;
    bfs.mkdir("/a/b", true)?;
    bfs.fwrite("/a/b/f", vec![1; 700], plain())?;
    bfs.fwrite("/a/g", vec![2; 300], plain())?;
    bfs.unlink("/a/b/f")?;
    assert_eq!(bfs.path_exists("/a/b/f"), Ok(false));
    assert_eq!(bfs.fread("/a/g")?, vec![2; 300]);
    bfs.fwrite("/a/h", vec![3; 500], plain())?;
    bfs.unlink("/a/b")?;
    assert_eq!(bfs.ls("/a")?, ["g".to_string(), "h".to_string()]);
    assert_eq!(bfs.fread("/a/g")?, vec![2; 300]);
    assert_eq!(bfs.fread("/a/h")?, vec![3; 500]);
    Ok(())
}

#[test]
fn brute_appends_follow_links() -> Result<(), Fault> {
    let mut bfs = create_simple_memory_brute_fs(80000)?;
    bfs.fwrite("/f", b"abc".to_vec(), plain())?;
    bfs.fwrite("/g", b"xyz".to_vec(), plain())?;
    bfs.create_link("/s", "/f", plain())?;
    bfs.fappend("/s", b"de".to_vec())?;
    bfs.fappend("/f", b"f".to_vec())?;
    assert_eq!(bfs.fread("/f")?, b"abcdef");
    assert_eq!(bfs.fread("/s")?, b"abcdef");
    assert_eq!(bfs.fseek("/s", 2, 5)?, b"cde");
    assert_eq!(bfs.fread("/g")?, b"xyz");
    Ok(())
}

#[test]
fn brute_directories_move_with_their_files() -> Result<(), Fault> {
    let mut bfs = create_simple_memory_brute_fs(80000)?;
    assert_eq!(bfs.mkdir("/a/b/c", true), Ok(true));
    assert_eq!(bfs.mkdir("/a/b", true), Ok(false));
    bfs.fwrite("/a/b/c/f", b"deep".to_vec(), plain())?;
    bfs.fmove("/a/b", "/z")?;
    assert_eq!(bfs.fread("/z/c/f")?, b"deep");
    assert_eq!(bfs.path_exists("/a/b"), Ok(false));
    bfs.fmove("/z", "/y")?;
    assert_eq!(bfs.ls("/")?, ["a".to_string(), "y".to_string()]);
    assert_eq!(bfs.fread("/y/c/f")?, b"deep");
    Ok(())
}

#[test]
fn brute_failed_writes_leave_files_alone() -> Result<(), Fault> {
    let mut bfs = create_simple_memory_brute_fs(24000)?;
    bfs.mkdir("/d", true)?;
    bfs.fwrite("/d/f", vec![4; 3000], plain())?;
    let over = WriteOption { overwrite: true };
    assert!(matches!(bfs.fwrite("/d/f", vec![5; 9000], over), Err(Fault::NoRoom { .. })));
    assert!(matches!(bfs.fwrite("/d/g", vec![5; 9000], plain()), Err(Fault::NoRoom { .. })));
    assert_eq!(bfs.fread("/d/f")?, vec![4; 3000]);
    assert_eq!(bfs.ls("/d")?, ["f".to_string()]);
    Ok(())
}
