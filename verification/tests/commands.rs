use std::collections::hash_map::DefaultHasher;
use std::hash::{Hash, Hasher};
use xhfs::config::{
    Bytes, Config, ConfigFault, Configuration, DeviceConfig, LogicalDeviceConfig,
};
use xhfs::crypto::KeyDerivation;
use xhfs::device::kv_device::{KVDevice, MemoryKV};
use xhfs::error::{Fault, XHFSError};
use xhfs::interface::cli::{
    derive_destination, format_list_line, join_path, may_format, may_replace, resolve_config_path,
    resolve_password, split_pieces, CommandFault, CopyCommand, FsCommands, FsSubcommands,
    LinkCommand, LsCommand, MoveCommand, PathCommand, UploadCommand,
};
use xhfs::interface::inspect::{
    used_bits, DumpBlock, ExtentInspect, InodeInspect, InspectFault, InspectReply,
    InspectSubcommands, ViewBlock, ViewMap,
};
use xhfs::interface::main_command::{
    Commands, Content, DownloadCommand, Input, MainCommand, MainFault, Outcome, ReadCommand,
};
use xhfs::interface::memory::create_simple_memory_xhfs;
use xhfs::interface::number::{hex_view, parse_hex_or_decimal, InputFault};
use xhfs::plan::DevicePlan;
use xhfs::servers::webdav::{DavFault, SeekTo, XHFSAdapter};
use xhfs::text::{align_left, align_right, number_text};
use xhfs::utils::{u64_to_plain_datetime, u64_to_utc_datetime};
use xhfs::xhfs::ds::INodeKind;
use xhfs::xhfs::tree::WriteOption;
use xhfs::xhfs::XHFS;

type Volume = XHFS<KVDevice<MemoryKV>>;

const UNIT: usize = 84221952;

fn volume() -> Volume {
    create_simple_memory_xhfs(UNIT, 1, 1, [9; 12], 1000).unwrap()
}

fn run(v: &mut Volume, command: FsSubcommands) -> Result<Vec<String>, CommandFault> {
    FsCommands { command }.run(v, 2000)
}

fn example() -> Config {
    Config::example()
}

#[test]
fn test_config_example() {
    assert!(Config::example().validate().is_ok());
}

#[test]
fn configurations_are_checked() {
    let mut c = example();
    c.devices[1] = DeviceConfig::File { name: "blob1".to_string(), path: "x".to_string() };
    assert_eq!(c.validate(), Err(ConfigFault::DuplicateDevice { index: 1 }));

    let mut c = example();
    c.devices[1] = DeviceConfig::File {
        name: "blob2".to_string(),
        path: "a/../part1.bin".to_string(),
    };
    assert_eq!(c.validate(), Err(ConfigFault::PayloadUsed { index: 1 }));

    let mut c = example();
    c.configuration.logical[1].name = "dev1".to_string();
    assert_eq!(c.validate(), Err(ConfigFault::DuplicateLogical { index: 1 }));

    let mut c = example();
    c.configuration.logical[0].members[1] = "blob9".to_string();
    assert_eq!(c.validate(), Err(ConfigFault::UnknownDevice { logical: 0, member: 1 }));

    let mut c = example();
    c.configuration.layout[1] = "dev9".to_string();
    assert_eq!(c.validate(), Err(ConfigFault::UnknownLogical { index: 1 }));

    let mut c = example();
    c.configuration.layout[1] = "dev1".to_string();
    assert_eq!(c.validate(), Err(ConfigFault::LogicalTwice { index: 1 }));

    let mut c = example();
    c.configuration.layout.clear();
    assert_eq!(c.validate(), Err(ConfigFault::NoLayout));
    c.configuration.logical.clear();
    assert_eq!(c.validate(), Err(ConfigFault::NoLogical));
    c.devices.clear();
    assert_eq!(c.validate(), Err(ConfigFault::NoDevices));
}

#[test]
fn configurations_become_plans() {
    let mut c = example();
    c.devices[2] = DeviceConfig::KVHttp {
        name: "blob3".to_string(),
        slot_capacity_bytes: 1000,
        url: "http://x/".to_string(),
        headers: Some(vec![("k".to_string(), "v".to_string())]),
    };
    c.configuration.layout = vec!["dev2".to_string(), "dev1".to_string()];
    let plan = c.materialize(true).unwrap();
    assert_eq!(plan.layout, vec![1, 0]);
    assert_eq!(plan.logical[0].max_concurrent, 2);
    assert_eq!(
        plan.logical[0].devices[1],
        DevicePlan::File {
            path: "./part1-replica.bin".to_string(),
            size: 50 * 1024 * 1024,
            overwrite: true
        }
    );
    assert_eq!(
        plan.logical[1].devices[0],
        DevicePlan::Http {
            url: "http://x/".to_string(),
            key_prefix: "blob3".to_string(),
            headers: vec![("k".to_string(), "v".to_string())],
            total_slots: 52428,
            slot_capacity: 1000,
        }
    );
    c.devices[2] = DeviceConfig::KVHttp {
        name: "blob3".to_string(),
        slot_capacity_bytes: 0,
        url: "http://x/".to_string(),
        headers: None,
    };
    assert_eq!(
        c.materialize(false),
        Err(ConfigFault::EmptySlots { logical: 1, member: 0 })
    );
    let empty = Config {
        password: None,
        key_derivation: KeyDerivation::Sha256,
        devices: vec![],
        configuration: Configuration {
            logical: vec![LogicalDeviceConfig {
                name: "l".to_string(),
                members: vec!["none".to_string()],
                capacity: Bytes(1),
                max_concurrent: 1,
            }],
            layout: vec![],
        },
    };
    assert_eq!(
        empty.materialize(false),
        Err(ConfigFault::UnknownDevice { logical: 0, member: 0 })
    );
}

#[test]
fn sizes_are_parsed() {
    assert_eq!(Bytes::parse("50 MiB"), Ok(Bytes(52428800)));
    assert_eq!(Bytes::parse("2 kB"), Ok(Bytes(2000)));
    assert_eq!(Bytes::parse("77"), Ok(Bytes(77)));
    assert_eq!(Bytes::parse("many"), Err(ConfigFault::NotASize));
}

#[test]
fn numbers_are_parsed() {
    assert_eq!(parse_hex_or_decimal(" 0x00062a39 "), Ok(0x62a39));
    assert_eq!(parse_hex_or_decimal("0XfF"), Ok(255));
    assert_eq!(parse_hex_or_decimal("123"), Ok(123));
    assert_eq!(parse_hex_or_decimal("+7"), Ok(7));
    assert_eq!(parse_hex_or_decimal("18446744073709551615"), Ok(u64::MAX));
    assert_eq!(parse_hex_or_decimal("18446744073709551616"), Err(InputFault::InvalidNumber));
    assert_eq!(parse_hex_or_decimal("0x10000000000000000"), Err(InputFault::InvalidHex));
    assert_eq!(parse_hex_or_decimal("0x"), Err(InputFault::InvalidHex));
    assert_eq!(parse_hex_or_decimal("0xg"), Err(InputFault::InvalidHex));
    assert_eq!(parse_hex_or_decimal(""), Err(InputFault::InvalidNumber));
    assert_eq!(parse_hex_or_decimal("-1"), Err(InputFault::InvalidNumber));
    assert_eq!(parse_hex_or_decimal("1a"), Err(InputFault::InvalidNumber));
    for s in [" 12\u{3000}", "\u{a0}5", "+", "+0", "00", "0x+1f", "9999999999999999999999"] {
        let t = s.trim();
        let std_says = match t.strip_prefix("0x") {
            Some(h) => u64::from_str_radix(h, 16).ok(),
            None => t.parse::<u64>().ok(),
        };
        assert_eq!(parse_hex_or_decimal(s).ok(), std_says, "{s:?}");
    }
}

#[test]
fn answers_are_understood() {
    assert!(may_format(false, " Yes\n"));
    assert!(may_format(false, "y"));
    assert!(!may_format(false, "yeah"));
    assert!(!may_format(false, ""));
    assert!(may_format(true, "no"));
}

#[test]
fn documented_hex_view() {
    let data = [
        0, 0, 0, 0, 0, 0, 0, 0, 0x39, 0x42, 0x16, 0, 0, 0, 0, 0, 1, 0, 0, 0, 0, 0, 0,
    ];
    assert_eq!(
        hex_view(&data, 16).unwrap(),
        "00000000: 00 00 00 00 00 00 00 00 39 42 16 00 00 00 00 00 | ........9B......\n\
         00000010: 01 00 00 00 00 00 00                            | .......\n"
    );
    assert_eq!(hex_view(&data, 0), Err(InputFault::NoColumns));
    assert_eq!(hex_view(&[], 4).unwrap(), "");
}

#[test]
fn text_helpers() {
    assert_eq!(number_text(0, 10), "0");
    assert_eq!(number_text(18446744073709551615, 10), "18446744073709551615");
    assert_eq!(number_text(0xdeadbeef, 16), "deadbeef");
    assert_eq!(align_right("ab", 4, '.'), "..ab");
    assert_eq!(align_left("ab", 4, '.'), "ab..");
    assert_eq!(align_left("abcde", 4, '.'), "abcde");
    assert_eq!(u64_to_utc_datetime(0).unwrap(), "1970-01-01 00:00:00 UTC");
    assert_eq!(
        u64_to_utc_datetime(1779053189).unwrap(),
        "2026-05-17 21:26:29 UTC"
    );
    assert_eq!(u64_to_plain_datetime(1779053189).unwrap(), "2026-05-17 21:26:29");
    assert_eq!(u64_to_utc_datetime(1 << 62), None);
    assert_eq!(
        XHFSError::from_error(Fault::NoDevice { addr: 7 }).describe(),
        "No device range covers address 0x7"
    );
}

#[test]
fn destinations_and_settings() {
    assert_eq!(derive_destination("a/b.txt", &None), Ok("b.txt".to_string()));
    assert_eq!(derive_destination("a/b.txt", &Some("/x".to_string())), Ok("/x".to_string()));
    assert_eq!(derive_destination("a/..", &None), Err(CommandFault::NoDestination));
    assert_eq!(derive_destination("/", &None), Err(CommandFault::NoDestination));
    assert_eq!(may_replace(true, false), Err(CommandFault::FileExists));
    assert_eq!(may_replace(true, true), Ok(()));
    assert_eq!(may_replace(false, false), Ok(()));
    assert_eq!(resolve_config_path(None, None), "xhfs.yaml");
    assert_eq!(resolve_config_path(None, Some("e".to_string())), "e");
    assert_eq!(resolve_config_path(Some("n".to_string()), Some("e".to_string())), "n");
    let (p, c, e) = (Some("p".to_string()), Some("c".to_string()), Some("e".to_string()));
    assert_eq!(resolve_password(p.clone(), c.clone(), e.clone()), p);
    assert_eq!(resolve_password(None, c.clone(), e.clone()), c);
    assert_eq!(resolve_password(None, None, e.clone()), e);
    assert_eq!(resolve_password(Some("".to_string()), c.clone(), e.clone()), c);
    assert_eq!(resolve_password(Some("".to_string()), None, e), None);
    assert_eq!(resolve_password(None, None, None), None);
    assert_eq!(join_path("/a", "b"), "/a/b");
    assert_eq!(join_path("/", "b"), "/b");
    assert_eq!(join_path("/a", "/b"), "/b");
    assert_eq!(split_pieces(b"abcde", 2), vec![b"ab".to_vec(), b"cd".to_vec(), b"e".to_vec()]);
    assert_eq!(
        format_list_line(&INodeKind::File, "2026-05-14 16:49:49", "28 B", "test.txt"),
        "FILE 2026-05-14 16:49:49        28 B test.txt"
    );
}

#[test]
fn memory_volumes() {
    assert!(matches!(
        create_simple_memory_xhfs(1000, 1, 1, [0; 12], 0).err(),
        Some(XHFSError::Error { err: Fault::UnevenCapacity { unit: 1024 } })
    ));
    assert!(matches!(
        create_simple_memory_xhfs(1024, 0, 1, [0; 12], 0).err(),
        Some(XHFSError::Error { err: Fault::NoDevices })
    ));
    assert!(matches!(
        create_simple_memory_xhfs(1024, 1, 0, [0; 12], 0).err(),
        Some(XHFSError::Error { err: Fault::NothingToFormat })
    ));
    let v = create_simple_memory_xhfs(UNIT / 2 / 1024 * 1024 + 1024, 2, 2, [0; 12], 0).unwrap();
    assert_eq!(v.total_capacity().unwrap(), UNIT + 2048);
}

#[test]
fn commands_on_a_volume() {
    let mut v = volume();
    let up = UploadCommand {
        src_path: "local/hello.txt".to_string(),
        dest_path: None,
        overwrite: false,
        block_size: 4,
        single_block: false,
    };
    assert_eq!(up.run(&mut v, b"Hello World\n".to_vec(), Some(1778777389), 5), Ok(()));
    assert_eq!(v.fread("/hello.txt").unwrap(), b"Hello World\n");
    let once = UploadCommand { single_block: true, ..up.clone() };
    assert!(matches!(
        once.run(&mut v, vec![], None, 5),
        Err(CommandFault::Volume { err: XHFSError::Error { err: Fault::FileExists } })
    ));
    let mk = PathCommand { path: "/d/e".to_string(), recursive: true };
    assert_eq!(run(&mut v, FsSubcommands::Mkdir(mk)), Ok(vec![]));
    let cp = CopyCommand {
        src: "/hello.txt".to_string(),
        dest: "/d/copy".to_string(),
        overwrite: false,
    };
    assert_eq!(run(&mut v, FsSubcommands::Cp(cp)), Ok(vec![]));
    let mv = MoveCommand { src: "/d/copy".to_string(), dest: "/d/e/moved".to_string() };
    assert_eq!(run(&mut v, FsSubcommands::Mv(mv)), Ok(vec![]));
    for symlink in [true, false] {
        let ln = LinkCommand {
            src_path: "/hello.txt".to_string(),
            dest_path: if symlink { "/soft" } else { "/hard" }.to_string(),
            symlink,
            overwrite: false,
        };
        assert_eq!(run(&mut v, FsSubcommands::Ln(ln)), Ok(vec![]));
    }
    assert_eq!(v.fread("/soft").unwrap(), b"Hello World\n");
    assert_eq!(v.fread("/hard").unwrap(), b"Hello World\n");

    let ls = LsCommand { path: "/".to_string(), tree: false, recursive: false, verbose: false };
    assert_eq!(
        run(&mut v, FsSubcommands::Ls(ls.clone())).unwrap(),
        ["hello.txt", "d", "soft", "hard"]
    );
    let long = LsCommand { verbose: true, ..ls.clone() };
    let lines = run(&mut v, FsSubcommands::Ls(long)).unwrap();
    assert_eq!(lines[0], "FILE 1970-01-01 00:00:05        12 B hello.txt");
    assert_eq!(lines[1], "DIR  1970-01-01 00:33:20           - d");
    assert_eq!(lines[2], "LINK 1970-01-01 00:33:20        10 B soft");
    let tree = LsCommand { tree: true, ..ls.clone() };
    assert_eq!(
        run(&mut v, FsSubcommands::Ls(tree)).unwrap(),
        [
            "├── hello.txt",
            "├── d",
            "│   └── e",
            "│       └── moved",
            "├── soft",
            "└── hard",
        ]
    );
    let tree = LsCommand { tree: true, verbose: true, path: "/d/e".to_string(), ..ls };
    assert_eq!(
        run(&mut v, FsSubcommands::Ls(tree)).unwrap(),
        ["└── moved [FILE     12 B]"]
    );
    let stats = PathCommand { path: "d/../hello.txt".to_string(), recursive: false };
    assert_eq!(
        run(&mut v, FsSubcommands::Stats(stats)).unwrap(),
        ["Path /hello.txt does not exist"],
    );
    let stats = PathCommand { path: "hello.txt".to_string(), recursive: false };
    assert_eq!(
        run(&mut v, FsSubcommands::Stats(stats)).unwrap(),
        [
            "Path: /hello.txt",
            "Type: FILE",
            "Size: 12 B",
            " Created Time: 1970-01-01 00:00:05",
            " Modified Time: 2026-05-14 16:49:49",
        ]
    );
    let rm = PathCommand { path: "/d/e/moved".to_string(), recursive: true };
    assert_eq!(run(&mut v, FsSubcommands::Rm(rm.clone())), Err(CommandFault::Unsupported));
    let rm = PathCommand { recursive: false, ..rm };
    assert_eq!(run(&mut v, FsSubcommands::Rm(rm)), Ok(vec![]));
    assert_eq!(v.path_exists("/d/e/moved"), Ok(false));
}

#[test]
fn inspecting_a_volume() {
    let mut v = volume();
    v.fwrite_at(
        "/f",
        b"0123456789".to_vec(),
        WriteOption { overwrite: false, modified: None },
        7,
    )
    .unwrap();
    let c = InspectSubcommands::Inode(InodeInspect { path: "/f".to_string() });
    let inode = match c.run(&v) {
        Ok(InspectReply::Inode { group, inode }) => {
            assert_eq!(group, 0);
            inode
        }
        _ => panic!("no inode"),
    };
    let text = inode.describe().unwrap();
    assert!(text.starts_with("INode #2\n- Number of Links: 1\n- Kind: File\n- Size: 10 B\n"));
    let at = inode.extent_addr.get();
    let c = InspectSubcommands::Extent(ExtentInspect { address: at, max_follow: 3 });
    match c.run(&v) {
        Ok(InspectReply::Extents(e)) => {
            assert_eq!(e.len(), 1);
            assert_eq!(e[0].full_canon_region.size_span(), 26);
        }
        _ => panic!("no extents"),
    }
    let c = InspectSubcommands::Dump(DumpBlock {
        start_address: at + 16,
        end_address: at + 20,
        decrypt: true,
    });
    match c.run(&v) {
        Ok(InspectReply::Bytes(b)) => assert_eq!(b, b"0123"),
        _ => panic!("no bytes"),
    }
    let view = ViewBlock { start_address: at + 16, end_address: at + 19, decrypt: false, columns: 4 };
    match InspectSubcommands::View(view).run(&v) {
        Ok(InspectReply::Text(t)) => assert_eq!(t, "00000000: 30 31 32    | 012\n"),
        _ => panic!("no text"),
    }
    let none = ViewBlock { columns: 0, ..view };
    assert!(matches!(
        InspectSubcommands::View(none).run(&v),
        Err(InspectFault::Input { err: InputFault::NoColumns })
    ));
    let c = InspectSubcommands::Groups(ViewMap { start_group: 1, end_group: 6 });
    match c.run(&v) {
        Ok(InspectReply::Groups(g)) => {
            assert_eq!(g.len(), 1);
            assert_eq!(g[0].index, 0);
            assert_eq!(g[0].offset, 0);
            assert_eq!(used_bits(&g[0].inode_bitmap), 2);
            assert_eq!(used_bits(&g[0].data_bitmap), 2);
        }
        _ => panic!("no groups"),
    }
}

#[test]
fn webdav_requests() {
    let mut v = volume();
    let a = XHFSAdapter { read_only: false, chunk_size: 4 };
    assert_eq!(a.create_dir(&mut v, "/d/e", 1), Ok(()));
    assert!(matches!(a.open(&mut v, "/d", false, false, 1), Err(DavFault::Forbidden)));
    assert!(matches!(a.open(&mut v, "/no", false, false, 1), Err(DavFault::NotFound)));
    let mut f = a.open(&mut v, "/d/f", true, true, 1).unwrap();
    assert_eq!(f.write_bytes(&mut v, b"abc", 2), Ok(()));
    assert_eq!(v.fread("/d/f").unwrap(), b"", "less than a chunk is held back");
    assert_eq!(f.write_bytes(&mut v, b"de", 2), Ok(()));
    assert_eq!(v.fread("/d/f").unwrap(), b"abcde");
    assert_eq!(f.write_buf(&mut v, &vec![b"f".to_vec(), b"ghij".to_vec(), b"k".to_vec()], 3), Ok(()));
    assert_eq!(v.fread("/d/f").unwrap(), b"abcdefghij");
    assert_eq!(f.flush(&mut v, 3), Ok(()));
    assert_eq!(v.fread("/d/f").unwrap(), b"abcdefghijk");
    assert_eq!(f.seek(SeekTo::Start(2)), Ok(2));
    assert_eq!(f.read_bytes(&mut v, 3, 4), Ok(b"cde".to_vec()));
    assert_eq!(f.offset, 5);
    assert_eq!(f.seek(SeekTo::Current(-6)), Err(DavFault::GeneralFailure));
    assert_eq!(f.seek(SeekTo::Current(-5)), Ok(0));
    assert_eq!(f.seek(SeekTo::End(3)), Ok(3));
    assert_eq!(f.metadata(&v).unwrap().len(), 11);
    assert!(!f.metadata(&v).unwrap().is_dir());
    let entries = a.read_dir(&v, "/d").unwrap();
    let names: Vec<&str> = entries.iter().map(|e| e.0.name.as_str()).collect();
    assert_eq!(names, ["e", "f"]);
    assert!(entries[0].is_dir());
    assert_eq!(a.read_dir(&v, "/d/.localized"), Err(DavFault::NotFound));
    assert_eq!(a.copy(&mut v, "/d/f", "/g", 5), Ok(()));
    assert_eq!(a.rename(&mut v, "/g", "/h", 5), Ok(()));
    assert_eq!(v.fread("/h").unwrap(), b"abcdefghijk");
    assert_eq!(a.remove(&mut v, "/d/e", 5), Ok(()));
    assert_eq!(a.remove(&mut v, "/d/e", 5), Err(DavFault::GeneralFailure));
    assert!(a.get_quota(&v).unwrap().1 < UNIT as u64);
    assert_eq!(a.metadata(&v, "/h").unwrap().modified(), 5);
    let ro = XHFSAdapter { read_only: true, chunk_size: 4 };
    assert_eq!(ro.create_dir(&mut v, "/x", 1), Err(DavFault::Forbidden));
    assert!(matches!(ro.open(&mut v, "/h", true, true, 1), Err(DavFault::Forbidden)));
    let mut f = ro.open(&mut v, "/h", false, false, 1).unwrap();
    assert_eq!(f.write_bytes(&mut v, b"x", 1), Err(DavFault::Forbidden));
    assert_eq!(f.read_bytes(&mut v, 2, 1), Ok(b"ab".to_vec()));
}

fn gathered(v: &Volume, content: Content) -> Result<Vec<u8>, XHFSError> {
    match content {
        Content::Whole(data) => Ok(data),
        Content::Pieces(mut stream) => {
            let mut out = vec![];
            while let Some(piece) = v.next_chunk(&mut stream)? {
                out.extend(piece);
            }
            Ok(out)
        }
    }
}

fn main_run(v: &mut Volume, command: Commands, data: &[u8], there: bool) -> Result<Outcome, MainFault> {
    MainCommand { command }.run(
        v,
        Input { data: data.to_vec(), modified: Some(77), there, now: 9 },
    )
}

#[test]
fn the_program_on_a_volume() {
    let mut v = volume();
    let up = Commands::Upload(UploadCommand {
        src_path: "thething.txt".to_string(),
        dest_path: Some("/test.txt".to_string()),
        overwrite: false,
        block_size: 5,
        single_block: false,
    });
    assert!(matches!(main_run(&mut v, up, b"Hello World\n", false), Ok(Outcome::Nothing)));
    for single_block in [true, false] {
        let read = Commands::Read(ReadCommand {
            src_path: "test.txt".to_string(),
            block_size: 3,
            single_block,
        });
        match main_run(&mut v, read, b"", false) {
            Ok(Outcome::Print(c)) => {
                assert_eq!(matches!(c, Content::Whole(_)), single_block);
                assert_eq!(gathered(&v, c).unwrap(), b"Hello World\n");
            }
            _ => panic!("nothing read"),
        }
    }
    let down = DownloadCommand {
        src_path: "/test.txt".to_string(),
        dest_path: None,
        overwrite: false,
        block_size: 100,
        single_block: false,
    };
    match main_run(&mut v, Commands::Download(down.clone()), b"", false) {
        Ok(Outcome::File { dest, content }) => {
            assert_eq!(dest, "test.txt");
            assert_eq!(gathered(&v, content).unwrap(), b"Hello World\n");
            assert_eq!(down.modified(&v), Ok(Some(77)));
        }
        _ => panic!("no file"),
    }
    assert!(matches!(
        main_run(&mut v, Commands::Download(down), b"", true),
        Err(MainFault::Command { err: CommandFault::FileExists })
    ));
    match main_run(&mut v, Commands::Format, b"", false) {
        Ok(Outcome::Formatted { capacity }) => assert_eq!(capacity, UNIT as u64),
        _ => panic!("no capacity"),
    }
    match main_run(&mut v, Commands::Info, b"", false) {
        Ok(Outcome::Text(t)) => assert!(t.starts_with("XHFS version: 1\nCapacity:")),
        _ => panic!("no report"),
    }
    let ls = LsCommand { path: "/".to_string(), tree: false, recursive: false, verbose: false };
    let ls = Commands::X(FsCommands { command: FsSubcommands::Ls(ls) });
    match main_run(&mut v, ls, b"", false) {
        Ok(Outcome::Lines(l)) => assert_eq!(l, ["test.txt"]),
        _ => panic!("no lines"),
    }
    let missing = InspectSubcommands::Inode(InodeInspect { path: "/none".to_string() });
    assert!(matches!(
        main_run(&mut v, Commands::Inspect(missing), b"", false),
        Err(MainFault::Inspect { err: InspectFault::Volume { .. } })
    ));
}

#[test]
fn places_are_told_apart_by_their_hash() {
    let c = example();
    let mut hasher = DefaultHasher::new();
    "/part1.bin".to_string().hash(&mut hasher);
    assert_eq!(c.devices[0].payload_discriminator(), hasher.finish());
    let remote = DeviceConfig::KVHttp {
        name: "a".to_string(),
        slot_capacity_bytes: 10,
        url: "http://x/".to_string(),
        headers: None,
    };
    let mut hasher = DefaultHasher::new();
    "a".to_string().hash(&mut hasher);
    "http://x/".to_string().hash(&mut hasher);
    assert_eq!(remote.payload_discriminator(), hasher.finish());
    assert_ne!(c.devices[0].payload_discriminator(), c.devices[1].payload_discriminator());
}

#[test]
fn configurations_are_refused_in_words() {
    let mut c = example();
    c.devices[1] = c.devices[0].clone();
    assert_eq!(c.explain(c.validate().unwrap_err()), "Duplicate device name: blob1");
    let mut c = example();
    c.configuration.logical[0].members[1] = "blob9".to_string();
    assert_eq!(
        c.explain(c.validate().unwrap_err()),
        "Logical 'dev1' references unknown device blob9, available blob1, blob2, blob3"
    );
    assert_eq!(
        c.explain_plan(c.materialize(false).unwrap_err()),
        "Could not find refered device dev1"
    );
    let mut c = example();
    c.configuration.layout[1] = "dev9".to_string();
    assert_eq!(
        c.explain(c.validate().unwrap_err()),
        "Layout references unknown logical device dev9, available dev1, dev2"
    );
    c.configuration.layout[1] = "dev1".to_string();
    assert_eq!(
        c.explain(c.validate().unwrap_err()),
        "Cannot use device dev1 more than once in the layout"
    );
}

fn words(v: &mut Volume, command: Commands, data: &[u8], there: bool) -> String {
    let main = MainCommand { command };
    let input = Input { data: data.to_vec(), modified: None, there, now: 9 };
    match main.run(v, input) {
        Err(f) => main.explain(v, f),
        Ok(_) => panic!("no fault"),
    }
}

fn on_volume(command: FsSubcommands) -> Commands {
    Commands::X(FsCommands { command })
}

fn at(path: &str, recursive: bool) -> PathCommand {
    PathCommand { path: path.to_string(), recursive }
}

fn read(path: &str) -> Commands {
    Commands::Read(ReadCommand { src_path: path.to_string(), block_size: 4, single_block: true })
}

#[test]
fn commands_fail_in_words() {
    let mut v = volume();
    let opt = WriteOption { overwrite: false, modified: None };
    v.mkdir_at("/d/e", true, 1).unwrap();
    v.fwrite_at("/d/f", b"x".to_vec(), opt, 1).unwrap();
    v.create_symlink_at("/s", "/d/gone", opt, 1).unwrap();
    assert_eq!(words(&mut v, read("/d/x/y"), b"", false), "Path '/d/x' does not exist");
    assert_eq!(words(&mut v, read("/s"), b"", false), "Path '/d/gone' does not exist");
    assert_eq!(
        words(&mut v, read("/d/f/y"), b"", false),
        "Encountered file '/d/f' while expecting a directory container to reach components downstream"
    );
    assert_eq!(words(&mut v, read("/s/y"), b"", false), "Encountered link at path '/s'");
    assert_eq!(words(&mut v, read("/d"), b"", false), "Cannot fread directory");
    let up = |dest: &str| {
        Commands::Upload(UploadCommand {
            src_path: "a".to_string(),
            dest_path: Some(dest.to_string()),
            overwrite: false,
            block_size: 5,
            single_block: true,
        })
    };
    assert_eq!(words(&mut v, up("/d/f"), b"y", false), "File 'f' already exists");
    assert_eq!(words(&mut v, up("/d/e"), b"y", false), "Path 'e' is not file");
    let room = v.total_remaining_capacity().unwrap();
    let text = words(&mut v, up("/big"), &vec![0; room], false);
    assert!(text.starts_with("Insufficient space, input size is "));
    assert!(text.ends_with(", operation requires 1 B more"));
    let mkdir = on_volume(FsSubcommands::Mkdir(at("/q/r", false)));
    assert_eq!(words(&mut v, mkdir, b"", false), "Directory 'q' does not exist");
    let mv = |src: &str, dest: &str| {
        on_volume(FsSubcommands::Mv(MoveCommand { src: src.to_string(), dest: dest.to_string() }))
    };
    assert_eq!(words(&mut v, mv("/d/f", "/d/e"), b"", false), "Destination already exists: e");
    assert_eq!(words(&mut v, mv("/q/f", "/z"), b"", false), "Path '/q' does not exist");
    assert_eq!(words(&mut v, mv("/d/f", "/w/z"), b"", false), "Path '/w' does not exist");
    assert_eq!(words(&mut v, mv("/nope", "/z"), b"", false), "Source entry not found");
    assert_eq!(
        words(&mut v, mv("/d", "/d/e/z"), b"", false),
        "Cannot move a directory into itself or its own subdirectory"
    );
    let cp = |src: &str, dest: &str| {
        on_volume(FsSubcommands::Cp(CopyCommand {
            src: src.to_string(),
            dest: dest.to_string(),
            overwrite: false,
        }))
    };
    assert_eq!(words(&mut v, cp("/s", "/z"), b"", false), "Path '/d/gone' does not exist");
    assert_eq!(words(&mut v, cp("/d/f", "/w/z"), b"", false), "Path '/w' does not exist");
    let ln = on_volume(FsSubcommands::Ln(LinkCommand {
        src_path: "/d".to_string(),
        dest_path: "/h".to_string(),
        symlink: false,
        overwrite: false,
    }));
    assert_eq!(
        words(&mut v, ln, b"", false),
        "Unexpected Directory, Hardlink only attaches to a file"
    );
    let rm = on_volume(FsSubcommands::Rm(at("/d", true)));
    assert_eq!(words(&mut v, rm, b"", false), "Recursive option not supported yet for unlink");
    let down = Commands::Download(DownloadCommand {
        src_path: "/d/f".to_string(),
        dest_path: None,
        overwrite: false,
        block_size: 4,
        single_block: false,
    });
    assert_eq!(words(&mut v, down, b"", true), "File f already exists");
}

#[test]
fn streams_hand_out_what_lies_before_a_fault() {
    let mut v = volume();
    let opt = WriteOption { overwrite: false, modified: None };
    v.fwrite_at("/f", b"0123456789".to_vec(), opt, 1).unwrap();
    v.fappend("/f", b"abcdefghij".to_vec(), None).unwrap();
    let inode = v.resolve_path("/f").unwrap();
    let extents = v.find_full_extent_metadata(inode.extent_addr, None).unwrap();
    let second = extents[1].full_canon_region.start.get() as usize;
    v.ctrl.write(second, &[0xFF; 8]).unwrap();
    assert!(v.fread("/f").is_err());
    let read = ReadCommand { src_path: "/f".to_string(), block_size: 4, single_block: false };
    let mut stream = match main_run(&mut v, Commands::Read(read), b"", false) {
        Ok(Outcome::Print(Content::Pieces(stream))) => stream,
        _ => panic!("no stream"),
    };
    assert_eq!(v.next_chunk(&mut stream).unwrap().unwrap(), b"0123");
    assert_eq!(v.next_chunk(&mut stream).unwrap().unwrap(), b"4567");
    assert!(v.next_chunk(&mut stream).is_err());
}
