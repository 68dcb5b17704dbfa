use xhfs::addr::MaybeU64;
use xhfs::bfs::ds::INode as IndexedINode;
use xhfs::bfs::records::{INode as BruteINode, INodeKind as BruteKind, SymLink};
use xhfs::bfs::vector::{AddressVector, BruteFsHeader};
use xhfs::crypto::Crypto;
use xhfs::disk::{INode as NamedINode, INodeValue};
use xhfs::error::{Fault, Record};
use xhfs::xhfs::bitmap::Bitmap;
use xhfs::xhfs::ds::{
    deserialize_255_utf8_string, serialize_255_utf8_string, Directory, Extent, Hardlink, INode,
    INodeKind, Symlink,
};
use xhfs::xhfs::layout::{AddressSlot, Format, XHFSHeader};

#[test]
fn test_inode_name() {
    assert!(NamedINode {
        name: "a𝔘𝔱𝔣8混合テキスト💀null\0byte".to_string(),
        mtime: 12345678,
        ctime: 23456789,
        value: INodeValue::Directory { list_addr: 1234 },
    }
    .serialize()
    .is_err());
}

#[test]
fn binary_serialization_inode() -> Result<(), Fault> {
    let inode = NamedINode {
        name: "UTF8_inode_test_🔥_file_名前_123_✔️".to_string(),
        mtime: 12345678,
        ctime: 23456789,
        value: INodeValue::Directory { list_addr: 1234 },
    };
    let data = inode.serialize()?;
    let inode_reconstr = NamedINode::deserialize(&data)?;

    assert_eq!(inode, inode_reconstr, "utf8 example");

    Ok(())
}

#[test]
fn named_inode_bytes() {
    let inode = NamedINode {
        name: "ab".to_string(),
        mtime: 1,
        ctime: 2,
        value: INodeValue::File { data_addr: 3 },
    };
    let data = inode.serialize().unwrap();
    assert_eq!(data.len(), 282);
    assert_eq!(&data[0..4], &[2, b'a', b'b', 0]);
    assert_eq!(data[257], 0);
    assert_eq!(data[258], 3);
    assert_eq!(data[266], 1);
    assert_eq!(data[274], 2);
    assert_eq!(
        NamedINode::deserialize(&data[..281]),
        Err(Fault::WrongSize { of: Record::NamedINode, expected: 282, got: 281 })
    );
    let mut bad = data.clone();
    bad[257] = 9;
    assert_eq!(NamedINode::deserialize(&bad), Err(Fault::UnknownKind { value: 9 }));
    bad = data.clone();
    bad[1] = 0xff;
    assert_eq!(NamedINode::deserialize(&bad), Err(Fault::InvalidUtf8));
}

#[test]
fn test_basic_binary_serialization() -> Result<(), Fault> {
    {
        let original = INode {
            inumber: 66441234,
            nlink: 42,
            kind: INodeKind::Symlink,
            extent_addr: MaybeU64::from(1234),
            total_file_size: 42,
            mtime: 567845678,
            ctime: 123457523,
            extra_metadata: [0; 32],
        };
        let data = original.serialize()?;
        let reconstr = INode::deserialize(&data)?;
        assert_eq!(original, reconstr, "INode serde");
    }

    {
        let original = Extent {
            next: MaybeU64::from(1234),
            data: vec![],
        };
        let data = original.serialize()?;
        let reconstr = Extent::deserialize(&data)?;
        assert_eq!(original, reconstr, "Extent serde 1");

        let original = Extent {
            next: MaybeU64::from(1234),
            data: vec![1, 2, 3, 4, 5, 6, 7, 8, 9],
        };
        let data = original.serialize()?;
        let reconstr = Extent::deserialize(&data)?;
        assert_eq!(original, reconstr, "Extent serde 2");
    }

    {
        let original = Directory { entries: vec![] };
        let data = original.serialize()?;
        let reconstr = Directory::deserialize(&data)?;
        assert_eq!(original, reconstr, "Directory serde empty");

        let original = Directory {
            entries: vec![
                ("a𝔘𝔱𝔣8混合テキスト💀".to_string(), 1234),
                ("UTF8_inode_test_🔥_file_名前_123_✔️".to_string(), 4567),
            ],
        };
        let data = original.serialize()?;
        let reconstr = Directory::deserialize(&data)?;
        assert_eq!(original, reconstr, "Directory serde");
    }

    {
        let original = XHFSHeader {
            version: 42,
            format: Format {
                block_size_bytes: 12348794,
                param_data_block_count_per_group: 234567,
                param_inode_count_per_group: 234567,
                group_count: 4,
            },
            chacha20_nonce: Crypto::gen_nonce(),
            extra_metadata: [0; 32],
        };
        let data = original.serialize()?;
        let reconstr = XHFSHeader::deserialize(&data)?;
        assert_eq!(original, reconstr, "XHFSHeader serde");
    }
    Ok(())
}

#[test]
fn test_bitmap_serialization() -> Result<(), Fault> {
    {
        let size = 100;
        let bitmap = Bitmap::new_from_bits_count(size);
        assert_eq!(bitmap.len(), size);
        for i in 0..size {
            assert_eq!(bitmap.get(i)?, false);
        }
    }

    {
        let mut bitmap = Bitmap::new_from_bits_count(64);
        bitmap.set(0, true)?;
        bitmap.set(31, true)?;
        bitmap.set(63, true)?;

        assert_eq!(bitmap.get(0)?, true);
        assert_eq!(bitmap.get(31)?, true);
        assert_eq!(bitmap.get(63)?, true);

        assert_eq!(bitmap.get(1)?, false, "untouched bits remain false");
        assert_eq!(bitmap.get(32)?, false, "untouched bits remain false");

        bitmap.set(31, false)?;
        assert_eq!(bitmap.get(31)?, false, "set existing true bit to false");
    }

    {
        let mut bitmap = Bitmap::new_from_bits_count(10);
        assert!(bitmap.get(10).is_err(), "out of bounds");
        assert!(bitmap.get(100).is_err(), "out of bounds");
        assert!(bitmap.set(10, true).is_err(), "out of bounds");
        assert!(bitmap.set(100, false).is_err(), "out of bounds");
    }

    {
        // odd bit length that doesn't align cleanly with 8-bit bytes
        let bit_size = 77;
        let mut bitmap = Bitmap::new_from_bits_count(bit_size);
        bitmap.set(0, true)?;
        bitmap.set(12, true)?;
        bitmap.set(76, true)?;

        let expected_size = bitmap.serialized_size();
        let serialized_data = bitmap.serialize()?;
        assert_eq!(serialized_data.len(), expected_size);

        let deserialized = Bitmap::deserialize(&serialized_data)?;
        assert_eq!(bitmap.serialize()?, deserialized.serialize()?, "ser-de");

        assert_eq!(deserialized.len(), bit_size);
        assert_eq!(deserialized.get(0)?, true);
        assert_eq!(deserialized.get(12)?, true);
        assert_eq!(deserialized.get(76)?, true);
        assert_eq!(deserialized.get(75)?, false);
        assert!(
            deserialized.get(77).is_err(),
            "original constraint len survived"
        );
    }

    Ok(())
}

#[test]
fn bitmap_bytes_and_runs() -> Result<(), Fault> {
    let mut bitmap = Bitmap::new_from_bits_count(20);
    bitmap.set_range(3, 6, true)?;
    bitmap.set(19, true)?;
    let bytes = bitmap.serialize()?;
    assert_eq!(bytes, vec![20, 0, 0, 0, 0, 0, 0, 0, 0b0001_1111, 0b1000_0000, 0b0001_0000]);
    let runs: Vec<(usize, usize)> =
        bitmap.runs_of(true, None).iter().map(|r| (r.start, r.size)).collect();
    assert_eq!(runs, vec![(3, 6), (19, 1)]);
    let gaps: Vec<(usize, usize)> =
        bitmap.runs_of(false, Some(12)).iter().map(|r| (r.start, r.size)).collect();
    assert_eq!(gaps, vec![(0, 3), (9, 3)]);
    assert_eq!(bitmap.find_next_zero_index(3), Some(9));
    assert_eq!(bitmap.find_next_zero_index(19), None);
    assert!(bitmap.set_range(15, 6, true).is_err());
    assert!(Bitmap::deserialize(&[1, 2, 3]).is_err());
    Ok(())
}

#[test]
fn long_runs_cross_words() -> Result<(), Fault> {
    let mut bitmap = Bitmap::new_from_bits_count(1000);
    bitmap.set_range(7, 500, true)?;
    bitmap.set_range(900, 100, true)?;
    let runs: Vec<(usize, usize)> =
        bitmap.runs_of(true, None).iter().map(|r| (r.start, r.size)).collect();
    assert_eq!(runs, vec![(7, 500), (900, 100)]);
    let gaps: Vec<(usize, usize)> =
        bitmap.runs_of(false, None).iter().map(|r| (r.start, r.size)).collect();
    assert_eq!(gaps, vec![(0, 7), (507, 393)]);
    assert_eq!(xhfs::interface::inspect::used_bits(&bitmap), 600);
    Ok(())
}

#[test]
fn inode_layouts() {
    let n = INode {
        inumber: 1,
        nlink: 2,
        kind: INodeKind::Hardlink,
        extent_addr: MaybeU64::from(3),
        total_file_size: 4,
        mtime: 5,
        ctime: 6,
        extra_metadata: [7; 32],
    };
    assert_eq!(n.serialize().unwrap().len(), 81);
    assert_eq!(INode::serialized_size(), 81);
    let b = BruteINode {
        kind: BruteKind::Symlink,
        total_file_size: 9,
        extent_addr: MaybeU64::from(8),
        mtime: 7,
        ctime: 6,
    };
    let bytes = b.serialize().unwrap();
    assert_eq!(bytes.len(), 33);
    assert_eq!((bytes[0], bytes[1], bytes[9], bytes[17], bytes[25]), (2, 8, 9, 7, 6));
    assert_eq!(BruteINode::deserialize(&bytes), Ok(b));
    let i = IndexedINode {
        kind: BruteKind::File,
        index: 1,
        nlink: 2,
        total_file_size: 3,
        extent_addr: MaybeU64::from(4),
        mtime: 5,
        ctime: 6,
    };
    let bytes = i.serialize().unwrap();
    assert_eq!(bytes.len(), 49);
    assert_eq!((bytes[0], bytes[8], bytes[9], bytes[17], bytes[25]), (1, 0, 2, 3, 4));
    assert_eq!(IndexedINode::deserialize(&bytes), Ok(i));
    assert_eq!(
        IndexedINode::deserialize(&bytes[1..]),
        Err(Fault::WrongSize { of: Record::INode, expected: 49, got: 48 })
    );
    assert_eq!(INodeKind::from_byte(9), Err(Fault::UnknownKind { value: 9 }));
    assert_eq!(BruteKind::from_byte(3), Err(Fault::UnknownKind { value: 3 }));
}

#[test]
fn names_are_checked() {
    assert_eq!(serialize_255_utf8_string("a\nb"), Err(Fault::NameControlCharacter));
    assert_eq!(serialize_255_utf8_string(&"x".repeat(256)), Err(Fault::NameTooLong));
    let slot = serialize_255_utf8_string(&"x".repeat(255)).unwrap();
    assert_eq!(slot.len(), 256);
    assert_eq!(deserialize_255_utf8_string(&slot), Ok("x".repeat(255)));
    assert_eq!(
        deserialize_255_utf8_string(&slot[..200]),
        Err(Fault::WrongSize { of: Record::Name, expected: 256, got: 200 })
    );
}

#[test]
fn links_round_trip() {
    let s = Symlink { path: "a//b/../c".to_string() };
    assert_eq!(s.serialize(), b"/a/c".to_vec());
    assert_eq!(Symlink::deserialize(b"/a/c").unwrap().path, "/a/c");
    assert!(Symlink::deserialize(&[0xff, 0xfe]).is_err());
    let l = SymLink { path: "./x".to_string() };
    assert_eq!(l.serialize(), b"/x".to_vec());
    let h = Hardlink { inumber: 258 };
    let bytes = h.serialize();
    assert_eq!(&bytes[0..2], &[2, 1]);
    assert_eq!(Hardlink::deserialize(&bytes).unwrap().inumber, 258);
    assert!(Hardlink::deserialize(&bytes[1..]).is_err());
}

#[test]
fn extents_and_directories_reject_bad_data() {
    assert!(Extent::deserialize(&[0; 15]).is_err());
    let mut bytes = Extent { next: MaybeU64::from(0), data: vec![1, 2] }.serialize().unwrap();
    assert_eq!(bytes, vec![2, 0, 0, 0, 0, 0, 0, 0, 0, 0, 0, 0, 0, 0, 0, 0, 1, 2]);
    bytes.push(3);
    assert_eq!(
        Extent::deserialize(&bytes),
        Err(Fault::WrongSize { of: Record::Extent, expected: 2, got: 3 })
    );
    assert_eq!(Directory::deserialize(&[]).unwrap().entries.len(), 0);
    assert!(Directory::deserialize(&[1, 2]).is_err());
    assert!(Directory::deserialize(&[1, 0, 0, 0, 0, 0, 0, 0]).is_err());
}

#[test]
fn maybe_addresses() {
    assert!(MaybeU64::from(0).is_none());
    assert!(MaybeU64::default().is_none());
    assert_eq!(MaybeU64::from(7).get(), 7);
    assert_eq!(MaybeU64::from(7).to_optional(), Some(7));
    assert_eq!(MaybeU64::from(0).to_optional(), None);
    assert_eq!(
        MaybeU64::deserialize([1, 1, 0, 0, 0, 0, 0, 0]),
        MaybeU64::from(257)
    );
}

#[test]
fn test_address_vector_compactify() {
    let mut av = AddressVector::allocate(10);
    av.items[0] = AddressSlot {
        // lone block
        addr: MaybeU64::from(1000),
        capacity: 20,
    };
    av.items[1] = AddressSlot {
        // A
        addr: MaybeU64::from(100),
        capacity: 50,
    };
    av.items[2] = AddressSlot {
        // dead slot with an address but no size
        addr: MaybeU64::from(500),
        capacity: 0,
    };
    av.items[3] = AddressSlot {
        // B - contiguous with A
        addr: MaybeU64::from(150),
        capacity: 50,
    };
    av.items[4] = AddressSlot {
        // C - contiguous with B
        addr: MaybeU64::from(200),
        capacity: 50,
    };
    av.items[5] = AddressSlot {
        // lone block
        addr: MaybeU64::from(900),
        capacity: 5,
    };

    // slots [6..10] are default (with None == 0)
    av.compactify();
    assert_eq!(av.items.len(), 10, "Vector must maintain fixed size");

    assert_eq!(av.items[0].capacity, 5);
    assert_eq!(av.items[0].addr.get(), 900);
    assert_eq!(av.items[1].capacity, 20);
    assert_eq!(av.items[1].addr.get(), 1000);
    assert_eq!(av.items[2].capacity, 150);
    assert_eq!(av.items[2].addr.get(), 100);

    for i in 3..10 {
        assert_eq!(av.items[i].capacity, 0, "Slot {} should have 0 capacity", i);
    }
}

#[test]
fn brute_header_bytes() {
    let mut freed = AddressVector::allocate(2);
    freed.global_offset = 99;
    freed.items[1] = AddressSlot { addr: MaybeU64::from(5), capacity: 6 };
    let h = BruteFsHeader { version: 3, extent_freed: freed, chacha20_nonce: [4; 12] };
    let bytes = h.serialize().unwrap();
    assert_eq!(&bytes[0..8], b"brutefs\x03");
    assert_eq!(bytes.len(), 20 + 16 + 2 * 16);
    assert_eq!(BruteFsHeader::deserialize(&bytes).unwrap(), h);
    assert_eq!(BruteFsHeader::deserialize(b"nonsense nonsense nonsense"), Err(Fault::BadMagic { of: Record::BruteFsHeader }));
    assert_eq!(
        BruteFsHeader::deserialize(&bytes[..10]),
        Err(Fault::TooShort { of: Record::BruteFsHeader, expected: 20, got: 10 })
    );
    assert!(AddressVector::deserialize(&bytes[20..bytes.len() - 1]).is_err());
}

#[test]
fn bytes_are_written_as_they_were_read() -> Result<(), Fault> {
    let mut extent = vec![3, 0, 0, 0, 0, 0, 0, 0, 9, 1, 0, 0, 0, 0, 0, 0];
    extent.extend_from_slice(&[7, 8, 9]);
    assert_eq!(Extent::deserialize(&extent)?.serialize()?, extent);
    let link = vec![1, 2, 3, 4, 5, 6, 7, 8];
    assert_eq!(Hardlink::deserialize(&link)?.serialize(), link);
    let mut header = XHFSHeader::template().serialize()?;
    header[40] = 77;
    header[80] = 3;
    assert_eq!(XHFSHeader::deserialize(&header)?.serialize()?, header);
    let mut list = vec![2, 0, 0, 0, 0, 0, 0, 0, 5, 0, 0, 0, 0, 0, 0, 0];
    list.extend((0..32).map(|i| if i % 8 < 2 { i } else { 0 }));
    assert_eq!(AddressVector::deserialize(&list)?.serialize()?, list);
    let mut brute = b"brutefs".to_vec();
    brute.push(1);
    brute.extend(20..32);
    brute.extend_from_slice(&list);
    assert_eq!(BruteFsHeader::deserialize(&brute)?.serialize()?, brute);
    let mut inode = vec![0; 49];
    inode[0] = 12;
    inode[25] = 80;
    inode[48] = 1;
    assert_eq!(IndexedINode::deserialize(&inode)?.serialize()?, inode);
    Ok(())
}

#[test]
fn missing_places_in_words() {
    assert_eq!(
        Fault::NoHint { inumber: 7 }.describe(),
        "Unable to derive group layer from hint inumber 7"
    );
    assert_eq!(
        Fault::NoGroupToRegister.describe(),
        "Unable to derive group when registering INode"
    );
    assert_eq!(
        Fault::NoGroupToDelete { inumber: 9 }.describe(),
        "Unable to derive group layout for inumber 9"
    );
    assert_eq!(
        Fault::NoInodeSlot { inumber: 3 }.describe(),
        "Could not map table space layout coordinates for inumber 3"
    );
}
