//! What looking at the parts of a volume shows.
use crate::addr::{maybe, MaybeU64};
use crate::crypto::crypted;
use crate::device::disk::{disk_raw_write_read, disk_write_read};
use crate::error::XHFSError;
use crate::interface::inspect::{
    DumpBlock, ExtentInspect, InodeInspect, InspectFault, InspectSubcommands, Shown,
    ViewBlock, ViewMap,
};
use crate::interface::number::{hex_rows, InputFault};
use crate::xhfs::extent::metas;
use crate::xhfs::image::{ExtentMetadata, Image};
use crate::xhfs::layout::Format;
use crate::xhfs::mount::accepted;
use crate::xhfs::volume::lemma_format;
use vstd::prelude::*;

verus! {

/// The command that copies the bytes between two addresses out.
pub open spec fn dump(start: int, end: int, decrypt: bool) -> InspectSubcommands {
    InspectSubcommands::Dump(
        DumpBlock { start_address: start as u64, end_address: end as u64, decrypt },
    )
}

/// Bytes that are copied out without decryption are those that lie on the disk, whatever the
/// cipher of the volume is.
pub proof fn raw_dump_shows_the_disk(m: Image, start: int, end: int)
    requires
        0 <= start <= end <= m.disk.len(),
        m.disk.len() <= usize::MAX,
    ensures
        m.inspect(dump(start, end, false)) == Ok::<_, InspectFault>(
            Shown::Bytes(m.disk.subrange(start, end)),
        ),
{
    if start == end {
        assert(m.disk.subrange(start, end) =~= Seq::empty());
    }
}

/// Bytes that are copied out with decryption are those on the disk with the keystream of their
/// addresses applied; without a cipher they are those on the disk.
pub proof fn decrypted_dump_undoes_the_keystream(m: Image, start: int, end: int)
    requires
        0 <= start <= end <= m.disk.len(),
        m.disk.len() <= usize::MAX,
        m.inspect(dump(start, end, true)) is Ok,
    ensures
        ({
            let shown = m.inspect(dump(start, end, true))->Ok_0;
            &&& shown is Bytes
            &&& shown->Bytes_0.len() == end - start
            &&& m.cipher is None ==> shown->Bytes_0 == m.disk.subrange(start, end)
            &&& m.cipher is Some ==> forall|i: int|
                0 <= i < end - start ==> #[trigger] shown->Bytes_0[i] == m.disk[start + i]
                    ^ m.cipher->0.pad(start + i)
        }),
{
    if start == end {
        assert(m.disk.subrange(start, end) =~= Seq::empty());
        assert(crypted(m.cipher, start, Seq::empty()) =~= Seq::empty());
    }
}

/// Two addresses that are swapped have no bytes between them.
pub proof fn swapped_dump_shows_nothing(m: Image, start: int, end: int)
    requires
        0 <= end <= start <= usize::MAX,
    ensures
        m.inspect(dump(start, end, false)) == Ok::<_, InspectFault>(Shown::Bytes(Seq::empty())),
{
}

/// Copying the data slot of an extent out with decryption gives the data of the extent. Without
/// decryption it gives what lies on the disk: the data with the keystream of its address applied,
/// or the data itself if the volume has no cipher.
pub proof fn dump_of_an_extent_shows_its_data(m: Image, a: u64)
    requires
        m.extent(a) is Ok,
        m.disk.len() <= usize::MAX,
        m.extent(a)->Ok_0.data.len() > 0,
    ensures
        ({
            let data = m.extent(a)->Ok_0.data;
            let end = a + 16 + data.len();
            &&& end <= m.disk.len()
            &&& m.inspect(dump(a + 16, end, true)) == Ok::<_, InspectFault>(Shown::Bytes(data))
            &&& m.inspect(dump(a + 16, end, false)) == Ok::<_, InspectFault>(
                Shown::Bytes(m.disk.subrange(a + 16, end)),
            )
            &&& m.cipher is None ==> m.disk.subrange(a + 16, end) == data
            &&& m.cipher is Some ==> forall|i: int|
                0 <= i < data.len() ==> #[trigger] data[i] == m.disk[a + 16 + i]
                    ^ m.cipher->0.pad(a + 16 + i)
        }),
{
    let meta = m.extent_meta(a)->Ok_0;
    let slot = meta.full_canon_data_slot;
    let data = m.extent(a)->Ok_0.data;
    assert(m.clear(a as int, 16) is Ok);
    assert(slot.addr.raw == a + 16);
    assert(data.len() == slot.capacity);
    raw_dump_shows_the_disk(m, a + 16, a + 16 + data.len());
    decrypted_dump_undoes_the_keystream(m, a + 16, a + 16 + data.len());
    assert(m.inspect(dump(a + 16, a + 16 + data.len(), true)) == Ok::<_, InspectFault>(
        Shown::Bytes(data),
    ));
}

/// What was written in secret is copied out with decryption, and what was written as it is without.
pub proof fn dump_shows_what_was_written(m: Image, addr: int, data: Seq<u8>)
    requires
        0 <= addr,
        data.len() > 0,
        addr + data.len() <= m.disk.len(),
        m.disk.len() <= usize::MAX,
    ensures
        m.put_clear(addr, data).1 is Ok ==> m.put_clear(addr, data).0.inspect(
            dump(addr, addr + data.len(), true),
        ) == Ok::<_, InspectFault>(Shown::Bytes(data)),
        m.put_raw(addr, data).1 is Ok ==> m.put_raw(addr, data).0.inspect(
            dump(addr, addr + data.len(), false),
        ) == Ok::<_, InspectFault>(Shown::Bytes(data)),
{
    if m.put_clear(addr, data).1 is Ok {
        disk_write_read(m.cipher, m.disk, addr, data);
    }
    if m.put_raw(addr, data).1 is Ok {
        disk_raw_write_read(m.disk, addr, data);
    }
}

/// The bytes that are shown as a table are those that are copied out for the same addresses; a
/// table needs columns.
pub proof fn view_shows_what_is_dumped(m: Image, start: int, end: int, decrypt: bool, columns: usize)
    ensures
        ({
            let v = m.inspect(
                InspectSubcommands::View(
                    ViewBlock {
                        start_address: start as u64,
                        end_address: end as u64,
                        decrypt,
                        columns,
                    },
                ),
            );
            match m.inspect(dump(start, end, decrypt)) {
                Err(f) => v == Err::<Shown, _>(f),
                Ok(Shown::Bytes(data)) => if columns == 0 {
                    v == Err::<Shown, _>(InspectFault::Input { err: InputFault::NoColumns })
                } else {
                    v == Ok::<_, InspectFault>(Shown::Text(hex_rows(data, columns as int, 0)))
                },
                Ok(_) => false,
            }
        }),
{
}

/// The inode that is shown for a path is the one that the path leads to, and its group is the one
/// among whose numbers its number is.
pub proof fn inode_of_a_path_is_shown(m: Image, c: InodeInspect)
    requires
        m.format.usable(),
        m.lookup(c.path@) is Ok,
        m.has_slot(m.lookup(c.path@)->Ok_0.inumber),
    ensures
        ({
            let r = m.inspect(InspectSubcommands::Inode(c));
            let per = m.format.param_inode_count_per_group as int;
            &&& r is Ok
            &&& r->Ok_0 is Inode
            &&& r->Ok_0->inode == m.lookup(c.path@)->Ok_0
            &&& r->Ok_0->group * per < r->Ok_0->inode.inumber <= (r->Ok_0->group + 1) * per
        }),
{
    let n = m.lookup(c.path@)->Ok_0.inumber;
    let per = m.format.param_inode_count_per_group as int;
    lemma_format(m);
    vstd::arithmetic::div_mod::lemma_fundamental_div_mod(n - 1, per);
    let g = (n - 1) / per;
    vstd::arithmetic::div_mod::lemma_mod_bound(n - 1, per);
    assert(per * g == g * per) by (nonlinear_arith);
    assert((g + 1) * per == g * per + per) by (nonlinear_arith);
}

/// The data slots of extents, read one after the other with decryption.
pub open spec fn slots_read(m: Image, v: Seq<ExtentMetadata>) -> Seq<u8>
    decreases v.len(),
{
    if v.len() == 0 {
        Seq::empty()
    } else {
        let s = v[0].full_canon_data_slot;
        m.inspect(dump(s.addr.raw as int, s.addr.raw + s.capacity, true))->Ok_0->Bytes_0
            + slots_read(m, v.drop_first())
    }
}

/// The extents that are shown from an address on are those of the content there: the first lies at
/// the address, each next one where the one before says, and the data slots hold the content. No
/// more are shown than are asked for.
pub proof fn shown_extents_hold_the_content(m: Image, addr: u64, max_follow: u32, count: nat)
    requires
        m.disk.len() <= usize::MAX,
        count <= max_follow,
        m.chain(maybe(addr), count) is Ok,
    ensures
        ({
            let r = m.inspect(InspectSubcommands::Extent(ExtentInspect { address: addr, max_follow }));
            &&& r is Ok
            &&& r->Ok_0 is Extents
            &&& r->Ok_0->Extents_0.len() <= count
            &&& slots_read(m, r->Ok_0->Extents_0) == m.chain(maybe(addr), count)->Ok_0
            &&& addr != 0 ==> r->Ok_0->Extents_0.len() > 0
                && r->Ok_0->Extents_0[0].full_canon_region.start.raw == addr
        }),
{
    lemma_slots(m, maybe(addr), max_follow as nat, count);
}

proof fn lemma_slots(m: Image, addr: MaybeU64, most: nat, count: nat)
    requires
        m.disk.len() <= usize::MAX,
        count <= most,
        m.chain(addr, count) is Ok,
    ensures
        metas(m, addr, most) is Ok,
        metas(m, addr, most)->Ok_0.len() <= count,
        slots_read(m, metas(m, addr, most)->Ok_0) == m.chain(addr, count)->Ok_0,
        addr.raw != 0 ==> metas(m, addr, most)->Ok_0.len() > 0 && metas(
            m,
            addr,
            most,
        )->Ok_0[0].full_canon_region.start.raw == addr.raw,
    decreases count,
{
    if addr.raw != 0 {
        let c = m.extent(addr.raw)->Ok_0;
        let meta = m.extent_meta(addr.raw)->Ok_0;
        assert(m.clear(addr.raw as int, 16) is Ok);
        lemma_slots(m, meta.next_extent, (most - 1) as nat, (count - 1) as nat);
        let v = metas(m, addr, most)->Ok_0;
        let rest = metas(m, meta.next_extent, (most - 1) as nat)->Ok_0;
        assert(v =~= seq![meta] + rest);
        assert(v.drop_first() =~= rest);
        let s = meta.full_canon_data_slot;
        if c.data.len() > 0 {
            dump_of_an_extent_shows_its_data(m, addr.raw);
        } else {
            assert(c.data =~= Seq::empty());
            lemma_dump_nothing(m, s.addr.raw as int);
        }
    }
}

proof fn lemma_dump_nothing(m: Image, at: int)
    requires
        0 <= at <= usize::MAX,
        m.clear(at, 0) is Ok,
    ensures
        m.inspect(dump(at, at, true)) == Ok::<_, InspectFault>(Shown::Bytes(Seq::empty())),
{
    assert(crypted(m.cipher, at, Seq::empty()) =~= Seq::empty());
}

proof fn lemma_usages(m: Image, f: Format, n: nat)
    requires
        m.group_usages(f, 0, n) is Ok,
        m.format == f,
    ensures
        m.group_usages(f, 0, n)->Ok_0.len() == n,
        forall|i: int|
            0 <= i < n ==> {
                let u = #[trigger] m.group_usages(f, 0, n)->Ok_0[i];
                &&& u.index == i
                &&& u.offset == m.group_at(i)
                &&& m.inode_bits(i) == Ok::<_, XHFSError>(u.inode_bits)
                &&& m.data_bits(i) == Ok::<_, XHFSError>(u.data_bits)
            },
    decreases n,
{
    if n > 0 {
        lemma_usages(m, f, (n - 1) as nat);
    }
}

/// The groups that are shown from the first on are the groups of the volume in their order, each
/// where it lies and with the bitmaps of its inodes and its data blocks. No more are shown than are
/// asked for or than there are.
pub proof fn groups_are_shown_with_their_bitmaps(m: Image, last: u64)
    requires
        m.header() is Ok,
        m.header()->Ok_0.format == m.format,
        accepted(m.format) is Ok,
        m.format.group_count > 0,
        last > 0,
        m.inspect(InspectSubcommands::Groups(ViewMap { start_group: 1, end_group: last })) is Ok,
    ensures
        ({
            let r = m.inspect(
                InspectSubcommands::Groups(ViewMap { start_group: 1, end_group: last }),
            )->Ok_0;
            &&& r is Groups
            &&& r->Groups_0.len() == if last < m.format.group_count {
                last as int
            } else {
                m.format.group_count as int
            }
            &&& forall|i: int|
                0 <= i < r->Groups_0.len() ==> {
                    let u = #[trigger] r->Groups_0[i];
                    &&& u.index == i
                    &&& u.offset == m.group_at(i)
                    &&& m.inode_bits(i) == Ok::<_, XHFSError>(u.inode_bits)
                    &&& m.data_bits(i) == Ok::<_, XHFSError>(u.data_bits)
                }
        }),
{
    let (start, n) = Image::shown_groups(m.format, 1, last);
    lemma_usages(m, m.format, n);
}

} // verus!
