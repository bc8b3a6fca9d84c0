use std::cell::RefCell;
use std::sync::Arc;

use jmap_dumper::cache::{
    fetch_block, read_through, write_through, Block, BlockCache, BlockTable, Request, BLOCK_SIZE,
};
use jmap_dumper::config::BuildConfig;
use jmap_dumper::macho::{MachoCoreMem, MachoError, MH_CORE};
use jmap_dumper::mem::{Ctx, CtxInner, FScriptArray, Mem, MemError, NonZeroAddress, Ptr};
use jmap_dumper::minidump_file::{
    find_triplet, is_minidump, module_base, module_base_from_minidump,
    target_triplet_from_minidump, DumpCpu, DumpError, DumpOs, MemoryRegion, MinidumpMem,
};
use jmap_dumper::config::{
    TargetArchitecture, TargetEnvironment, TargetOperatingSystem, TargetTriplet,
};
use jmap_dumper::pathmap::PathMap;
use jmap_dumper::process::{transfer_result, ProcessHandle};
use jmap_dumper::structs::{StructInfo, StructMember};

/// Memory at one place that counts reads and can be written to.
struct Ram {
    base: u64,
    bytes: RefCell<Vec<u8>>,
    reads: RefCell<Vec<(u64, usize)>>,
}

impl Ram {
    fn new(base: u64, len: usize) -> Ram {
        Ram {
            base,
            bytes: RefCell::new((0..len).map(|i| (i % 251) as u8).collect()),
            reads: RefCell::new(vec![]),
        }
    }
}

impl Mem for &Ram {
    fn can_read(&self, _address: u64, _len: usize) -> bool {
        true
    }

    fn read_buf(&self, address: u64, buf: &mut [u8]) -> Result<(), MemError> {
        self.reads.borrow_mut().push((address, buf.len()));
        let bytes = self.bytes.borrow();
        let end = self.base + bytes.len() as u64;
        if address < self.base || address + buf.len() as u64 > end {
            return Err(MemError::Backend("unmapped".to_string()));
        }
        let from = (address - self.base) as usize;
        buf.copy_from_slice(&bytes[from..from + buf.len()]);
        Ok(())
    }

    fn write_buf(&self, address: u64, buf: &[u8]) -> Result<(), MemError> {
        let from = (address - self.base) as usize;
        self.bytes.borrow_mut()[from..from + buf.len()].copy_from_slice(buf);
        Ok(())
    }
}

struct ReadOnly;

impl Mem for ReadOnly {
    fn read_buf(&self, _address: u64, buf: &mut [u8]) -> Result<(), MemError> {
        buf.fill(7);
        Ok(())
    }

    fn can_read(&self, _address: u64, _len: usize) -> bool {
        true
    }

    fn write_buf(&self, _address: u64, _buf: &[u8]) -> Result<(), MemError> {
        Err(MemError::WriteUnsupported)
    }
}

fn leak(len: usize) -> &'static Ram {
    Box::leak(Box::new(Ram::new(0x10000, len)))
}

fn context(mem: Box<dyn Mem>) -> Ctx {
    let mut structs = PathMap::new();
    structs.insert(
        "UObject".to_string(),
        StructInfo {
            name: "UObject".to_string(),
            size: 0x28,
            alignment: 8,
            members: vec![
                StructMember { name: "Class".to_string(), offset: 0x10, size: 8 },
                StructMember { name: "Outer".to_string(), offset: 0x20, size: 8 },
                StructMember { name: "Class".to_string(), offset: 0x18, size: 4 },
            ],
        },
    );
    Ctx::new(CtxInner {
        mem,
        fnamepool: 1,
        structs,
        version: (5, 3),
        build_config: BuildConfig { case_preserving: true },
        uobjectarray: 2,
        uobjectarray_xor_key: 0,
        image_base_address: 3,
        build_change_list: None,
    })
}

#[test]
fn cached_reads_give_the_bytes_of_the_memory() {
    let ram = Ram::new(0x10000, 0x30000);
    let cache = BlockCache::wrap(&ram);
    let mut buf = vec![0u8; 0x10010];
    cache.read_buf(0x1fff8, &mut buf).unwrap();
    assert_eq!(buf[..], ram.bytes.borrow()[0xfff8..0x20008]);
    assert_eq!(
        *ram.reads.borrow(),
        vec![(0x10000, 0x10000), (0x20000, 0x10000), (0x30000, 0x10000)]
    );
}

#[test]
fn blocks_are_loaded_once() {
    let ram = Ram::new(0x10000, 0x20000);
    let cache = BlockCache::wrap(&ram);
    let mut buf = [0u8; 4];
    for i in 0..10 {
        cache.read_buf(0x10000 + i, &mut buf).unwrap();
    }
    assert_eq!(ram.reads.borrow().len(), 1);
    cache.clear_cache();
    cache.read_buf(0x10000, &mut buf).unwrap();
    assert_eq!(ram.reads.borrow().len(), 2);
}

#[test]
fn blocks_that_cannot_be_read_are_read_exactly() {
    let ram = Ram::new(0x10000, 0x12000);
    let cache = BlockCache::wrap(&ram);
    let mut buf = [0u8; 8];
    cache.read_buf(0x20100, &mut buf).unwrap();
    assert_eq!(buf[..], ram.bytes.borrow()[0x10100..0x10108]);
    cache.read_buf(0x20100, &mut buf).unwrap();
    assert_eq!(*ram.reads.borrow(), vec![(0x20000, 0x10000), (0x20100, 8), (0x20100, 8)]);
    assert_eq!(
        cache.read_buf(0x21ffc, &mut buf),
        Err(MemError::Backend("unmapped".to_string()))
    );
    let mut across = [0u8; 16];
    cache.read_buf(0x1fff8, &mut across).unwrap();
    assert_eq!(across[..], ram.bytes.borrow()[0xfff8..0x10008]);
}

#[test]
fn reads_of_nothing_ask_for_nothing() {
    let ram = Ram::new(0x10000, 0x10000);
    let cache = BlockCache::wrap(&ram);
    cache.read_buf(0, &mut []).unwrap();
    assert!(ram.reads.borrow().is_empty());
}

#[test]
fn what_is_written_is_read_back() {
    let ram = Ram::new(0x10000, 0x30000);
    let cache = BlockCache::wrap(&ram);
    let mut buf = [0u8; 4];
    cache.read_buf(0x10000, &mut buf).unwrap();
    cache.read_buf(0x1fffe, &mut buf).unwrap();
    cache.read_buf(0x30000, &mut buf).unwrap();
    assert_eq!(ram.reads.borrow().len(), 3);
    cache.write_buf(0x1fffe, &[1, 2, 3, 4]).unwrap();
    cache.read_buf(0x1fffe, &mut buf).unwrap();
    assert_eq!(buf, [1, 2, 3, 4]);
    assert_eq!(ram.reads.borrow().len(), 5);
    cache.read_buf(0x30000, &mut buf).unwrap();
    assert_eq!(ram.reads.borrow().len(), 5);
}

#[test]
fn blocks_that_were_written_to_are_fetched_anew() {
    let ram = Ram::new(0x10000, 0x30000);
    let mem = &ram;
    let mut table = BlockTable::new();
    for base in [0x10000, 0x20000, 0x30000, 0x20000] {
        let block = fetch_block(&mem, &mut table, base).unwrap();
        assert_eq!(block[0], ram.bytes.borrow()[(base - 0x10000) as usize]);
    }
    assert_eq!(ram.reads.borrow().len(), 3);
    assert_eq!(write_through(&mem, &mut table, 0x1fffe, &[9, 9, 9]), Ok(()));
    assert_eq!(fetch_block(&mem, &mut table, 0x20000).unwrap()[0], 9);
    assert_eq!(fetch_block(&mem, &mut table, 0x10000).unwrap()[0xffff], 9);
    fetch_block(&mem, &mut table, 0x30000);
    assert_eq!(ram.reads.borrow().len(), 5);
    assert!(fetch_block(&mem, &mut table, 0x40000).is_none());
    assert!(fetch_block(&mem, &mut table, 0x40000).is_none());
    assert_eq!(ram.reads.borrow().len(), 6);
}

#[test]
fn reads_after_writes_see_the_memory_as_it_is() {
    let ram = Ram::new(0x10000, 0x30000);
    let mem = &ram;
    let mut table = BlockTable::new();
    let mut buf = [0u8; 8];
    assert_eq!(read_through(&mem, &mut table, 0x1fffc, &mut buf), Ok(()));
    let before = buf;
    assert_eq!(ram.reads.borrow().len(), 2);
    assert_eq!(write_through(&mem, &mut table, 0x1fffe, &[7, 8, 9]), Ok(()));
    assert_eq!(read_through(&mem, &mut table, 0x1fffc, &mut buf), Ok(()));
    let after = [before[0], before[1], 7, 8, 9, before[5], before[6], before[7]];
    assert_eq!(buf, after);
    assert_eq!(ram.reads.borrow().len(), 4);
    assert_eq!(read_through(&mem, &mut table, 0x1fffc, &mut buf), Ok(()));
    assert_eq!(buf, after);
    assert_eq!(ram.reads.borrow().len(), 4);
}

#[test]
fn empty_writes_forget_nothing() {
    let ram = Ram::new(0x10000, 0x20000);
    let cache = BlockCache::wrap(&ram);
    let mut buf = [0u8; 4];
    cache.read_buf(0x10000, &mut buf).unwrap();
    assert_eq!(cache.write_buf(0x10000, &[]), Ok(()));
    cache.read_buf(0x10000, &mut buf).unwrap();
    assert_eq!(ram.reads.borrow().len(), 1);
    assert_eq!(BlockCache::wrap(ReadOnly).write_buf(0x10000, &[]), Err(MemError::WriteUnsupported));
}

#[test]
fn caches_can_be_read_where_the_memory_behind_them_can() {
    let region = [1u8; 4];
    let end = u64::MAX - 0x1_0000;
    let mem = MinidumpMem::from_regions(vec![(end, &region[..])]);
    assert!(mem.can_read(u64::MAX - 4, 4));
    assert!(!mem.can_read(u64::MAX - 4, 5));
    let cache = BlockCache::wrap(mem);
    assert!(cache.can_read(u64::MAX - 0x1_0000, 1));
    assert!(!cache.can_read(u64::MAX - 0x1_0000, 2));
    assert!(cache.can_read(u64::MAX, 0));
    assert!(!cache.can_read(u64::MAX, 2));
    assert!(cache.can_read(0, 0x2_0001));
}

#[test]
fn cached_reads_that_fail_keep_what_was_read() {
    let ram = Ram::new(0x10000, 0x12000);
    let cache = BlockCache::wrap(&ram);
    let mut buf = [9u8; 0x2006];
    assert!(cache.read_buf(0x1fffe, &mut buf).is_err());
    assert_eq!(buf[..2], ram.bytes.borrow()[0xfffe..0x10000]);
    assert_eq!(buf[2..], [9; 0x2004]);
}

#[test]
fn values_can_be_read_together_or_singly() {
    let ctx = context(Box::new(leak(0x100)));
    let together = ctx.read_vec::<u16>(0x10010, 5).unwrap();
    for i in 0..5u64 {
        assert_eq!(ctx.read::<u16>(0x10010 + 2 * i), Ok(together[i as usize]));
    }
    assert!(ctx.read_vec::<u16>(0x100fc, 3).is_err());
    assert!(ctx.read::<u16>(0x10100).is_err());
}

#[test]
fn one_of_many_tasks_loads_a_block() {
    let mut table = BlockTable::new();
    let ticket = match table.request(0x10000, 1) {
        Request::Load(ticket) => ticket,
        _ => panic!("nothing is loaded yet"),
    };
    assert!(matches!(table.request(0x10000, 2), Request::Wait(t) if t == ticket));
    assert!(matches!(table.request(0x20000, 3), Request::Load(t) if t != ticket));
    assert!(matches!(table.request(0x10000, 4), Request::Wait(t) if t == ticket));
    let block: Block = Some(Arc::new(vec![9; BLOCK_SIZE as usize]));
    assert_eq!(table.publish(ticket, block), vec![2, 4]);
    match table.request(0x10000, 5) {
        Request::Ready(Some(data)) => assert_eq!(data[0], 9),
        _ => panic!("the block was handed in"),
    }
}

#[test]
fn all_tasks_get_what_was_loaded() {
    for block in [Some(Arc::new(vec![1, 2, 3])), None] {
        let mut table = BlockTable::new();
        assert!(matches!(table.request(0x10000, 1), Request::Load(0)));
        assert!(matches!(table.request(0x20000, 2), Request::Load(1)));
        assert!(matches!(table.request(0x10000, 3), Request::Wait(0)));
        assert_eq!(table.publish(1, None), vec![]);
        assert!(matches!(table.request(0x10000, 4), Request::Wait(0)));
        assert_eq!(table.publish(0, block.clone()), vec![3, 4]);
        assert!(matches!(table.request(0x30000, 5), Request::Load(0)));
        for task in 6..9 {
            match table.request(0x10000, task) {
                Request::Ready(given) => assert_eq!(given, block),
                _ => panic!("asked to load or to wait"),
            }
        }
    }
}

#[test]
fn blocks_that_were_forgotten_meanwhile_are_not_kept() {
    let mut table = BlockTable::new();
    let first = match table.request(0x10000, 1) {
        Request::Load(ticket) => ticket,
        _ => panic!("nothing is loaded yet"),
    };
    assert!(matches!(table.request(0x10000, 2), Request::Wait(_)));
    table.invalidate(0x10000, 0x10000);
    let second = match table.request(0x10000, 3) {
        Request::Load(ticket) => ticket,
        _ => panic!("the block was forgotten"),
    };
    assert_ne!(first, second);
    assert_eq!(table.publish(first, Some(Arc::new(vec![1]))), vec![2]);
    assert!(matches!(table.request(0x10000, 4), Request::Wait(t) if t == second));
    assert_eq!(table.publish(second, None), vec![4]);
    assert!(matches!(table.request(0x10000, 5), Request::Ready(None)));
    table.clear();
    assert!(matches!(table.request(0x10000, 6), Request::Load(_)));
}

#[test]
fn contexts_read_and_write_values() {
    let ram = leak(0x1000);
    let ctx = context(Box::new(ram));
    assert_eq!(ctx.read::<u16>(0x10001), Ok(0x0201));
    assert_eq!(ctx.read_vec::<u16>(0x10000, 3), Ok(vec![0x0100, 0x0302, 0x0504]));
    assert_eq!(ctx.read_vec::<u32>(0x10000, 0), Ok(vec![]));
    ctx.write::<u32>(0x10010, &0xdeadbeef).unwrap();
    assert_eq!(ctx.read::<u32>(0x10010), Ok(0xdeadbeef));
    ctx.write_buf(0x10010, &[5]).unwrap();
    assert_eq!(ctx.read::<u32>(0x10010), Ok(0xdeadbe05));
    let mut buf = [0u8; 2];
    ctx.read_buf(0x10004, &mut buf).unwrap();
    assert_eq!(buf, [4, 5]);
    assert_eq!(ctx.read::<u8>(0), Err(MemError::Backend("unmapped".to_string())));
    assert_eq!(ctx.ue_version(), (5, 3));
    ctx.clear_cache();
}

#[test]
fn memory_can_refuse_to_be_written_to() {
    let ctx = context(Box::new(ReadOnly));
    assert_eq!(ctx.write::<u8>(1, &2), Err(MemError::WriteUnsupported));
    assert_eq!(ctx.read::<u8>(1), Ok(7));
}

#[test]
fn layouts_are_found_by_name() {
    let ctx = context(Box::new(ReadOnly));
    assert_eq!(ctx.get_struct("UObject").size, 0x28);
    assert_eq!(ctx.get_struct_member("UObject", "Outer").offset, 0x20);
    assert_eq!(ctx.struct_member("UObject", "Class"), 0x10);
    assert_eq!(ctx.struct_member_size("UObject", "Class"), 8);
}

#[test]
fn pointers_move_and_read() {
    let ram = leak(0x1000);
    let ctx = context(Box::new(ram));
    ctx.write::<u64>(0x10100, &0x10200).unwrap();
    ctx.write::<u64>(0x10108, &0).unwrap();
    assert!(matches!(Ptr::<u8>::new(0, ctx.clone()), Err(MemError::NullPointer)));
    let p = Ptr::<u32>::new(0x10000, ctx.clone()).unwrap();
    assert_eq!(p.address(), 0x10000);
    assert_eq!(p.offset(2).address(), 0x10008);
    assert_eq!(p.byte_offset(3).address(), 0x10003);
    assert_eq!(p.cast::<u8>().offset(2).address(), 0x10002);
    assert_eq!(p.read(), Ok(0x03020100));
    assert_eq!(p.read_vec(2), Ok(vec![0x03020100, 0x07060504]));
    assert_eq!(p.map(|a| a + 0x10).unwrap().address(), 0x10010);
    assert!(matches!(p.map(|_| 0), Err(MemError::NullPointer)));
    let slot = Ptr::<Ptr<u8>>::new(0x10100, ctx.clone()).unwrap();
    assert_eq!(slot.read().unwrap().address(), 0x10200);
    assert_eq!(slot.offset(1).address(), 0x10108);
    assert!(matches!(slot.offset(1).read(), Err(MemError::NullPointer)));
    let slot = Ptr::<Option<Ptr<u8>>>::new(0x10100, ctx.clone()).unwrap();
    assert_eq!(slot.read().unwrap().unwrap().address(), 0x10200);
    assert!(slot.offset(1).read().unwrap().is_none());
    let array = Ptr::<FScriptArray>::new(0x10100, ctx.clone()).unwrap();
    assert_eq!(array.data().read().unwrap().unwrap().address(), 0x10200);
    assert_eq!(array.num().read(), Ok(0));
    assert_eq!(array.ctx().ue_version(), (5, 3));
    let address = NonZeroAddress::new(5).unwrap();
    assert_eq!(Ptr::<u8>::new_non_zero(address, ctx).address(), 5);
    assert!(NonZeroAddress::new(0).is_none());
}

/// A Mach-O file with those load commands behind its header, then `data`.
fn macho(commands: &[Vec<u8>], data: &[u8]) -> Vec<u8> {
    let size: usize = commands.iter().map(|c| c.len()).sum();
    let mut file = vec![];
    file.extend(0xfeedfacfu32.to_le_bytes());
    file.extend([0; 8]);
    file.extend(4u32.to_le_bytes());
    file.extend((commands.len() as u32).to_le_bytes());
    file.extend((size as u32).to_le_bytes());
    file.extend([0; 8]);
    for command in commands {
        file.extend(command);
    }
    file.extend(data);
    file
}

fn segment(vmaddr: u64, fileoff: u64, filesize: u64) -> Vec<u8> {
    let mut c = vec![];
    c.extend(0x19u32.to_le_bytes());
    c.extend(72u32.to_le_bytes());
    c.extend([0; 16]);
    c.extend(vmaddr.to_le_bytes());
    c.extend(filesize.to_le_bytes());
    c.extend(fileoff.to_le_bytes());
    c.extend(filesize.to_le_bytes());
    c.extend([0; 16]);
    c
}

#[test]
fn core_files_are_read_across_segments() {
    let other = vec![1, 0, 0, 0, 8, 0, 0, 0];
    let head = 32 + 3 * 72 + 8;
    let file = macho(
        &[
            segment(0x2000, head + 4, 4),
            other,
            segment(0x1ffc, head, 4),
            segment(0x5000, 0, 0),
        ],
        &[1, 2, 3, 4, 5, 6, 7, 8],
    );
    let core = MachoCoreMem::open(&file).unwrap();
    let mut buf = [0u8; 8];
    core.read_buf(0x1ffc, &mut buf).unwrap();
    assert_eq!(buf, [1, 2, 3, 4, 5, 6, 7, 8]);
    let mut two = [0u8; 2];
    core.read_buf(0x1fff, &mut two).unwrap();
    assert_eq!(two, [4, 5]);
    assert_eq!(
        core.read_buf(0x2002, &mut buf),
        Err(MemError::Short { read: 2, total: 8, address: 0x2002 })
    );
    assert_eq!(
        core.read_buf(0x1ff8, &mut buf),
        Err(MemError::Short { read: 0, total: 8, address: 0x1ff8 })
    );
    assert_eq!(core.read_buf(u64::MAX, &mut two), Err(MemError::LengthOverflow));
    core.read_buf(0x9000, &mut []).unwrap();
    assert_eq!(core.write_buf(0x2000, &[1]), Err(MemError::WriteUnsupported));
    let cache = BlockCache::wrap(core);
    cache.read_buf(0x1ffe, &mut two).unwrap();
    assert_eq!(two, [3, 4]);
}

#[test]
fn core_reads_that_fail_fill_in_what_is_there() {
    let mut file = macho(&[segment(0x1000, 104, 4)], &[1, 2, 3, 4]);
    assert_eq!(file.len(), 108);
    let core = MachoCoreMem::open(&file).unwrap();
    let mut buf = [9u8; 4];
    assert_eq!(
        core.read_buf(0x1002, &mut buf),
        Err(MemError::Short { read: 2, total: 4, address: 0x1002 })
    );
    assert_eq!(buf, [3, 4, 9, 9]);
    assert_eq!(core.read_buf(u64::MAX, &mut buf), Err(MemError::LengthOverflow));
    assert_eq!(buf, [3, 4, 9, 9]);
    assert_eq!(core.file_type(), MH_CORE);
    file[12] = 2;
    assert_eq!(MachoCoreMem::open(&file).unwrap().file_type(), 2);
}

#[test]
fn the_first_of_overlapping_segments_counts() {
    let head = 32 + 2 * 72;
    let file = macho(
        &[segment(0x1002, head + 4, 4), segment(0x1000, head, 4)],
        &[1, 2, 3, 4, 5, 6, 7, 8],
    );
    let core = MachoCoreMem::open(&file).unwrap();
    let mut buf = [0u8; 6];
    core.read_buf(0x1000, &mut buf).unwrap();
    assert_eq!(buf, [1, 2, 3, 4, 7, 8]);
}

#[test]
fn segments_that_end_with_the_address_space_are_read_like_others() {
    let last = u64::MAX - 15;
    let file = macho(&[segment(0x1000, 0, 16), segment(last, 4, 16)], &[]);
    let core = MachoCoreMem::open(&file).unwrap_or_else(|_| panic!("refused"));
    let mut buf = [0u8; 4];
    core.read_buf(0x1000, &mut buf).unwrap();
    assert_eq!(buf, file[..4]);
    core.read_buf(u64::MAX - 4, &mut buf).unwrap();
    assert_eq!(buf, file[15..19]);
    assert_eq!(core.read_buf(u64::MAX - 3, &mut buf), Err(MemError::LengthOverflow));
    let cache = BlockCache::wrap(core);
    assert!(cache.can_read(last, 15));
    let mut buf = [0u8; 15];
    cache.read_buf(last, &mut buf).unwrap();
    assert_eq!(buf, file[4..19]);
    cache.read_buf(0x1000, &mut buf).unwrap();
    assert_eq!(buf, file[..15]);
    assert!(cache.read_buf(0x2000, &mut buf).is_err());
}

#[test]
fn broken_core_files_are_refused() {
    assert_eq!(MachoCoreMem::open(&[0; 31]).err(), Some(MachoError::TooSmall));
    assert_eq!(
        MachoCoreMem::open(&[0xce; 32]).err(),
        Some(MachoError::BadMagic { magic: 0xcececece })
    );
    let mut file = macho(&[segment(0, 0, 0)], &[]);
    file.truncate(100);
    assert_eq!(MachoCoreMem::open(&file).err(), Some(MachoError::CommandsPastEnd));
    let mut file = macho(&[segment(0, 0, 0)], &[]);
    file[16] = 2;
    assert_eq!(
        MachoCoreMem::open(&file).err(),
        Some(MachoError::TruncatedCommand { offset: 104 })
    );
    let mut file = macho(&[segment(0, 0, 0)], &[]);
    file[36] = 7;
    assert_eq!(
        MachoCoreMem::open(&file).err(),
        Some(MachoError::InvalidCommandSize { offset: 32 })
    );
    file[36] = 73;
    assert_eq!(
        MachoCoreMem::open(&file).err(),
        Some(MachoError::InvalidCommandSize { offset: 32 })
    );
    file[36] = 55;
    assert_eq!(
        MachoCoreMem::open(&file).err(),
        Some(MachoError::SegmentCommandTooSmall { offset: 32 })
    );
    let file = macho(&[segment(0x1000, 100, 5)], &[]);
    assert_eq!(
        MachoCoreMem::open(&file).err(),
        Some(MachoError::SegmentPastEnd { vmaddr: 0x1000, fileoff: 100 })
    );
    let file = macho(&[segment(0x1000, u64::MAX, 2)], &[]);
    assert_eq!(
        MachoCoreMem::open(&file).err(),
        Some(MachoError::SegmentPastEnd { vmaddr: 0x1000, fileoff: u64::MAX })
    );
}

#[test]
fn dumps_are_read_across_regions() {
    let a = [1u8, 2, 3, 4];
    let b = [5u8, 6, 7, 8];
    let mem = MinidumpMem::from_regions(vec![(0x1004, &b[..]), (0x3000, &[]), (0x1000, &a[..])]);
    let mut buf = [0u8; 4];
    mem.read_buf(0x1002, &mut buf).unwrap();
    assert_eq!(buf, [3, 4, 5, 6]);
    assert_eq!(
        mem.clone().read_buf(0x1006, &mut buf),
        Err(MemError::Short { read: 2, total: 4, address: 0x1006 })
    );
    assert_eq!(
        mem.read_buf(0x0ffe, &mut buf),
        Err(MemError::Short { read: 2, total: 4, address: 0x0ffe })
    );
    assert_eq!(
        mem.read_buf(0x3000, &mut buf),
        Err(MemError::Short { read: 0, total: 4, address: 0x3000 })
    );
    mem.read_buf(0x3000, &mut []).unwrap();
    assert_eq!(mem.write_buf(0x1000, &[1]), Err(MemError::WriteUnsupported));
}

#[test]
fn bytes_behind_a_gap_count_but_do_not_complete_a_read() {
    let a = [1u8, 2];
    let b = [3u8, 4];
    let mem = MinidumpMem::from_regions(vec![(0x1000, &a[..]), (0x1004, &b[..])]);
    let mut buf = [0u8; 6];
    assert_eq!(
        mem.read_buf(0x1000, &mut buf),
        Err(MemError::Short { read: 4, total: 6, address: 0x1000 })
    );
    assert_eq!(buf, [1, 2, 0, 0, 3, 4]);
    let mem = MinidumpMem::from_regions(vec![
        (0x1008, &[9u8][..]),
        (0x1002, &[3, 4][..]),
        (0x1000, &[1, 2][..]),
    ]);
    let mut buf = [7u8; 6];
    assert_eq!(
        mem.read_buf(0x1003, &mut buf),
        Err(MemError::Short { read: 2, total: 6, address: 0x1003 })
    );
    assert_eq!(buf, [4, 7, 7, 7, 7, 9]);
}

#[test]
fn regions_end_in_the_address_space() {
    assert!(MemoryRegion::new(u64::MAX - 1, &[0]).is_some());
    assert!(MemoryRegion::new(u64::MAX - 1, &[0, 0]).is_none());
}

/// A minidump with those streams.
fn minidump(streams: &[(u32, Vec<u8>)], tail: &[u8]) -> Vec<u8> {
    let mut file = vec![];
    file.extend(0x504d444du32.to_le_bytes());
    file.extend(0xa793u32.to_le_bytes());
    file.extend((streams.len() as u32).to_le_bytes());
    file.extend(32u32.to_le_bytes());
    file.extend([0; 16]);
    let mut at = 32 + 12 * streams.len();
    for (kind, bytes) in streams {
        file.extend(kind.to_le_bytes());
        file.extend((bytes.len() as u32).to_le_bytes());
        file.extend((at as u32).to_le_bytes());
        at += bytes.len();
    }
    for (_, bytes) in streams {
        file.extend(bytes);
    }
    file.extend(tail);
    file
}

fn memory_list(regions: &[(u64, u32, u32)]) -> Vec<u8> {
    let mut s = vec![];
    s.extend((regions.len() as u32).to_le_bytes());
    for (base, size, rva) in regions {
        s.extend(base.to_le_bytes());
        s.extend(size.to_le_bytes());
        s.extend(rva.to_le_bytes());
    }
    s
}

fn system_info(arch: u16, platform: u32) -> Vec<u8> {
    let mut s = vec![];
    s.extend(arch.to_le_bytes());
    s.extend([0; 14]);
    s.extend([0; 4]);
    s.extend(platform.to_le_bytes());
    s.extend([0; 32]);
    s
}

#[test]
fn the_memory_of_a_minidump_is_read() {
    let head = 32 + 12 + 4 + 2 * 16;
    let list = memory_list(&[(0x2000, 3, head + 2), (0x1ffe, 2, head)]);
    let file = minidump(&[(5, list)], &[10, 11, 12, 13, 14]);
    let mem = MinidumpMem::new(&file).unwrap_or_else(|e| panic!("{e:?}"));
    let mut buf = [0u8; 5];
    mem.read_buf(0x1ffe, &mut buf).unwrap();
    assert_eq!(buf, [10, 11, 12, 13, 14]);
    let cache = BlockCache::wrap(mem);
    let mut two = [0u8; 2];
    cache.read_buf(0x2001, &mut two).unwrap();
    assert_eq!(two, [13, 14]);
}

#[test]
fn minidumps_without_memory_are_refused() {
    assert!(is_minidump(&minidump(&[], &[])));
    assert!(!is_minidump(b"no minidump"));
    assert_eq!(MinidumpMem::new(b"no minidump").err(), Some(DumpError::Unreadable));
    assert_eq!(MinidumpMem::new(&minidump(&[], &[])).err(), Some(DumpError::NoMemoryList));
    let head = 32 + 12 + 4 + 16;
    let list = memory_list(&[(u64::MAX - 1, 2, head)]);
    assert_eq!(
        MinidumpMem::new(&minidump(&[(5, list)], &[1, 2])).err(),
        Some(DumpError::RegionOverflow { base: u64::MAX - 1 })
    );
}

/// A list of modules whose names lie at those places in the file.
fn module_list(modules: &[(u64, u32)]) -> Vec<u8> {
    let mut s = vec![];
    s.extend((modules.len() as u32).to_le_bytes());
    for (base, name) in modules {
        s.extend(base.to_le_bytes());
        s.extend(0x1000u32.to_le_bytes());
        s.extend([0; 8]);
        s.extend(name.to_le_bytes());
        s.extend([0; 84]);
    }
    s
}

fn utf16(text: &str) -> Vec<u8> {
    let units: Vec<u8> = text.encode_utf16().flat_map(|u| u.to_le_bytes()).collect();
    let mut s = vec![];
    s.extend((units.len() as u32).to_le_bytes());
    s.extend(units);
    s
}

#[test]
fn modules_of_a_minidump_are_found_by_name() {
    let names = [utf16("C:\\Game\\Game.exe"), utf16("C:\\Windows\\kernel32.dll")];
    let head = 32 + 12 + 4 + 2 * 108;
    let second = head + names[0].len() as u32;
    let list = module_list(&[(0x140000000, head), (0x7ff000000000, second)]);
    let file = minidump(&[(4, list)], &names.concat());
    assert_eq!(module_base_from_minidump(&file, "game.EXE"), Ok(0x140000000));
    assert_eq!(module_base_from_minidump(&file, "C:\\Windows\\kernel32.dll"), Ok(0x7ff000000000));
    assert_eq!(
        module_base_from_minidump(&file, "c:\\windows\\kernel32.dll"),
        Err(DumpError::NoModule { available: "Game.exe, kernel32.dll".to_string() })
    );
    assert_eq!(
        module_base_from_minidump(&minidump(&[], &[]), "x"),
        Err(DumpError::NoModuleList)
    );
    assert_eq!(module_base_from_minidump(&[], "x"), Err(DumpError::Unreadable));
}

#[test]
fn one_module_has_to_match() {
    let modules = vec![
        ("/a/libgame.so".to_string(), 1),
        ("/b/LibGame.so".to_string(), 2),
        ("/c/other.so".to_string(), 3),
    ];
    assert_eq!(module_base(&modules, "libgame.so"), Err(DumpError::AmbiguousModule));
    assert_eq!(module_base(&modules, "/b/LibGame.so"), Ok(2));
    assert_eq!(module_base(&modules, "OTHER.SO"), Ok(3));
    assert_eq!(
        module_base(&vec![], "x"),
        Err(DumpError::NoModule { available: String::new() })
    );
}

#[test]
fn the_target_of_a_minidump_is_inferred() {
    let windows = minidump(&[(7, system_info(9, 2))], &[]);
    let win64 = TargetTriplet {
        arch: TargetArchitecture::X86_64,
        sys: TargetOperatingSystem::Win32,
        env: Some(TargetEnvironment::MSVC),
    };
    assert_eq!(target_triplet_from_minidump(&windows), Some(win64));
    let android = minidump(&[(7, system_info(12, 0x8203))], &[]);
    assert_eq!(
        target_triplet_from_minidump(&android),
        Some(TargetTriplet {
            arch: TargetArchitecture::ARM64,
            sys: TargetOperatingSystem::Linux,
            env: Some(TargetEnvironment::Android),
        })
    );
    let x86 = minidump(&[(7, system_info(0, 2))], &[]);
    assert_eq!(target_triplet_from_minidump(&x86), None);
    assert_eq!(target_triplet_from_minidump(&minidump(&[], &[])), None);
    assert_eq!(target_triplet_from_minidump(&[]), None);
}

#[test]
fn targets_are_known_for_some_systems() {
    let of = |cpu, os| find_triplet(cpu, os).map(|t| (t.sys, t.env));
    assert_eq!(
        of(DumpCpu::X86_64, DumpOs::Linux),
        Some((TargetOperatingSystem::Linux, Some(TargetEnvironment::Gnu)))
    );
    assert_eq!(of(DumpCpu::Arm64, DumpOs::MacOs), Some((TargetOperatingSystem::Darwin, None)));
    assert_eq!(of(DumpCpu::Arm64, DumpOs::Ios), Some((TargetOperatingSystem::Darwin, None)));
    assert_eq!(of(DumpCpu::Arm64, DumpOs::Other), None);
    assert_eq!(of(DumpCpu::Other, DumpOs::Windows), None);
}

#[test]
fn short_transfers_fail() {
    assert_eq!(ProcessHandle::new(42).pid, 42);
    assert_eq!(transfer_result(8, 8, 0x10, String::new()), Ok(()));
    assert_eq!(
        transfer_result(-1, 8, 0x10, "denied".to_string()),
        Err(MemError::Backend("denied".to_string()))
    );
    assert_eq!(
        transfer_result(3, 8, 0x10, String::new()),
        Err(MemError::Short { read: 3, total: 8, address: 0x10 })
    );
}
