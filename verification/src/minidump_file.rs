//! The memory, the modules and the system that a minidump tells of.

use std::sync::Arc;

use minidump::system_info::{Cpu, Os};
use minidump::{Module, UnifiedMemory};
use vstd::prelude::*;

use crate::config::{TargetArchitecture, TargetEnvironment, TargetOperatingSystem, TargetTriplet};
use crate::mem::{copy_of, fill, Mem, MemError};
use crate::placement::{sort_by_start, HasStart, Placed};
use crate::text::{basename, eq_ignore_ascii_case, join, same_text};

verus! {

/// `minidump::Error`, the reason why bytes are no minidump.
#[verifier::external_type_specification]
#[verifier::external_body]
pub struct ExMinidumpError(minidump::Error);

/// Why a minidump does not give what is asked of it.
#[derive(Clone, PartialEq, Eq, Debug)]
pub enum DumpError {
    /// The bytes are no minidump.
    Unreadable,
    /// The minidump has no list of memory.
    NoMemoryList,
    /// The minidump has no list of modules.
    NoModuleList,
    /// A region of memory ends beyond the address space.
    RegionOverflow { base: u64 },
    /// No module matches; these are there.
    NoModule { available: String },
    /// More than one module matches.
    AmbiguousModule,
}

/// Whether bytes are a minidump.
pub uninterp spec fn minidump_parses(dump: Seq<u8>) -> bool;

/// What a minidump lists as memory: where each region begins, and its bytes. Nothing where it has
/// no such list.
pub uninterp spec fn minidump_memory(dump: Seq<u8>) -> Option<Seq<(u64, Seq<u8>)>>;

/// What a minidump lists as modules: the file of each, and where it is loaded. Nothing where it
/// has no such list.
pub uninterp spec fn minidump_modules(dump: Seq<u8>) -> Option<Seq<(Seq<char>, u64)>>;

/// The processor and the operating system that a minidump names. Nothing where it names none.
pub uninterp spec fn minidump_system(dump: Seq<u8>) -> Option<(DumpCpu, DumpOs)>;

/// Regions with their bytes as sequences.
pub open spec fn regions_view(regions: Seq<(u64, &[u8])>) -> Seq<(u64, Seq<u8>)> {
    regions.map_values(|r: (u64, &[u8])| (r.0, r.1@))
}

/// Calls `minidump::Minidump::read` on the bytes and `minidump::Minidump::get_memory` on what that
/// gives. Both depend on the bytes alone. The regions come in the order of the list. The parsed
/// directory is never freed, so that the regions live as long as the bytes.
#[verifier::external_body]
fn read_minidump_memory<'a>(dump: &'a [u8]) -> (r: Result<
    Option<Vec<(u64, &'a [u8])>>,
    minidump::Error,
>)
    ensures
        r is Ok <==> minidump_parses(dump@),
        r matches Ok(Some(v)) ==> minidump_memory(dump@) == Some(regions_view(v@)),
        r matches Ok(None) ==> minidump_memory(dump@) is None,
{
    let parsed: &'a minidump::Minidump<'a, &'a [u8]> = Box::leak(
        Box::new(minidump::Minidump::read(dump)?),
    );
    Ok(
        parsed.get_memory().map(
            |list|
                list.iter().map(
                    |m|
                        match m {
                            UnifiedMemory::Memory(m) => (m.base_address, m.bytes),
                            UnifiedMemory::Memory64(m) => (m.base_address, m.bytes),
                        },
                ).collect(),
        ),
    )
}

/// Calls `minidump::Minidump::read` on the bytes and `minidump::Minidump::get_stream` for the list
/// of modules on what that gives. Both depend on the bytes alone. The modules come in the order of
/// the list.
#[verifier::external_body]
fn read_minidump_modules(dump: &[u8]) -> (r: Result<Option<Vec<(String, u64)>>, minidump::Error>)
    ensures
        r is Ok <==> minidump_parses(dump@),
        r matches Ok(Some(v)) ==> minidump_modules(dump@) == Some(v.deep_view()),
        r matches Ok(None) ==> minidump_modules(dump@) is None,
{
    let parsed = minidump::Minidump::read(dump)?;
    let list = parsed.get_stream::<minidump::MinidumpModuleList>().ok();
    Ok(
        list.map(
            |list|
                list.iter().map(|m| (m.code_file().into_owned(), m.base_address())).collect(),
        ),
    )
}

/// A processor that a minidump can name.
#[derive(Clone, Copy, PartialEq, Eq, Debug, Structural)]
pub enum DumpCpu {
    X86_64,
    Arm64,
    Other,
}

/// An operating system that a minidump can name.
#[derive(Clone, Copy, PartialEq, Eq, Debug, Structural)]
pub enum DumpOs {
    Windows,
    Android,
    Linux,
    MacOs,
    Ios,
    Other,
}

/// Calls `minidump::Minidump::read` on the bytes and `minidump::Minidump::get_stream` for the
/// information on the system on what that gives. Both depend on the bytes alone. Processors and
/// systems that are told apart nowhere count as others.
#[verifier::external_body]
fn read_minidump_system(dump: &[u8]) -> (r: Result<Option<(DumpCpu, DumpOs)>, minidump::Error>)
    ensures
        r is Ok <==> minidump_parses(dump@),
        r matches Ok(v) ==> minidump_system(dump@) == v,
{
    let parsed = minidump::Minidump::read(dump)?;
    let info = parsed.get_stream::<minidump::MinidumpSystemInfo>().ok();
    Ok(info.map(|info| (match info.cpu {
        Cpu::X86_64 => DumpCpu::X86_64,
        Cpu::Arm64 => DumpCpu::Arm64,
        _ => DumpCpu::Other,
    }, match info.os {
        Os::Windows => DumpOs::Windows,
        Os::Android => DumpOs::Android,
        Os::Linux => DumpOs::Linux,
        Os::MacOs => DumpOs::MacOs,
        Os::Ios => DumpOs::Ios,
        _ => DumpOs::Other,
    })))
}

/// Tests whether bytes are a minidump.
pub fn is_minidump(dump: &[u8]) -> (r: bool)
    ensures
        r == minidump_parses(dump@),
{
    read_minidump_system(dump).is_ok()
}

/// The target of programs for that processor and operating system, where it is one that struct
/// layouts are known for.
pub open spec fn triplet_for(cpu: DumpCpu, os: DumpOs) -> Option<TargetTriplet> {
    let arch = match cpu {
        DumpCpu::X86_64 => Some(TargetArchitecture::X86_64),
        DumpCpu::Arm64 => Some(TargetArchitecture::ARM64),
        DumpCpu::Other => None,
    };
    let system = match os {
        DumpOs::Windows => Some((TargetOperatingSystem::Win32, Some(TargetEnvironment::MSVC))),
        DumpOs::Android => Some((TargetOperatingSystem::Linux, Some(TargetEnvironment::Android))),
        DumpOs::Linux => Some((TargetOperatingSystem::Linux, Some(TargetEnvironment::Gnu))),
        DumpOs::MacOs => Some((TargetOperatingSystem::Darwin, None)),
        DumpOs::Ios => Some((TargetOperatingSystem::Darwin, None)),
        DumpOs::Other => None,
    };
    match (arch, system) {
        (Some(arch), Some((sys, env))) => Some(TargetTriplet { arch, sys, env }),
        _ => None,
    }
}

/// Finds the target of programs for a processor and an operating system.
pub fn find_triplet(cpu: DumpCpu, os: DumpOs) -> (r: Option<TargetTriplet>)
    ensures
        r == triplet_for(cpu, os),
{
    let arch = match cpu {
        DumpCpu::X86_64 => TargetArchitecture::X86_64,
        DumpCpu::Arm64 => TargetArchitecture::ARM64,
        DumpCpu::Other => {
            return None;
        },
    };
    let (sys, env) = match os {
        DumpOs::Windows => (TargetOperatingSystem::Win32, Some(TargetEnvironment::MSVC)),
        DumpOs::Android => (TargetOperatingSystem::Linux, Some(TargetEnvironment::Android)),
        DumpOs::Linux => (TargetOperatingSystem::Linux, Some(TargetEnvironment::Gnu)),
        DumpOs::MacOs => (TargetOperatingSystem::Darwin, None),
        DumpOs::Ios => (TargetOperatingSystem::Darwin, None),
        DumpOs::Other => {
            return None;
        },
    };
    Some(TargetTriplet { arch, sys, env })
}

/// The target of the program that a minidump is of, where it names one.
pub open spec fn inferred_triplet(dump: Seq<u8>) -> Option<TargetTriplet> {
    match minidump_system(dump) {
        Some((cpu, os)) if minidump_parses(dump) => triplet_for(cpu, os),
        _ => None,
    }
}

/// Finds the target of the program that a minidump is of.
pub fn target_triplet_from_minidump(dump: &[u8]) -> (r: Option<TargetTriplet>)
    ensures
        r == inferred_triplet(dump@),
{
    match read_minidump_system(dump) {
        Ok(Some((cpu, os))) => find_triplet(cpu, os),
        _ => None,
    }
}

/// Whether a module is meant by a name: by its whole path, or by its file name in any case.
pub open spec fn module_matches(code_file: Seq<char>, name: Seq<char>) -> bool {
    code_file == name || crate::text::same_ignoring_ascii_case(
        crate::text::basename_of(code_file),
        name,
    )
}

/// The modules from position `i` on that are meant by a name, by where they are loaded.
pub open spec fn matching_bases(modules: Seq<(Seq<char>, u64)>, name: Seq<char>, i: int) -> Seq<u64>
    decreases modules.len() - i,
{
    if i < 0 || i >= modules.len() {
        Seq::empty()
    } else if module_matches(modules[i].0, name) {
        seq![modules[i].1] + matching_bases(modules, name, i + 1)
    } else {
        matching_bases(modules, name, i + 1)
    }
}

/// The file names of modules.
pub open spec fn file_names(modules: Seq<(Seq<char>, u64)>) -> Seq<Seq<char>> {
    modules.map_values(|m: (Seq<char>, u64)| crate::text::basename_of(m.0))
}

/// Whether looking for a module by name may end so: with the base of the one that is meant, or
/// with an error where there is none or more than one.
pub open spec fn module_base_is(
    modules: Seq<(Seq<char>, u64)>,
    name: Seq<char>,
    r: Result<u64, DumpError>,
) -> bool {
    let bases = matching_bases(modules, name, 0);
    match r {
        Ok(base) => bases == seq![base],
        Err(DumpError::NoModule { available }) => bases.len() == 0 && available@
            == crate::text::joined(file_names(modules), modules.len(), ", "@),
        Err(DumpError::AmbiguousModule) => bases.len() > 1,
        Err(_) => false,
    }
}

fn list_file_names(modules: &Vec<(String, u64)>) -> (r: String)
    ensures
        r@ == crate::text::joined(file_names(modules.deep_view()), modules@.len(), ", "@),
{
    let mut names: Vec<&str> = Vec::new();
    let mut i: usize = 0;
    while i < modules.len()
        invariant
            i <= modules@.len(),
            names.deep_view() == file_names(modules.deep_view()).take(i as int),
        decreases modules@.len() - i,
    {
        let ghost before = names.deep_view();
        let name = basename(modules[i].0.as_str());
        names.push(name);
        assert(file_names(modules.deep_view())[i as int] == name@);
        assert(names.deep_view() =~= before.push(name@));
        assert(names.deep_view() =~= file_names(modules.deep_view()).take(i + 1));
        i = i + 1;
    }
    assert(names.deep_view() =~= file_names(modules.deep_view()));
    join(&names, ", ")
}

/// Finds where the module that is meant by a name is loaded.
pub fn module_base(modules: &Vec<(String, u64)>, name: &str) -> (r: Result<u64, DumpError>)
    ensures
        module_base_is(modules.deep_view(), name@, r),
{
    let ghost list = modules.deep_view();
    let mut first: Option<u64> = None;
    let mut i: usize = 0;
    let ghost all = matching_bases(list, name@, 0);
    assert(Seq::<u64>::empty() + all =~= all);
    while i < modules.len()
        invariant
            i <= modules@.len(),
            list == modules.deep_view(),
            all == matching_bases(list, name@, 0),
            all == (match first {
                Some(base) => seq![base],
                None => Seq::<u64>::empty(),
            }) + matching_bases(list, name@, i as int),
        decreases modules@.len() - i,
    {
        let code_file = modules[i].0.as_str();
        assert(list[i as int] == (modules@[i as int].0@, modules@[i as int].1));
        if same_text(code_file, name) || eq_ignore_ascii_case(basename(code_file), name) {
            if let Some(base) = first {
                assert(all.len() > 1);
                return Err(DumpError::AmbiguousModule);
            }
            first = Some(modules[i].1);
            assert(all =~= seq![modules@[i as int].1] + matching_bases(list, name@, i + 1));
        }
        i = i + 1;
    }
    match first {
        Some(base) => {
            assert(all =~= seq![base]);
            Ok(base)
        },
        None => {
            assert(all =~= Seq::<u64>::empty());
            Err(DumpError::NoModule { available: list_file_names(modules) })
        },
    }
}

/// Whether looking for a module by name in a minidump may end so.
pub open spec fn named_base_is(dump: Seq<u8>, name: Seq<char>, r: Result<u64, DumpError>) -> bool {
    if !minidump_parses(dump) {
        r == Err::<u64, DumpError>(DumpError::Unreadable)
    } else {
        match minidump_modules(dump) {
            None => r == Err::<u64, DumpError>(DumpError::NoModuleList),
            Some(modules) => module_base_is(modules, name, r),
        }
    }
}

/// Finds where the module that is meant by a name is loaded in the program that a minidump is of.
pub fn module_base_from_minidump(dump: &[u8], name: &str) -> (r: Result<u64, DumpError>)
    ensures
        named_base_is(dump@, name@, r),
{
    match read_minidump_modules(dump) {
        Ok(Some(modules)) => module_base(&modules, name),
        Ok(None) => Err(DumpError::NoModuleList),
        Err(_) => Err(DumpError::Unreadable),
    }
}

/// Where a region ends.
pub open spec fn region_end(region: (u64, Seq<u8>)) -> int {
    region.0 + region.1.len()
}

/// Whether the byte at an address is one of a region.
pub open spec fn region_holds(region: (u64, Seq<u8>), address: int) -> bool {
    region.0 <= address < region_end(region)
}

impl Placed for (u64, Seq<u8>) {
    open spec fn start(&self) -> u64 {
        self.0
    }
}

/// What is left of regions without those that have no bytes.
pub open spec fn with_bytes(regions: Seq<(u64, Seq<u8>)>) -> Seq<(u64, Seq<u8>)>
    decreases regions.len(),
{
    if regions.len() == 0 {
        Seq::empty()
    } else if regions.last().1.len() == 0 {
        with_bytes(regions.drop_last())
    } else {
        with_bytes(regions.drop_last()).push(regions.last())
    }
}

/// A region of memory.
pub struct MemoryRegion<'a> {
    base_address: u64,
    end_address: u64,
    data: &'a [u8],
}

impl<'a> MemoryRegion<'a> {
    #[verifier::type_invariant]
    spec fn valid(&self) -> bool {
        self.end_address == self.base_address + self.data@.len()
    }

    /// Where the region begins, and its bytes.
    pub closed spec fn spec_region(&self) -> (u64, Seq<u8>) {
        (self.base_address, self.data@)
    }

    /// A region that begins at `base_address`, unless it would end beyond the address space.
    pub fn new(base_address: u64, data: &'a [u8]) -> (r: Option<Self>)
        ensures
            match r {
                Some(region) => region.spec_region() == (base_address, data@) && region_end(
                    region.spec_region(),
                ) <= u64::MAX,
                None => base_address + data@.len() > u64::MAX,
            },
    {
        match base_address.checked_add(data.len() as u64) {
            Some(end_address) => Some(MemoryRegion { base_address, end_address, data }),
            None => None,
        }
    }
}

impl<'a> Clone for MemoryRegion<'a> {
    fn clone(&self) -> (r: Self)
        ensures
            r == *self,
    {
        proof {
            use_type_invariant(self);
        }
        MemoryRegion {
            base_address: self.base_address,
            end_address: self.end_address,
            data: self.data,
        }
    }
}

impl<'a> Placed for MemoryRegion<'a> {
    closed spec fn start(&self) -> u64 {
        self.base_address
    }
}

impl<'a> HasStart for MemoryRegion<'a> {
    fn get_start(&self) -> (r: u64) {
        self.base_address
    }
}

/// What the regions from position `i` on make of `buf`, which stands for the bytes at `address`:
/// each puts in what it has of them, until as many bytes as there are have been put in. How many
/// were is counted on from `count`.
pub open spec fn copied(
    regions: Seq<(u64, Seq<u8>)>,
    i: int,
    address: int,
    buf: Seq<u8>,
    count: nat,
) -> (Seq<u8>, nat)
    decreases regions.len() - i,
{
    let end = address + buf.len();
    if i < 0 || i >= regions.len() || count >= buf.len() || regions[i].0 >= end {
        (buf, count)
    } else {
        let from = if regions[i].0 > address {
            regions[i].0 as int
        } else {
            address
        };
        let to = if region_end(regions[i]) < end {
            region_end(regions[i])
        } else {
            end
        };
        if from < to {
            let part = regions[i].1.subrange(from - regions[i].0, to - regions[i].0);
            copied(
                regions,
                i + 1,
                address,
                crate::mem::overlaid(buf, from - address, part),
                (count + (to - from)) as nat,
            )
        } else {
            copied(regions, i + 1, address, buf, count)
        }
    }
}

/// What a read into `buf` at `address` gives.
pub open spec fn dump_answer(regions: Seq<(u64, Seq<u8>)>, address: u64, buf: Seq<u8>) -> Result<
    Seq<u8>,
    MemError,
> {
    let (bytes, count) = copied(regions, 0, address as int, buf, 0);
    if count < buf.len() {
        Err(MemError::Short { read: count as usize, total: buf.len() as usize, address })
    } else {
        Ok(bytes)
    }
}

/// Whether each region has bytes.
pub open spec fn none_empty(regions: Seq<(u64, Seq<u8>)>) -> bool {
    forall|i: int| 0 <= i < regions.len() ==> (#[trigger] regions[i]).1.len() > 0
}

/// Whether the regions are in order and none reaches into the next.
pub open spec fn apart(regions: Seq<(u64, Seq<u8>)>) -> bool {
    forall|i: int, j: int|
        #![trigger regions[i], regions[j]]
        0 <= i < j < regions.len() ==> region_end(regions[i]) <= regions[j].0
}

/// The byte at an address, where a region has one.
pub open spec fn byte_in(regions: Seq<(u64, Seq<u8>)>, address: int) -> Option<u8> {
    if exists|i: int| 0 <= i < regions.len() && region_holds(#[trigger] regions[i], address) {
        let i = choose|i: int|
            0 <= i < regions.len() && region_holds(#[trigger] regions[i], address);
        Some(regions[i].1[address - regions[i].0])
    } else {
        None
    }
}

proof fn lemma_byte_in(regions: Seq<(u64, Seq<u8>)>, address: int, i: int)
    requires
        apart(regions),
        0 <= i < regions.len(),
        region_holds(regions[i], address),
    ensures
        byte_in(regions, address) == Some(regions[i].1[address - regions[i].0]),
{
    let j = choose|j: int| 0 <= j < regions.len() && region_holds(#[trigger] regions[j], address);
    assert(region_holds(regions[j], address));
    if i < j {
        assert(region_end(regions[i]) <= regions[j].0);
    } else if j < i {
        assert(region_end(regions[j]) <= regions[i].0);
    }
}

proof fn lemma_copied(
    regions: Seq<(u64, Seq<u8>)>,
    i: int,
    address: int,
    buf: Seq<u8>,
    count: nat,
    f: int,
)
    requires
        apart(regions),
        none_empty(regions),
        0 <= i <= regions.len(),
        0 <= f <= buf.len(),
        count <= f,
        forall|j: int|
            0 <= j < i ==> region_end(#[trigger] regions[j]) <= address + f || f == buf.len(),
        f > 0 ==> forall|j: int| i <= j < regions.len() ==> (#[trigger] regions[j]).0 >= address + f,
        count == f ==> forall|k: int|
            0 <= k < f ==> byte_in(regions, address + k) == Some(#[trigger] buf[k]),
        count < f ==> exists|k: int|
            0 <= k < buf.len() && #[trigger] byte_in(regions, address + k) is None,
    ensures
        copied(regions, i, address, buf, count).0.len() == buf.len(),
        copied(regions, i, address, buf, count).1 >= buf.len() ==> forall|k: int|
            0 <= k < buf.len() ==> byte_in(regions, address + k) == Some(
                #[trigger] copied(regions, i, address, buf, count).0[k],
            ),
        copied(regions, i, address, buf, count).1 < buf.len() ==> exists|k: int|
            0 <= k < buf.len() && #[trigger] byte_in(regions, address + k) is None,
    decreases regions.len() - i,
{
    let end = address + buf.len();
    if i >= regions.len() || count >= buf.len() || regions[i].0 >= end {
        if count == f && f < buf.len() {
            let a = address + f;
            assert forall|j: int| 0 <= j < regions.len() implies !region_holds(
                #[trigger] regions[j],
                a,
            ) by {
                if j >= i && i < j {
                    assert(region_end(regions[i]) <= regions[j].0);
                }
            }
            assert(byte_in(regions, address + f) is None);
        }
    } else {
        let from = if regions[i].0 > address {
            regions[i].0 as int
        } else {
            address
        };
        let to = if region_end(regions[i]) < end {
            region_end(regions[i])
        } else {
            end
        };
        if from < to {
            let part = regions[i].1.subrange(from - regions[i].0, to - regions[i].0);
            let next = crate::mem::overlaid(buf, from - address, part);
            let next_count = (count + (to - from)) as nat;
            assert(from - address >= f);
            assert(next.len() == buf.len());
            if from - address > f {
                let a = address + f;
                assert forall|j: int| 0 <= j < regions.len() implies !region_holds(
                    #[trigger] regions[j],
                    a,
                ) by {
                    if i < j {
                        assert(region_end(regions[i]) <= regions[j].0);
                    }
                }
                assert(byte_in(regions, address + f) is None);
            }
            if next_count == to - address {
                assert forall|k: int| 0 <= k < to - address implies byte_in(regions, address + k)
                    == Some(#[trigger] next[k]) by {
                    if k < f {
                        assert(next[k] == buf[k]);
                    } else {
                        lemma_byte_in(regions, address + k, i);
                        assert(next[k] == part[k - f]);
                    }
                }
            }
            assert forall|j: int| i + 1 <= j < regions.len() implies (#[trigger] regions[j]).0
                >= to by {
                assert(region_end(regions[i]) <= regions[j].0);
            }
            lemma_copied(regions, i + 1, address, next, next_count, to - address);
        } else {
            if f > 0 {
                assert forall|j: int| i + 1 <= j < regions.len() implies (#[trigger] regions[j]).0
                    >= address + f by {}
            }
            lemma_copied(regions, i + 1, address, buf, count, f);
        }
    }
}

proof fn lemma_copied_skips(
    regions: Seq<(u64, Seq<u8>)>,
    i: int,
    n: int,
    address: int,
    buf: Seq<u8>,
)
    requires
        0 <= i <= n <= regions.len(),
        none_empty(regions),
        forall|j: int| i <= j < n ==> region_end(#[trigger] regions[j]) <= address,
    ensures
        copied(regions, i, address, buf, 0) == copied(regions, n, address, buf, 0),
    decreases n - i,
{
    if i < n {
        lemma_copied_skips(regions, i + 1, n, address, buf);
    }
}

/// Where the furthest of the first regions up to position `i` ends.
spec fn furthest(regions: Seq<MemoryRegion<'_>>, reach: Seq<u64>) -> bool {
    &&& reach.len() == regions.len()
    &&& forall|i: int, j: int|
        #![trigger regions[j], reach[i]]
        0 <= j <= i < reach.len() ==> region_end(regions[j].spec_region()) <= reach[i]
}

/// The memory in a minidump.
pub struct MinidumpMem<'a> {
    regions: Arc<Vec<MemoryRegion<'a>>>,
    reach: Arc<Vec<u64>>,
}

impl<'a> Clone for MinidumpMem<'a> {
    fn clone(&self) -> (r: Self)
        ensures
            r == *self,
    {
        proof {
            use_type_invariant(self);
        }
        MinidumpMem { regions: self.regions.clone(), reach: self.reach.clone() }
    }
}

/// Whether the region at position `i` is the first that ends beyond the address space.
pub open spec fn first_overflow(regions: Seq<(u64, Seq<u8>)>, i: int) -> bool {
    &&& 0 <= i < regions.len()
    &&& region_end(regions[i]) > u64::MAX
    &&& forall|k: int| 0 <= k < i ==> region_end(#[trigger] regions[k]) <= u64::MAX
}

/// Whether the first region that ends beyond the address space begins at `base`.
pub open spec fn overflows_at(regions: Seq<(u64, Seq<u8>)>, base: u64) -> bool {
    exists|i: int| #[trigger] first_overflow(regions, i) && regions[i].0 == base
}

/// The regions with their bytes as sequences.
pub open spec fn region_views(regions: Seq<MemoryRegion<'_>>) -> Seq<(u64, Seq<u8>)> {
    regions.map_values(|r: MemoryRegion<'_>| r.spec_region())
}

fn reach_of(regions: &Vec<MemoryRegion<'_>>) -> (r: Vec<u64>)
    ensures
        furthest(regions@, r@),
{
    let mut reach: Vec<u64> = Vec::new();
    let mut most: u64 = 0;
    let mut i: usize = 0;
    while i < regions.len()
        invariant
            i <= regions@.len(),
            reach@.len() == i,
            forall|k: int, j: int|
                #![trigger regions@[j], reach@[k]]
                0 <= j <= k < i ==> region_end(regions@[j].spec_region()) <= reach@[k],
            forall|j: int|
                0 <= j < i ==> region_end((#[trigger] regions@[j]).spec_region()) <= most,
        decreases regions@.len() - i,
    {
        let region = &regions[i];
        proof {
            use_type_invariant(region);
        }
        if region.end_address > most {
            most = region.end_address;
        }
        reach.push(most);
        i = i + 1;
    }
    reach
}

/// The regions of a memory all have bytes.
pub proof fn regions_have_bytes(regions: Seq<(u64, Seq<u8>)>)
    ensures
        none_empty(crate::placement::in_order(with_bytes(regions))),
{
    lemma_with_bytes(regions);
    lemma_in_order_none_empty(with_bytes(regions));
}

proof fn lemma_with_bytes(regions: Seq<(u64, Seq<u8>)>)
    ensures
        none_empty(with_bytes(regions)),
    decreases regions.len(),
{
    if regions.len() > 0 {
        lemma_with_bytes(regions.drop_last());
    }
}

proof fn lemma_in_order_none_empty(regions: Seq<(u64, Seq<u8>)>)
    requires
        none_empty(regions),
    ensures
        none_empty(crate::placement::in_order(regions)),
{
    broadcast use vstd::seq_lib::group_to_multiset_ensures;

    let sorted = crate::placement::in_order(regions);
    crate::placement::in_order_is_sorted(regions);
    assert forall|i: int| 0 <= i < sorted.len() implies (#[trigger] sorted[i]).1.len() > 0 by {
        assert(sorted.contains(sorted[i]));
        assert(sorted.to_multiset().count(sorted[i]) > 0);
        assert(regions.contains(sorted[i]));
    }
}

impl<'a> MinidumpMem<'a> {
    #[verifier::type_invariant]
    spec fn valid(&self) -> bool {
        &&& none_empty(region_views(self.regions@))
        &&& furthest(self.regions@, self.reach@)
    }

    /// The regions in the order of their addresses.
    pub closed spec fn spec_regions(&self) -> Seq<(u64, Seq<u8>)> {
        region_views(self.regions@)
    }

    /// The memory that consists of those regions. Regions without bytes are left out.
    pub fn from_regions(list: Vec<(u64, &'a [u8])>) -> (r: Self)
        requires
            forall|i: int|
                0 <= i < list@.len() ==> region_end((#[trigger] regions_view(list@)[i]))
                    <= u64::MAX,
        ensures
            r.spec_regions() == crate::placement::in_order(with_bytes(regions_view(list@))),
    {
        let ghost all = regions_view(list@);
        let mut regions: Vec<MemoryRegion<'a>> = Vec::new();
        let mut i: usize = 0;
        assert(region_views(regions@) =~= with_bytes(all.take(0)));
        while i < list.len()
            invariant
                i <= list@.len(),
                all == regions_view(list@),
                forall|k: int| 0 <= k < list@.len() ==> region_end((#[trigger] all[k])) <= u64::MAX,
                region_views(regions@) == with_bytes(all.take(i as int)),
            decreases list@.len() - i,
        {
            let (base, data) = list[i];
            assert(all[i as int] == (base, data@));
            assert(all.take(i + 1).drop_last() =~= all.take(i as int));
            let ghost before = region_views(regions@);
            if data.len() > 0 {
                match MemoryRegion::new(base, data) {
                    Some(region) => {
                        regions.push(region);
                        assert(region_views(regions@) =~= before.push((base, data@)));
                    },
                    None => {},
                }
            }
            i = i + 1;
        }
        assert(all.take(list@.len() as int) =~= all);
        let ghost unsorted = regions@;
        let regions = sort_by_start(regions);
        proof {
            let f = |r: MemoryRegion<'_>| r.spec_region();
            crate::placement::in_order_of_mapped(unsorted, f);
            assert(region_views(regions@) == crate::placement::in_order(with_bytes(all)));
            regions_have_bytes(all);
        }
        let reach = reach_of(&regions);
        MinidumpMem { regions: Arc::new(regions), reach: Arc::new(reach) }
    }

    /// The memory in a minidump.
    pub fn new(dump: &'a [u8]) -> (r: Result<Self, DumpError>)
        ensures
            !minidump_parses(dump@) ==> r == Err::<Self, DumpError>(DumpError::Unreadable),
            minidump_parses(dump@) ==> match minidump_memory(dump@) {
                None => r == Err::<Self, DumpError>(DumpError::NoMemoryList),
                Some(regions) => match r {
                    Ok(m) => m.spec_regions() == crate::placement::in_order(with_bytes(regions))
                        && forall|i: int|
                        0 <= i < regions.len() ==> region_end(#[trigger] regions[i]) <= u64::MAX,
                    Err(DumpError::RegionOverflow { base }) => overflows_at(regions, base),
                    Err(_) => false,
                },
            },
    {
        let list = match read_minidump_memory(dump) {
            Ok(Some(list)) => list,
            Ok(None) => {
                return Err(DumpError::NoMemoryList);
            },
            Err(_) => {
                return Err(DumpError::Unreadable);
            },
        };
        let ghost all = regions_view(list@);
        let mut i: usize = 0;
        while i < list.len()
            invariant
                i <= list@.len(),
                all == regions_view(list@),
                minidump_parses(dump@),
                minidump_memory(dump@) == Some(all),
                forall|k: int| 0 <= k < i ==> region_end(#[trigger] all[k]) <= u64::MAX,
            decreases list@.len() - i,
        {
            let (base, data) = list[i];
            assert(all[i as int] == (base, data@));
            if base.checked_add(data.len() as u64).is_none() {
                assert(first_overflow(all, i as int) && all[i as int].0 == base);
                assert(overflows_at(all, base));
                return Err(DumpError::RegionOverflow { base });
            }
            i = i + 1;
        }
        Ok(MinidumpMem::from_regions(list))
    }
}

impl<'a> Mem for MinidumpMem<'a> {
    open spec fn admits(&self, address: u64, len: nat) -> bool {
        address + len <= u64::MAX
    }

    open spec fn admits_write(&self, address: u64, len: nat) -> bool {
        true
    }

    open spec fn may_answer(
        &self,
        address: u64,
        len: nat,
        answer: Result<Seq<u8>, MemError>,
    ) -> bool {
        exists|buf: Seq<u8>|
            buf.len() == len && answer == #[trigger] dump_answer(self.spec_regions(), address, buf)
    }

    open spec fn may_write(&self, address: u64, bytes: Seq<u8>, r: Result<(), MemError>) -> bool {
        crate::mem::refused(r)
    }

    fn can_read(&self, address: u64, len: usize) -> (r: bool) {
        address.checked_add(len as u64).is_some()
    }

    fn write_buf(&self, address: u64, buf: &[u8]) -> (r: Result<(), MemError>) {
        Err(MemError::WriteUnsupported)
    }

    /// Fills `buf` with the bytes at `address`. Where some are none, those that are there are put
    /// in all the same, and `buf` stays as it is in the other places.
    fn read_buf(&self, address: u64, buf: &mut [u8]) -> (r: Result<(), MemError>)
        ensures
            final(buf)@ == copied(self.spec_regions(), 0, address as int, old(buf)@, 0).0,
    {
        proof {
            use_type_invariant(self);
        }
        let total: usize = buf.len();
        let read_end: u64 = address + total as u64;
        let ghost regions = self.spec_regions();
        let ghost before = buf@;
        let mut lo: usize = 0;
        let mut hi: usize = self.regions.len();
        while lo < hi
            invariant
                regions == region_views(self.regions@),
                furthest(self.regions@, self.reach@),
                lo <= hi <= regions.len(),
                forall|j: int| 0 <= j < lo ==> region_end(#[trigger] regions[j]) <= address,
            decreases hi - lo,
        {
            let mid: usize = lo + (hi - lo) / 2;
            if self.reach[mid] <= address {
                assert forall|j: int| 0 <= j < mid + 1 implies region_end(#[trigger] regions[j])
                    <= address by {
                    assert(region_end(self.regions@[j].spec_region()) <= self.reach@[mid as int]);
                }
                lo = mid + 1;
            } else {
                hi = mid;
            }
        }
        proof {
            lemma_copied_skips(regions, 0, lo as int, address as int, before);
        }
        let mut i: usize = lo;
        let mut count: u128 = 0;
        let mut done: bool = false;
        while i < self.regions.len() && !done
            invariant
                regions == region_views(self.regions@),
                total == buf@.len(),
                total == before.len(),
                before == old(buf)@,
                read_end == address + total,
                i <= regions.len(),
                count <= 2 * total,
                copied(regions, 0, address as int, before, 0) == copied(
                    regions,
                    i as int,
                    address as int,
                    buf@,
                    count as nat,
                ),
                done ==> copied(regions, i as int, address as int, buf@, count as nat) == (
                    buf@,
                    count as nat,
                ),
            decreases
                    regions.len() - i,
                    if done {
                        0int
                    } else {
                        1int
                    },
        {
            let region = &self.regions[i];
            proof {
                use_type_invariant(region);
                assert(regions[i as int] == region.spec_region());
            }
            if count >= total as u128 || region.base_address >= read_end {
                done = true;
            } else {
                let from: u64 = if region.base_address > address {
                    region.base_address
                } else {
                    address
                };
                let to: u64 = if region.end_address < read_end {
                    region.end_address
                } else {
                    read_end
                };
                if from < to {
                    let n: usize = (to - from) as usize;
                    let size: usize = region.data.len();
                    assert(to - region.base_address <= size);
                    let part = copy_of(region.data, (from - region.base_address) as usize, n);
                    fill(buf, (from - address) as usize, part.as_slice());
                    count = count + n as u128;
                }
                i = i + 1;
            }
        }
        proof {
            assert(dump_answer(regions, address, before) == dump_answer(
                self.spec_regions(),
                address,
                before,
            ));
        }
        if count < total as u128 {
            return Err(MemError::Short { read: count as usize, total, address });
        }
        Ok(())
    }
}

/// A minidump whose regions lie apart is memory that always has the same bytes: a read gives them,
/// or fails where one of them is none.
pub proof fn dump_is_steady(dump: MinidumpMem<'_>)
    requires
        apart(dump.spec_regions()),
        none_empty(dump.spec_regions()),
    ensures
        crate::cache::steady(dump, |address: int| byte_in(dump.spec_regions(), address)),
{
    let regions = dump.spec_regions();
    let bytes = |address: int| byte_in(regions, address);
    assert forall|address: u64, len: nat, answer: Result<Seq<u8>, MemError>| #[trigger]
        dump.may_answer(address, len, answer) implies crate::cache::reflects(
        bytes,
        address as int,
        len,
        answer,
    ) by {
        let buf = choose|buf: Seq<u8>|
            buf.len() == len && answer == #[trigger] dump_answer(regions, address, buf);
        lemma_copied(regions, 0, address as int, buf, 0, 0);
        let (given, count) = copied(regions, 0, address as int, buf, 0);
        if count < len {
            let k = choose|k: int|
                0 <= k < buf.len() && #[trigger] byte_in(regions, address + k) is None;
            assert(bytes(address + k) is None);
        } else {
            assert forall|k: int| 0 <= k < len implies bytes(address + k) == Some(
                #[trigger] given[k],
            ) by {
                assert(byte_in(regions, address + k) == Some(given[k]));
            }
        }
    }
}

proof fn lemma_matching_bases(modules: Seq<(Seq<char>, u64)>, name: Seq<char>, i: int)
    requires
        0 <= i <= modules.len(),
    ensures
        matching_bases(modules, name, i).len() == 0 <==> forall|k: int|
            i <= k < modules.len() ==> !module_matches((#[trigger] modules[k]).0, name),
        matching_bases(modules, name, i).len() == 1 ==> exists|k: int|
            i <= k < modules.len() && #[trigger] only_match(modules, name, i, k)
                && matching_bases(modules, name, i)[0] == modules[k].1,
        matching_bases(modules, name, i).len() > 1 ==> exists|k: int, l: int|
            #![trigger modules[k], modules[l]]
            i <= k < l < modules.len() && module_matches(modules[k].0, name) && module_matches(
                modules[l].0,
                name,
            ),
    decreases modules.len() - i,
{
    if i < modules.len() {
        lemma_matching_bases(modules, name, i + 1);
        let rest = matching_bases(modules, name, i + 1);
        if module_matches(modules[i].0, name) {
            if rest.len() == 0 {
                assert(only_match(modules, name, i, i));
            } else {
                if rest.len() == 1 {
                    let k = choose|k: int|
                        i + 1 <= k < modules.len() && #[trigger] only_match(
                            modules,
                            name,
                            i + 1,
                            k,
                        );
                    assert(module_matches(modules[k].0, name));
                }
                let k = choose|k: int|
                    i + 1 <= k < modules.len() && module_matches((#[trigger] modules[k]).0, name);
                assert(modules[i] == modules[i] && modules[k] == modules[k]);
            }
        } else {
            if rest.len() == 1 {
                let k = choose|k: int|
                    i + 1 <= k < modules.len() && #[trigger] only_match(modules, name, i + 1, k)
                        && rest[0] == modules[k].1;
                assert(only_match(modules, name, i, k));
            }
        }
    }
}

/// Whether of the modules from position `i` on only that at position `k` is meant by a name.
pub open spec fn only_match(
    modules: Seq<(Seq<char>, u64)>,
    name: Seq<char>,
    i: int,
    k: int,
) -> bool {
    module_matches(modules[k].0, name) && forall|l: int|
        i <= l < modules.len() && module_matches((#[trigger] modules[l]).0, name) ==> l == k
}

/// Whether `name` means a module: it is the whole path of its file, or the last part of that but
/// for the case of ASCII letters.
pub open spec fn means(code_file: Seq<char>, name: Seq<char>) -> bool {
    code_file == name || exists|n: int| #[trigger]
        is_file_name_from(code_file, n) && name.len() == code_file.len() - n && forall|k: int|
            0 <= k < name.len() ==> crate::text::same_letter(
                code_file[n + k],
                #[trigger] name[k],
            )
}

/// Whether the file name in a path begins at position `n`.
pub open spec fn is_file_name_from(path: Seq<char>, n: int) -> bool {
    &&& 0 <= n <= path.len()
    &&& n > 0 ==> path[n - 1] == '/' || path[n - 1] == '\\'
    &&& forall|k: int| n <= k < path.len() ==> #[trigger] path[k] != '/' && path[k] != '\\'
}

/// A name means a module by the whole path of its file, or by the file name in it whatever the case
/// of its letters.
pub proof fn names_mean_modules(code_file: Seq<char>, name: Seq<char>)
    ensures
        module_matches(code_file, name) <==> means(code_file, name),
{
    let base = crate::text::basename_of(code_file);
    let n = code_file.len() - base.len();
    crate::text::basename_is_what_is_last(code_file);
    crate::text::only_case_of_letters_is_ignored(base, name);
    assert forall|k: int| n <= k < code_file.len() implies #[trigger] code_file[k] != '/'
        && code_file[k] != '\\' by {
        assert(base[k - n] == code_file[k]);
        assert(base.contains(code_file[k]));
    }
    assert(is_file_name_from(code_file, n));
    if module_matches(code_file, name) && code_file != name {
        assert forall|k: int| 0 <= k < name.len() implies crate::text::same_letter(
            code_file[n + k],
            #[trigger] name[k],
        ) by {
            assert(crate::text::same_letter(base[k], name[k]));
        }
    }
    if means(code_file, name) && code_file != name {
        let m = choose|m: int| #[trigger]
            is_file_name_from(code_file, m) && name.len() == code_file.len() - m && forall|k: int|
                0 <= k < name.len() ==> crate::text::same_letter(
                    code_file[m + k],
                    #[trigger] name[k],
                );
        if m < n {
            assert(code_file[n - 1] != '/');
        } else if n < m {
            assert(code_file[m - 1] != '/');
        }
        assert forall|k: int| 0 <= k < base.len() implies crate::text::same_letter(
            #[trigger] base[k],
            name[k],
        ) by {
            assert(name[k] == name[k]);
        }
    }
}

/// A module is found just where the name means it and no other: its base is given. Where the name
/// means none or more than one, the error says which of both it is.
pub proof fn one_module_is_meant(
    modules: Seq<(Seq<char>, u64)>,
    name: Seq<char>,
    r: Result<u64, DumpError>,
)
    requires
        module_base_is(modules, name, r),
    ensures
        match r {
            Ok(base) => exists|k: int|
                0 <= k < modules.len() && (#[trigger] modules[k]).1 == base && means(
                    modules[k].0,
                    name,
                ) && forall|l: int|
                    0 <= l < modules.len() && means((#[trigger] modules[l]).0, name) ==> l == k,
            Err(DumpError::NoModule { .. }) => forall|k: int|
                0 <= k < modules.len() ==> !means((#[trigger] modules[k]).0, name),
            Err(DumpError::AmbiguousModule) => exists|k: int, l: int|
                #![trigger modules[k], modules[l]]
                0 <= k < l < modules.len() && means(modules[k].0, name) && means(
                    modules[l].0,
                    name,
                ),
            Err(_) => false,
        },
{
    lemma_matching_bases(modules, name, 0);
    assert forall|k: int| 0 <= k < modules.len() implies module_matches(
        (#[trigger] modules[k]).0,
        name,
    ) == means(modules[k].0, name) by {
        names_mean_modules(modules[k].0, name);
    }
    if let Ok(base) = r {
        let k = choose|k: int|
            0 <= k < modules.len() && #[trigger] only_match(modules, name, 0, k)
                && matching_bases(modules, name, 0)[0] == modules[k].1;
        assert(modules[k].1 == base && means(modules[k].0, name));
    }
    if r == Err::<u64, DumpError>(DumpError::AmbiguousModule) {
        let (k, l) = choose|k: int, l: int|
            #![trigger modules[k], modules[l]]
            0 <= k < l < modules.len() && module_matches(modules[k].0, name) && module_matches(
                modules[l].0,
                name,
            );
        assert(means(modules[k].0, name) && means(modules[l].0, name));
    }
}

/// The target of a minidump follows from the processor and the system that it names, each by
/// itself; there is none where one of them is not known.
pub proof fn targets_follow_from_the_system(cpu: DumpCpu, os: DumpOs)
    ensures
        triplet_for(cpu, os) is None <==> cpu == DumpCpu::Other || os == DumpOs::Other,
        triplet_for(cpu, os) matches Some(target) ==> {
            &&& target.arch == TargetArchitecture::X86_64 <==> cpu == DumpCpu::X86_64
            &&& target.arch == TargetArchitecture::ARM64 <==> cpu == DumpCpu::Arm64
            &&& target.sys == TargetOperatingSystem::Win32 <==> os == DumpOs::Windows
            &&& target.sys == TargetOperatingSystem::Linux <==> os == DumpOs::Linux || os
                == DumpOs::Android
            &&& target.sys == TargetOperatingSystem::Darwin <==> os == DumpOs::MacOs || os
                == DumpOs::Ios
            &&& target.env == Some(TargetEnvironment::MSVC) <==> os == DumpOs::Windows
            &&& target.env == Some(TargetEnvironment::Gnu) <==> os == DumpOs::Linux
            &&& target.env == Some(TargetEnvironment::Android) <==> os == DumpOs::Android
            &&& target.env is None <==> target.sys == TargetOperatingSystem::Darwin
        },
{
}

/// What a minidump says of its system counts only where it is a minidump and says something.
pub proof fn targets_come_from_minidumps(dump: Seq<u8>)
    ensures
        match minidump_system(dump) {
            Some((cpu, os)) => inferred_triplet(dump) == if minidump_parses(dump) {
                triplet_for(cpu, os)
            } else {
                None
            },
            None => inferred_triplet(dump) is None,
        },
{
}

proof fn lemma_with_bytes_contains(regions: Seq<(u64, Seq<u8>)>, r: (u64, Seq<u8>))
    ensures
        with_bytes(regions).contains(r) <==> regions.contains(r) && r.1.len() > 0,
    decreases regions.len(),
{
    if regions.len() > 0 {
        let rest = regions.drop_last();
        lemma_with_bytes_contains(rest, r);
        let kept = with_bytes(rest);
        let all = with_bytes(regions);
        if kept.contains(r) {
            let k = choose|k: int| 0 <= k < kept.len() && kept[k] == r;
            assert(all[k] == r);
        }
        if all.contains(r) {
            let k = choose|k: int| 0 <= k < all.len() && all[k] == r;
            if k < kept.len() {
                assert(kept[k] == r);
            } else {
                assert(regions[regions.len() - 1] == r);
            }
        }
        if regions.contains(r) {
            let k = choose|k: int| 0 <= k < regions.len() && regions[k] == r;
            if k < rest.len() {
                assert(rest[k] == r);
            } else if r.1.len() > 0 {
                assert(all[all.len() - 1] == r);
            }
        }
        if rest.contains(r) {
            let k = choose|k: int| 0 <= k < rest.len() && rest[k] == r;
            assert(regions[k] == r);
        }
    }
}

/// The memory of a minidump has each byte of each region that is listed, at its address, and no
/// other byte.
pub proof fn memory_is_what_is_listed(listed: Seq<(u64, Seq<u8>)>, address: int)
    requires
        apart(crate::placement::in_order(with_bytes(listed))),
    ensures
        match byte_in(crate::placement::in_order(with_bytes(listed)), address) {
            Some(b) => exists|i: int|
                0 <= i < listed.len() && region_holds(#[trigger] listed[i], address) && b
                    == listed[i].1[address - listed[i].0],
            None => forall|i: int|
                0 <= i < listed.len() ==> !region_holds(#[trigger] listed[i], address),
        },
{
    broadcast use vstd::seq_lib::group_to_multiset_ensures;

    let kept = with_bytes(listed);
    let sorted = crate::placement::in_order(kept);
    crate::placement::in_order_is_sorted(kept);
    if exists|i: int| 0 <= i < sorted.len() && region_holds(#[trigger] sorted[i], address) {
        let i = choose|i: int| 0 <= i < sorted.len() && region_holds(#[trigger] sorted[i], address);
        lemma_byte_in(sorted, address, i);
        assert(sorted.contains(sorted[i]));
        assert(sorted.to_multiset().count(sorted[i]) > 0);
        assert(kept.contains(sorted[i]));
        lemma_with_bytes_contains(listed, sorted[i]);
        let k = choose|k: int| 0 <= k < listed.len() && listed[k] == sorted[i];
        assert(region_holds(listed[k], address));
    } else {
        assert forall|i: int| 0 <= i < listed.len() implies !region_holds(
            #[trigger] listed[i],
            address,
        ) by {
            if region_holds(listed[i], address) {
                lemma_with_bytes_contains(listed, listed[i]);
                assert(listed.contains(listed[i]));
                assert(kept.to_multiset().count(listed[i]) > 0);
                assert(sorted.contains(listed[i]));
                let k = choose|k: int| 0 <= k < sorted.len() && sorted[k] == listed[i];
                assert(region_holds(sorted[k], address));
            }
        }
    }
}

/// A minidump in which a module is looked for is refused just where it cannot be read or lists no
/// modules. Else the name means one of its modules, or the error says that it means none or more
/// than one; where it means none, the file names of all modules are listed in their order.
pub proof fn modules_are_looked_for_in_dumps(dump: &[u8], name: &str, r: Result<u64, DumpError>)
    requires
        call_ensures(module_base_from_minidump, (dump, name), r),
    ensures
        r == Err::<u64, DumpError>(DumpError::Unreadable) <==> !minidump_parses(dump@),
        r == Err::<u64, DumpError>(DumpError::NoModuleList) <==> minidump_parses(dump@)
            && minidump_modules(dump@) is None,
        match r {
            Ok(base) => exists|k: int| #[trigger]
                only_meant(minidump_modules(dump@)->0, name@, k) && minidump_modules(dump@)->0[k].1
                    == base,
            Err(DumpError::NoModule { available }) => exists|names: Seq<Seq<char>>| #[trigger]
                are_file_names(minidump_modules(dump@)->0, names) && available@
                    == crate::text::joined(names, names.len(), ", "@),
            _ => true,
        },
{
    if minidump_parses(dump@) && minidump_modules(dump@) is Some {
        let modules = minidump_modules(dump@)->0;
        one_module_is_meant(modules, name@, r);
        match r {
            Ok(base) => {
                let k = choose|k: int|
                    0 <= k < modules.len() && (#[trigger] modules[k]).1 == base && means(
                        modules[k].0,
                        name@,
                    ) && forall|l: int|
                        0 <= l < modules.len() && means((#[trigger] modules[l]).0, name@) ==> l
                            == k;
                assert(only_meant(modules, name@, k));
            },
            Err(DumpError::NoModule { .. }) => {
                let names = file_names(modules);
                assert forall|k: int| 0 <= k < modules.len() implies ends_in_file_name(
                    (#[trigger] modules[k]).0,
                    names[k],
                ) by {
                    let name = names[k];
                    crate::text::basename_is_what_is_last(modules[k].0);
                    let n = modules[k].0.len() - name.len();
                    assert forall|l: int| n <= l < modules[k].0.len() implies #[trigger] modules[k].0[l]
                        != '/' && modules[k].0[l] != '\\' by {
                        assert(name[l - n] == modules[k].0[l]);
                        assert(name.contains(name[l - n]));
                    }
                    assert(is_file_name_from(modules[k].0, n));
                }
                assert(are_file_names(modules, names));
            },
            _ => {},
        }
    }
}

/// Whether a name means the module at position `k` and no other.
pub open spec fn only_meant(modules: Seq<(Seq<char>, u64)>, name: Seq<char>, k: int) -> bool {
    &&& 0 <= k < modules.len() && means(modules[k].0, name)
    &&& forall|l: int| 0 <= l < modules.len() && means((#[trigger] modules[l]).0, name) ==> l == k
}

/// Whether `name` is the last part of a path.
pub open spec fn ends_in_file_name(path: Seq<char>, name: Seq<char>) -> bool {
    exists|n: int| #[trigger] is_file_name_from(path, n) && name == path.skip(n)
}

/// Whether `names` are the last parts of the paths of the modules, in their order.
pub open spec fn are_file_names(modules: Seq<(Seq<char>, u64)>, names: Seq<Seq<char>>) -> bool {
    names.len() == modules.len() && forall|k: int|
        0 <= k < modules.len() ==> ends_in_file_name((#[trigger] modules[k]).0, names[k])
}

/// Whether a region at `base` is the first of those that end beyond the address space.
pub open spec fn is_first_beyond(regions: Seq<(u64, Seq<u8>)>, base: u64, i: int) -> bool {
    &&& 0 <= i < regions.len() && regions[i].0 == base
    &&& base + regions[i].1.len() > u64::MAX
    &&& forall|k: int|
        0 <= k < i ==> (#[trigger] regions[k]).0 + regions[k].1.len() <= u64::MAX
}

/// A minidump is opened just where it can be read, lists memory, and all that it lists lies in the
/// address space. Else the error says which of these fails, and where the first region begins that
/// ends beyond.
pub proof fn minidumps_are_refused_for_a_reason<'a>(
    dump: &'a [u8],
    r: Result<MinidumpMem<'a>, DumpError>,
)
    requires
        call_ensures(MinidumpMem::<'a>::new, (dump,), r),
    ensures
        r is Err && r->Err_0 is Unreadable <==> !minidump_parses(dump@),
        r is Err && r->Err_0 is NoMemoryList <==> minidump_parses(dump@) && minidump_memory(
            dump@,
        ) is None,
        match r {
            Ok(_) => forall|k: int|
                0 <= k < minidump_memory(dump@)->0.len() ==> (#[trigger] minidump_memory(
                    dump@,
                )->0[k]).0 + minidump_memory(dump@)->0[k].1.len() <= u64::MAX,
            Err(DumpError::RegionOverflow { base }) => exists|k: int| #[trigger]
                is_first_beyond(minidump_memory(dump@)->0, base, k),
            Err(DumpError::Unreadable) => true,
            Err(DumpError::NoMemoryList) => true,
            Err(_) => false,
        },
{
    if minidump_parses(dump@) && minidump_memory(dump@) is Some {
        let regions = minidump_memory(dump@)->0;
        match r {
            Ok(_) => {
                assert forall|k: int| 0 <= k < regions.len() implies (#[trigger] regions[k]).0
                    + regions[k].1.len() <= u64::MAX by {
                    assert(region_end(regions[k]) <= u64::MAX);
                }
            },
            Err(DumpError::RegionOverflow { base }) => {
                let i = choose|i: int| #[trigger]
                    first_overflow(regions, i) && regions[i].0 == base;
                assert forall|k: int| 0 <= k < i implies (#[trigger] regions[k]).0
                    + regions[k].1.len() <= u64::MAX by {
                    assert(region_end(regions[k]) <= u64::MAX);
                }
                assert(is_first_beyond(regions, base, i));
            },
            _ => {},
        }
    }
}

} // verus!
