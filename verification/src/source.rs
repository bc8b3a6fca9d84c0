//! Where targets come from, and the contexts that they are read through.

use vstd::prelude::*;

use crate::config::{
    default_target_triplet, resolve_config, Config, ConfigError, ConfigOverrides, Resolution,
    TargetTriplet,
};
use crate::mem::{Ctx, CtxInner, Mem};
use crate::minidump_file::{module_base_from_minidump, target_triplet_from_minidump, DumpError};
use crate::pathmap::PathMap;
use crate::structs::{StructInfo, Structs};

verus! {

/// `std::path::PathBuf`, the path of a file. Nothing is claimed of it: paths are handed on as they
/// are.
#[verifier::external_type_specification]
#[verifier::external_body]
pub struct ExPathBuf(std::path::PathBuf);

/// What a target is read from.
#[derive(PartialEq, Eq, Debug)]
pub enum Input {
    Process(i32),
    Dump(std::path::PathBuf),
    MachoCore(std::path::PathBuf),
}

/// A target that was opened.
pub struct Source {
    pub mem: Box<dyn Mem>,
    pub config: Config,
    pub name: String,
}

/// Why a target cannot be opened.
#[derive(Clone, PartialEq, Eq, Debug)]
pub enum OpenError {
    /// The minidump does not give what is asked of it.
    Dump(DumpError),
    /// An offset into a module leads beyond the address space.
    AddressOverflow,
    /// Addresses are found by searching for no other target than 64-bit Windows.
    UnsupportedTarget { target: TargetTriplet },
    /// The addresses and the version have to be given.
    ManualConfigNeeded,
}

/// How the configuration of a target is come by.
#[derive(PartialEq, Eq, Debug)]
pub enum Plan {
    /// It is there.
    Ready(Config),
    /// It has to be completed by searching the image.
    Resolve(ConfigOverrides),
}

/// How the configuration of a running process is come by: by the overrides alone where they are
/// enough, and by searching its image else.
pub open spec fn process_plan(o: ConfigOverrides) -> Plan {
    match crate::config::completed(o) {
        Some(config) => Plan::Ready(config),
        None => Plan::Resolve(o),
    }
}

/// Plans how the configuration of a running process is come by.
pub fn plan_process(overrides: ConfigOverrides) -> (r: Plan)
    ensures
        r == process_plan(overrides),
{
    match overrides.clone().into_complete() {
        Some(config) => Plan::Ready(config),
        None => Plan::Resolve(overrides),
    }
}

/// Whether the addresses of overrides stay addresses when a base is added.
pub open spec fn rebase_fits(o: ConfigOverrides, base: u64) -> bool {
    &&& o.fname_pool matches Some(offset) ==> offset + base <= u64::MAX
    &&& o.guobject_array matches Some(offset) ==> offset + base <= u64::MAX
}

/// Overrides whose addresses are offsets, with the base that they are offsets from added. The base
/// is that of the image too, where none is given.
pub open spec fn rebased(o: ConfigOverrides, base: u64) -> ConfigOverrides {
    ConfigOverrides {
        fname_pool: match o.fname_pool {
            Some(offset) => Some((offset + base) as u64),
            None => None,
        },
        guobject_array: match o.guobject_array {
            Some(offset) => Some((offset + base) as u64),
            None => None,
        },
        image_base: crate::config::first_of(o.image_base, Some(base)),
        ..o
    }
}

/// Adds the base of a module to the addresses of overrides.
pub fn rebase(overrides: ConfigOverrides, base: u64) -> (r: ConfigOverrides)
    requires
        rebase_fits(overrides, base),
    ensures
        r == rebased(overrides, base),
{
    ConfigOverrides {
        fname_pool: match overrides.fname_pool {
            Some(offset) => Some(offset + base),
            None => None,
        },
        guobject_array: match overrides.guobject_array {
            Some(offset) => Some(offset + base),
            None => None,
        },
        image_base: match overrides.image_base {
            Some(given) => Some(given),
            None => Some(base),
        },
        ..overrides
    }
}

/// How the configuration of a dump is come by whose overrides hold addresses.
pub open spec fn absolute_dump_plan(dump: Seq<u8>, o: ConfigOverrides) -> Result<Plan, OpenError> {
    let o = ConfigOverrides {
        target_triplet: crate::config::first_of(
            o.target_triplet,
            crate::minidump_file::inferred_triplet(dump),
        ),
        ..o
    };
    let target = crate::config::value_or(o.target_triplet, crate::config::default_triplet());
    match crate::config::completed(o) {
        Some(config) => Ok(Plan::Ready(config)),
        None => if target != crate::config::default_triplet() {
            Err(OpenError::UnsupportedTarget { target })
        } else {
            Ok(Plan::Resolve(o))
        },
    }
}

/// Whether planning how the configuration of a dump is come by may lead to `r`. A module that the
/// overrides name is looked up first: their addresses are offsets into it.
pub open spec fn dump_plan_is(
    dump: Seq<u8>,
    o: ConfigOverrides,
    r: Result<Plan, OpenError>,
) -> bool {
    if !crate::minidump_file::minidump_parses(dump) {
        r == Err::<Plan, OpenError>(OpenError::Dump(DumpError::Unreadable))
    } else {
        match o.module {
            Some(module) => exists|base: Result<u64, DumpError>| #[trigger]
                crate::minidump_file::named_base_is(dump, module@, base) && r == match base {
                    Ok(base) => if rebase_fits(o, base) {
                        absolute_dump_plan(dump, rebased(o, base))
                    } else {
                        Err(OpenError::AddressOverflow)
                    },
                    Err(e) => Err(OpenError::Dump(e)),
                },
            None => r == absolute_dump_plan(dump, o),
        }
    }
}

fn plan_absolute_dump(dump: &[u8], overrides: ConfigOverrides) -> (r: Result<Plan, OpenError>)
    ensures
        r == absolute_dump_plan(dump@, overrides),
{
    let mut overrides = overrides;
    if overrides.target_triplet.is_none() {
        overrides.target_triplet = target_triplet_from_minidump(dump);
    }
    let target = match overrides.target_triplet {
        Some(target) => target,
        None => default_target_triplet(),
    };
    match overrides.clone().into_complete() {
        Some(config) => Ok(Plan::Ready(config)),
        None => if target != default_target_triplet() {
            Err(OpenError::UnsupportedTarget { target })
        } else {
            Ok(Plan::Resolve(overrides))
        },
    }
}

/// Plans how the configuration of the program that a minidump is of is come by.
pub fn open_dump(dump: &[u8], overrides: ConfigOverrides) -> (r: Result<Plan, OpenError>)
    ensures
        dump_plan_is(dump@, overrides, r),
{
    if !crate::minidump_file::is_minidump(dump) {
        return Err(OpenError::Dump(DumpError::Unreadable));
    }
    let base = match &overrides.module {
        Some(module) => module_base_from_minidump(dump, module.as_str()),
        None => {
            return plan_absolute_dump(dump, overrides);
        },
    };
    match base {
        Ok(base) => {
            let pool_fits = match overrides.fname_pool {
                Some(offset) => offset.checked_add(base).is_some(),
                None => true,
            };
            let array_fits = match overrides.guobject_array {
                Some(offset) => offset.checked_add(base).is_some(),
                None => true,
            };
            if pool_fits && array_fits {
                plan_absolute_dump(dump, rebase(overrides, base))
            } else {
                Err(OpenError::AddressOverflow)
            }
        },
        Err(e) => Err(OpenError::Dump(e)),
    }
}

/// The configuration of the program that a Mach-O core file is of, which the overrides have to
/// make. The target is `native` where they name none.
pub fn open_macho(overrides: ConfigOverrides, native: TargetTriplet) -> (r: Result<
    Config,
    OpenError,
>)
    ensures
        r == match crate::config::completed(
            (ConfigOverrides {
                target_triplet: crate::config::first_of(overrides.target_triplet, Some(native)),
                ..overrides
            }),
        ) {
            Some(config) => Ok(config),
            None => Err(OpenError::ManualConfigNeeded),
        },
{
    let mut overrides = overrides;
    if overrides.target_triplet.is_none() {
        overrides.target_triplet = Some(native);
    }
    match overrides.into_complete() {
        Some(config) => Ok(config),
        None => Err(OpenError::ManualConfigNeeded),
    }
}

/// The layouts of structs by name. Of two with one name the later counts.
pub open spec fn layouts_by_name(list: Seq<StructInfo>) -> Map<Seq<char>, StructInfo>
    decreases list.len(),
{
    if list.len() == 0 {
        Map::empty()
    } else {
        layouts_by_name(list.drop_last()).insert(list.last().name@, list.last())
    }
}

/// Whether a context is that of a target with that memory, configuration and layouts.
pub open spec fn connected(ctx: Ctx, mem: Box<dyn Mem>, config: Config, structs: Structs) -> bool {
    let inner = ctx.spec_inner();
    &&& inner.mem == mem
    &&& inner.fnamepool == config.fname_pool
    &&& inner.structs@ == layouts_by_name(structs.0@)
    &&& inner.version == config.engine_version
    &&& inner.build_config == config.build_config
    &&& inner.uobjectarray == config.guobject_array
    &&& inner.uobjectarray_xor_key == 0
    &&& inner.image_base_address == config.image_base
    &&& inner.build_change_list == config.build_change_list
}

fn name_layouts(struct_info: Structs) -> (r: PathMap<StructInfo>)
    ensures
        r@ == layouts_by_name(struct_info.0@),
{
    let mut list = struct_info.0;
    let ghost all = list@;
    let mut reversed: Vec<StructInfo> = Vec::new();
    while list.len() > 0
        invariant
            list@.len() <= all.len(),
            list@ == all.take(list@.len() as int),
            reversed@ == all.skip(list@.len() as int).reverse(),
        decreases list@.len(),
    {
        let ghost n = list@.len() - 1;
        match list.pop() {
            Some(info) => {
                reversed.push(info);
                assert(list@ =~= all.take(n));
                assert(reversed@ =~= all.skip(n).reverse());
            },
            None => {},
        }
    }
    let mut structs: PathMap<StructInfo> = PathMap::new();
    assert(reversed@ =~= all.reverse());
    assert(all.take(0) =~= Seq::<StructInfo>::empty());
    while reversed.len() > 0
        invariant
            reversed@.len() <= all.len(),
            reversed@ == all.skip(all.len() - reversed@.len()).reverse(),
            structs@ == layouts_by_name(all.take(all.len() - reversed@.len())),
        decreases reversed@.len(),
    {
        let ghost done = all.len() - reversed@.len();
        match reversed.pop() {
            Some(info) => {
                assert(info == all[done]);
                assert(reversed@ =~= all.skip(done + 1).reverse());
                assert(all.take(done + 1).drop_last() =~= all.take(done));
                structs.insert(info.name.clone(), info);
            },
            None => {},
        }
    }
    assert(all.take(all.len() as int) =~= all);
    structs
}

fn context_of(target: (Box<dyn Mem>, Config), struct_info: Structs) -> (r: Ctx)
    ensures
        connected(r, target.0, target.1, struct_info),
{
    let (mem, config) = target;
    Ctx::new(
        CtxInner {
            mem,
            fnamepool: config.fname_pool,
            structs: name_layouts(struct_info),
            version: config.engine_version,
            build_config: config.build_config,
            uobjectarray: config.guobject_array,
            uobjectarray_xor_key: 0,
            image_base_address: config.image_base,
            build_change_list: config.build_change_list,
        },
    )
}

/// A context for a target with that memory, configuration and layouts.
pub fn connect_manual(mem: Box<dyn Mem>, config: Config, struct_info: Structs) -> (r: Ctx)
    ensures
        connected(r, mem, config, struct_info),
{
    let target = (mem, config);
    context_of(target, struct_info)
}

/// A context for a target whose configuration is made of overrides and of what was found in its
/// image.
pub fn connect(
    mem: Box<dyn Mem>,
    found: &Resolution,
    image_base: u64,
    overrides: &ConfigOverrides,
    struct_info: Structs,
) -> (r: Result<Ctx, ConfigError>)
    ensures
        exists|config: Result<Config, ConfigError>| #[trigger]
            crate::config::config_may_be(mem, *overrides, *found, image_base, config)
                && match config {
                Ok(config) => r matches Ok(ctx) && connected(ctx, mem, config, struct_info),
                Err(e) => r == Err::<Ctx, ConfigError>(e),
            },
{
    let resolved = resolve_config(&mem, found, image_base, overrides);
    assert(crate::config::config_may_be(mem, *overrides, *found, image_base, resolved));
    match resolved {
        Ok(config) => {
            let target = (mem, config);
            Ok(context_of(target, struct_info))
        },
        Err(e) => Err(e),
    }
}

/// A running process is searched just where the overrides lack an address or the version.
pub proof fn processes_are_searched_where_needed(o: ConfigOverrides)
    ensures
        match process_plan(o) {
            Plan::Ready(config) => crate::config::completed(o) == Some(config),
            Plan::Resolve(rest) => rest == o && (o.guobject_array is None || o.fname_pool is None
                || o.engine_version is None),
        },
{
    crate::config::overrides_can_be_enough(o);
}

/// With a module the addresses of overrides are offsets from where it is loaded. That is where the
/// image begins too, unless the overrides say so. All else stays as it is.
pub proof fn addresses_become_absolute(o: ConfigOverrides, base: u64)
    requires
        rebase_fits(o, base),
    ensures
        ({
            let r = rebased(o, base);
            &&& match (o.fname_pool, r.fname_pool) {
                (Some(offset), Some(address)) => address == base + offset,
                (None, None) => true,
                _ => false,
            }
            &&& match (o.guobject_array, r.guobject_array) {
                (Some(offset), Some(address)) => address == base + offset,
                (None, None) => true,
                _ => false,
            }
            &&& o.image_base is Some ==> r.image_base == o.image_base
            &&& o.image_base is None ==> r.image_base == Some(base)
            &&& r.engine_version == o.engine_version
            &&& r.build_change_list == o.build_change_list
            &&& r.build_config == o.build_config
            &&& r.target_triplet == o.target_triplet
            &&& r.module == o.module
        }),
{
}

/// The target of a dump is the one that is given, or the one that the minidump names where none is.
/// The dump is searched just where an address or the version is not given, and only where the
/// target is 64-bit Windows; it is refused where it is another.
pub proof fn dumps_are_searched_where_possible(dump: Seq<u8>, o: ConfigOverrides)
    ensures
        ({
            let named = if o.target_triplet is Some {
                o.target_triplet
            } else {
                crate::minidump_file::inferred_triplet(dump)
            };
            let enough = o.guobject_array is Some && o.fname_pool is Some
                && o.engine_version is Some;
            let win64 = named matches Some(t) ==> crate::config::is_win64(t);
            match absolute_dump_plan(dump, o) {
                Ok(Plan::Ready(c)) => {
                    &&& enough
                    &&& o.guobject_array == Some(c.guobject_array)
                    &&& o.fname_pool == Some(c.fname_pool)
                    &&& o.engine_version == Some(c.engine_version)
                    &&& named == Some(c.target_triplet) || named is None
                        && crate::config::is_win64(c.target_triplet)
                    &&& c.build_config == o.build_config
                    &&& c.build_change_list == o.build_change_list
                    &&& o.image_base == Some(c.image_base) || o.image_base is None && c.image_base
                        == 0
                },
                Ok(Plan::Resolve(rest)) => {
                    &&& !enough
                    &&& win64
                    &&& rest.target_triplet == named
                    &&& rest == (ConfigOverrides { target_triplet: named, ..o })
                },
                Err(OpenError::UnsupportedTarget { target }) => !enough && !win64 && named == Some(
                    target,
                ),
                Err(_) => false,
            }
        }),
{
    crate::config::overrides_can_be_enough(
        ConfigOverrides {
            target_triplet: crate::config::first_of(
                o.target_triplet,
                crate::minidump_file::inferred_triplet(dump),
            ),
            ..o
        },
    );
}

/// A module that overrides name is looked for in the minidump. Its base is added to their
/// addresses; they are refused where it is not found by one name, and where an address would lie
/// beyond the address space.
pub proof fn modules_of_dumps_are_looked_for(
    dump: Seq<u8>,
    o: ConfigOverrides,
    r: Result<Plan, OpenError>,
)
    requires
        dump_plan_is(dump, o, r),
    ensures
        !crate::minidump_file::minidump_parses(dump) <==> r == Err::<Plan, OpenError>(
            OpenError::Dump(DumpError::Unreadable),
        ),
        crate::minidump_file::minidump_parses(dump) && o.module is None ==> r
            == absolute_dump_plan(dump, o),
        crate::minidump_file::minidump_parses(dump) && o.module is Some ==> match r {
            Err(OpenError::Dump(e)) => crate::minidump_file::named_base_is(
                dump,
                o.module->0@,
                Err(e),
            ),
            _ => exists|base: u64| #[trigger]
                crate::minidump_file::named_base_is(dump, o.module->0@, Ok(base)) && if (
                o.fname_pool matches Some(a) ==> a + base <= u64::MAX) && (
                o.guobject_array matches Some(a) ==> a + base <= u64::MAX) {
                    r == absolute_dump_plan(dump, rebased(o, base))
                } else {
                    r == Err::<Plan, OpenError>(OpenError::AddressOverflow)
                },
        },
{
    dumps_are_searched_where_possible(dump, o);
    if crate::minidump_file::minidump_parses(dump) && o.module is Some {
        let module = o.module->0;
        let base = choose|base: Result<u64, DumpError>| #[trigger]
            crate::minidump_file::named_base_is(dump, module@, base) && r == match base {
                Ok(base) => if rebase_fits(o, base) {
                    absolute_dump_plan(dump, rebased(o, base))
                } else {
                    Err(OpenError::AddressOverflow)
                },
                Err(e) => Err(OpenError::Dump(e)),
            };
        if let Ok(b) = base {
            dumps_are_searched_where_possible(dump, rebased(o, b));
        }
    }
}

/// A context holds what its configuration says, and of the layouts with one name the last.
pub proof fn contexts_hold_what_is_configured(
    ctx: Ctx,
    mem: Box<dyn Mem>,
    config: Config,
    structs: Structs,
    name: Seq<char>,
)
    requires
        connected(ctx, mem, config, structs),
    ensures
        ({
            let inner = ctx.spec_inner();
            let held = inner.structs@;
            &&& inner.fnamepool == config.fname_pool
            &&& inner.uobjectarray == config.guobject_array
            &&& inner.version == config.engine_version
            &&& inner.image_base_address == config.image_base
            &&& inner.build_config == config.build_config
            &&& inner.build_change_list == config.build_change_list
            &&& inner.uobjectarray_xor_key == 0
            &&& held.dom().contains(name) ==> exists|i: int| #[trigger]
                is_last_named(structs.0@, name, i) && held[name] == structs.0@[i]
            &&& !held.dom().contains(name) ==> forall|i: int|
                0 <= i < structs.0@.len() ==> (#[trigger] structs.0@[i]).name@ != name
        }),
{
    lemma_layouts(structs.0@, name);
}

/// Whether the layout at position `i` is the last of that name.
pub open spec fn is_last_named(list: Seq<StructInfo>, name: Seq<char>, i: int) -> bool {
    &&& 0 <= i < list.len()
    &&& list[i].name@ == name
    &&& forall|j: int| i < j < list.len() ==> (#[trigger] list[j]).name@ != name
}

proof fn lemma_layouts(list: Seq<StructInfo>, name: Seq<char>)
    ensures
        layouts_by_name(list).dom().contains(name) ==> exists|i: int| #[trigger]
            is_last_named(list, name, i) && layouts_by_name(list)[name] == list[i],
        !layouts_by_name(list).dom().contains(name) ==> forall|i: int|
            0 <= i < list.len() ==> (#[trigger] list[i]).name@ != name,
    decreases list.len(),
{
    if list.len() > 0 {
        let rest = list.drop_last();
        let n = rest.len() as int;
        lemma_layouts(rest, name);
        if list.last().name@ == name {
            assert(is_last_named(list, name, n));
        } else if layouts_by_name(rest).dom().contains(name) {
            let i = choose|i: int| #[trigger]
                is_last_named(rest, name, i) && layouts_by_name(rest)[name] == rest[i];
            assert(list[i] == rest[i]);
            assert forall|j: int| i < j < list.len() implies (#[trigger] list[j]).name@ != name by {
                if j < n {
                    assert(rest[j].name@ != name);
                }
            }
            assert(is_last_named(list, name, i));
        } else {
            assert forall|i: int| 0 <= i < list.len() implies (#[trigger] list[i]).name@
                != name by {
                if i < n {
                    assert(rest[i].name@ != name);
                }
            }
        }
    }
}

/// The configuration of a core file is what the overrides give, for the native target where they
/// name none. They have to give both addresses and the version.
pub proof fn core_files_are_configured_by_hand(
    o: ConfigOverrides,
    native: TargetTriplet,
    r: Result<Config, OpenError>,
)
    requires
        call_ensures(open_macho, (o, native), r),
    ensures
        match r {
            Ok(c) => {
                &&& o.guobject_array == Some(c.guobject_array)
                &&& o.fname_pool == Some(c.fname_pool)
                &&& o.engine_version == Some(c.engine_version)
                &&& o.image_base == Some(c.image_base) || o.image_base is None && c.image_base == 0
                &&& o.target_triplet == Some(c.target_triplet) || o.target_triplet is None
                    && c.target_triplet == native
                &&& c.build_config == o.build_config
                &&& c.build_change_list == o.build_change_list
            },
            Err(e) => e == OpenError::ManualConfigNeeded && (o.guobject_array is None
                || o.fname_pool is None || o.engine_version is None),
        },
{
    crate::config::overrides_can_be_enough(
        ConfigOverrides {
            target_triplet: crate::config::first_of(o.target_triplet, Some(native)),
            ..o
        },
    );
}

} // verus!
