//! Where the data of a target lies and how it is laid out.

use vstd::prelude::*;

use crate::mem::{read_value, Mem, MemError};
use crate::text::{copy_text, join};

verus! {

/// How the target was built.
#[derive(Clone, Copy, PartialEq, Eq, Debug, Structural)]
pub struct BuildConfig {
    /// Whether names keep the case that they were first written in.
    pub case_preserving: bool,
}

/// The processor that a program is for.
#[derive(Clone, Copy, PartialEq, Eq, Debug, Structural)]
pub enum TargetArchitecture {
    X86_64,
    ARM64,
}

/// The operating system that a program is for.
#[derive(Clone, Copy, PartialEq, Eq, Debug, Structural)]
pub enum TargetOperatingSystem {
    Win32,
    Linux,
    Darwin,
}

/// The environment that a program is built for.
#[derive(Clone, Copy, PartialEq, Eq, Debug, Structural)]
pub enum TargetEnvironment {
    MSVC,
    Gnu,
    Android,
}

/// What a program is built for. Struct layouts depend on it.
#[derive(Clone, Copy, PartialEq, Eq, Debug, Structural)]
pub struct TargetTriplet {
    pub arch: TargetArchitecture,
    pub sys: TargetOperatingSystem,
    pub env: Option<TargetEnvironment>,
}

/// What is dumped.
#[derive(Clone, Copy, PartialEq, Eq, Debug, Structural)]
pub struct DumpOptions {
    /// Whether all objects are dumped and not only native (/Script/) ones.
    pub all: bool,
    /// Whether the table of names is dumped.
    pub names: bool,
    /// Whether the analysis of vtables is left out.
    pub skip_vtables: bool,
    /// Whether all objects are left out.
    pub skip_objects: bool,
}

impl Default for DumpOptions {
    fn default() -> (r: Self)
        ensures
            !r.all,
            !r.names,
            !r.skip_vtables,
            !r.skip_objects,
    {
        DumpOptions { all: false, names: false, skip_vtables: false, skip_objects: false }
    }
}

impl Default for BuildConfig {
    fn default() -> (r: Self)
        ensures
            !r.case_preserving,
    {
        BuildConfig { case_preserving: false }
    }
}

/// The target that is assumed where none is named: 64-bit Windows.
pub open spec fn default_triplet() -> TargetTriplet {
    TargetTriplet {
        arch: TargetArchitecture::X86_64,
        sys: TargetOperatingSystem::Win32,
        env: Some(TargetEnvironment::MSVC),
    }
}

/// The target that is assumed where none is named.
pub fn default_target_triplet() -> (r: TargetTriplet)
    ensures
        r == default_triplet(),
{
    TargetTriplet {
        arch: TargetArchitecture::X86_64,
        sys: TargetOperatingSystem::Win32,
        env: Some(TargetEnvironment::MSVC),
    }
}

/// Where the data of a target lies and how it is laid out.
#[derive(PartialEq, Eq, Debug)]
pub struct Config {
    pub guobject_array: u64,
    pub fname_pool: u64,
    pub engine_version: (u16, u16),
    pub image_base: u64,
    pub build_change_list: Option<String>,
    pub build_config: BuildConfig,
    pub target_triplet: TargetTriplet,
}

impl Clone for Config {
    fn clone(&self) -> (r: Self)
        ensures
            r == *self,
    {
        Config {
            guobject_array: self.guobject_array,
            fname_pool: self.fname_pool,
            engine_version: self.engine_version,
            image_base: self.image_base,
            build_change_list: copy_text(&self.build_change_list),
            build_config: self.build_config,
            target_triplet: self.target_triplet,
        }
    }
}

/// What is known of a target before it is looked at.
#[derive(PartialEq, Eq, Debug)]
pub struct ConfigOverrides {
    pub guobject_array: Option<u64>,
    pub fname_pool: Option<u64>,
    pub engine_version: Option<(u16, u16)>,
    pub image_base: Option<u64>,
    pub build_change_list: Option<String>,
    pub build_config: BuildConfig,
    /// The target; 64-bit Windows where none is named.
    pub target_triplet: Option<TargetTriplet>,
    /// The module that `fname_pool` and `guobject_array` are offsets into.
    pub module: Option<String>,
}

impl Clone for ConfigOverrides {
    fn clone(&self) -> (r: Self)
        ensures
            r == *self,
    {
        ConfigOverrides {
            guobject_array: self.guobject_array,
            fname_pool: self.fname_pool,
            engine_version: self.engine_version,
            image_base: self.image_base,
            build_change_list: copy_text(&self.build_change_list),
            build_config: self.build_config,
            target_triplet: self.target_triplet,
            module: copy_text(&self.module),
        }
    }
}

impl Default for ConfigOverrides {
    fn default() -> (r: Self)
        ensures
            r.guobject_array is None,
            r.fname_pool is None,
            r.engine_version is None,
            r.image_base is None,
            r.build_change_list is None,
            !r.build_config.case_preserving,
            r.target_triplet is None,
            r.module is None,
    {
        ConfigOverrides {
            guobject_array: None,
            fname_pool: None,
            engine_version: None,
            image_base: None,
            build_change_list: None,
            build_config: BuildConfig { case_preserving: false },
            target_triplet: None,
            module: None,
        }
    }
}

/// The first of two values that there is.
pub open spec fn first_of<T>(a: Option<T>, b: Option<T>) -> Option<T> {
    match a {
        Some(_) => a,
        None => b,
    }
}

/// A value, or another where there is none.
pub open spec fn value_or<T>(a: Option<T>, b: T) -> T {
    match a {
        Some(x) => x,
        None => b,
    }
}

/// The configuration that overrides make by themselves, where they hold all that is needed: the
/// two addresses and the version.
pub open spec fn completed(o: ConfigOverrides) -> Option<Config> {
    match (o.guobject_array, o.fname_pool, o.engine_version) {
        (Some(guobject_array), Some(fname_pool), Some(engine_version)) => Some(
            Config {
                guobject_array,
                fname_pool,
                engine_version,
                image_base: value_or(o.image_base, 0),
                build_change_list: o.build_change_list,
                build_config: o.build_config,
                target_triplet: value_or(o.target_triplet, default_triplet()),
            },
        ),
        _ => None,
    }
}

impl ConfigOverrides {
    /// The configuration that the overrides make by themselves, where they hold all that is
    /// needed.
    pub fn into_complete(self) -> (r: Option<Config>)
        ensures
            r == completed(self),
    {
        match (self.guobject_array, self.fname_pool, self.engine_version) {
            (Some(guobject_array), Some(fname_pool), Some(engine_version)) => Some(
                Config {
                    guobject_array,
                    fname_pool,
                    engine_version,
                    image_base: match self.image_base {
                        Some(base) => base,
                        None => 0,
                    },
                    build_change_list: self.build_change_list,
                    build_config: self.build_config,
                    target_triplet: match self.target_triplet {
                        Some(target) => target,
                        None => default_target_triplet(),
                    },
                },
            ),
            _ => None,
        }
    }
}

/// Whether version `a` is older than version `b`.
pub open spec fn is_older(a: (u16, u16), b: (u16, u16)) -> bool {
    a.0 < b.0 || (a.0 == b.0 && a.1 < b.1)
}

/// Tests whether version `a` is older than version `b`.
pub fn older(a: (u16, u16), b: (u16, u16)) -> (r: bool)
    ensures
        r == is_older(a, b),
{
    a.0 < b.0 || (a.0 == b.0 && a.1 < b.1)
}

/// What was found by searching the image of a program.
#[derive(PartialEq, Eq, Debug)]
pub struct Resolution {
    pub guobject_array: Option<u64>,
    pub fname_pool: Option<u64>,
    pub engine_version: Option<(u16, u16)>,
    pub build: Option<String>,
    pub fname_constant: Option<u64>,
}

/// Why there is no configuration.
#[derive(Clone, PartialEq, Eq, Debug)]
pub enum ConfigError {
    /// Values were neither found nor given: their names, and the flags that give them.
    Missing { names: String, flags: String },
    /// The memory could not be read.
    Memory(MemError),
    /// The name constant has no index.
    NullName,
    /// The number of the name constant is not kept with it.
    OutlinedNumber,
    /// A part of the name constant that is looked at lies beyond the address space.
    AddressOverflow,
}

/// Whether a read of a four-byte number may give `r`.
pub open spec fn may_read_u32<M: Mem>(mem: M, address: u64, r: Result<u32, MemError>) -> bool {
    exists|a: Result<Seq<u8>, MemError>| #[trigger]
        mem.may_answer(address, 4, a) && r == crate::mem::value_of::<u32>(a)
}

/// Whether the memory may be asked for the four bytes that lie `offset` bytes behind `address`.
pub open spec fn has_part<M: Mem>(mem: M, address: u64, offset: u64) -> bool {
    address + offset <= u64::MAX && mem.admits((address + offset) as u64, 4)
}

/// Whether reading the number that lies `offset` bytes behind `address` may give `r`.
pub open spec fn part_may_be<M: Mem>(
    mem: M,
    address: u64,
    offset: u64,
    r: Result<u32, ConfigError>,
) -> bool {
    if has_part(mem, address, offset) {
        match r {
            Ok(n) => may_read_u32(mem, (address + offset) as u64, Ok(n)),
            Err(ConfigError::Memory(e)) => may_read_u32(mem, (address + offset) as u64, Err(e)),
            Err(_) => false,
        }
    } else {
        r == Err::<u32, ConfigError>(ConfigError::AddressOverflow)
    }
}

fn read_part<M: Mem>(mem: &M, address: u64, offset: u64) -> (r: Result<u32, ConfigError>)
    ensures
        part_may_be(*mem, address, offset, r),
{
    let at: u64 = match address.checked_add(offset) {
        Some(at) => at,
        None => {
            return Err(ConfigError::AddressOverflow);
        },
    };
    if !mem.can_read(at, 4) {
        return Err(ConfigError::AddressOverflow);
    }
    match read_value::<u32, M>(mem, at) {
        Ok(n) => Ok(n),
        Err(e) => Err(ConfigError::Memory(e)),
    }
}

/// Where the index for display would stand in a name, if names had one: before the number up to
/// version 5.0, behind it since.
pub open spec fn display_offset(version: (u16, u16)) -> u64 {
    if is_older(version, (5, 1)) {
        4
    } else {
        8
    }
}

/// Where the number stands in a name.
pub open spec fn number_offset(version: (u16, u16), case_preserving: bool) -> u64 {
    if case_preserving && is_older(version, (5, 1)) {
        8
    } else {
        4
    }
}

/// Whether the number of the name constant may lead to `r`.
pub open spec fn number_may_be<M: Mem>(
    mem: M,
    address: u64,
    version: (u16, u16),
    case_preserving: bool,
    r: Result<bool, ConfigError>,
) -> bool {
    exists|number: Result<u32, ConfigError>| #[trigger]
        part_may_be(mem, address, number_offset(version, case_preserving), number) && r
            == match number {
            Ok(n) => if n == 0 {
                Ok(case_preserving)
            } else {
                Err(ConfigError::OutlinedNumber)
            },
            Err(e) => Err(e),
        }
}

/// Whether looking at the name constant whose first number is `index` may lead to `r`. Names keep
/// their case where the index stands in the place of the index for display too.
pub open spec fn display_may_be<M: Mem>(
    mem: M,
    address: u64,
    version: (u16, u16),
    index: u32,
    r: Result<bool, ConfigError>,
) -> bool {
    if is_older(version, (4, 23)) {
        number_may_be(mem, address, version, false, r)
    } else {
        exists|display: Result<u32, ConfigError>| #[trigger]
            part_may_be(mem, address, display_offset(version), display) && match display {
                Ok(n) => number_may_be(mem, address, version, n == index, r),
                Err(e) => r == Err::<bool, ConfigError>(e),
            }
    }
}

/// Whether looking at the name constant may lead to `r`.
pub open spec fn case_preserving_may_be<M: Mem>(
    mem: M,
    constant: Option<u64>,
    version: (u16, u16),
    r: Result<bool, ConfigError>,
) -> bool {
    match constant {
        None => r == Ok::<bool, ConfigError>(false),
        Some(address) => exists|index: Result<u32, ConfigError>| #[trigger]
            part_may_be(mem, address, 0, index) && match index {
                Ok(n) => if n == 0 {
                    r == Err::<bool, ConfigError>(ConfigError::NullName)
                } else {
                    display_may_be(mem, address, version, n, r)
                },
                Err(e) => r == Err::<bool, ConfigError>(e),
            },
    }
}

/// Finds out by a name constant whether names keep their case.
///
/// A name is an index and a number. Since version 4.23 names that keep their case have a second
/// index for display: before the number, and since version 5.1 behind it. A part is read only
/// where it is looked at.
pub fn detect_case_preserving<M: Mem>(mem: &M, constant: Option<u64>, version: (u16, u16)) -> (r:
    Result<bool, ConfigError>)
    ensures
        case_preserving_may_be(*mem, constant, version, r),
{
    let address: u64 = match constant {
        Some(address) => address,
        None => {
            return Ok(false);
        },
    };
    let first = read_part(mem, address, 0);
    assert(part_may_be(*mem, address, 0, first));
    let index: u32 = match first {
        Ok(n) => n,
        Err(e) => {
            return Err(e);
        },
    };
    if index == 0 {
        return Err(ConfigError::NullName);
    }
    let mut case_preserving = false;
    let mut offset: u64 = 4;
    if !older(version, (4, 23)) {
        let display_at: u64 = if older(version, (5, 1)) {
            4
        } else {
            8
        };
        let display = read_part(mem, address, display_at);
        assert(part_may_be(*mem, address, display_offset(version), display));
        match display {
            Ok(n) => {
                case_preserving = n == index;
            },
            Err(e) => {
                proof {
                    let r = Err::<bool, ConfigError>(e);
                    assert(display_may_be(*mem, address, version, index, r));
                }
                return Err(e);
            },
        }
        if case_preserving && older(version, (5, 1)) {
            offset = 8;
        }
    }
    let number = read_part(mem, address, offset);
    assert(part_may_be(*mem, address, number_offset(version, case_preserving), number));
    let r = match number {
        Ok(n) => if n == 0 {
            Ok(case_preserving)
        } else {
            Err(ConfigError::OutlinedNumber)
        },
        Err(e) => Err(e),
    };
    proof {
        assert(number_may_be(*mem, address, version, case_preserving, r));
        assert(display_may_be(*mem, address, version, index, r));
    }
    r
}

/// The names of the values that are missing.
pub open spec fn missing_names(version: bool, array: bool, pool: bool) -> Seq<Seq<char>> {
    let a = if version {
        seq!["engine-version"@]
    } else {
        Seq::empty()
    };
    let b = if array {
        seq!["guobject-array"@]
    } else {
        Seq::empty()
    };
    let c = if pool {
        seq!["fname-pool"@]
    } else {
        Seq::empty()
    };
    a + b + c
}

/// The flags that give the values that are missing.
pub open spec fn missing_flags(version: bool, array: bool, pool: bool) -> Seq<Seq<char>> {
    let a = if version {
        seq!["--engine-version"@]
    } else {
        Seq::empty()
    };
    let b = if array {
        seq!["--guobject-array"@]
    } else {
        Seq::empty()
    };
    let c = if pool {
        seq!["--fname-pool"@]
    } else {
        Seq::empty()
    };
    a + b + c
}

fn missing_error(version: bool, array: bool, pool: bool) -> (r: ConfigError)
    ensures
        missing_is(version, array, pool, r),
{
    let mut names: Vec<&str> = Vec::new();
    let mut flags: Vec<&str> = Vec::new();
    if version {
        names.push("engine-version");
        flags.push("--engine-version");
    }
    if array {
        names.push("guobject-array");
        flags.push("--guobject-array");
    }
    if pool {
        names.push("fname-pool");
        flags.push("--fname-pool");
    }
    assert(names.deep_view() =~= missing_names(version, array, pool));
    assert(flags.deep_view() =~= missing_flags(version, array, pool));
    ConfigError::Missing { names: join(&names, ", "), flags: join(&flags, " ") }
}

/// Whether an error names those values as missing.
pub open spec fn missing_is(version: bool, array: bool, pool: bool, e: ConfigError) -> bool {
    let names = missing_names(version, array, pool);
    let flags = missing_flags(version, array, pool);
    match e {
        ConfigError::Missing { names: n, flags: f } => n@ == crate::text::joined(
            names,
            names.len(),
            ", "@,
        ) && f@ == crate::text::joined(flags, flags.len(), " "@),
        _ => false,
    }
}

/// The configuration that overrides and what was found make, the overrides first, where all that
/// is needed is there.
pub open spec fn combined(
    o: ConfigOverrides,
    found: Resolution,
    image_base: u64,
    case_preserving: bool,
) -> Config {
    Config {
        guobject_array: first_of(o.guobject_array, found.guobject_array)->0,
        fname_pool: first_of(o.fname_pool, found.fname_pool)->0,
        engine_version: first_of(o.engine_version, found.engine_version)->0,
        image_base: value_or(o.image_base, image_base),
        build_change_list: first_of(o.build_change_list, found.build),
        build_config: BuildConfig { case_preserving },
        target_triplet: value_or(o.target_triplet, default_triplet()),
    }
}

/// Whether combining overrides and what was found may lead to `r`.
pub open spec fn config_may_be<M: Mem>(
    mem: M,
    o: ConfigOverrides,
    found: Resolution,
    image_base: u64,
    r: Result<Config, ConfigError>,
) -> bool {
    let version = first_of(o.engine_version, found.engine_version);
    let array = first_of(o.guobject_array, found.guobject_array);
    let pool = first_of(o.fname_pool, found.fname_pool);
    if version is None || array is None || pool is None {
        r matches Err(e) && missing_is(version is None, array is None, pool is None, e)
    } else if o.build_config.case_preserving {
        r == Ok::<Config, ConfigError>(combined(o, found, image_base, true))
    } else {
        exists|c: Result<bool, ConfigError>| #[trigger]
            case_preserving_may_be(mem, found.fname_constant, version->0, c) && r == match c {
                Ok(case_preserving) => Ok(combined(o, found, image_base, case_preserving)),
                Err(e) => Err(e),
            }
    }
}

/// Makes a configuration of overrides and of what was found in an image that is loaded at
/// `image_base`. Whether names keep their case is found out where the overrides do not say so.
pub fn resolve_config<M: Mem>(
    mem: &M,
    found: &Resolution,
    image_base: u64,
    overrides: &ConfigOverrides,
) -> (r: Result<Config, ConfigError>)
    ensures
        config_may_be(*mem, *overrides, *found, image_base, r),
{
    let engine_version: Option<(u16, u16)> = match overrides.engine_version {
        Some(v) => Some(v),
        None => found.engine_version,
    };
    let guobject_array: Option<u64> = match overrides.guobject_array {
        Some(a) => Some(a),
        None => found.guobject_array,
    };
    let fname_pool: Option<u64> = match overrides.fname_pool {
        Some(a) => Some(a),
        None => found.fname_pool,
    };
    match (engine_version, guobject_array, fname_pool) {
        (Some(engine_version), Some(guobject_array), Some(fname_pool)) => {
            let case_preserving = if overrides.build_config.case_preserving {
                true
            } else {
                match detect_case_preserving(mem, found.fname_constant, engine_version) {
                    Ok(c) => c,
                    Err(e) => {
                        return Err(e);
                    },
                }
            };
            assert(!overrides.build_config.case_preserving ==> case_preserving_may_be(
                *mem,
                found.fname_constant,
                engine_version,
                Ok(case_preserving),
            ));
            let build_change_list = match &overrides.build_change_list {
                Some(text) => Some(text.clone()),
                None => copy_text(&found.build),
            };
            Ok(
                Config {
                    guobject_array,
                    fname_pool,
                    engine_version,
                    image_base: match overrides.image_base {
                        Some(base) => base,
                        None => image_base,
                    },
                    build_change_list,
                    build_config: BuildConfig { case_preserving },
                    target_triplet: match overrides.target_triplet {
                        Some(target) => target,
                        None => default_target_triplet(),
                    },
                },
            )
        },
        _ => Err(
            missing_error(
                engine_version.is_none(),
                guobject_array.is_none(),
                fname_pool.is_none(),
            ),
        ),
    }
}

/// Overrides make a configuration by themselves just where they give both addresses and the
/// version. It has what they give; the image begins at 0 and the target is 64-bit Windows where
/// they do not say otherwise.
pub proof fn overrides_can_be_enough(o: ConfigOverrides)
    ensures
        completed(o) is Some <==> o.guobject_array is Some && o.fname_pool is Some
            && o.engine_version is Some,
        completed(o) matches Some(c) ==> {
            &&& o.guobject_array == Some(c.guobject_array)
            &&& o.fname_pool == Some(c.fname_pool)
            &&& o.engine_version == Some(c.engine_version)
            &&& o.image_base == Some(c.image_base) || o.image_base is None && c.image_base == 0
            &&& c.build_change_list == o.build_change_list
            &&& c.build_config == o.build_config
            &&& o.target_triplet == Some(c.target_triplet) || o.target_triplet is None
                && is_win64(c.target_triplet)
        },
{
}

/// Whether a target is 64-bit Windows.
pub open spec fn is_win64(target: TargetTriplet) -> bool {
    &&& target.arch == TargetArchitecture::X86_64
    &&& target.sys == TargetOperatingSystem::Win32
    &&& target.env == Some(TargetEnvironment::MSVC)
}

/// Whether a value is the one that is given, or the one that was found where none is given.
pub open spec fn given_or_found<T>(given: Option<T>, found: Option<T>, value: Option<T>) -> bool {
    (given is Some ==> value == given) && (given is None ==> value == found)
}

/// What is missing in a configuration is what is neither given nor found.
pub open spec fn is_missing<T>(given: Option<T>, found: Option<T>) -> bool {
    given is None && found is None
}

/// A configuration has what the overrides give, and what was found where they give nothing. Whether
/// names keep their case is looked at just where the overrides do not say that they do. The error
/// for missing values comes where one of both addresses and the version is neither given nor found,
/// and not otherwise.
pub proof fn overrides_come_first<M: Mem>(
    mem: M,
    o: ConfigOverrides,
    found: Resolution,
    image_base: u64,
    r: Result<Config, ConfigError>,
)
    requires
        config_may_be(mem, o, found, image_base, r),
    ensures
        ({
            let missing = is_missing(o.engine_version, found.engine_version) || is_missing(
                o.guobject_array,
                found.guobject_array,
            ) || is_missing(o.fname_pool, found.fname_pool);
            &&& missing <==> (r is Err && r->Err_0 is Missing)
            &&& r matches Ok(c) ==> {
                &&& given_or_found(o.guobject_array, found.guobject_array, Some(c.guobject_array))
                &&& given_or_found(o.fname_pool, found.fname_pool, Some(c.fname_pool))
                &&& given_or_found(o.engine_version, found.engine_version, Some(c.engine_version))
                &&& given_or_found(o.image_base, Some(image_base), Some(c.image_base))
                &&& given_or_found(o.build_change_list, found.build, c.build_change_list)
                &&& o.target_triplet == Some(c.target_triplet) || o.target_triplet is None
                    && is_win64(c.target_triplet)
                &&& o.build_config.case_preserving ==> c.build_config.case_preserving
                &&& !o.build_config.case_preserving ==> case_preserving_may_be(
                    mem,
                    found.fname_constant,
                    c.engine_version,
                    Ok(c.build_config.case_preserving),
                )
            }
            &&& !missing && o.build_config.case_preserving ==> r is Ok
        }),
{
    let version = first_of(o.engine_version, found.engine_version);
    if !is_missing(o.engine_version, found.engine_version) && !is_missing(
        o.guobject_array,
        found.guobject_array,
    ) && !is_missing(o.fname_pool, found.fname_pool) && !o.build_config.case_preserving {
        let c = choose|c: Result<bool, ConfigError>| #[trigger]
            case_preserving_may_be(mem, found.fname_constant, version->0, c) && r == match c {
                Ok(case_preserving) => Ok(combined(o, found, image_base, case_preserving)),
                Err(e) => Err(e),
            };
        name_constants_tell_of_case(mem, found.fname_constant, version->0, c);
    }
}

/// The texts of an error for missing values: it names each of them, and the flag that gives it, in
/// one order.
pub proof fn missing_values_are_named(version: bool, array: bool, pool: bool, e: ConfigError)
    requires
        missing_is(version, array, pool, e),
    ensures
        e matches ConfigError::Missing { names, flags } && {
            let comma = seq![',', ' '];
            let space = seq![' '];
            let engine = "engine-version"@;
            let objects = "guobject-array"@;
            let fnames = "fname-pool"@;
            &&& version && !array && !pool ==> names@ == engine && flags@ == "--engine-version"@
            &&& !version && array && !pool ==> names@ == objects && flags@ == "--guobject-array"@
            &&& !version && !array && pool ==> names@ == fnames && flags@ == "--fname-pool"@
            &&& version && array && !pool ==> names@ == engine + comma + objects && flags@
                == "--engine-version"@ + space + "--guobject-array"@
            &&& version && !array && pool ==> names@ == engine + comma + fnames && flags@
                == "--engine-version"@ + space + "--fname-pool"@
            &&& !version && array && pool ==> names@ == objects + comma + fnames && flags@
                == "--guobject-array"@ + space + "--fname-pool"@
            &&& version && array && pool ==> names@ == engine + comma + objects + comma + fnames
                && flags@ == "--engine-version"@ + space + "--guobject-array"@ + space
                + "--fname-pool"@
        },
{
    reveal_strlit(", ");
    reveal_strlit(" ");
    assert(", "@ =~= seq![',', ' ']);
    assert(" "@ =~= seq![' ']);
    reveal_with_fuel(crate::text::joined, 4);
}

/// Whether the number `offset` bytes behind an address can be asked for and may be that one.
pub open spec fn may_hold<M: Mem>(mem: M, address: u64, offset: u64, n: u32) -> bool {
    address + offset <= u64::MAX && mem.admits((address + offset) as u64, 4) && may_read_u32(
        mem,
        (address + offset) as u64,
        Ok(n),
    )
}

/// Whether a name constant may tell whether names keep their case: its index is not 0 and its
/// number is. Before version 4.23 names do not keep it. They do where the index stands twice:
/// before version 5.1 in the second place, behind which the number stands then, and since in the
/// third.
pub open spec fn tells_case<M: Mem>(
    mem: M,
    address: u64,
    version: (u16, u16),
    case_preserving: bool,
) -> bool {
    exists|index: u32| #[trigger]
        may_hold(mem, address, 0, index) && index != 0 && if version.0 < 4 || version.0 == 4
            && version.1 < 23 {
            !case_preserving && may_hold(mem, address, 4, 0)
        } else if version.0 < 5 || version.0 == 5 && version.1 < 1 {
            if case_preserving {
                may_hold(mem, address, 4, index) && may_hold(mem, address, 8, 0)
            } else {
                may_hold_other(mem, address, 4, index) && may_hold(mem, address, 4, 0)
            }
        } else {
            if case_preserving {
                may_hold(mem, address, 8, index) && may_hold(mem, address, 4, 0)
            } else {
                may_hold_other(mem, address, 8, index) && may_hold(mem, address, 4, 0)
            }
        }
}

/// Whether the number `offset` bytes behind an address may be another one.
pub open spec fn may_hold_other<M: Mem>(mem: M, address: u64, offset: u64, n: u32) -> bool {
    exists|other: u32| #[trigger] may_hold(mem, address, offset, other) && other != n
}

/// Whether one of the three numbers of a name constant cannot be asked for.
pub open spec fn ends_beyond<M: Mem>(mem: M, address: u64) -> bool {
    exists|offset: u64|
        (offset == 0 || offset == 4 || offset == 8) && !(#[trigger] has_part(mem, address, offset))
}

/// Whether one of the three numbers of a name constant may be that which cannot be read.
pub open spec fn may_fail<M: Mem>(mem: M, address: u64, e: MemError) -> bool {
    exists|offset: u64|
        (offset == 0 || offset == 4 || offset == 8) && #[trigger] may_read_u32(
            mem,
            (address + offset) as u64,
            Err(e),
        )
}

/// A name constant tells by its numbers whether names keep their case, and without one they do not.
/// It is refused where its index is 0, where its number is not, and where a part of it cannot be
/// read.
pub proof fn name_constants_tell_of_case<M: Mem>(
    mem: M,
    constant: Option<u64>,
    version: (u16, u16),
    r: Result<bool, ConfigError>,
)
    requires
        case_preserving_may_be(mem, constant, version, r),
    ensures
        match constant {
            None => r == Ok::<bool, ConfigError>(false),
            Some(address) => match r {
                Ok(case_preserving) => tells_case(mem, address, version, case_preserving),
                Err(ConfigError::NullName) => may_hold(mem, address, 0, 0),
                Err(ConfigError::OutlinedNumber) => may_hold_other(mem, address, 4, 0)
                    || may_hold_other(mem, address, 8, 0),
                Err(ConfigError::AddressOverflow) => ends_beyond(mem, address),
                Err(ConfigError::Memory(e)) => may_fail(mem, address, e),
                Err(ConfigError::Missing { .. }) => false,
            },
        },
{
    if let Some(address) = constant {
        let first = choose|first: Result<u32, ConfigError>| #[trigger]
            part_may_be(mem, address, 0, first) && match first {
                Ok(n) => if n == 0 {
                    r == Err::<bool, ConfigError>(ConfigError::NullName)
                } else {
                    display_may_be(mem, address, version, n, r)
                },
                Err(e) => r == Err::<bool, ConfigError>(e),
            };
        lemma_part(mem, address, 0, first);
        if let Ok(index) = first {
            if index != 0 {
                if is_older(version, (4, 23)) {
                    lemma_number(mem, address, version, false, r);
                } else {
                    let display = choose|display: Result<u32, ConfigError>| #[trigger]
                        part_may_be(mem, address, display_offset(version), display)
                            && match display {
                            Ok(n) => number_may_be(mem, address, version, n == index, r),
                            Err(e) => r == Err::<bool, ConfigError>(e),
                        };
                    lemma_part(mem, address, display_offset(version), display);
                    if let Ok(n) = display {
                        lemma_number(mem, address, version, n == index, r);
                    }
                }
            }
        }
    }
}

proof fn lemma_part<M: Mem>(mem: M, address: u64, offset: u64, r: Result<u32, ConfigError>)
    requires
        part_may_be(mem, address, offset, r),
        offset == 0 || offset == 4 || offset == 8,
    ensures
        match r {
            Ok(n) => may_hold(mem, address, offset, n),
            Err(ConfigError::AddressOverflow) => ends_beyond(mem, address),
            Err(ConfigError::Memory(e)) => may_fail(mem, address, e),
            Err(_) => false,
        },
{
    if !has_part(mem, address, offset) {
        assert(ends_beyond(mem, address));
    }
}

proof fn lemma_number<M: Mem>(
    mem: M,
    address: u64,
    version: (u16, u16),
    case_preserving: bool,
    r: Result<bool, ConfigError>,
)
    requires
        number_may_be(mem, address, version, case_preserving, r),
    ensures
        match r {
            Ok(c) => c == case_preserving && may_hold(
                mem,
                address,
                if case_preserving && (version.0 < 5 || version.0 == 5 && version.1 < 1) {
                    8
                } else {
                    4
                },
                0,
            ),
            Err(ConfigError::OutlinedNumber) => may_hold_other(mem, address, 4, 0)
                || may_hold_other(mem, address, 8, 0),
            Err(ConfigError::AddressOverflow) => ends_beyond(mem, address),
            Err(ConfigError::Memory(e)) => may_fail(mem, address, e),
            Err(_) => false,
        },
{
    let offset = number_offset(version, case_preserving);
    let number = choose|number: Result<u32, ConfigError>| #[trigger]
        part_may_be(mem, address, offset, number) && r == match number {
            Ok(n) => if n == 0 {
                Ok(case_preserving)
            } else {
                Err(ConfigError::OutlinedNumber)
            },
            Err(e) => Err(e),
        };
    lemma_part(mem, address, offset, number);
}

/// By default nothing is given, and nothing is asked for beyond the objects of native code and
/// their vtables. The default target is 64-bit Windows.
pub proof fn nothing_is_given_by_default(
    overrides: ConfigOverrides,
    options: DumpOptions,
    build: BuildConfig,
    target: TargetTriplet,
)
    requires
        call_ensures(ConfigOverrides::default, (), overrides),
        call_ensures(DumpOptions::default, (), options),
        call_ensures(BuildConfig::default, (), build),
        call_ensures(default_target_triplet, (), target),
    ensures
        completed(overrides) is None,
        overrides.guobject_array is None && overrides.fname_pool is None
            && overrides.engine_version is None,
        overrides.image_base is None && overrides.build_change_list is None
            && overrides.target_triplet is None && overrides.module is None,
        !overrides.build_config.case_preserving && !build.case_preserving,
        !options.all && !options.names && !options.skip_vtables && !options.skip_objects,
        is_win64(target),
{
}

} // verus!
