use std::path::PathBuf;

use jmap_dumper::config::{
    default_target_triplet, detect_case_preserving, older, resolve_config, BuildConfig, Config,
    ConfigError, ConfigOverrides, DumpOptions, Resolution, TargetArchitecture, TargetEnvironment,
    TargetOperatingSystem, TargetTriplet,
};
use jmap_dumper::mem::{Mem, MemError};
use jmap_dumper::minidump_file::DumpError;
use jmap_dumper::source::{
    connect, connect_manual, open_dump, open_macho, plan_process, rebase, Input, OpenError, Plan,
};
use jmap_dumper::structs::{StructInfo, Structs};

/// Numbers at 0x100, 0x104, ..., and nothing else.
struct Words(Vec<u32>);

impl Mem for Words {
    fn can_read(&self, _address: u64, _len: usize) -> bool {
        true
    }

    fn write_buf(&self, _address: u64, _buf: &[u8]) -> Result<(), MemError> {
        Err(MemError::WriteUnsupported)
    }

    fn read_buf(&self, address: u64, buf: &mut [u8]) -> Result<(), MemError> {
        let i = (address - 0x100) as usize / 4;
        if i >= self.0.len() || buf.len() != 4 {
            return Err(MemError::Backend("unmapped".to_string()));
        }
        buf.copy_from_slice(&self.0[i].to_le_bytes());
        Ok(())
    }
}

fn nothing_found() -> Resolution {
    Resolution {
        guobject_array: None,
        fname_pool: None,
        engine_version: None,
        build: None,
        fname_constant: None,
    }
}

fn complete() -> ConfigOverrides {
    ConfigOverrides {
        guobject_array: Some(1),
        fname_pool: Some(2),
        engine_version: Some((5, 1)),
        ..ConfigOverrides::default()
    }
}

#[test]
fn options_are_off_by_default() {
    let options = DumpOptions::default();
    assert!(!options.all && !options.names && !options.skip_vtables && !options.skip_objects);
    assert!(!BuildConfig::default().case_preserving);
}

#[test]
fn overrides_are_complete_with_two_addresses_and_a_version() {
    let config = complete().into_complete().unwrap();
    assert_eq!(
        config,
        Config {
            guobject_array: 1,
            fname_pool: 2,
            engine_version: (5, 1),
            image_base: 0,
            build_change_list: None,
            build_config: BuildConfig { case_preserving: false },
            target_triplet: default_target_triplet(),
        }
    );
    assert_eq!(config.clone(), config);
    assert!(ConfigOverrides { guobject_array: None, ..complete() }.into_complete().is_none());
    assert!(ConfigOverrides { fname_pool: None, ..complete() }.into_complete().is_none());
    assert!(ConfigOverrides { engine_version: None, ..complete() }.into_complete().is_none());
    let target = TargetTriplet {
        arch: TargetArchitecture::ARM64,
        sys: TargetOperatingSystem::Darwin,
        env: None,
    };
    let overrides = ConfigOverrides {
        image_base: Some(7),
        build_change_list: Some("CL".to_string()),
        target_triplet: Some(target),
        ..complete()
    };
    let config = overrides.clone().into_complete().unwrap();
    assert_eq!(config.image_base, 7);
    assert_eq!(config.build_change_list, Some("CL".to_string()));
    assert_eq!(config.target_triplet, target);
}

#[test]
fn the_default_target_is_64_bit_windows() {
    assert_eq!(
        default_target_triplet(),
        TargetTriplet {
            arch: TargetArchitecture::X86_64,
            sys: TargetOperatingSystem::Win32,
            env: Some(TargetEnvironment::MSVC),
        }
    );
}

#[test]
fn versions_compare_by_major_then_minor() {
    assert!(older((4, 22), (4, 23)));
    assert!(!older((4, 23), (4, 23)));
    assert!(older((4, 99), (5, 0)));
    assert!(!older((5, 0), (4, 99)));
}

#[test]
fn names_of_old_engines_do_not_keep_their_case() {
    assert_eq!(detect_case_preserving(&Words(vec![9, 0]), Some(0x100), (4, 22)), Ok(false));
    assert_eq!(
        detect_case_preserving(&Words(vec![9, 9]), Some(0x100), (4, 22)),
        Err(ConfigError::OutlinedNumber)
    );
    assert_eq!(detect_case_preserving(&Words(vec![]), None, (4, 22)), Ok(false));
}

#[test]
fn the_index_for_display_stands_before_the_number() {
    assert_eq!(detect_case_preserving(&Words(vec![9, 9, 0]), Some(0x100), (4, 27)), Ok(true));
    assert_eq!(detect_case_preserving(&Words(vec![9, 0, 5]), Some(0x100), (5, 0)), Ok(false));
    assert_eq!(
        detect_case_preserving(&Words(vec![9, 9, 1]), Some(0x100), (4, 23)),
        Err(ConfigError::OutlinedNumber)
    );
    assert_eq!(
        detect_case_preserving(&Words(vec![9, 3, 0]), Some(0x100), (4, 23)),
        Err(ConfigError::OutlinedNumber)
    );
}

#[test]
fn the_index_for_display_stands_behind_the_number() {
    assert_eq!(detect_case_preserving(&Words(vec![9, 0, 9]), Some(0x100), (5, 1)), Ok(true));
    assert_eq!(detect_case_preserving(&Words(vec![9, 0, 4]), Some(0x100), (5, 4)), Ok(false));
    assert_eq!(
        detect_case_preserving(&Words(vec![9, 9, 9]), Some(0x100), (5, 1)),
        Err(ConfigError::OutlinedNumber)
    );
}

#[test]
fn name_constants_that_cannot_be_read_are_reported() {
    let unmapped = ConfigError::Memory(MemError::Backend("unmapped".to_string()));
    assert_eq!(
        detect_case_preserving(&Words(vec![]), Some(0x100), (5, 1)),
        Err(unmapped.clone())
    );
    assert_eq!(
        detect_case_preserving(&Words(vec![9, 0]), Some(0x100), (5, 1)),
        Err(unmapped)
    );
    assert_eq!(
        detect_case_preserving(&Words(vec![0, 0, 0]), Some(0x100), (5, 1)),
        Err(ConfigError::NullName)
    );
}

/// Numbers up to the end of the address space.
struct End(Vec<u32>);

impl Mem for End {
    fn can_read(&self, address: u64, len: usize) -> bool {
        len == 0 || address.checked_add(len as u64 - 1).is_some()
    }

    fn write_buf(&self, _address: u64, _buf: &[u8]) -> Result<(), MemError> {
        Err(MemError::WriteUnsupported)
    }

    fn read_buf(&self, address: u64, buf: &mut [u8]) -> Result<(), MemError> {
        let behind = ((u64::MAX - address) / 4) as usize;
        buf.copy_from_slice(&self.0[self.0.len() - 1 - behind].to_le_bytes());
        Ok(())
    }
}

#[test]
fn parts_of_the_name_constant_are_read_where_they_are_looked_at() {
    let two = Some(u64::MAX - 7);
    assert_eq!(detect_case_preserving(&End(vec![9, 0]), two, (4, 22)), Ok(false));
    assert_eq!(detect_case_preserving(&End(vec![9, 0]), two, (5, 0)), Ok(false));
    assert_eq!(
        detect_case_preserving(&End(vec![9, 9]), two, (5, 0)),
        Err(ConfigError::AddressOverflow)
    );
    assert_eq!(
        detect_case_preserving(&End(vec![9, 0]), two, (5, 1)),
        Err(ConfigError::AddressOverflow)
    );
    assert_eq!(
        detect_case_preserving(&End(vec![0, 0]), two, (5, 1)),
        Err(ConfigError::NullName)
    );
    let one = Some(u64::MAX - 3);
    assert_eq!(
        detect_case_preserving(&End(vec![9]), one, (4, 22)),
        Err(ConfigError::AddressOverflow)
    );
    let none = Some(u64::MAX - 1);
    assert_eq!(
        detect_case_preserving(&End(vec![9]), none, (4, 22)),
        Err(ConfigError::AddressOverflow)
    );
}

#[test]
fn inputs_name_files_by_their_paths() {
    let path = PathBuf::from("a.dmp");
    assert!(matches!(Input::Dump(path.clone()), Input::Dump(p) if p == path));
    assert!(Input::Dump(path.clone()) != Input::MachoCore(path));
}

#[test]
fn overrides_come_before_what_was_found() {
    let found = Resolution {
        guobject_array: Some(10),
        fname_pool: Some(20),
        engine_version: Some((4, 27)),
        build: Some("found".to_string()),
        fname_constant: Some(0x100),
    };
    let mem = Words(vec![9, 9, 0]);
    let config = resolve_config(&mem, &found, 0x140000000, &ConfigOverrides::default()).unwrap();
    assert_eq!(
        config,
        Config {
            guobject_array: 10,
            fname_pool: 20,
            engine_version: (4, 27),
            image_base: 0x140000000,
            build_change_list: Some("found".to_string()),
            build_config: BuildConfig { case_preserving: true },
            target_triplet: default_target_triplet(),
        }
    );
    let overrides = ConfigOverrides {
        guobject_array: Some(1),
        engine_version: Some((4, 22)),
        image_base: Some(3),
        build_change_list: Some("given".to_string()),
        ..ConfigOverrides::default()
    };
    let config = resolve_config(&Words(vec![9, 0]), &found, 0x140000000, &overrides).unwrap();
    assert_eq!(config.guobject_array, 1);
    assert_eq!(config.fname_pool, 20);
    assert_eq!(config.engine_version, (4, 22));
    assert_eq!(config.image_base, 3);
    assert_eq!(config.build_change_list, Some("given".to_string()));
    assert!(!config.build_config.case_preserving);
}

#[test]
fn memory_is_not_looked_at_where_names_are_said_to_keep_their_case() {
    let found = Resolution { fname_constant: Some(0x100), ..nothing_found() };
    let overrides = ConfigOverrides {
        build_config: BuildConfig { case_preserving: true },
        ..complete()
    };
    let config = resolve_config(&Words(vec![]), &found, 0, &overrides).unwrap();
    assert!(config.build_config.case_preserving);
}

#[test]
fn missing_values_are_named() {
    let missing = |overrides: &ConfigOverrides| {
        match resolve_config(&Words(vec![]), &nothing_found(), 0, overrides) {
            Err(ConfigError::Missing { names, flags }) => (names, flags),
            other => panic!("{other:?}"),
        }
    };
    assert_eq!(
        missing(&ConfigOverrides::default()),
        (
            "engine-version, guobject-array, fname-pool".to_string(),
            "--engine-version --guobject-array --fname-pool".to_string()
        )
    );
    assert_eq!(
        missing(&ConfigOverrides { guobject_array: None, ..complete() }),
        ("guobject-array".to_string(), "--guobject-array".to_string())
    );
}

#[test]
fn processes_are_searched_unless_all_is_known() {
    assert!(matches!(plan_process(complete()), Plan::Ready(config) if config.fname_pool == 2));
    let overrides = ConfigOverrides { fname_pool: None, ..complete() };
    assert!(matches!(plan_process(overrides), Plan::Resolve(o) if o.guobject_array == Some(1)));
}

#[test]
fn core_files_need_a_complete_configuration() {
    let native = TargetTriplet {
        arch: TargetArchitecture::ARM64,
        sys: TargetOperatingSystem::Darwin,
        env: None,
    };
    assert_eq!(open_macho(complete(), native).unwrap().target_triplet, native);
    let overrides = ConfigOverrides {
        target_triplet: Some(default_target_triplet()),
        ..complete()
    };
    assert_eq!(open_macho(overrides, native).unwrap().target_triplet, default_target_triplet());
    assert_eq!(
        open_macho(ConfigOverrides::default(), native),
        Err(OpenError::ManualConfigNeeded)
    );
}

#[test]
fn offsets_are_rebased_on_their_module() {
    let overrides = rebase(ConfigOverrides { guobject_array: None, ..complete() }, 0x1000);
    assert_eq!(overrides.fname_pool, Some(0x1002));
    assert_eq!(overrides.guobject_array, None);
    assert_eq!(overrides.image_base, Some(0x1000));
    let overrides = rebase(ConfigOverrides { image_base: Some(5), ..complete() }, 0x1000);
    assert_eq!(overrides.image_base, Some(5));
    assert_eq!(overrides.guobject_array, Some(0x1001));
}

/// A minidump with one module `game.exe` at `base`, of a system of that kind.
fn dump_with_module(base: u64, arch: u16, platform: u32) -> Vec<u8> {
    let mut file = vec![];
    file.extend(0x504d444du32.to_le_bytes());
    file.extend(0xa793u32.to_le_bytes());
    file.extend(2u32.to_le_bytes());
    file.extend(32u32.to_le_bytes());
    file.extend([0; 16]);
    let modules_at = 32 + 24u32;
    let system_at = modules_at + 112;
    let name_at = system_at + 56;
    file.extend(4u32.to_le_bytes());
    file.extend(112u32.to_le_bytes());
    file.extend(modules_at.to_le_bytes());
    file.extend(7u32.to_le_bytes());
    file.extend(56u32.to_le_bytes());
    file.extend(system_at.to_le_bytes());
    file.extend(1u32.to_le_bytes());
    file.extend(base.to_le_bytes());
    file.extend(0x1000u32.to_le_bytes());
    file.extend([0; 8]);
    file.extend(name_at.to_le_bytes());
    file.extend([0; 84]);
    file.extend(arch.to_le_bytes());
    file.extend([0; 18]);
    file.extend(platform.to_le_bytes());
    file.extend([0; 32]);
    let units: Vec<u8> = "game.exe".encode_utf16().flat_map(|u| u.to_le_bytes()).collect();
    file.extend((units.len() as u32).to_le_bytes());
    file.extend(units);
    file
}

#[test]
fn dumps_are_planned_by_module_and_target() {
    let dump = dump_with_module(0x4000, 9, 2);
    let overrides = ConfigOverrides { module: Some("GAME.exe".to_string()), ..complete() };
    match open_dump(&dump, overrides.clone()) {
        Ok(Plan::Ready(config)) => {
            assert_eq!(config.guobject_array, 0x4001);
            assert_eq!(config.fname_pool, 0x4002);
            assert_eq!(config.image_base, 0x4000);
            assert_eq!(config.target_triplet, default_target_triplet());
        }
        other => panic!("{other:?}"),
    }
    let partial = ConfigOverrides { engine_version: None, ..complete() };
    match open_dump(&dump, partial.clone()) {
        Ok(Plan::Resolve(overrides)) => {
            assert_eq!(overrides.guobject_array, Some(1));
            assert_eq!(overrides.target_triplet, Some(default_target_triplet()));
        }
        other => panic!("{other:?}"),
    }
    let linux = dump_with_module(0x4000, 9, 0x8201);
    let target = TargetTriplet {
        arch: TargetArchitecture::X86_64,
        sys: TargetOperatingSystem::Linux,
        env: Some(TargetEnvironment::Gnu),
    };
    assert_eq!(
        open_dump(&linux, partial),
        Err(OpenError::UnsupportedTarget { target })
    );
    match open_dump(&linux, complete()) {
        Ok(Plan::Ready(config)) => assert_eq!(config.target_triplet, target),
        other => panic!("{other:?}"),
    }
}

#[test]
fn dumps_that_cannot_be_planned_are_refused() {
    assert_eq!(
        open_dump(b"", complete()),
        Err(OpenError::Dump(DumpError::Unreadable))
    );
    let overrides = ConfigOverrides { module: Some("other.exe".to_string()), ..complete() };
    assert_eq!(
        open_dump(&dump_with_module(0x4000, 9, 2), overrides),
        Err(OpenError::Dump(DumpError::NoModule { available: "game.exe".to_string() }))
    );
    let overrides = ConfigOverrides { module: Some("game.exe".to_string()), ..complete() };
    assert_eq!(
        open_dump(&dump_with_module(u64::MAX - 0x1000, 9, 2), ConfigOverrides {
            fname_pool: Some(0x2000),
            ..overrides
        }),
        Err(OpenError::AddressOverflow)
    );
}

fn layout(name: &str, size: u64) -> StructInfo {
    StructInfo { name: name.to_string(), size, alignment: 8, members: vec![] }
}

#[test]
fn contexts_hold_what_the_configuration_says() {
    let structs = Structs(vec![layout("A", 1), layout("B", 2), layout("A", 3)]);
    let config = ConfigOverrides {
        image_base: Some(0x1000),
        build_change_list: Some("CL".to_string()),
        ..complete()
    }
    .into_complete()
    .unwrap();
    let ctx = connect_manual(Box::new(Words(vec![])), config, structs);
    let inner = ctx.inner();
    assert_eq!(inner.uobjectarray, 1);
    assert_eq!(inner.fnamepool, 2);
    assert_eq!(inner.version, (5, 1));
    assert_eq!(inner.uobjectarray_xor_key, 0);
    assert_eq!(inner.image_base_address, 0x1000);
    assert_eq!(inner.build_change_list, Some("CL".to_string()));
    assert_eq!(ctx.get_struct("A").size, 3);
    assert_eq!(ctx.get_struct("B").size, 2);
    assert_eq!(inner.structs.len(), 2);
}

#[test]
fn connecting_resolves_the_configuration() {
    let found = Resolution { fname_constant: Some(0x100), ..nothing_found() };
    let mem = Box::new(Words(vec![9, 0, 9]));
    let ctx = connect(mem, &found, 5, &complete(), Structs(vec![])).unwrap();
    assert!(ctx.inner().build_config.case_preserving);
    assert_eq!(ctx.inner().image_base_address, 5);
    let failed = connect(Box::new(Words(vec![])), &found, 5, &complete(), Structs(vec![]));
    assert!(matches!(failed, Err(ConfigError::Memory(_))));
}
