use shmalloc::region::{
    addr_of_offset, offset_of_addr, FileAccessMode, MapPlan, MappingMode, Protection, RegionConfig,
};

fn base_config() -> RegionConfig {
    RegionConfig {
        base: 0,
        size: 1 << 24,
        protection: Protection { read: true, write: true, execute: false },
        mode: MappingMode { shared: true, fixed_placement: false },
        backing_path: None,
        file_access: FileAccessMode::ReadWrite,
    }
}

#[test]
fn empty_region_is_rejected() {
    let mut cfg = base_config();
    assert!(cfg.is_valid());
    cfg.size = 0;
    assert!(!cfg.is_valid());
}

#[test]
fn anonymous_configuration_plans_an_anonymous_mapping() {
    let cfg = base_config();
    match cfg.plan() {
        MapPlan::Anonymous { base, size, protection, mode } => {
            assert_eq!(base, 0);
            assert_eq!(size, 1 << 24);
            assert!(protection.read && protection.write && !protection.execute);
            assert!(mode.shared && !mode.fixed_placement);
        }
        MapPlan::FileBacked { .. } => panic!("expected an anonymous plan"),
    }
}

#[test]
fn backing_path_plans_a_file_backed_mapping() {
    let mut cfg = base_config();
    cfg.base = 0x100000;
    cfg.mode.fixed_placement = true;
    cfg.backing_path = Some(String::from("file.heap"));
    cfg.file_access = FileAccessMode::ReadOnly;
    match cfg.plan() {
        MapPlan::Anonymous { .. } => panic!("expected a file-backed plan"),
        MapPlan::FileBacked { base, size, path, access, .. } => {
            assert_eq!(base, 0x100000);
            assert_eq!(size, 1 << 24);
            assert_eq!(path, String::from("file.heap"));
            assert_eq!(access, FileAccessMode::ReadOnly);
        }
    }
}

#[test]
fn pointer_translation_round_trips() {
    let base: usize = 0x7f00_0000;
    let off: usize = 4096;
    let addr = addr_of_offset(base, off);
    assert_eq!(addr, 0x7f00_1000);
    assert_eq!(offset_of_addr(base, addr), off);
}
