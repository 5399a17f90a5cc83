use motif_core::capability::{probe_ram_mb, probe_storage_mb, ram_mb_from_bytes, resolve, storage_mb_from_bytes};
use motif_core::{CapabilityConfig, MemoryStorage};

#[test]
fn probe_fills_ram_mb_on_native() {
    let ram = probe_ram_mb();
    assert!(ram.is_some(), "sysinfo should report total memory on a native host");
    assert!(ram.unwrap() > 0);
}

#[test]
fn probe_storage_mb_is_none_for_memory_backend() {
    let storage = MemoryStorage::new();
    assert_eq!(probe_storage_mb(&storage), None);
}

#[test]
fn resolve_per_field_override_declared_wins() {
    let declared = CapabilityConfig {
        ram_mb: Some(2048),
        cpu_cores: None,
        storage_mb: None,
        arch: None,
        gpu_present: Some(true),
    };
    let probed = CapabilityConfig {
        ram_mb: Some(8192),
        cpu_cores: Some(8),
        storage_mb: Some(100_000),
        arch: Some("aarch64".to_string()),
        gpu_present: Some(false),
    };
    let resolved = resolve(&declared, probed);
    assert_eq!(resolved.ram_mb, Some(2048));
    assert_eq!(resolved.gpu_present, Some(true));
    assert_eq!(resolved.cpu_cores, Some(8));
    assert_eq!(resolved.storage_mb, Some(100_000));
    assert_eq!(resolved.arch.as_deref(), Some("aarch64"));
}

#[test]
fn resolve_empty_declared_is_pure_probe() {
    let declared = CapabilityConfig::default();
    let probed = CapabilityConfig {
        ram_mb: Some(4096),
        cpu_cores: Some(4),
        storage_mb: Some(50_000),
        arch: Some("x86_64".to_string()),
        gpu_present: None,
    };
    let resolved = resolve(&declared, probed.clone());
    assert_eq!(resolved, probed);
}

#[test]
fn resolve_none_in_both_stays_none() {
    let declared = CapabilityConfig::default();
    let probed = CapabilityConfig::default();
    let resolved = resolve(&declared, probed);
    assert_eq!(resolved, CapabilityConfig::default());
}

#[test]
fn declared_arch_wins_over_probed_arch() {
    let declared = CapabilityConfig { arch: Some("riscv64".to_string()), ..CapabilityConfig::default() };
    let probed = CapabilityConfig { arch: Some("x86_64".to_string()), ..CapabilityConfig::default() };
    assert_eq!(resolve(&declared, probed).arch.as_deref(), Some("riscv64"));
}

#[test]
fn ram_report_converts_to_whole_mebibytes() {
    assert_eq!(ram_mb_from_bytes(0), None);
    assert_eq!(ram_mb_from_bytes(1), Some(0));
    assert_eq!(ram_mb_from_bytes(8 * 1024 * 1024 * 1024), Some(8192));
    assert_eq!(ram_mb_from_bytes(3 * 1024 * 1024 - 1), Some(2));
}

#[test]
fn storage_report_converts_to_whole_mebibytes() {
    assert_eq!(storage_mb_from_bytes(None), None);
    assert_eq!(storage_mb_from_bytes(Some(1024 * 1024 * 1024)), Some(1024));
    assert_eq!(storage_mb_from_bytes(Some(1024 * 1024 - 1)), Some(0));
}
