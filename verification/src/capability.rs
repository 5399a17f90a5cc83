//! Deterministic facts about the host, as numbers: RAM, cores, free
//! storage, architecture, GPU presence. A fact the host declares in its
//! configuration wins over the probed one; a probe that cannot answer
//! gives `None` rather than a guess.

use vstd::prelude::*;
use crate::config::CapabilityConfig;
use crate::storage::Storage;

verus! {

/// Bytes in a mebibyte.
pub const BYTES_PER_MB: u64 = 1048576;

/// The declared value where there is one, else the probed one.
pub open spec fn prefer<T>(declared: Option<T>, probed: Option<T>) -> Option<T> {
    match declared {
        Some(x) => Some(x),
        None => probed,
    }
}

/// Merges a declared profile with a probed one, field by field: the
/// declaration wins where present, the probe fills the rest.
pub fn resolve(declared: &CapabilityConfig, probed: CapabilityConfig) -> (r: CapabilityConfig)
    ensures
        r.ram_mb == prefer(declared.ram_mb, probed.ram_mb),
        r.cpu_cores == prefer(declared.cpu_cores, probed.cpu_cores),
        r.storage_mb == prefer(declared.storage_mb, probed.storage_mb),
        r.gpu_present == prefer(declared.gpu_present, probed.gpu_present),
        match (declared.arch, probed.arch) {
            (Some(a), _) => r.arch matches Some(x) && x@ == a@,
            (None, p) => r.arch == p,
        },
{
    let arch = match &declared.arch {
        Some(a) => Some(a.clone()),
        None => probed.arch,
    };
    CapabilityConfig {
        ram_mb: match declared.ram_mb {
            Some(x) => Some(x),
            None => probed.ram_mb,
        },
        cpu_cores: match declared.cpu_cores {
            Some(x) => Some(x),
            None => probed.cpu_cores,
        },
        storage_mb: match declared.storage_mb {
            Some(x) => Some(x),
            None => probed.storage_mb,
        },
        arch,
        gpu_present: match declared.gpu_present {
            Some(x) => Some(x),
            None => probed.gpu_present,
        },
    }
}

/// Whole mebibytes in `bytes`, rounded down.
pub open spec fn whole_mb(bytes: u64) -> u64 {
    (bytes / BYTES_PER_MB) as u64
}

/// The RAM fact for a reported total: `None` for a report of 0 (the
/// probe could not tell), else the total in whole mebibytes.
pub fn ram_mb_from_bytes(total_bytes: u64) -> (r: Option<u64>)
    ensures
        total_bytes == 0 ==> r is None,
        total_bytes != 0 ==> r == Some(whole_mb(total_bytes)),
{
    if total_bytes == 0 {
        None
    } else {
        Some(total_bytes / BYTES_PER_MB)
    }
}

/// The host-information handle of `sysinfo`; its contents stay opaque.
#[verifier::external_type_specification]
#[verifier::external_body]
pub struct ExSysinfoSystem(sysinfo::System);

/// `sysinfo::System::new`: a handle with nothing read yet. Nothing is
/// stated of it.
pub assume_specification[ sysinfo::System::new ]() -> sysinfo::System;

/// `sysinfo::System::refresh_memory`: reads the memory figures into the
/// handle. What it reads depends on the machine; nothing is stated of it.
pub assume_specification[ sysinfo::System::refresh_memory ](sys: &mut sysinfo::System);

/// `sysinfo::System::total_memory`: the total RAM in bytes as last read,
/// 0 where it could not be read. It depends on the machine, so nothing is
/// stated of it.
pub assume_specification[ sysinfo::System::total_memory ](sys: &sysinfo::System) -> u64;

/// The machine's total RAM in whole mebibytes, `None` when it cannot be
/// read. Which of the two comes, and the figure, depend on the machine:
/// what holds of every outcome is that a figure is the whole mebibytes of
/// some nonzero byte count.
pub fn probe_ram_mb() -> (r: Option<u64>)
    ensures
        r matches Some(mb) ==> exists|total: u64| total != 0 && mb == whole_mb(total),
        r matches Some(mb) ==> mb <= whole_mb(u64::MAX),
{
    let mut sys = sysinfo::System::new();
    sys.refresh_memory();
    let total = sys.total_memory();
    let r = ram_mb_from_bytes(total);
    proof {
        if let Some(mb) = r {
            assert(total != 0 && mb == whole_mb(total));
        }
    }
    r
}

/// The free-storage fact for a backend's report: whole mebibytes, `None`
/// when the backend cannot tell.
pub fn storage_mb_from_bytes(free: Option<u64>) -> (r: Option<u64>)
    ensures
        r == match free {
            Some(b) => Some(whole_mb(b)),
            None => None,
        },
{
    match free {
        Some(b) => Some(b / BYTES_PER_MB),
        None => None,
    }
}

/// The free space of `storage`'s medium in whole mebibytes.
pub fn probe_storage_mb<S: Storage>(storage: &S) -> (r: Option<u64>)
    ensures
        r == match storage.free_bytes() {
            Some(b) => Some(whole_mb(b)),
            None => None,
        },
{
    storage_mb_from_bytes(storage.free_space())
}

} // verus!
