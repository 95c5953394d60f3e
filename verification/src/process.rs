use vstd::prelude::*;
use crate::errors::{MemoryAccessError, ProcessAttachError};
use crate::region::MemoryRegion;
use crate::value::{le_encode, le_u64_at, lemma_le_bytes_bound, pow256, ScanValue, ValueKind};
use process_memory::{CopyAddress, PutAddress, TryIntoProcessHandle};

verus! {

// The architecture tag inside the outside crate's process handle, declared so
// that the handle, a pair of process id and tag, can live in a field here.
#[verifier::external_type_specification]
#[verifier::external_body]
pub struct ExArchitecture(process_memory::Architecture);

// One parsed line of the process's memory map, as the outside crate hands it
// over; opaque here, converted to `MemoryRegion` field by field.
#[verifier::external_type_specification]
#[verifier::external_body]
pub struct ExMapRange(proc_maps::MapRange);

/// Relies on process_memory::TryIntoProcessHandle for a process id: opens a
/// read/write capability to that process, or reports why it cannot.
#[verifier::external_body]
fn attach_raw(pid: i32) -> (r: Result<process_memory::ProcessHandle, ProcessAttachError>) {
    match (pid as process_memory::Pid).try_into_process_handle() {
        Ok(h) => Ok(h),
        Err(e) => Err(match e.kind() {
            std::io::ErrorKind::NotFound => ProcessAttachError::NotFound,
            std::io::ErrorKind::PermissionDenied => ProcessAttachError::AccessDenied,
            _ => ProcessAttachError::Other,
        }),
    }
}

/// Relies on proc_maps::get_process_maps: captures the process's current
/// memory region list, or reports why it cannot.
#[verifier::external_body]
fn fetch_maps_raw(pid: i32) -> (r: Result<Vec<proc_maps::MapRange>, ProcessAttachError>) {
    match proc_maps::get_process_maps(pid as proc_maps::Pid) {
        Ok(maps) => Ok(maps),
        Err(e) => Err(match e.kind() {
            std::io::ErrorKind::NotFound => ProcessAttachError::NotFound,
            std::io::ErrorKind::PermissionDenied => ProcessAttachError::AccessDenied,
            _ => ProcessAttachError::Other,
        }),
    }
}

/// Relies on proc_maps::MapRange's accessors: carries one map entry over into
/// plain values, field by field.
#[verifier::external_body]
fn region_of_map(m: &proc_maps::MapRange) -> (r: MemoryRegion) {
    MemoryRegion {
        start: m.start(),
        size: m.size(),
        read: m.is_read(),
        write: m.is_write(),
        execute: m.is_exec(),
        file_backed: m.filename().is_some(),
    }
}

/// Relies on process_memory::CopyAddress::copy_address: fills a buffer of
/// exactly `len` bytes from the target address space, or fails as a whole.
#[verifier::external_body]
fn read_raw(handle: &process_memory::ProcessHandle, addr: usize, len: usize) -> (r: Result<
    Vec<u8>,
    MemoryAccessError,
>)
    ensures
        r is Ok ==> r->Ok_0@.len() == len,
{
    let mut buf = vec![0u8; len];
    match handle.copy_address(addr, &mut buf) {
        Ok(()) => Ok(buf),
        Err(_) => Err(MemoryAccessError::UnreadableAddress),
    }
}

/// Relies on process_memory::PutAddress::put_address: writes the buffer's
/// bytes at the given address of the target address space.
#[verifier::external_body]
fn write_raw(handle: &process_memory::ProcessHandle, addr: usize, bytes: &Vec<u8>) -> (r: Result<
    (),
    MemoryAccessError,
>)
    ensures
        r is Err ==> r->Err_0 == MemoryAccessError::UnwritableAddress,
{
    match handle.put_address(addr, bytes.as_slice()) {
        Ok(()) => Ok(()),
        Err(_) => Err(MemoryAccessError::UnwritableAddress),
    }
}

/// An attached target process: an opaque read/write capability plus a
/// snapshot of its memory region list, captured once at attach time and never
/// refreshed. A long-lived handle may scan against a stale layout; that is an
/// accepted limitation of this design's timescales.
pub struct ProcessHandle {
    pid: i32,
    handle: process_memory::ProcessHandle,
    regions: Vec<MemoryRegion>,
}

impl ProcessHandle {
    /// The identifier of the attached process.
    pub closed spec fn spec_pid(&self) -> i32 {
        self.pid
    }

    /// The captured region snapshot.
    pub closed spec fn spec_regions(&self) -> Seq<MemoryRegion> {
        self.regions@
    }

    /// Attach to the process with the given identifier and capture its memory
    /// region list. Fails when the process does not exist or access to it is
    /// denied; fatal to the caller, never retried here.
    pub fn new(pid: i32) -> (r: Result<ProcessHandle, ProcessAttachError>)
        ensures
            r is Ok ==> r->Ok_0.spec_pid() == pid,
    {
        let handle = match attach_raw(pid) {
            Ok(h) => h,
            Err(e) => {
                return Err(e);
            },
        };
        let maps = match fetch_maps_raw(pid) {
            Ok(m) => m,
            Err(e) => {
                return Err(e);
            },
        };
        let mut regions: Vec<MemoryRegion> = Vec::new();
        let mut i: usize = 0;
        while i < maps.len()
            decreases maps@.len() - i,
        {
            regions.push(region_of_map(&maps[i]));
            i = i + 1;
        }
        Ok(ProcessHandle { pid, handle, regions })
    }

    /// The identifier this handle was attached with.
    pub fn get_pid(&self) -> (r: i32)
        ensures
            r == self.spec_pid(),
    {
        self.pid
    }

    /// The captured region snapshot, read only.
    pub fn get_proc_maps(&self) -> (r: &Vec<MemoryRegion>)
        ensures
            r@ == self.spec_regions(),
    {
        &self.regions
    }

    /// A second handle to the same process, carrying the same captured region
    /// snapshot.
    pub fn duplicate(&self) -> (r: ProcessHandle)
        ensures
            r.spec_pid() == self.spec_pid(),
            r.spec_regions() == self.spec_regions(),
    {
        let mut regions: Vec<MemoryRegion> = Vec::new();
        let mut i: usize = 0;
        while i < self.regions.len()
            invariant
                i <= self.regions@.len(),
                regions@ == self.regions@.subrange(0, i as int),
            decreases self.regions@.len() - i,
        {
            regions.push(self.regions[i]);
            proof {
                assert(regions@ =~= self.regions@.subrange(0, i + 1));
            }
            i = i + 1;
        }
        proof {
            assert(self.regions@.subrange(0, self.regions@.len() as int) =~= self.regions@);
        }
        ProcessHandle { pid: self.pid, handle: self.handle, regions }
    }

    /// Read `len` raw bytes at `addr` of the target process, as one
    /// best-effort snapshot; nothing on failure. The single narrow typed-read
    /// capability every scan goes through.
    pub(crate) fn read_chunk(&self, addr: usize, len: usize) -> (r: Option<Vec<u8>>)
        ensures
            r is Some ==> r->0@.len() == len,
    {
        match read_raw(&self.handle, addr, len) {
            Ok(b) => Some(b),
            Err(_) => None,
        }
    }

    /// Read the value of kind `kind` stored little endian at `offset` in the
    /// target process. Fails with a memory access error when the address
    /// cannot be read: an expected, transient condition while scanning.
    pub fn read_mem(&self, offset: usize, kind: ValueKind) -> (r: Result<
        ScanValue,
        MemoryAccessError,
    >)
        ensures
            r is Ok ==> r->Ok_0.spec_kind() == kind,
            r is Err ==> r->Err_0 == MemoryAccessError::UnreadableAddress,
    {
        let w = kind.width();
        let bytes = match read_raw(&self.handle, offset, w) {
            Ok(b) => b,
            Err(_) => {
                return Err(MemoryAccessError::UnreadableAddress);
            },
        };
        let bits = le_u64_at(&bytes, 0, w);
        proof {
            lemma_le_bytes_bound(bytes@.subrange(0, w as int));
            reveal_with_fuel(pow256, 9);
        }
        Ok(ScanValue::of_kind(kind, bits))
    }

    /// Write `value` little endian at `offset` in the target process: the
    /// live-patching half of the capability, not used by the scans.
    pub fn write_mem(&self, value: &ScanValue, offset: usize) -> (r: Result<(), MemoryAccessError>)
        ensures
            r is Err ==> r->Err_0 == MemoryAccessError::UnwritableAddress,
    {
        let w = value.width();
        let bits = value.as_u64();
        proof {
            reveal_with_fuel(pow256, 9);
        }
        let bytes = le_encode(bits, w);
        write_raw(&self.handle, offset, &bytes)
    }
}

} // verus!
