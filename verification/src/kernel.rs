//! Reading what the kernel answers: records in memory, return codes, lists of processes.

use crate::reading::{eight_bytes, four_bytes};
use vstd::prelude::*;

verus! {

/// The return code of a Mach call that succeeded.
pub const KERN_SUCCESS: i32 = 0;

/// The bytes of a `task_vm_info` up to and with `phys_footprint`.
pub const TASK_VM_INFO_SIZE: usize = 152;

/// The same in the four-byte units in which `task_info` counts.
pub const TASK_VM_INFO_COUNT: u32 = 38;

/// The bytes of a `proc_bsdinfo`.
pub const PROC_BSD_INFO_SIZE: usize = 136;

/// The bytes of an `xsw_usage`.
pub const XSW_USAGE_SIZE: usize = 32;

/// The number with the given bytes, the lowest first.
pub open spec fn little_endian(bytes: Seq<u8>) -> nat
    decreases bytes.len(),
{
    if bytes.len() == 0 {
        0
    } else {
        bytes[0] as nat + 256 * little_endian(bytes.drop_first())
    }
}

/// The unsigned four-byte field at `at`.
pub open spec fn u32_at(buf: Seq<u8>, at: int) -> u32 {
    little_endian(buf.subrange(at, at + 4)) as u32
}

/// The signed four-byte field at `at`.
pub open spec fn i32_at(buf: Seq<u8>, at: int) -> i32 {
    let n = u32_at(buf, at);
    (if n < 0x8000_0000 {
        n as int
    } else {
        n - 0x1_0000_0000
    }) as i32
}

/// The unsigned eight-byte field at `at`.
pub open spec fn u64_at(buf: Seq<u8>, at: int) -> u64 {
    little_endian(buf.subrange(at, at + 8)) as u64
}

spec fn power_of_256(n: nat) -> nat
    decreases n,
{
    if n == 0 {
        1
    } else {
        256 * power_of_256((n - 1) as nat)
    }
}

proof fn lemma_little_endian_bound(bytes: Seq<u8>)
    ensures
        little_endian(bytes) < power_of_256(bytes.len()),
    decreases bytes.len(),
{
    if bytes.len() > 0 {
        lemma_little_endian_bound(bytes.drop_first());
    }
}

/// A field of eight bytes is the number with these bytes, the lowest first, and so is one of four.
/// A signed field has the same bits as an unsigned one.
pub proof fn law_fields_are_their_bytes(buf: Seq<u8>, at: int)
    requires
        0 <= at,
    ensures
        at + 8 <= buf.len() ==> u64_at(buf, at) == eight_bytes(buf, at),
        at + 4 <= buf.len() ==> u32_at(buf, at) == four_bytes(buf, at),
        at + 4 <= buf.len() ==> (i32_at(buf, at) - four_bytes(buf, at)) % 0x1_0000_0000 == 0,
{
    reveal_with_fuel(little_endian, 9);
    if at + 8 <= buf.len() {
        let b = buf.subrange(at, at + 8);
        lemma_little_endian_step(b);
        lemma_little_endian_step(b.skip(1));
        lemma_little_endian_step(b.skip(2));
        lemma_little_endian_step(b.skip(3));
        lemma_little_endian_step(b.skip(4));
        lemma_little_endian_step(b.skip(5));
        lemma_little_endian_step(b.skip(6));
        lemma_little_endian_step(b.skip(7));
        lemma_skips(b);
        assert(little_endian(b) == eight_bytes(buf, at));
    }
    if at + 4 <= buf.len() {
        let b = buf.subrange(at, at + 4);
        lemma_little_endian_step(b);
        lemma_little_endian_step(b.skip(1));
        lemma_little_endian_step(b.skip(2));
        lemma_little_endian_step(b.skip(3));
        lemma_skips(b);
        assert(little_endian(b) == four_bytes(buf, at));
    }
}

proof fn lemma_little_endian_step(b: Seq<u8>)
    requires
        b.len() > 0,
    ensures
        little_endian(b) == b[0] + 256 * little_endian(b.drop_first()),
{
}

proof fn lemma_skips(b: Seq<u8>)
    ensures
        forall|k: int|
            0 <= k < b.len() ==> #[trigger] b.skip(k).drop_first() == b.skip(k + 1) && b.skip(k)[0]
                == b[k],
        b.skip(0) == b,
        little_endian(b.skip(b.len() as int)) == 0,
        b.len() > 0 ==> b.drop_first() == b.skip(1),
{
    assert forall|k: int| 0 <= k < b.len() implies #[trigger] b.skip(k).drop_first() == b.skip(
        k + 1,
    ) && b.skip(k)[0] == b[k] by {
        assert(b.skip(k).drop_first() =~= b.skip(k + 1));
    }
    assert(b.skip(0) =~= b);
    if b.len() > 0 {
        assert(b.drop_first() =~= b.skip(1));
    }
}

/// Reads a field of up to eight bytes.
fn read(buf: &[u8], at: usize, width: usize) -> (r: u64)
    requires
        width <= 8,
        at + width <= buf.len(),
    ensures
        r == little_endian(buf@.subrange(at as int, at + width)),
        width <= 4 ==> r <= 0xffff_ffff,
{
    let mut r: u64 = 0;
    let mut k: usize = width;
    while k > 0
        invariant
            k <= width <= 8,
            at + width <= buf.len(),
            r == little_endian(buf@.subrange(at + k, at + width)),
        decreases k,
    {
        proof {
            let rest = buf@.subrange(at + k, at + width);
            let longer = buf@.subrange(at + k - 1, at + width);
            assert(longer.drop_first() =~= rest);
            assert(longer[0] == buf@[at + k - 1]);
            lemma_little_endian_bound(longer);
            reveal_with_fuel(power_of_256, 9);
        }
        k = k - 1;
        r = r * 256 + buf[at + k] as u64;
    }
    proof {
        lemma_little_endian_bound(buf@.subrange(at as int, at + width));
        reveal_with_fuel(power_of_256, 9);
    }
    r
}

fn read_u32(buf: &[u8], at: usize) -> (r: u32)
    requires
        at + 4 <= buf.len(),
    ensures
        r == u32_at(buf@, at as int),
{
    read(buf, at, 4) as u32
}

fn read_i32(buf: &[u8], at: usize) -> (r: i32)
    requires
        at + 4 <= buf.len(),
    ensures
        r == i32_at(buf@, at as int),
{
    let n: u32 = read_u32(buf, at);
    if n < 0x8000_0000 {
        n as i32
    } else {
        (n as i64 - 0x1_0000_0000) as i32
    }
}

fn read_u64(buf: &[u8], at: usize) -> (r: u64)
    requires
        at + 8 <= buf.len(),
    ensures
        r == u64_at(buf@, at as int),
{
    read(buf, at, 8)
}

/// The virtual memory of a task: `task_vm_info` up to and with `phys_footprint`.
#[derive(Clone, Copy, Debug, PartialEq, Eq)]
pub struct TaskVmInfo {
    pub virtual_size: u64,
    pub region_count: i32,
    pub page_size: i32,
    pub resident_size: u64,
    pub resident_size_peak: u64,
    pub device: u64,
    pub device_peak: u64,
    pub internal: u64,
    pub internal_peak: u64,
    pub external: u64,
    pub external_peak: u64,
    pub reusable: u64,
    pub reusable_peak: u64,
    pub purgeable_volatile_pmap: u64,
    pub purgeable_volatile_resident: u64,
    pub purgeable_volatile_virtual: u64,
    pub compressed: u64,
    pub compressed_peak: u64,
    pub compressed_lifetime: u64,
    pub phys_footprint: u64,
}

/// Where the fields of a `task_vm_info` lie.
pub open spec fn task_vm_info_at(buf: Seq<u8>) -> TaskVmInfo {
    TaskVmInfo {
        virtual_size: u64_at(buf, 0),
        region_count: i32_at(buf, 8),
        page_size: i32_at(buf, 12),
        resident_size: u64_at(buf, 16),
        resident_size_peak: u64_at(buf, 24),
        device: u64_at(buf, 32),
        device_peak: u64_at(buf, 40),
        internal: u64_at(buf, 48),
        internal_peak: u64_at(buf, 56),
        external: u64_at(buf, 64),
        external_peak: u64_at(buf, 72),
        reusable: u64_at(buf, 80),
        reusable_peak: u64_at(buf, 88),
        purgeable_volatile_pmap: u64_at(buf, 96),
        purgeable_volatile_resident: u64_at(buf, 104),
        purgeable_volatile_virtual: u64_at(buf, 112),
        compressed: u64_at(buf, 120),
        compressed_peak: u64_at(buf, 128),
        compressed_lifetime: u64_at(buf, 136),
        phys_footprint: u64_at(buf, 144),
    }
}

impl TaskVmInfo {
    /// Reads the record from memory.
    pub fn from_bytes(buf: &[u8]) -> (r: Option<TaskVmInfo>)
        ensures
            r == (if buf@.len() >= TASK_VM_INFO_SIZE {
                Some(task_vm_info_at(buf@))
            } else {
                None
            }),
            r is Some <==> buf@.len() >= 152,
            r matches Some(info) ==> {
                &&& info.virtual_size == eight_bytes(buf@, 0)
                &&& info.resident_size == eight_bytes(buf@, 16)
                &&& info.resident_size_peak == eight_bytes(buf@, 24)
                &&& info.device == eight_bytes(buf@, 32)
                &&& info.device_peak == eight_bytes(buf@, 40)
                &&& info.internal == eight_bytes(buf@, 48)
                &&& info.internal_peak == eight_bytes(buf@, 56)
                &&& info.external == eight_bytes(buf@, 64)
                &&& info.external_peak == eight_bytes(buf@, 72)
                &&& info.reusable == eight_bytes(buf@, 80)
                &&& info.reusable_peak == eight_bytes(buf@, 88)
                &&& info.purgeable_volatile_pmap == eight_bytes(buf@, 96)
                &&& info.purgeable_volatile_resident == eight_bytes(buf@, 104)
                &&& info.purgeable_volatile_virtual == eight_bytes(buf@, 112)
                &&& info.compressed == eight_bytes(buf@, 120)
                &&& info.compressed_peak == eight_bytes(buf@, 128)
                &&& info.compressed_lifetime == eight_bytes(buf@, 136)
                &&& info.phys_footprint == eight_bytes(buf@, 144)
                &&& (info.region_count - four_bytes(buf@, 8)) % 0x1_0000_0000 == 0
                &&& (info.page_size - four_bytes(buf@, 12)) % 0x1_0000_0000 == 0
            },
    {
        if buf.len() < TASK_VM_INFO_SIZE {
            return None;
        }
        proof {
            law_fields_are_their_bytes(buf@, 0);
            law_fields_are_their_bytes(buf@, 8);
            law_fields_are_their_bytes(buf@, 12);
            law_fields_are_their_bytes(buf@, 16);
            law_fields_are_their_bytes(buf@, 24);
            law_fields_are_their_bytes(buf@, 32);
            law_fields_are_their_bytes(buf@, 40);
            law_fields_are_their_bytes(buf@, 48);
            law_fields_are_their_bytes(buf@, 56);
            law_fields_are_their_bytes(buf@, 64);
            law_fields_are_their_bytes(buf@, 72);
            law_fields_are_their_bytes(buf@, 80);
            law_fields_are_their_bytes(buf@, 88);
            law_fields_are_their_bytes(buf@, 96);
            law_fields_are_their_bytes(buf@, 104);
            law_fields_are_their_bytes(buf@, 112);
            law_fields_are_their_bytes(buf@, 120);
            law_fields_are_their_bytes(buf@, 128);
            law_fields_are_their_bytes(buf@, 136);
            law_fields_are_their_bytes(buf@, 144);
        }
        Some(
            TaskVmInfo {
                virtual_size: read_u64(buf, 0),
                region_count: read_i32(buf, 8),
                page_size: read_i32(buf, 12),
                resident_size: read_u64(buf, 16),
                resident_size_peak: read_u64(buf, 24),
                device: read_u64(buf, 32),
                device_peak: read_u64(buf, 40),
                internal: read_u64(buf, 48),
                internal_peak: read_u64(buf, 56),
                external: read_u64(buf, 64),
                external_peak: read_u64(buf, 72),
                reusable: read_u64(buf, 80),
                reusable_peak: read_u64(buf, 88),
                purgeable_volatile_pmap: read_u64(buf, 96),
                purgeable_volatile_resident: read_u64(buf, 104),
                purgeable_volatile_virtual: read_u64(buf, 112),
                compressed: read_u64(buf, 120),
                compressed_peak: read_u64(buf, 128),
                compressed_lifetime: read_u64(buf, 136),
                phys_footprint: read_u64(buf, 144),
            },
        )
    }
}

/// What the BSD side of the kernel knows of a process: `proc_bsdinfo`.
#[derive(Clone, Copy, Debug, PartialEq, Eq)]
pub struct ProcBsdInfo {
    pub pbi_flags: u32,
    pub pbi_status: u32,
    pub pbi_xstatus: u32,
    pub pbi_pid: u32,
    pub pbi_ppid: u32,
    pub pbi_uid: u32,
    pub pbi_gid: u32,
    pub pbi_ruid: u32,
    pub pbi_rgid: u32,
    pub pbi_svuid: u32,
    pub pbi_svgid: u32,
    pub pbi_rfu: u32,
    pub pbi_comm: [u8; 16],
    pub pbi_name: [u8; 32],
    pub pbi_nfiles: u32,
    pub pbi_pgid: u32,
    pub pbi_pjobc: u32,
    pub e_tdev: u32,
    pub e_tpgid: u32,
    pub pbi_nice: i32,
    pub pbi_start_tvsec: u64,
    pub pbi_start_tvusec: u64,
}

impl ProcBsdInfo {
    /// The record is what lies in `buf`.
    pub open spec fn lies_in(self, buf: Seq<u8>) -> bool {
        &&& self.pbi_flags == u32_at(buf, 0)
        &&& self.pbi_status == u32_at(buf, 4)
        &&& self.pbi_xstatus == u32_at(buf, 8)
        &&& self.pbi_pid == u32_at(buf, 12)
        &&& self.pbi_ppid == u32_at(buf, 16)
        &&& self.pbi_uid == u32_at(buf, 20)
        &&& self.pbi_gid == u32_at(buf, 24)
        &&& self.pbi_ruid == u32_at(buf, 28)
        &&& self.pbi_rgid == u32_at(buf, 32)
        &&& self.pbi_svuid == u32_at(buf, 36)
        &&& self.pbi_svgid == u32_at(buf, 40)
        &&& self.pbi_rfu == u32_at(buf, 44)
        &&& self.pbi_comm@ == buf.subrange(48, 64)
        &&& self.pbi_name@ == buf.subrange(64, 96)
        &&& self.pbi_nfiles == u32_at(buf, 96)
        &&& self.pbi_pgid == u32_at(buf, 100)
        &&& self.pbi_pjobc == u32_at(buf, 104)
        &&& self.e_tdev == u32_at(buf, 108)
        &&& self.e_tpgid == u32_at(buf, 112)
        &&& self.pbi_nice == i32_at(buf, 116)
        &&& self.pbi_start_tvsec == u64_at(buf, 120)
        &&& self.pbi_start_tvusec == u64_at(buf, 128)
    }

    /// Reads the record from memory.
    pub fn from_bytes(buf: &[u8]) -> (r: Option<ProcBsdInfo>)
        ensures
            r is Some <==> buf@.len() >= PROC_BSD_INFO_SIZE,
            r is Some <==> buf@.len() >= 136,
            r matches Some(info) ==> info.lies_in(buf@),
            r matches Some(info) ==> {
                &&& info.pbi_ppid == four_bytes(buf@, 16)
                &&& info.pbi_start_tvsec == eight_bytes(buf@, 120)
                &&& info.pbi_start_tvusec == eight_bytes(buf@, 128)
            },
    {
        proof {
            law_fields_are_their_bytes(buf@, 16);
            law_fields_are_their_bytes(buf@, 120);
            law_fields_are_their_bytes(buf@, 128);
        }
        if buf.len() < PROC_BSD_INFO_SIZE {
            return None;
        }
        let mut pbi_comm: [u8; 16] = [0; 16];
        let mut i: usize = 0;
        while i < 16
            invariant
                i <= 16,
                buf.len() >= PROC_BSD_INFO_SIZE,
                forall|j: int| 0 <= j < i ==> pbi_comm@[j] == buf@[48 + j],
            decreases 16 - i,
        {
            pbi_comm[i] = buf[48 + i];
            i = i + 1;
        }
        let mut pbi_name: [u8; 32] = [0; 32];
        let mut k: usize = 0;
        while k < 32
            invariant
                k <= 32,
                buf.len() >= PROC_BSD_INFO_SIZE,
                forall|j: int| 0 <= j < k ==> pbi_name@[j] == buf@[64 + j],
            decreases 32 - k,
        {
            pbi_name[k] = buf[64 + k];
            k = k + 1;
        }
        assert(pbi_comm@ =~= buf@.subrange(48, 64));
        assert(pbi_name@ =~= buf@.subrange(64, 96));
        Some(
            ProcBsdInfo {
                pbi_flags: read_u32(buf, 0),
                pbi_status: read_u32(buf, 4),
                pbi_xstatus: read_u32(buf, 8),
                pbi_pid: read_u32(buf, 12),
                pbi_ppid: read_u32(buf, 16),
                pbi_uid: read_u32(buf, 20),
                pbi_gid: read_u32(buf, 24),
                pbi_ruid: read_u32(buf, 28),
                pbi_rgid: read_u32(buf, 32),
                pbi_svuid: read_u32(buf, 36),
                pbi_svgid: read_u32(buf, 40),
                pbi_rfu: read_u32(buf, 44),
                pbi_comm,
                pbi_name,
                pbi_nfiles: read_u32(buf, 96),
                pbi_pgid: read_u32(buf, 100),
                pbi_pjobc: read_u32(buf, 104),
                e_tdev: read_u32(buf, 108),
                e_tpgid: read_u32(buf, 112),
                pbi_nice: read_i32(buf, 116),
                pbi_start_tvsec: read_u64(buf, 120),
                pbi_start_tvusec: read_u64(buf, 128),
            },
        )
    }
}

/// Each field of a record is made of the bytes of its place, and of no others.
pub proof fn law_bsd_info_is_its_bytes(info: ProcBsdInfo, buf: Seq<u8>)
    requires
        buf.len() >= 136,
        info.lies_in(buf),
    ensures
        info.pbi_flags == four_bytes(buf, 0),
        info.pbi_status == four_bytes(buf, 4),
        info.pbi_xstatus == four_bytes(buf, 8),
        info.pbi_pid == four_bytes(buf, 12),
        info.pbi_ppid == four_bytes(buf, 16),
        info.pbi_uid == four_bytes(buf, 20),
        info.pbi_gid == four_bytes(buf, 24),
        info.pbi_ruid == four_bytes(buf, 28),
        info.pbi_rgid == four_bytes(buf, 32),
        info.pbi_svuid == four_bytes(buf, 36),
        info.pbi_svgid == four_bytes(buf, 40),
        info.pbi_rfu == four_bytes(buf, 44),
        info.pbi_nfiles == four_bytes(buf, 96),
        info.pbi_pgid == four_bytes(buf, 100),
        info.pbi_pjobc == four_bytes(buf, 104),
        info.e_tdev == four_bytes(buf, 108),
        info.e_tpgid == four_bytes(buf, 112),
        forall|i: int| 0 <= i < 16 ==> #[trigger] info.pbi_comm@[i] == buf[48 + i],
        forall|i: int| 0 <= i < 32 ==> #[trigger] info.pbi_name@[i] == buf[64 + i],
        (info.pbi_nice - four_bytes(buf, 116)) % 0x1_0000_0000 == 0,
        info.pbi_start_tvsec == eight_bytes(buf, 120),
        info.pbi_start_tvusec == eight_bytes(buf, 128),
{
    law_fields_are_their_bytes(buf, 0);
    law_fields_are_their_bytes(buf, 4);
    law_fields_are_their_bytes(buf, 8);
    law_fields_are_their_bytes(buf, 12);
    law_fields_are_their_bytes(buf, 16);
    law_fields_are_their_bytes(buf, 20);
    law_fields_are_their_bytes(buf, 24);
    law_fields_are_their_bytes(buf, 28);
    law_fields_are_their_bytes(buf, 32);
    law_fields_are_their_bytes(buf, 36);
    law_fields_are_their_bytes(buf, 40);
    law_fields_are_their_bytes(buf, 44);
    law_fields_are_their_bytes(buf, 96);
    law_fields_are_their_bytes(buf, 100);
    law_fields_are_their_bytes(buf, 104);
    law_fields_are_their_bytes(buf, 108);
    law_fields_are_their_bytes(buf, 112);
    law_fields_are_their_bytes(buf, 116);
    law_fields_are_their_bytes(buf, 120);
    law_fields_are_their_bytes(buf, 128);
}

/// The use of swap space: `xsw_usage`.
#[derive(Clone, Copy, Debug, PartialEq, Eq)]
pub struct XswUsage {
    pub xsu_total: u64,
    pub xsu_avail: u64,
    pub xsu_used: u64,
    pub xsu_pagesize: u32,
    pub xsu_encrypted: i32,
}

/// Where the fields of an `xsw_usage` lie.
pub open spec fn xsw_usage_at(buf: Seq<u8>) -> XswUsage {
    XswUsage {
        xsu_total: u64_at(buf, 0),
        xsu_avail: u64_at(buf, 8),
        xsu_used: u64_at(buf, 16),
        xsu_pagesize: u32_at(buf, 24),
        xsu_encrypted: i32_at(buf, 28),
    }
}

impl XswUsage {
    /// Reads the record from memory.
    pub fn from_bytes(buf: &[u8]) -> (r: Option<XswUsage>)
        ensures
            r == (if buf@.len() >= XSW_USAGE_SIZE {
                Some(xsw_usage_at(buf@))
            } else {
                None
            }),
            r is Some <==> buf@.len() >= 32,
            r matches Some(usage) ==> {
                &&& usage.xsu_total == eight_bytes(buf@, 0)
                &&& usage.xsu_avail == eight_bytes(buf@, 8)
                &&& usage.xsu_used == eight_bytes(buf@, 16)
                &&& usage.xsu_pagesize == four_bytes(buf@, 24)
                &&& (usage.xsu_encrypted - four_bytes(buf@, 28)) % 0x1_0000_0000 == 0
            },
    {
        if buf.len() < XSW_USAGE_SIZE {
            return None;
        }
        proof {
            law_fields_are_their_bytes(buf@, 0);
            law_fields_are_their_bytes(buf@, 8);
            law_fields_are_their_bytes(buf@, 16);
            law_fields_are_their_bytes(buf@, 24);
            law_fields_are_their_bytes(buf@, 28);
        }
        Some(
            XswUsage {
                xsu_total: read_u64(buf, 0),
                xsu_avail: read_u64(buf, 8),
                xsu_used: read_u64(buf, 16),
                xsu_pagesize: read_u32(buf, 24),
                xsu_encrypted: read_i32(buf, 28),
            },
        )
    }
}

/// The swap in use, by the reply to `sysctlbyname("vm.swapusage")`: a return code, zero for
/// success, and an `xsw_usage`.
pub fn swap_used_bytes(rc: i32, reply: &[u8]) -> (r: Option<u64>)
    ensures
        r == (if rc == 0 && reply@.len() >= XSW_USAGE_SIZE {
            Some(u64_at(reply@, 16))
        } else {
            None
        }),
        r is Some <==> rc == 0 && reply@.len() >= 32,
        r matches Some(used) ==> used == eight_bytes(reply@, 16),
{
    if rc == 0 {
        match XswUsage::from_bytes(reply) {
            Some(usage) => Some(usage.xsu_used),
            None => None,
        }
    } else {
        None
    }
}

/// What is known of a process, by the reply to `proc_pidinfo`: the number of bytes written,
/// which is that of the whole record unless the call failed, and the record.
pub fn bsdinfo(rc: i32, reply: &[u8]) -> (r: Option<ProcBsdInfo>)
    ensures
        r is Some <==> rc == PROC_BSD_INFO_SIZE && reply@.len() >= PROC_BSD_INFO_SIZE,
        r matches Some(info) ==> info.lies_in(reply@),
        r is Some <==> rc == 136 && reply@.len() >= 136,
        r matches Some(info) ==> {
            &&& info.pbi_ppid == four_bytes(reply@, 16)
            &&& info.pbi_start_tvsec == eight_bytes(reply@, 120)
            &&& info.pbi_start_tvusec == eight_bytes(reply@, 128)
        },
{
    if rc == 136 {
        ProcBsdInfo::from_bytes(reply)
    } else {
        None
    }
}

/// A process number as a signed integer of the same bits.
pub open spec fn as_signed(n: u32) -> int {
    if n < 0x8000_0000 {
        n as int
    } else {
        n - 0x1_0000_0000
    }
}

/// The parent of a process, zero if it is not known.
pub open spec fn parent_of(info: Option<ProcBsdInfo>) -> int {
    match info {
        Some(i) => as_signed(i.pbi_ppid),
        None => 0,
    }
}

/// Finds the parent of a process.
pub fn ppid_of(info: &Option<ProcBsdInfo>) -> (r: i32)
    ensures
        r == parent_of(*info),
        info is None ==> r == 0,
        info matches Some(i) ==> (r - i.pbi_ppid) % 0x1_0000_0000 == 0,
{
    match info {
        Some(i) => {
            if i.pbi_ppid < 0x8000_0000 {
                i.pbi_ppid as i32
            } else {
                (i.pbi_ppid as i64 - 0x1_0000_0000) as i32
            }
        },
        None => 0,
    }
}

/// What has to be done next to learn the memory of a task.
#[derive(Debug, PartialEq, Eq)]
pub enum TaskVmStep {
    /// Ask for the port of the task with `task_for_pid`.
    AskPort,
    /// Read its record with `task_info`.
    ReadInfo { port: u32 },
    /// Give the port back with `mach_port_deallocate`.
    Release { port: u32, outcome: Option<(u64, u64)> },
    /// Nothing: the compressed bytes and the physical footprint, unless access was denied.
    Done { outcome: Option<(u64, u64)> },
}

/// What the kernel answered.
#[derive(Debug, PartialEq, Eq)]
pub enum TaskVmReply {
    Port { kr: i32, port: u32 },
    Info { kr: i32, record: Vec<u8> },
    Released,
}

/// What a record, if the kernel wrote one, says of the memory of a task.
pub open spec fn memory_in(kr: i32, record: Seq<u8>) -> Option<(u64, u64)> {
    if kr == KERN_SUCCESS && record.len() >= TASK_VM_INFO_SIZE {
        Some((u64_at(record, 120), u64_at(record, 144)))
    } else {
        None
    }
}

impl TaskVmStep {
    /// The step that follows an answer. An answer to another request changes nothing.
    pub open spec fn after(self, reply: TaskVmReply) -> TaskVmStep {
        match (self, reply) {
            (TaskVmStep::AskPort, TaskVmReply::Port { kr, port }) => if kr == KERN_SUCCESS {
                TaskVmStep::ReadInfo { port }
            } else {
                TaskVmStep::Done { outcome: None }
            },
            (TaskVmStep::ReadInfo { port }, TaskVmReply::Info { kr, record }) => {
                TaskVmStep::Release { port, outcome: memory_in(kr, record@) }
            },
            (TaskVmStep::Release { port, outcome }, TaskVmReply::Released) => TaskVmStep::Done {
                outcome,
            },
            _ => self,
        }
    }

    /// The port that has been granted and not given back.
    pub open spec fn held_port(self) -> Option<u32> {
        match self {
            TaskVmStep::ReadInfo { port } => Some(port),
            TaskVmStep::Release { port, .. } => Some(port),
            _ => None,
        }
    }

    /// Takes an answer of the kernel.
    pub fn next(self, reply: TaskVmReply) -> (r: TaskVmStep)
        ensures
            r == self.after(reply),
            self is AskPort && reply is Port ==> r == (if reply->Port_kr == 0 {
                TaskVmStep::ReadInfo { port: reply->port }
            } else {
                TaskVmStep::Done { outcome: None }
            }),
            self is ReadInfo && reply is Info ==> {
                &&& r is Release
                &&& r->Release_port == self->ReadInfo_port
                &&& r->Release_outcome is Some <==> reply->Info_kr == 0 && reply->record@.len()
                    >= 152
                &&& r->Release_outcome matches Some(memory) ==> {
                    &&& memory.0 == eight_bytes(reply->record@, 120)
                    &&& memory.1 == eight_bytes(reply->record@, 144)
                }
            },
            self is Release && reply is Released ==> r is Done && r->Done_outcome
                == self->Release_outcome,
            self is Done ==> r == self,
    {
        proof {
            if reply is Info {
                law_fields_are_their_bytes(reply->record@, 120);
                law_fields_are_their_bytes(reply->record@, 144);
            }
        }
        match (self, reply) {
            (TaskVmStep::AskPort, TaskVmReply::Port { kr, port }) => {
                if kr == KERN_SUCCESS {
                    TaskVmStep::ReadInfo { port }
                } else {
                    TaskVmStep::Done { outcome: None }
                }
            },
            (TaskVmStep::ReadInfo { port }, TaskVmReply::Info { kr, record }) => {
                let outcome = if kr == KERN_SUCCESS {
                    match TaskVmInfo::from_bytes(record.as_slice()) {
                        Some(info) => Some((info.compressed, info.phys_footprint)),
                        None => None,
                    }
                } else {
                    None
                };
                TaskVmStep::Release { port, outcome }
            },
            (TaskVmStep::Release { port: _, outcome }, TaskVmReply::Released) => {
                TaskVmStep::Done { outcome }
            },
            (step, _) => step,
        }
    }
}

/// A port that was granted is kept until the kernel has confirmed its release, whatever it
/// answers in between.
pub proof fn law_granted_port_is_released(step: TaskVmStep, reply: TaskVmReply)
    requires
        step.held_port() is Some,
    ensures
        step.after(reply).held_port() == step.held_port() || (step is Release && reply is Released
            && step.after(reply) is Done),
{
}

/// The memory of a task is told only if both calls succeeded, and is then the compressed and
/// the footprint field of the record.
pub proof fn law_memory_is_what_the_record_says(kr: i32, port: u32, kr_info: i32, record: Vec<u8>)
    ensures
        TaskVmStep::AskPort.after(TaskVmReply::Port { kr, port }).after(
            TaskVmReply::Info { kr: kr_info, record },
        ).after(TaskVmReply::Released) == (TaskVmStep::Done {
            outcome: if kr == KERN_SUCCESS {
                memory_in(kr_info, record@)
            } else {
                None
            },
        }),
{
}

/// Where both calls succeed and the record is whole, the memory told is the number in its bytes
/// 120 to 127 and the one in its bytes 144 to 151; otherwise nothing is told.
pub proof fn law_memory_is_two_fields(kr: i32, port: u32, kr_info: i32, record: Vec<u8>)
    ensures
        ({
            let end = TaskVmStep::AskPort.after(TaskVmReply::Port { kr, port }).after(
                TaskVmReply::Info { kr: kr_info, record },
            ).after(TaskVmReply::Released);
            &&& end is Done
            &&& end->Done_outcome is Some <==> kr == 0 && kr_info == 0 && record@.len() >= 152
            &&& end->Done_outcome matches Some(memory) ==> {
                &&& memory.0 == record@[120] + 0x100 * record@[121] + 0x1_0000 * record@[122]
                    + 0x100_0000 * record@[123] + 0x1_0000_0000 * record@[124]
                    + 0x100_0000_0000 * record@[125] + 0x1_0000_0000_0000 * record@[126]
                    + 0x100_0000_0000_0000 * record@[127]
                &&& memory.1 == eight_bytes(record@, 144)
            }
        }),
{
    law_fields_are_their_bytes(record@, 120);
    law_fields_are_their_bytes(record@, 144);
}

/// Nothing else in a record counts: two whole records with the same bytes in these places give
/// the same answer.
pub proof fn law_other_fields_do_not_count(port: u32, other: u32, a: Vec<u8>, b: Vec<u8>)
    requires
        a@.len() >= 152 && b@.len() >= 152,
        forall|i: int| 120 <= i < 128 ==> a@[i] == #[trigger] b@[i],
        forall|i: int| 144 <= i < 152 ==> a@[i] == #[trigger] b@[i],
    ensures
        ({
            let told = |p: u32, record: Vec<u8>|
                TaskVmStep::AskPort.after(TaskVmReply::Port { kr: 0, port: p }).after(
                    TaskVmReply::Info { kr: 0, record },
                ).after(TaskVmReply::Released);
            told(port, a) == told(other, b)
        }),
{
    assert(a@.subrange(120, 128) =~= b@.subrange(120, 128));
    assert(a@.subrange(144, 152) =~= b@.subrange(144, 152));
}

/// How many process numbers to leave room for, when `needed` bytes were asked for: some more,
/// for processes that start in the meantime. No room is needed if the call failed.
pub fn pid_capacity(needed: i32) -> (r: Option<usize>)
    ensures
        r == (if needed > 0 {
            Some((needed / 4 + 32) as usize)
        } else {
            None
        }),
        r matches Some(n) ==> needed + 124 < 4 * n <= needed + 128,
{
    if needed <= 0 {
        None
    } else {
        Some(needed as usize / 4 + 32)
    }
}

/// The size in bytes of a buffer for so many process numbers, as `proc_listpids` takes it.
pub fn pid_buffer_bytes(capacity: usize) -> (r: i32)
    requires
        capacity <= 0x3fff_ffff,
    ensures
        r == as_signed((4 * capacity) as u32),
        capacity <= 0x1fff_ffff ==> r == 4 * capacity,
{
    let bytes: u32 = 4 * capacity as u32;
    if bytes < 0x8000_0000 {
        bytes as i32
    } else {
        (bytes as i64 - 0x1_0000_0000) as i32
    }
}

/// The process numbers in a buffer that `proc_listpids` filled with `got` bytes.
pub open spec fn pids_in(got: i32, buf: Seq<i32>) -> Seq<i32> {
    if got <= 0 {
        Seq::empty()
    } else if got / 4 < buf.len() {
        buf.take(got / 4).filter(|p: i32| p > 0)
    } else {
        buf.filter(|p: i32| p > 0)
    }
}

/// The list of processes is made place by place: each place of the buffer that was filled whole
/// adds its process at the end of the list, unless its number is not positive.
pub proof fn law_list_grows_by_places(got: i32, buf: Seq<i32>)
    ensures
        got < 4 ==> pids_in(got, buf).len() == 0,
        got >= 4 ==> ({
            let k = got / 4 - 1;
            pids_in(got, buf) == pids_in((4 * k) as i32, buf) + (if k < buf.len() && buf[k] > 0 {
                seq![buf[k]]
            } else {
                Seq::empty()
            })
        }),
        forall|i: int| 0 <= i < pids_in(got, buf).len() ==> #[trigger] pids_in(got, buf)[i] > 0,
{
    let keep = |p: i32| p > 0;
    reveal(Seq::filter);
    let part = |n: int|
        if n < buf.len() {
            buf.take(n)
        } else {
            buf
        };
    assert(buf.take(0) =~= Seq::<i32>::empty());
    if got >= 4 {
        let k = got / 4 - 1;
        assert((4 * k) / 4 == k);
        if k < buf.len() {
            assert(part(k + 1).drop_last() =~= part(k));
            assert(part(k + 1).last() == buf[k]);
            assert(part(k) =~= buf.take(k));
        }
        assert(pids_in(got, buf) =~= part(k + 1).filter(keep));
        if k == 0 {
            assert(pids_in((4 * k) as i32, buf) =~= part(0).filter(keep));
        } else {
            assert(pids_in((4 * k) as i32, buf) =~= part(k).filter(keep));
        }
        assert(pids_in(got, buf) =~= pids_in((4 * k) as i32, buf) + (if k < buf.len() && buf[k]
            > 0 {
            seq![buf[k]]
        } else {
            Seq::empty()
        }));
    }
    let pids = pids_in(got, buf);
    assert forall|i: int| 0 <= i < pids.len() implies #[trigger] pids[i] > 0 by {
        if got > 0 {
            part(got as int / 4).lemma_filter_pred(keep, i);
        }
    }
}

/// Reads the list of processes, without the kernel's own entry and unused places.
pub fn list_pids(got: i32, buf: &Vec<i32>) -> (r: Vec<i32>)
    ensures
        r@ == pids_in(got, buf@),
        forall|i: int| 0 <= i < r@.len() ==> #[trigger] r@[i] > 0,
        got < 4 ==> r@.len() == 0,
{
    proof {
        law_list_grows_by_places(got, buf@);
    }
    let mut pids: Vec<i32> = Vec::new();
    if got <= 0 {
        return pids;
    }
    let count: usize = if (got as usize) / 4 < buf.len() {
        got as usize / 4
    } else {
        buf.len()
    };
    let ghost keep = |p: i32| p > 0;
    let mut i: usize = 0;
    proof {
        reveal(Seq::filter);
        assert(buf@.take(0) =~= Seq::<i32>::empty());
        assert(buf@.take(buf@.len() as int) =~= buf@);
    }
    while i < count
        invariant
            i <= count <= buf@.len(),
            keep == |p: i32| p > 0,
            pids@ == buf@.take(i as int).filter(keep),
        decreases count - i,
    {
        proof {
            reveal(Seq::filter);
            assert(buf@.take(i + 1).drop_last() =~= buf@.take(i as int));
        }
        if buf[i] > 0 {
            pids.push(buf[i]);
        }
        i = i + 1;
    }
    pids
}

/// The processes listed are those with a positive number in the part of the buffer that was
/// filled.
pub proof fn law_listed_pids(got: i32, buf: Seq<i32>, pid: i32)
    ensures
        pids_in(got, buf).contains(pid) <==> pid > 0 && exists|i: int|
            0 <= i < got / 4 && i < buf.len() && #[trigger] buf[i] == pid,
{
    let keep = |p: i32| p > 0;
    let part = if got <= 0 {
        Seq::empty()
    } else if got / 4 < buf.len() {
        buf.take(got / 4)
    } else {
        buf
    };
    reveal(Seq::filter);
    let pids = part.filter(keep);
    assert(pids_in(got, buf) =~= pids);
    if pids.contains(pid) {
        part.lemma_filter_contains_rev(keep, pid);
        let k = pids.index_of(pid);
        part.lemma_filter_pred(keep, k);
        let i = part.index_of(pid);
        assert(buf[i] == pid);
    }
    if pid > 0 && exists|i: int| 0 <= i < got / 4 && i < buf.len() && #[trigger] buf[i] == pid {
        let i = choose|i: int| 0 <= i < got / 4 && i < buf.len() && #[trigger] buf[i] == pid;
        assert(part[i] == pid);
        part.lemma_filter_contains(keep, i);
    }
}

/// The sizes of the records: the last field read of each ends with it, and `task_info` is told
/// the size of its record in units of four bytes.
pub proof fn law_records_end_with_their_last_field()
    ensures
        TASK_VM_INFO_SIZE == 144 + 8,
        TASK_VM_INFO_COUNT * 4 == 144 + 8,
        PROC_BSD_INFO_SIZE == 128 + 8,
        XSW_USAGE_SIZE == 28 + 4,
        KERN_SUCCESS == 0,
{
}

} // verus!
