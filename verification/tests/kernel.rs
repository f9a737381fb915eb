//! Records and replies of the kernel.

use macswapi::kernel::{
    bsdinfo, list_pids, pid_buffer_bytes, pid_capacity, ppid_of, swap_used_bytes, ProcBsdInfo,
    TaskVmInfo, TaskVmReply, TaskVmStep, XswUsage, PROC_BSD_INFO_SIZE, TASK_VM_INFO_COUNT,
    TASK_VM_INFO_SIZE, XSW_USAGE_SIZE,
};

/// The offset at which a record of `size` bytes holds the lowest byte of a field.
fn field_offset(size: usize, field: impl Fn(&[u8]) -> u64) -> usize {
    let mut found = vec![];
    for at in 0..size {
        let mut buf = vec![0u8; size];
        buf[at] = 1;
        if field(&buf) == 1 {
            found.push(at);
        }
    }
    assert_eq!(found.len(), 1);
    found[0]
}

#[test]
fn test_task_vm_info_offsets() {
    let read = |buf: &[u8]| TaskVmInfo::from_bytes(buf).unwrap();
    let size = TASK_VM_INFO_SIZE;
    assert_eq!(field_offset(size, |b| read(b).compressed), 120);
    assert_eq!(field_offset(size, |b| read(b).phys_footprint), 144);
    assert_eq!(TASK_VM_INFO_SIZE, 152);
    assert_eq!(TASK_VM_INFO_SIZE / 4, 38);
    assert_eq!(TASK_VM_INFO_COUNT, 38);
    assert!(TaskVmInfo::from_bytes(&vec![0; 151]).is_none());
}

#[test]
fn test_proc_bsdinfo_offset() {
    let read = |buf: &[u8]| ProcBsdInfo::from_bytes(buf).unwrap();
    assert_eq!(field_offset(PROC_BSD_INFO_SIZE, |b| read(b).pbi_ppid as u64), 16);
    assert_eq!(field_offset(PROC_BSD_INFO_SIZE, |b| read(b).pbi_start_tvsec), 120);
    assert_eq!(field_offset(PROC_BSD_INFO_SIZE, |b| read(b).pbi_start_tvusec), 128);
    assert_eq!(field_offset(PROC_BSD_INFO_SIZE, |b| read(b).pbi_nice as u64), 116);
    assert_eq!(field_offset(PROC_BSD_INFO_SIZE, |b| read(b).pbi_comm[3] as u64), 51);
    assert_eq!(field_offset(PROC_BSD_INFO_SIZE, |b| read(b).pbi_name[31] as u64), 95);
    assert!(ProcBsdInfo::from_bytes(&vec![0; 135]).is_none());
}

#[test]
fn test_xsw_usage_offset() {
    let read = |buf: &[u8]| XswUsage::from_bytes(buf).unwrap();
    assert_eq!(field_offset(XSW_USAGE_SIZE, |b| read(b).xsu_used), 16);
    assert_eq!(field_offset(XSW_USAGE_SIZE, |b| read(b).xsu_encrypted as u64), 28);
    assert!(XswUsage::from_bytes(&vec![0; 31]).is_none());
}

#[test]
fn fields_are_read_as_the_machine_writes_them() {
    let mut buf = vec![0u8; TASK_VM_INFO_SIZE];
    buf[0..8].copy_from_slice(&0x0123_4567_89ab_cdefu64.to_le_bytes());
    buf[8..12].copy_from_slice(&(-5i32).to_le_bytes());
    buf[12..16].copy_from_slice(&i32::MIN.to_le_bytes());
    buf[144..152].copy_from_slice(&u64::MAX.to_le_bytes());
    let info = TaskVmInfo::from_bytes(&buf).unwrap();
    assert_eq!(info.virtual_size, 0x0123_4567_89ab_cdef);
    assert_eq!(info.region_count, -5);
    assert_eq!(info.page_size, i32::MIN);
    assert_eq!(info.phys_footprint, u64::MAX);
}

#[test]
fn swap_is_read_only_after_success() {
    let mut reply = vec![0u8; 32];
    reply[16..24].copy_from_slice(&4096u64.to_le_bytes());
    assert_eq!(swap_used_bytes(0, &reply), Some(4096));
    assert_eq!(swap_used_bytes(-1, &reply), None);
    assert_eq!(swap_used_bytes(1, &reply), None);
    assert_eq!(swap_used_bytes(0, &reply[..31]), None);
}

#[test]
fn a_record_has_to_be_whole() {
    let mut reply = vec![0u8; PROC_BSD_INFO_SIZE];
    reply[16..20].copy_from_slice(&77u32.to_le_bytes());
    assert_eq!(ppid_of(&bsdinfo(136, &reply)), 77);
    assert!(bsdinfo(135, &reply).is_none());
    assert!(bsdinfo(0, &reply).is_none());
    assert!(bsdinfo(-1, &reply).is_none());
    assert_eq!(ppid_of(&None), 0);
    reply[16..20].copy_from_slice(&u32::MAX.to_le_bytes());
    assert_eq!(ppid_of(&bsdinfo(136, &reply)), -1);
}

#[test]
fn memory_is_read_and_the_port_given_back() {
    let mut record = vec![0u8; TASK_VM_INFO_SIZE];
    record[120..128].copy_from_slice(&11u64.to_le_bytes());
    record[144..152].copy_from_slice(&22u64.to_le_bytes());
    let step = TaskVmStep::AskPort.next(TaskVmReply::Port { kr: 0, port: 9 });
    assert_eq!(step, TaskVmStep::ReadInfo { port: 9 });
    let step = step.next(TaskVmReply::Released);
    assert_eq!(step, TaskVmStep::ReadInfo { port: 9 });
    let step = step.next(TaskVmReply::Info { kr: 0, record });
    assert_eq!(step, TaskVmStep::Release { port: 9, outcome: Some((11, 22)) });
    assert_eq!(
        step.next(TaskVmReply::Released),
        TaskVmStep::Done { outcome: Some((11, 22)) }
    );
}

#[test]
fn denial_is_told() {
    assert_eq!(
        TaskVmStep::AskPort.next(TaskVmReply::Port { kr: 5, port: 9 }),
        TaskVmStep::Done { outcome: None }
    );
    let record = vec![0u8; TASK_VM_INFO_SIZE];
    assert_eq!(
        TaskVmStep::ReadInfo { port: 9 }.next(TaskVmReply::Info { kr: 4, record }),
        TaskVmStep::Release { port: 9, outcome: None }
    );
}

#[test]
fn processes_are_listed() {
    assert_eq!(pid_capacity(0), None);
    assert_eq!(pid_capacity(-1), None);
    assert_eq!(pid_capacity(4), Some(33));
    assert_eq!(pid_capacity(403), Some(132));
    assert_eq!(pid_buffer_bytes(33), 132);
    assert_eq!(pid_buffer_bytes(536_870_943), (536_870_943usize * 4) as i32);
    let buf = vec![0, 5, -3, 8, 0, 13];
    assert_eq!(list_pids(16, &buf), vec![5, 8]);
    assert_eq!(list_pids(24, &buf), vec![5, 8, 13]);
    assert_eq!(list_pids(4000, &buf), vec![5, 8, 13]);
    assert_eq!(list_pids(7, &buf), vec![]);
    assert_eq!(list_pids(0, &buf), vec![]);
    assert_eq!(list_pids(-1, &buf), vec![]);
}
