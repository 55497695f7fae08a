//! The build embeds no compiled BPF object; these checks pass trivially
//! when none is present and check the ELF header when one is

use chronosynd::raw::{syscall_probe_available, syscall_probe_object};

#[test]
fn empty_object_means_pipeline_was_skipped() {
    if !syscall_probe_available() {
        assert!(syscall_probe_object().is_empty());
    }
}

#[test]
fn embedded_object_starts_with_elf_magic_when_compiled() {
    if syscall_probe_available() {
        // ELF magic: 0x7F 'E' 'L' 'F'
        assert_eq!(&syscall_probe_object()[..4], &[0x7F, b'E', b'L', b'F']);
    }
}

#[test]
fn embedded_object_targets_ebpf_machine_when_compiled() {
    if syscall_probe_available() {
        let obj = syscall_probe_object();
        // e_machine sits at offset 0x12, value 247 is EM_BPF in the ELF spec
        let machine = u16::from_le_bytes([obj[0x12], obj[0x13]]);
        assert_eq!(machine, 247, "expected EM_BPF (247) but got {machine}");
    }
}

#[test]
fn this_build_embeds_no_probe() {
    assert!(!syscall_probe_available());
    assert_eq!(syscall_probe_object().len(), 0);
}
