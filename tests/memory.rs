use oskernel::mm::{MemorySet, SysMmapPermission};
use oskernel::process::{sys_fork, sys_get_time, sys_mmap, sys_munmap, sys_sbrk, sys_yield};
use oskernel::task::Kernel;

fn kernel() -> Kernel {
    Kernel::new(&vec![0x13u8; 100]).unwrap()
}

fn pages_of(k: &Kernel, pid: usize) -> Vec<usize> {
    let mut v: Vec<usize> = k.tasks[pid].as_ref().unwrap().memory_set.pages.iter().map(|e| e.vpn).collect();
    v.sort();
    v
}

fn byte_at(k: &Kernel, pid: usize, a: usize) -> Option<u8> {
    k.tasks[pid].as_ref().unwrap().memory_set.load_byte(a)
}

#[test]
fn mmap_munmap_scenario() {
    let mut k = kernel();
    assert_eq!(sys_mmap(&mut k, 0x1000, 0x2000, 0b011), 0);
    assert_eq!(sys_mmap(&mut k, 0x1000, 0x1000, 0b001), -1);
    assert_eq!(sys_munmap(&mut k, 0x1000, 0x2000), 0);
    assert_eq!(sys_munmap(&mut k, 0x1000, 0x1000), -1);
}

#[test]
fn mmap_then_munmap_restores_pages() {
    let mut k = kernel();
    let before = pages_of(&k, 0);
    assert_eq!(sys_mmap(&mut k, 0x200000, 0x3000, 0b111), 0);
    assert_eq!(pages_of(&k, 0).len(), before.len() + 3);
    assert_eq!(sys_munmap(&mut k, 0x200000, 0x3000), 0);
    assert_eq!(pages_of(&k, 0), before);
}

#[test]
fn mmap_rounds_length_up_to_pages() {
    let mut k = kernel();
    let before = pages_of(&k, 0).len();
    assert_eq!(sys_mmap(&mut k, 0x1000, 1, 0b001), 0);
    assert_eq!(pages_of(&k, 0).len(), before + 1);
    assert_eq!(sys_munmap(&mut k, 0x1000, 1), -1);
    assert_eq!(sys_munmap(&mut k, 0x1000, 0x1000), 0);
}

#[test]
fn mmap_rejects_bad_arguments() {
    let mut k = kernel();
    let before = pages_of(&k, 0);
    assert_eq!(sys_mmap(&mut k, 0x1000, 0, 0b001), -1);
    assert_eq!(sys_mmap(&mut k, 0x1001, 0x1000, 0b001), -1);
    assert_eq!(sys_mmap(&mut k, 0x1000, 0x1000, 0), -1);
    assert_eq!(sys_mmap(&mut k, 0x1000, 0x1000, 8), -1);
    assert_eq!(sys_mmap(&mut k, 0x1000, 0x1000, 0b1001), -1);
    assert_eq!(sys_mmap(&mut k, usize::MAX - 0xfff, 0x2000, 0b001), -1);
    assert_eq!(pages_of(&k, 0), before);
}

#[test]
fn mmap_overlap_leaves_pages_unchanged() {
    let mut k = kernel();
    assert_eq!(sys_mmap(&mut k, 0x3000, 0x1000, 0b011), 0);
    let before = pages_of(&k, 0);
    assert_eq!(sys_mmap(&mut k, 0x1000, 0x3000, 0b011), -1);
    assert_eq!(pages_of(&k, 0), before);
}

#[test]
fn munmap_partly_mapped_fails() {
    let mut k = kernel();
    assert_eq!(sys_mmap(&mut k, 0x1000, 0x1000, 0b011), 0);
    let before = pages_of(&k, 0);
    assert_eq!(sys_munmap(&mut k, 0x1000, 0x2000), -1);
    assert_eq!(sys_munmap(&mut k, 0x1000, 0x800), -1);
    assert_eq!(sys_munmap(&mut k, 0x1800, 0x800), -1);
    assert_eq!(pages_of(&k, 0), before);
}

#[test]
fn mmap_grants_user_permissions() {
    let mut k = kernel();
    assert_eq!(sys_mmap(&mut k, 0x1000, 0x1000, 0b101), 0);
    let e = k.tasks[0].as_ref().unwrap().memory_set.pages.iter().find(|e| e.vpn == 1).unwrap();
    assert!(e.perm.r && !e.perm.w && e.perm.x && e.perm.u);
    assert_eq!(byte_at(&k, 0, 0x1000), Some(0));
}

#[test]
fn from_bits_decodes_protection() {
    let p = SysMmapPermission::from_bits(0b110).unwrap();
    assert!(!p.r && p.w && p.x);
    assert!(SysMmapPermission::from_bits(9).is_none());
}

#[test]
fn image_is_loaded_at_base() {
    let image: Vec<u8> = (1..=200u32).map(|x| x as u8).collect();
    let k = Kernel::new(&image).unwrap();
    let t = k.tasks[0].as_ref().unwrap();
    assert_eq!(t.trap_cx.pc, 0x10000);
    assert_eq!(t.memory_set.load_byte(0x10000), Some(1));
    assert_eq!(t.memory_set.load_byte(0x10000 + 199), Some(200));
    assert_eq!(t.memory_set.load_byte(0x10000 + 200), Some(0));
    // code page, guard page, two stack pages
    assert_eq!(t.trap_cx.sp, 0x10000 + 4 * 0x1000);
    assert_eq!(t.memory_set.load_byte(0x11000), None);
    assert!(Kernel::new(&Vec::new()).is_none());
}

#[test]
fn copy_straddles_pages() {
    let mut m = MemorySet::new_bare();
    assert_eq!(m.mmap(0x1000, 0x2000, 0b011), 0);
    let data: Vec<u8> = vec![1, 2, 3, 4, 5, 6];
    assert!(m.copy_to_user(0x1ffd, &data));
    for i in 0..6 {
        assert_eq!(m.load_byte(0x1ffd + i), Some(data[i]));
    }
    assert!(!m.copy_to_user(0x2ffe, &data));
    assert_eq!(m.load_byte(0x2ffe), Some(0));
}

#[test]
fn copy_to_read_only_page_fails() {
    let mut m = MemorySet::new_bare();
    assert_eq!(m.mmap(0x1000, 0x1000, 0b001), 0);
    assert!(!m.copy_to_user(0x1000, &vec![9u8]));
    assert_eq!(m.load_byte(0x1000), Some(0));
}

#[test]
fn read_user_str_stops_at_nul() {
    let mut m = MemorySet::new_bare();
    assert_eq!(m.mmap(0x1000, 0x2000, 0b011), 0);
    assert!(m.copy_to_user(0x1ffe, &b"init\0".to_vec()));
    assert_eq!(m.read_user_str(0x1ffe), Some(b"init".to_vec()));
    assert!(m.copy_to_user(0x2ffe, &b"ab".to_vec()));
    assert_eq!(m.read_user_str(0x2ffe), None);
}

#[test]
fn fork_copies_then_isolates_memory() {
    let mut k = kernel();
    assert_eq!(sys_mmap(&mut k, 0x1000, 0x1000, 0b011), 0);
    assert_eq!(sys_get_time(&mut k, 0x1000, 0, 5_000_001), 0);
    let child = sys_fork(&mut k);
    assert_eq!(child, 1);
    for a in 0x1000..0x1010 {
        assert_eq!(byte_at(&k, 0, a), byte_at(&k, 1, a));
    }
    assert_eq!(sys_get_time(&mut k, 0x1000, 0, 7_000_002), 0);
    assert_eq!(byte_at(&k, 0, 0x1000), Some(7));
    assert_eq!(byte_at(&k, 1, 0x1000), Some(5));
    // the child runs and writes; the parent does not see it
    sys_yield(&mut k);
    assert_eq!(k.current, Some(1));
    assert_eq!(sys_get_time(&mut k, 0x1008, 0, 9_000_003), 0);
    assert_eq!(byte_at(&k, 1, 0x1008), Some(9));
    assert_eq!(byte_at(&k, 0, 0x1008), Some(2));
}

#[test]
fn sbrk_grows_and_shrinks_heap() {
    let mut k = kernel();
    let bottom = k.tasks[0].as_ref().unwrap().heap_bottom;
    assert_eq!(sys_sbrk(&mut k, 0x1800), bottom as isize);
    assert_eq!(byte_at(&k, 0, bottom + 0x17ff), Some(0));
    assert_eq!(pages_of(&k, 0).len(), 3 + 2);
    assert_eq!(sys_sbrk(&mut k, -0x1000), (bottom + 0x1800) as isize);
    assert_eq!(pages_of(&k, 0).len(), 3 + 1);
    assert_eq!(sys_sbrk(&mut k, -0x1000), -1);
    assert_eq!(sys_sbrk(&mut k, 0), (bottom + 0x800) as isize);
}
