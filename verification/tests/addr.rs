use tinykern::addr::{PhysAddr, VirtAddr};
use tinykern::stdlib::FixedVec;
use tinykern::mem::init;

#[test]
fn phys_addr_carries_its_size() {
    let a = PhysAddr::new(0x8000_0000, Some(4096));
    assert_eq!(a.as_usize(), 0x8000_0000);
    assert_eq!(a.size(), Some(4096));
    let b = PhysAddr::new(0x8000_0000, None);
    assert_eq!(b.size(), None);
    assert_ne!(a, b);
}

#[test]
fn phys_addr_alignment() {
    let a = PhysAddr::new(0x8000_1000, None);
    assert!(a.is_aligned(4096));
    assert!(a.is_aligned(1));
    assert!(!a.is_aligned(8192));
}

#[test]
fn virt_addr_arithmetic() {
    let v = VirtAddr::new(0x4000);
    assert_eq!(v.as_usize(), 0x4000);
    assert!(v.is_aligned(4096));
    assert_eq!(v.add(0x1000).as_usize(), 0x5000);
    assert_eq!(v.sub(0x1000).as_usize(), 0x3000);
    assert_eq!(v.add(4).as_usize(), 0x4004);
    assert!(!v.add(4).is_aligned(4096));
}

#[test]
fn fixed_vec_holds_its_slots() {
    let mut m = init(0x1000_0000, 0x1010_0000, 0x2000_0000, 0x2010_0000);
    let mut v: FixedVec<usize> = FixedVec::new(&mut m, 16, 4, || 0).unwrap();
    assert_eq!(v.cap(), 16);
    assert_eq!(*v.get(3), 0);
    v.set(3, 77);
    assert_eq!(*v.get(3), 77);
    *v.get_mut(5) = 88;
    assert_eq!(*v.get(5), 88);
    assert!(v.phys_addr.is_aligned(4096));
    // 16 word-sized slots round up to one page of backing store
    assert_eq!(v.phys_addr.size(), Some(4096));
}

#[test]
fn fixed_vec_releases_its_backing_store() {
    // a 16 KiB arena: four pages
    let mut m = init(0x1000_0000, 0x1000_4000, 0x2000_0000, 0x2000_4000);
    let v1: FixedVec<usize> = FixedVec::new(&mut m, 1024, 4, || 0).unwrap();
    let _v2: FixedVec<usize> = FixedVec::new(&mut m, 1024, 4, || 0).unwrap();
    let _v3: FixedVec<usize> = FixedVec::new(&mut m, 1024, 4, || 0).unwrap();
    let _v4: FixedVec<usize> = FixedVec::new(&mut m, 1024, 4, || 0).unwrap();
    assert!(FixedVec::<usize>::new(&mut m, 1024, 4, || 0).is_err());
    let released = v1.phys_addr.as_usize();
    v1.release(&mut m);
    let again: FixedVec<usize> = FixedVec::new(&mut m, 1024, 4, || 0).unwrap();
    assert_eq!(again.phys_addr.as_usize(), released);
}
