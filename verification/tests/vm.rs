use tinykern::mem::init;
use tinykern::vm::{PageTable, PAGE_R, PAGE_V, PAGE_W};

const MIB: usize = 1024 * 1024;

fn decode(pt: &PageTable, va: usize) -> Option<(usize, usize)> {
    // walk the tables the way the hardware would: root entry, then
    // second-level entry, then frame number and flags
    let vpn1 = (va >> 22) & 0x3ff;
    let vpn0 = (va >> 12) & 0x3ff;
    let root_entry = *pt.root_pt.get(vpn1);
    if root_entry & PAGE_V == 0 {
        return None;
    }
    let second = pt.second_pts.get(vpn1).as_ref().unwrap();
    // the root entry names the second-level table's frame
    assert_eq!(root_entry >> 10, second.phys_addr.as_usize() / 4096);
    let leaf = *second.get(vpn0);
    if leaf & PAGE_V == 0 {
        return None;
    }
    Some(((leaf >> 10) << 12, leaf & 0x3ff))
}

#[test]
fn fresh_table_maps_nothing() {
    let mut m = init(0x1000_0000, 0x1000_0000 + MIB, 0x2000_0000, 0x2010_0000);
    let pt = PageTable::new(&mut m).unwrap();
    assert!(pt.root_pt_addr() % 4096 == 0);
    assert_eq!(decode(&pt, 0x40_2000), None);
}

#[test]
fn mapping_decodes_to_frame_and_flags() {
    let mut m = init(0x1000_0000, 0x1000_0000 + MIB, 0x2000_0000, 0x2010_0000);
    let mut pt = PageTable::new(&mut m).unwrap();
    pt.map_page(&mut m, 0x80_2000, 0x5000, PAGE_R | PAGE_W).unwrap();
    assert_eq!(decode(&pt, 0x80_2000), Some((0x5000, PAGE_R | PAGE_W | PAGE_V)));
    assert_eq!(decode(&pt, 0x80_3000), None);
}

#[test]
fn shared_upper_index_allocates_one_second_level_table() {
    let mut m = init(0x1000_0000, 0x1000_0000 + MIB, 0x2000_0000, 0x2010_0000);
    let mut pt = PageTable::new(&mut m).unwrap();
    // both addresses share bits 22-31, so they land in one table
    pt.map_page(&mut m, 0x80_0000, 0x1000, PAGE_R).unwrap();
    pt.map_page(&mut m, 0x80_1000, 0x2000, PAGE_R | PAGE_W).unwrap();
    let mut second_tables = 0;
    for i in 0..1024 {
        if pt.second_pts.get(i).is_some() {
            second_tables += 1;
        }
    }
    assert_eq!(second_tables, 1);
    assert_eq!(decode(&pt, 0x80_0000), Some((0x1000, PAGE_R | PAGE_V)));
    assert_eq!(decode(&pt, 0x80_1000), Some((0x2000, PAGE_R | PAGE_W | PAGE_V)));
}

#[test]
fn remapping_replaces_the_leaf() {
    let mut m = init(0x1000_0000, 0x1000_0000 + MIB, 0x2000_0000, 0x2010_0000);
    let mut pt = PageTable::new(&mut m).unwrap();
    pt.map_page(&mut m, 0x80_0000, 0x1000, PAGE_R).unwrap();
    pt.map_page(&mut m, 0x80_0000, 0x9000, PAGE_R | PAGE_W).unwrap();
    assert_eq!(decode(&pt, 0x80_0000), Some((0x9000, PAGE_R | PAGE_W | PAGE_V)));
}
