use tinykern::mem::init;
use tinykern::proc::{give_up, ProcState, CONTEXT_WORDS, PROC_STACK_WORDS};
use tinykern::vm::SATP_SV32;

const MIB: usize = 1024 * 1024;

#[test]
fn creation_claims_slots_in_order() {
    let mut m = init(0x1000_0000, 0x1000_0000 + 4 * MIB, 0x2000_0000, 0x2010_0000);
    let mut t = tinykern::proc::init(&mut m).unwrap();
    assert_eq!(t.next_unused(), Some(0));
    let idle = tinykern::proc::new(&mut t, &mut m, 0, 0, 0x8000).unwrap();
    let a = tinykern::proc::new(&mut t, &mut m, 0x1234, 0, 0x8000).unwrap();
    let b = tinykern::proc::new(&mut t, &mut m, 0x5678, 0, 0x8000).unwrap();
    assert_eq!((idle, a, b), (0, 1, 2));
    assert_eq!(t.next_unused(), Some(3));
    assert_eq!(t.table.get(1).pid, 1);
    assert_eq!(t.table.get(1).state, ProcState::Runnable);
    assert_eq!(t.table.get(3).state, ProcState::Unused);
}

#[test]
fn initial_frame_resumes_at_the_entry_point() {
    let mut m = init(0x1000_0000, 0x1000_0000 + 4 * MIB, 0x2000_0000, 0x2010_0000);
    let mut t = tinykern::proc::init(&mut m).unwrap();
    tinykern::proc::new(&mut t, &mut m, 0xdead_b000, 0, 0x8000).unwrap();
    let p = t.table.get(0);
    // the saved stack pointer sits one context frame below the stack top,
    // with the entry address in the resume slot and zeroed registers above
    assert_eq!(p.sp, PROC_STACK_WORDS - CONTEXT_WORDS);
    assert_eq!(p.stack[p.sp], 0xdead_b000);
    for w in p.sp + 1..PROC_STACK_WORDS {
        assert_eq!(p.stack[w], 0);
    }
}

#[test]
fn process_page_table_identity_maps_the_kernel() {
    let mut m = init(0x1000_0000, 0x1000_0000 + 4 * MIB, 0x2000_0000, 0x2010_0000);
    let mut t = tinykern::proc::init(&mut m).unwrap();
    tinykern::proc::new(&mut t, &mut m, 0, 0, 0x8000).unwrap();
    let pt = t.table.get(0).page_table.as_ref().unwrap();
    for page in 0..8 {
        let va = page * 4096;
        let vpn1 = (va >> 22) & 0x3ff;
        let vpn0 = (va >> 12) & 0x3ff;
        let leaf = *pt.second_pts.get(vpn1).as_ref().unwrap().get(vpn0);
        // valid, readable, writable, executable, frame == page
        assert_eq!(leaf & 0x3ff, 0xf);
        assert_eq!((leaf >> 10) << 12, va);
    }
}

#[test]
fn yields_alternate_between_the_two_busy_processes() {
    let mut m = init(0x1000_0000, 0x1000_0000 + 4 * MIB, 0x2000_0000, 0x2010_0000);
    let mut t = tinykern::proc::init(&mut m).unwrap();
    tinykern::proc::new(&mut t, &mut m, 0, 0, 0x8000).unwrap();
    tinykern::proc::new(&mut t, &mut m, 0xaaaa_a000, 0, 0x8000).unwrap();
    tinykern::proc::new(&mut t, &mut m, 0xbbbb_b000, 0, 0x8000).unwrap();
    assert_eq!(t.curr_proc_idx, 0);
    // the scan restarts at index 1 each time and skips the caller
    let d1 = give_up(&mut t);
    assert_eq!((d1.prev, d1.next), (0, 1));
    // different processes own different root tables
    assert!(d1.change_table);
    let d2 = give_up(&mut t);
    assert_eq!((d2.prev, d2.next), (1, 2));
    let d3 = give_up(&mut t);
    assert_eq!((d3.prev, d3.next), (2, 1));
    let d4 = give_up(&mut t);
    assert_eq!((d4.prev, d4.next), (1, 2));
    // the reported translation root belongs to the resumed process
    let root = t
        .table
        .get(2)
        .page_table
        .as_ref()
        .unwrap()
        .root_pt_addr();
    assert_eq!(d4.satp, SATP_SV32 | (root / 4096));
}

#[test]
fn yield_with_only_the_idle_process_picks_idle() {
    let mut m = init(0x1000_0000, 0x1000_0000 + 4 * MIB, 0x2000_0000, 0x2010_0000);
    let mut t = tinykern::proc::init(&mut m).unwrap();
    tinykern::proc::new(&mut t, &mut m, 0, 0, 0x8000).unwrap();
    let d = give_up(&mut t);
    assert_eq!((d.prev, d.next), (0, 0));
    assert_eq!(t.curr_proc_idx, 0);
    // resuming the same process keeps the active table installed
    assert!(!d.change_table);
}
