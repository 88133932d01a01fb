use kernel_core::pid::{
    kernel_stack_position, pid_alloc, KernelStack, PidAllocator, PidHandle,
};
use kernel_core::config::{KERNEL_STACK_SIZE, PAGE_SIZE, TRAMPOLINE};
use kernel_core::page_table::{PageTable, PhysMemory, VPN_LIMIT};
use kernel_core::processor::{run_tasks, schedule, Processor};
use kernel_core::task::{TaskContext, TaskControlBlock, TaskStatus};

#[test]
fn pid_reuse_after_release() {
    let mut a = PidAllocator::new();
    let p0 = a.allocate();
    let p1 = a.allocate();
    let p2 = a.allocate();
    assert_eq!((p0.0, p1.0, p2.0), (0, 1, 2));
    p1.release(&mut a);
    let again = a.allocate();
    assert_eq!(again.0, 1);
    let next = a.allocate();
    assert_eq!(next.0, 3);
}

#[test]
fn pid_most_recent_release_first() {
    let mut a = PidAllocator::new();
    let hs: Vec<PidHandle> = (0..4).map(|_| pid_alloc(&mut a)).collect();
    a.dealloc(0);
    a.dealloc(2);
    assert_eq!(a.allocate().0, 2);
    assert_eq!(a.allocate().0, 0);
    assert_eq!(a.allocate().0, 4);
    assert_eq!(hs.len(), 4);
    assert_eq!(a.issued_count(), 5);
    assert_eq!(a.free_count(), 0);
}

#[test]
fn live_pids_are_distinct() {
    let mut a = PidAllocator::new();
    let mut live: Vec<usize> = Vec::new();
    for round in 0..20usize {
        let h = a.allocate();
        assert!(!live.contains(&h.0));
        live.push(h.0);
        if round % 3 == 2 {
            let p = live.remove(round % live.len());
            a.dealloc(p);
        }
    }
}

#[test]
fn kernel_stacks_of_pid_0_and_1() {
    let mut a = PidAllocator::new();
    let h0 = a.allocate();
    let h1 = a.allocate();
    let mut mem = PhysMemory::new(32);
    let mut space = PageTable::new(&mut mem);
    let s0 = KernelStack::new(&h0, &mut space, &mut mem);
    let s1 = KernelStack::new(&h1, &mut space, &mut mem);
    let (b0, t0) = s0.position();
    let (b1, t1) = s1.position();
    assert_eq!(t0, TRAMPOLINE);
    assert_eq!(b0, TRAMPOLINE - KERNEL_STACK_SIZE);
    assert_eq!(t1, TRAMPOLINE - KERNEL_STACK_SIZE - PAGE_SIZE);
    assert_eq!(b1, t1 - KERNEL_STACK_SIZE);
    assert!(t1 < b0);
    assert!(b0 - t1 >= PAGE_SIZE);
    assert_eq!(s1.get_top(), t1);
    assert_eq!(s1.push_on_top_address(288), t1 - 288);
    assert_eq!(s0.get_top() - s1.get_top(), KERNEL_STACK_SIZE + PAGE_SIZE);

    let vpn = |va: u64| (va / PAGE_SIZE) % VPN_LIMIT;
    for page in [b0, b0 + PAGE_SIZE, b1, b1 + PAGE_SIZE] {
        let pte = space.translate(&mem, vpn(page)).unwrap();
        assert!(pte.readable() && pte.writable() && !pte.executable());
    }
    // the guard page between the two stacks stays unmapped
    assert_eq!(t1 + PAGE_SIZE, b0);
    assert!(space.translate(&mem, vpn(t1)).is_none());
    let f0 = space.translate(&mem, vpn(b0)).unwrap().ppn();
    let f1 = space.translate(&mem, vpn(b1)).unwrap().ppn();
    assert_ne!(f0, f1);

    s0.release(&mut space, &mut mem);
    assert!(space.translate(&mem, vpn(b0)).is_none());
    assert!(space.translate(&mem, vpn(b0 + PAGE_SIZE)).is_none());
    assert!(space.translate(&mem, vpn(b1)).is_some());
}

#[test]
fn kernel_stack_placement_descends() {
    let mut prev = kernel_stack_position(0);
    for id in 1..50usize {
        let cur = kernel_stack_position(id);
        assert!(cur.1 < prev.1);
        assert!(prev.1 - cur.1 >= KERNEL_STACK_SIZE + PAGE_SIZE);
        assert!(prev.0 >= cur.1 + PAGE_SIZE);
        prev = cur;
    }
}

fn cx(ra: usize, sp: usize) -> TaskContext {
    let mut c = TaskContext::zero_init();
    c.ra = ra;
    c.sp = sp;
    c
}

#[test]
fn run_tasks_waits_for_a_task_then_dispatches() {
    let mut p = Processor::new();
    for _ in 0..3 {
        assert!(run_tasks(&mut p, None, cx(1, 2)).is_none());
        assert!(p.current().is_none());
        assert_eq!(p.idle_task_cx().ra, 0);
    }
    let t = TaskControlBlock::new(TaskStatus::Ready, cx(0x80, 0x9000));
    let to = run_tasks(&mut p, Some(t), cx(1, 2)).unwrap();
    assert_eq!((to.ra, to.sp), (0x80, 0x9000));
    let cur = p.current().unwrap();
    assert!(cur.task_status == TaskStatus::Running);
    assert_eq!(p.idle_task_cx().ra, 1);
}

#[test]
fn schedule_returns_to_the_loop_and_keeps_task_data() {
    let mut p = Processor::new();
    let t = TaskControlBlock::new(TaskStatus::Ready, cx(0x80, 0x9000));
    run_tasks(&mut p, Some(t), cx(0x11, 0x22));
    let mut running = p.take_current().unwrap();
    assert!(p.current().is_none());
    running.set_user_time(40);
    running.update_kernel_time(55);
    let before = running;
    let back = schedule(&p, &mut running, cx(0x84, 0x8f00));
    assert_eq!((back.ra, back.sp), (0x11, 0x22));
    assert_eq!((running.task_cx.ra, running.task_cx.sp), (0x84, 0x8f00));
    assert!(running.task_status == before.task_status);
    assert_eq!(running.user_time, before.user_time);
    assert_eq!(running.kernel_time, before.kernel_time);
}

#[test]
fn user_and_kernel_time_accounting() {
    let mut t = TaskControlBlock::new(TaskStatus::UnInit, TaskContext::zero_init());
    t.set_user_time(100);
    assert_eq!(t.get_user_time(150), 50);
    assert_eq!(t.get_user_time(170), 70);
    assert_eq!(t.update_kernel_time(10), 10);
    assert_eq!(t.update_kernel_time(25), 15);
    assert_eq!(t.update_kernel_time(25), 0);
    assert_eq!(t.kernel_time, 25);
    assert_eq!(t.user_time, 100);
}
