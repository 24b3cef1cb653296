use os::kernel::{AppImage, AppSegment, Kernel};
use os::manager::{ReadyEntry, TaskManager};
use os::task::TaskStatus;

fn boot_one(k: &mut Kernel) -> usize {
    let name: Vec<u8> = b"init".to_vec();
    assert!(k.register_app(
        name.clone(),
        AppImage { entry: 0, segments: Vec::new() },
    ));
    let pid = k.bootstrap(&name);
    assert!(pid >= 0);
    let got = k.dispatch();
    assert_eq!(got, Some(pid as usize));
    pid as usize
}

#[test]
fn bootstrap_and_getpid() {
    let mut k = Kernel::new();
    let pid = boot_one(&mut k);
    assert_eq!(k.sys_getpid(), pid as isize);
}

#[test]
fn manager_fetch_picks_smallest_stride() {
    let mut m = TaskManager::new();
    m.add(ReadyEntry { pid: 1, stride: 50, priority: 2 });
    m.add(ReadyEntry { pid: 2, stride: 10, priority: 2 });
    m.add(ReadyEntry { pid: 3, stride: 30, priority: 2 });
    let e = m.fetch().unwrap();
    assert_eq!(e.pid, 2);
    let e = m.fetch().unwrap();
    assert_eq!(e.pid, 3);
    let e = m.fetch().unwrap();
    assert_eq!(e.pid, 1);
    assert!(m.fetch().is_none());
}

#[test]
fn set_priority_rejects_below_two() {
    let mut k = Kernel::new();
    boot_one(&mut k);
    assert_eq!(k.sys_set_priority(1), -1);
    assert_eq!(k.sys_set_priority(0), -1);
    assert_eq!(k.sys_set_priority(-5), -1);
    assert_eq!(k.sys_set_priority(2), 2);
    assert_eq!(k.sys_set_priority(7), 7);
}

#[test]
fn mmap_validation_and_round_trip() {
    let mut k = Kernel::new();
    boot_one(&mut k);
    // invalid port bits
    assert_eq!(k.sys_mmap(0x10000, 4096, 8), -1);
    // no-access mapping
    assert_eq!(k.sys_mmap(0x10000, 4096, 0), -1);
    // unaligned start
    assert_eq!(k.sys_mmap(0x10001, 4096, 3), -1);
    // fresh mapping succeeds
    assert_eq!(k.sys_mmap(0x10000, 4096, 3), 0);
    // overlap is refused
    assert_eq!(k.sys_mmap(0x10000, 4096, 3), -1);
    // round trip: unmapping the same range succeeds
    assert_eq!(k.sys_munmap(0x10000, 4096), 0);
    // and a second unmap fails: the range is gone
    assert_eq!(k.sys_munmap(0x10000, 4096), -1);
    // the pair left the region set unchanged: mapping again succeeds
    assert_eq!(k.sys_mmap(0x10000, 4096, 3), 0);
}

#[test]
fn munmap_is_all_or_nothing() {
    let mut k = Kernel::new();
    boot_one(&mut k);
    assert_eq!(k.sys_mmap(0x10000, 4096, 3), 0);
    // [0x10000, 0x12000) has an unmapped second page
    assert_eq!(k.sys_munmap(0x10000, 8192), -1);
    // the mapped page survived: mapping it again still fails
    assert_eq!(k.sys_mmap(0x10000, 4096, 3), -1);
}

#[test]
fn sbrk_moves_break() {
    let mut k = Kernel::new();
    boot_one(&mut k);
    let old = k.sys_sbrk(4096);
    assert_eq!(old, 0);
    let old = k.sys_sbrk(0);
    assert_eq!(old, 4096);
    // shrink below the heap bottom is refused
    assert_eq!(k.sys_sbrk(-8192), -1);
    assert_eq!(k.sys_sbrk(-4096), 4096);
}

#[test]
fn fork_links_child_once() {
    let mut k = Kernel::new();
    let parent = boot_one(&mut k);
    let child = k.sys_fork();
    assert!(child >= 0);
    assert_ne!(child as usize, parent);
    // parent keeps running; the child must wait for dispatch
    assert_eq!(k.sys_getpid(), parent as isize);
}

#[test]
fn waitpid_reports_no_child_then_running_then_reaps() {
    let mut k = Kernel::new();
    boot_one(&mut k);
    // writable page for the exit-code out parameter
    assert_eq!(k.sys_mmap(0x20000, 4096, 3), 0);
    // no children at all
    assert_eq!(k.sys_waitpid(-1, 0x20000), -1);
    let child = k.sys_fork();
    assert!(child >= 0);
    // child exists but still Ready
    assert_eq!(k.sys_waitpid(-1, 0x20000), -2);
    assert_eq!(k.sys_waitpid(child, 0x20000), -2);
    // a pid that is no child at all
    assert_eq!(k.sys_waitpid(9999, 0x20000), -1);
    // run the child until it exits with code 42
    k.sys_yield();
    let mut reaped = false;
    for _ in 0..4 {
        let running = k.dispatch().expect("a task must be ready");
        if running == child as usize {
            k.sys_exit(42);
        } else {
            // parent polls
            let r = k.sys_waitpid(-1, 0x20000);
            if r == child {
                let bytes = k.read_current_bytes(0x20000, 4).unwrap();
                assert_eq!(bytes, vec![42, 0, 0, 0]);
                reaped = true;
                break;
            }
            k.sys_yield();
        }
    }
    assert!(reaped);
}

#[test]
fn stride_scheduling_favors_high_priority_two_to_one() {
    let mut k = Kernel::new();
    let name: Vec<u8> = b"init".to_vec();
    assert!(k.register_app(name.clone(), AppImage { entry: 0, segments: Vec::new() }));
    let a = k.bootstrap(&name) as usize;
    let b = k.bootstrap(&name) as usize;
    // give task a priority 4 and task b priority 2
    let mut counts = (0usize, 0usize);
    for _ in 0..31 {
        let running = k.dispatch().expect("ready");
        if running == a {
            counts.0 += 1;
            k.sys_set_priority(4);
        } else {
            assert_eq!(running, b);
            counts.1 += 1;
            k.sys_set_priority(2);
        }
        k.sys_yield();
    }
    // over a long window the priority-4 task runs about twice as often
    assert!(counts.0 >= 19 && counts.1 >= 9, "counts: {:?}", counts);
}

#[test]
fn get_time_writes_across_page_boundary() {
    let mut k = Kernel::new();
    boot_one(&mut k);
    assert_eq!(k.sys_mmap(0x30000, 8192, 3), 0);
    k.advance_time(3_500_000);
    // destination straddles the boundary between the two pages
    let dst = 0x31000 - 8;
    assert_eq!(k.sys_get_time(dst, 0), 0);
    let bytes = k.read_current_bytes(dst, 16).unwrap();
    let mut expect = 3usize.to_le_bytes().to_vec();
    expect.extend_from_slice(&500_000usize.to_le_bytes());
    assert_eq!(bytes, expect);
    // unmapped destination is refused
    assert_eq!(k.sys_get_time(0x50000, 0), -1);
}

#[test]
fn task_info_reports_status_counts_and_age() {
    let mut k = Kernel::new();
    boot_one(&mut k);
    assert_eq!(k.sys_mmap(0x30000, 8192, 3), 0);
    k.advance_time(10_000);
    k.modify_syscall_times(3);
    k.modify_syscall_times(3);
    k.modify_syscall_times(7);
    let dst = 0x31000 - 100;
    assert_eq!(k.sys_task_info(dst), 0);
    let bytes = k.read_current_bytes(dst, 2009).unwrap();
    assert_eq!(bytes[0], 1); // Running
    assert_eq!(&bytes[1 + 4 * 3..1 + 4 * 3 + 4], &[2, 0, 0, 0]);
    assert_eq!(&bytes[1 + 4 * 7..1 + 4 * 7 + 4], &[1, 0, 0, 0]);
    assert_eq!(&bytes[2001..2009], &10usize.to_le_bytes());
    let _ = TaskStatus::Running;
}

#[test]
fn exec_replaces_address_space() {
    let mut k = Kernel::new();
    boot_one(&mut k);
    // a second app whose name the task stores in its memory
    let name: Vec<u8> = b"app2".to_vec();
    assert!(k.register_app(name.clone(), AppImage { entry: 0x1234, segments: Vec::new() }));
    assert_eq!(k.sys_mmap(0x40000, 4096, 3), 0);
    let mut path = name.clone();
    path.push(0);
    assert!(k.write_current_bytes(0x40000, &path));
    assert_eq!(k.sys_exec(0x40000), 0);
    // old mappings are gone: the page can be mapped afresh
    assert_eq!(k.sys_mmap(0x40000, 4096, 3), 0);
    // a path that resolves to nothing
    assert!(k.write_current_bytes(0x40000, &vec![b'x', 0]));
    assert_eq!(k.sys_exec(0x40000), -1);
}

#[test]
fn spawn_creates_child_from_image() {
    let mut k = Kernel::new();
    let parent = boot_one(&mut k);
    let name: Vec<u8> = b"app2".to_vec();
    assert!(k.register_app(name.clone(), AppImage { entry: 0x1234, segments: Vec::new() }));
    assert_eq!(k.sys_mmap(0x40000, 4096, 3), 0);
    let mut path = name.clone();
    path.push(0);
    assert!(k.write_current_bytes(0x40000, &path));
    let child = k.sys_spawn(0x40000);
    assert!(child >= 0);
    assert_ne!(child as usize, parent);
    // unknown image name
    assert!(k.write_current_bytes(0x40000, &vec![b'z', 0]));
    assert_eq!(k.sys_spawn(0x40000), -1);
}

#[test]
fn zero_length_ranges_are_no_ops() {
    let mut k = Kernel::new();
    boot_one(&mut k);
    // an empty range covers no page: both calls succeed and change nothing
    assert_eq!(k.sys_mmap(0x10000, 0, 3), 0);
    assert_eq!(k.sys_munmap(0x10000, 0), 0);
    // the page itself was never mapped
    assert_eq!(k.sys_mmap(0x10000, 4096, 3), 0);
}

#[test]
fn exec_loads_segment_contents() {
    let mut k = Kernel::new();
    boot_one(&mut k);
    let mut data = vec![0u8; 4096];
    data[0] = 0xAA;
    data[4095] = 0x55;
    let image = AppImage {
        entry: 0x8000,
        // read+write+user, one page at vpn 8
        segments: vec![AppSegment { start_vpn: 8, page_count: 1, perm: 0x16, data }],
    };
    let name: Vec<u8> = b"withdata".to_vec();
    assert!(k.register_app(name.clone(), image));
    assert_eq!(k.sys_mmap(0x40000, 4096, 3), 0);
    let mut path = name.clone();
    path.push(0);
    assert!(k.write_current_bytes(0x40000, &path));
    assert_eq!(k.sys_exec(0x40000), 0);
    let bytes = k.read_current_bytes(8 * 4096, 4096).unwrap();
    assert_eq!(bytes[0], 0xAA);
    assert_eq!(bytes[4095], 0x55);
    assert_eq!(bytes[1], 0);
}

#[test]
fn end_to_end_child_lifecycle() {
    // a task with priority 2 is created, calls sbrk(4096) and
    // mmap(0x10000, 4096, 3), writes and reads a value back in the
    // mapped region, unmaps it and exits with 42; its parent's
    // waitpid(-1, ..) eventually reports the pid with code 42
    let mut k = Kernel::new();
    let parent = boot_one(&mut k);
    assert_eq!(k.sys_mmap(0x20000, 4096, 3), 0);
    let child = k.sys_fork();
    assert!(child >= 0);
    k.sys_yield();
    let mut reaped: Option<isize> = None;
    for _ in 0..8 {
        let running = k.dispatch().expect("a task must be ready");
        if running == child as usize {
            assert_eq!(k.sys_set_priority(2), 2);
            assert!(k.sys_sbrk(4096) >= 0);
            assert_eq!(k.sys_mmap(0x10000, 4096, 3), 0);
            assert!(k.write_current_bytes(0x10000, &vec![7, 7, 7, 7]));
            assert_eq!(k.read_current_bytes(0x10000, 4).unwrap(), vec![7, 7, 7, 7]);
            assert_eq!(k.sys_munmap(0x10000, 4096), 0);
            k.sys_exit(42);
        } else {
            assert_eq!(running, parent);
            let r = k.sys_waitpid(-1, 0x20000);
            if r == child {
                let bytes = k.read_current_bytes(0x20000, 4).unwrap();
                assert_eq!(bytes, vec![42, 0, 0, 0]);
                reaped = Some(r);
                break;
            }
            assert_eq!(r, -2);
            k.sys_yield();
        }
    }
    assert_eq!(reaped, Some(child));
    // the reaped child is fully released: nothing is left to wait for
    assert_eq!(k.sys_waitpid(-1, 0x20000), -1);
    assert_eq!(k.sys_waitpid(child, 0x20000), -1);
}
