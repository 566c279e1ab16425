use rcore_os::task::manager::{StrideTask, TaskManager, TaskRef, BIGSTRIDE};

fn task(pid: usize, priority: usize, stride: usize) -> TaskRef {
    TaskRef { pid, priority, stride }
}

#[test]
fn stride_empty_queue_gives_nothing() {
    let mut m = TaskManager::new();
    assert!(m.fetch_stride().is_none());
}

#[test]
fn stride_pass_is_bigstride_over_priority() {
    let s = StrideTask::new(task(1, 3, 0));
    assert_eq!(s.pass, BIGSTRIDE / 3);
    let mut s = StrideTask::new(task(1, 16, 100));
    s.add_stride();
    assert_eq!(s.task.stride, 100 + BIGSTRIDE / 16);
}

#[test]
fn stride_fetches_least_stride_and_advances_it() {
    let mut m = TaskManager::new();
    m.add_stride(task(1, 2, 10));
    m.add_stride(task(2, 4, 5));
    m.add_stride(task(3, 8, 7));
    let t = m.fetch_stride().unwrap();
    assert_eq!(t.pid, 2);
    assert_eq!(t.stride, 5 + BIGSTRIDE / 4);
    let t = m.fetch_stride().unwrap();
    assert_eq!(t.pid, 3);
    let t = m.fetch_stride().unwrap();
    assert_eq!(t.pid, 1);
    assert_eq!(t.stride, 10 + BIGSTRIDE / 2);
    assert!(m.fetch_stride().is_none());
}

#[test]
fn stride_higher_priority_runs_more_often() {
    let mut m = TaskManager::new();
    m.add_stride(task(1, 2, 0));
    m.add_stride(task(2, 8, 0));
    let mut runs = [0usize; 3];
    for _ in 0..100 {
        let t = m.fetch_stride().unwrap();
        runs[t.pid] += 1;
        m.add_stride(t);
    }
    assert!(runs[2] > 3 * runs[1]);
}

#[test]
fn stride_spread_stays_within_half_bigstride() {
    let mut m = TaskManager::new();
    let priorities = [2usize, 3, 5, 16, 100];
    for (i, p) in priorities.iter().enumerate() {
        m.add_stride(task(i, *p, 0));
    }
    let mut strides = vec![0usize; priorities.len()];
    for _ in 0..500 {
        let t = m.fetch_stride().unwrap();
        strides[t.pid] = t.stride;
        let max = *strides.iter().max().unwrap();
        let min = *strides.iter().min().unwrap();
        assert!(max - min <= BIGSTRIDE / 2);
        m.add_stride(t);
    }
}
