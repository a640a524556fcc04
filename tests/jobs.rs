use rush::jobs::{format_job, JobStatus, JobTable, ProcEvent};

#[test]
fn added_job_runs_in_its_first_process_group() {
    let mut t = JobTable::new();
    let id = t.add_job(100, "echo a | cat | wc -l".to_string(), vec![100, 101, 102]);
    let job = t.get(id).unwrap();
    assert_eq!(job.pgid, 100);
    assert_eq!(job.pids.len(), 3);
    assert_eq!(job.status(), JobStatus::Running);
}

#[test]
fn ids_increase() {
    let mut t = JobTable::new();
    let a = t.add_job(10, "a".to_string(), vec![10]);
    let b = t.add_job(20, "b".to_string(), vec![20]);
    assert_eq!(a, 1);
    assert_eq!(b, 2);
    assert_eq!(t.most_recent(), Some(2));
}

#[test]
fn finished_foreground_job_leaves_the_table() {
    let mut t = JobTable::new();
    let id = t.add_job(100, "p".to_string(), vec![100, 101]);
    assert!(t.update_status(100, ProcEvent::Exited(3)));
    assert_eq!(t.finish_foreground(id), None);
    assert!(t.update_status(101, ProcEvent::Exited(0)));
    assert_eq!(t.finish_foreground(id), Some(0));
    assert!(t.get(id).is_none());
    assert_eq!(t.len(), 0);
}

#[test]
fn stopped_stage_stops_the_job() {
    let mut t = JobTable::new();
    let id = t.add_job(100, "vim".to_string(), vec![100, 101]);
    t.update_status(101, ProcEvent::Exited(0));
    t.update_status(100, ProcEvent::Stopped);
    assert_eq!(t.get(id).unwrap().status(), JobStatus::Stopped);
    assert_eq!(t.finish_foreground(id), Some(148));
    assert!(t.get(id).is_some());
    assert!(t.mark_continued(id));
    assert_eq!(t.get(id).unwrap().status(), JobStatus::Running);
}

#[test]
fn signal_termination_is_128_plus_signal() {
    let mut t = JobTable::new();
    let id = t.add_job(7, "sleep 9".to_string(), vec![7]);
    t.update_status(7, ProcEvent::Signaled(2));
    assert_eq!(t.finish_foreground(id), Some(130));
}

#[test]
fn background_job_listed_running_then_reaped() {
    let mut t = JobTable::new();
    let id = t.add_job(55, "sleep 1".to_string(), vec![55]);
    assert_eq!(t.list().len(), 1);
    assert_eq!(format_job(t.get(id).unwrap()), "[1] Running sleep 1");
    assert!(t.reap().is_empty());
    t.update_status(55, ProcEvent::Exited(0));
    let done = t.reap();
    assert_eq!(done.len(), 1);
    assert_eq!(format_job(&done[0]), "[1] Done(0) sleep 1");
    assert_eq!(t.list().len(), 0);
}

#[test]
fn unknown_pid_changes_nothing() {
    let mut t = JobTable::new();
    t.add_job(5, "x".to_string(), vec![5]);
    assert!(!t.update_status(6, ProcEvent::Exited(1)));
    assert!(t.remove(99).is_none());
    assert!(t.remove(1).is_some());
}

#[test]
fn waits_go_to_the_first_unfinished_process() {
    let mut t = JobTable::new();
    let id = t.add_job(10, "a | b".to_string(), vec![10, 11]);
    assert_eq!(t.next_to_wait(id), Some(10));
    t.update_status(10, ProcEvent::Exited(0));
    assert_eq!(t.next_to_wait(id), Some(11));
    t.update_status(11, ProcEvent::Stopped);
    assert_eq!(t.next_to_wait(id), None);
    assert_eq!(t.next_to_wait(99), None);
}
