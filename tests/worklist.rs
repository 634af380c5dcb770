use oligoscreen::worklist::{Worklist, WorklistState};

#[test]
fn jobs_run_in_order_and_leave_the_queue() {
    let mut w: Worklist<&str> = Worklist::new();
    assert_eq!(w.add("a"), 1);
    assert_eq!(w.add("b"), 2);
    assert_eq!(w.start(), Some(0));
    assert_eq!(w.state, WorklistState::Processing);
    assert_eq!(w.total_at_start, 2);
    assert_eq!(w.finish_current(), (1, "a"));
    assert_eq!(w.next_job(), Some(0));
    assert_eq!(w.finish_current(), (2, "b"));
    assert_eq!(w.next_job(), None);
    assert_eq!(w.state, WorklistState::Idle);
}

#[test]
fn start_needs_jobs_and_an_idle_queue() {
    let mut w: Worklist<u8> = Worklist::new();
    assert_eq!(w.start(), None);
    assert_eq!(w.state, WorklistState::Idle);
    w.add(7);
    assert_eq!(w.start(), Some(0));
    assert_eq!(w.start(), None);
    assert_eq!(w.state, WorklistState::Processing);
}

#[test]
fn removing_keeps_the_current_job() {
    let mut w: Worklist<char> = Worklist::new();
    for c in ['a', 'b', 'c', 'd'] {
        w.add(c);
    }
    w.start();
    w.finish_current();
    w.next_job();
    // now processing 'b' at index 0; move on to 'c'
    w.finish_current();
    assert_eq!(w.jobs.iter().map(|j| j.1).collect::<String>(), "cd");
    assert!(!w.remove(0));
    assert!(!w.remove(5));
    assert!(w.remove(1));
    assert_eq!(w.jobs.iter().map(|j| j.1).collect::<String>(), "c");
    assert_eq!(w.current, 0);
}

#[test]
fn removing_before_the_current_job_shifts_it() {
    let mut w: Worklist<char> = Worklist::new();
    for c in ['a', 'b', 'c'] {
        w.add(c);
    }
    w.start();
    w.current = 2;
    assert!(w.remove(0));
    assert_eq!(w.current, 1);
    assert_eq!(w.jobs[w.current].1, 'c');
}

#[test]
fn stop_request_ends_processing_after_the_current_job() {
    let mut w: Worklist<u8> = Worklist::new();
    w.add(1);
    w.add(2);
    w.request_stop();
    assert_eq!(w.state, WorklistState::Idle);
    w.start();
    w.request_stop();
    assert_eq!(w.state, WorklistState::StopRequested);
    w.finish_current();
    assert_eq!(w.next_job(), None);
    assert_eq!(w.state, WorklistState::Idle);
    assert_eq!(w.jobs.len(), 1);
}
