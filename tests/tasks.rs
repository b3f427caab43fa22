use blog_os_core::task::executor::{Executor, Step};
use blog_os_core::task::keyboard::{decode_keys, new_decoder, Key, PushOutcome, ScancodeStream, StreamPoll};
use blog_os_core::task::simple_executor::SimpleExecutor;
use blog_os_core::task::{Task, TaskId, TaskPoll};

#[test]
fn task_without_suspension_completes_on_first_poll() {
    let mut t = Task::new(TaskId(7), 0);
    assert_eq!(t.poll(), TaskPoll::Ready);
    let mut u = Task::new(TaskId(8), 2);
    assert_eq!(u.poll(), TaskPoll::Pending);
    assert_eq!(u.poll(), TaskPoll::Pending);
    assert_eq!(u.poll(), TaskPoll::Ready);
}

#[test]
fn simple_executor_runs_all_tasks_round_robin() {
    let mut e = SimpleExecutor::new();
    e.spawn(Task::new(TaskId(1), 2));
    e.spawn(Task::new(TaskId(2), 0));
    e.spawn(Task::new(TaskId(3), 1));
    e.run();
    assert_eq!(e.completed().clone(), vec![TaskId(2), TaskId(3), TaskId(1)]);
}

#[test]
fn executor_polls_pending_task_only_after_wake() {
    let mut e = Executor::new();
    let quick = e.spawn(0);
    let waiting = e.spawn(1);
    assert_eq!(quick, TaskId(0));
    assert_eq!(waiting, TaskId(1));
    assert_eq!(e.run_next(), Step::Polled(quick, TaskPoll::Ready));
    assert_eq!(e.run_next(), Step::Polled(waiting, TaskPoll::Pending));
    assert_eq!(e.run_next(), Step::Idle);
    e.wake(waiting);
    e.wake(waiting);
    assert_eq!(e.run_next(), Step::Polled(waiting, TaskPoll::Ready));
    assert_eq!(e.run_next(), Step::Idle);
    assert_eq!(e.live_tasks(), 0);
}

#[test]
fn executor_skips_stale_wake() {
    let mut e = Executor::new();
    let id = e.spawn(0);
    e.wake(id);
    assert_eq!(e.run_next(), Step::Polled(id, TaskPoll::Ready));
    e.wake(id);
    assert_eq!(e.run_next(), Step::Stale(id));
    assert_eq!(e.run_next(), Step::Idle);
}

#[test]
fn bridge_drops_the_hundred_and_first_byte() {
    let mut s = ScancodeStream::new();
    for i in 0..100u8 {
        assert_eq!(s.add_scancode(i), PushOutcome::Queued(None));
    }
    assert_eq!(s.add_scancode(100), PushOutcome::Dropped);
    let bytes = s.drain(TaskId(0));
    assert_eq!(bytes, (0..100u8).collect::<Vec<u8>>());
}

#[test]
fn bridge_registers_waiter_and_wakes_it() {
    let mut s = ScancodeStream::new();
    assert_eq!(s.poll_next(TaskId(4)), StreamPoll::Pending);
    assert_eq!(s.add_scancode(0x1E), PushOutcome::Queued(Some(TaskId(4))));
    assert_eq!(s.add_scancode(0x9E), PushOutcome::Queued(None));
    assert_eq!(s.poll_next(TaskId(4)), StreamPoll::Ready(0x1E));
    assert_eq!(s.poll_next(TaskId(4)), StreamPoll::Ready(0x9E));
    assert_eq!(s.poll_next(TaskId(4)), StreamPoll::Pending);
}

#[test]
fn keypress_of_a_prints_one_character() {
    let mut s = ScancodeStream::new();
    assert_eq!(s.add_scancode(0x1E), PushOutcome::Queued(None));
    assert_eq!(s.add_scancode(0x9E), PushOutcome::Queued(None));
    let mut e = Executor::new();
    let printer = e.spawn(u64::MAX);
    assert_eq!(e.run_next(), Step::Polled(printer, TaskPoll::Pending));
    let mut decoder = new_decoder();
    let bytes = s.drain(printer);
    assert_eq!(decode_keys(&mut decoder, &bytes), vec![Key::Char('a')]);
    assert_eq!(e.run_next(), Step::Idle);
    if let PushOutcome::Queued(Some(id)) = s.add_scancode(0x30) {
        e.wake(id);
    } else {
        panic!("the printing task should be waiting");
    }
    assert_eq!(e.run_next(), Step::Polled(printer, TaskPoll::Pending));
    assert_eq!(decode_keys(&mut decoder, &s.drain(printer)), vec![Key::Char('b')]);
}

#[test]
fn executor_run_ready_steps_once_per_ready_task() {
    let mut e = Executor::new();
    let a = e.spawn(0);
    let b = e.spawn(3);
    let c = e.spawn(0);
    let steps = e.run_ready();
    assert_eq!(
        steps,
        vec![
            Step::Polled(a, TaskPoll::Ready),
            Step::Polled(b, TaskPoll::Pending),
            Step::Polled(c, TaskPoll::Ready),
        ]
    );
    assert_eq!(e.live_tasks(), 1);
    assert_eq!(e.run_ready(), Vec::<Step>::new());
    e.wake(b);
    assert_eq!(e.run_ready(), vec![Step::Polled(b, TaskPoll::Pending)]);
}

#[test]
fn decoder_handles_shift_and_raw_keys() {
    let mut decoder = new_decoder();
    // left shift down, A down, A up, left shift up
    // the shift press itself is reported as a raw key
    let keys = decode_keys(&mut decoder, &vec![0x2A, 0x1E, 0x9E, 0xAA]);
    assert_eq!(keys.len(), 2);
    assert!(matches!(keys[0], Key::Raw(_)));
    assert_eq!(keys[1], Key::Char('A'));
    // F1 down gives a key without a character
    let raw = decode_keys(&mut decoder, &vec![0x3B]);
    assert_eq!(raw.len(), 1);
    assert!(matches!(raw[0], Key::Raw(_)));
}
