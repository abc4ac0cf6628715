use rust_async_bench::fakeio::{FakeStream, Stats as _, StatsType};
use rust_async_bench::run::{
    counted, run_callerbox, run_large_nonbox, run_manual, run_nonbox, Connection, ConnectionState,
    RunManual, Stats, StatsMetrics, CONNS_MAX, LARGE_BUFSIZE, POLLS, SMALL_BUFSIZE, STEPS_MAX,
};
use rust_async_bench::server::{serve, serve_boxed};

const EXPECTED_STATS: StatsMetrics = StatsMetrics {
    register: 33,
    unregister: 33,
    poll: 34,
    accept: 64,
    read: 64,
    write: 64,
};

#[test]
fn test_manual() {
    assert_eq!(run_manual(), EXPECTED_STATS);
}

#[test]
fn test_nonbox() {
    assert_eq!(run_nonbox(), EXPECTED_STATS);
}

#[test]
fn test_callerbox() {
    assert_eq!(run_callerbox(), EXPECTED_STATS);
}

#[test]
fn test_large_nonbox() {
    assert_eq!(run_large_nonbox(), EXPECTED_STATS);
}

#[test]
fn constants_are_as_documented() {
    assert_eq!(POLLS, 34);
    assert_eq!(CONNS_MAX, 32);
    assert_eq!(SMALL_BUFSIZE, 128);
    assert_eq!(LARGE_BUFSIZE, 16_384);
}

#[test]
fn stats_count_each_kind_alone() {
    let mut stats = Stats::new();
    assert_eq!(stats.get(), StatsMetrics::new());
    stats.inc(StatsType::Register);
    stats.inc(StatsType::Unregister);
    stats.inc(StatsType::Unregister);
    stats.inc(StatsType::Poll);
    stats.inc(StatsType::Poll);
    stats.inc(StatsType::Poll);
    stats.inc(StatsType::Accept);
    stats.inc(StatsType::Read);
    stats.inc(StatsType::Read);
    stats.inc(StatsType::Write);
    assert_eq!(
        stats.get(),
        StatsMetrics { register: 1, unregister: 2, poll: 3, accept: 1, read: 2, write: 1 }
    );
}

#[test]
fn manual_run_can_be_repeated() {
    let mut stats = Stats::new();
    let mut r = RunManual::new();
    assert!(r.run(&mut stats, usize::MAX));
    assert_eq!(stats.get(), EXPECTED_STATS);
    assert!(r.run(&mut stats, usize::MAX));
    assert_eq!(stats.get().poll, 68);
    assert_eq!(stats.get().register, 66);
    assert_eq!(stats.get().unregister, 66);
}

#[test]
fn manual_run_stops_when_its_budget_is_spent() {
    let mut stats = Stats::new();
    let mut r = RunManual::new();
    assert!(!r.run(&mut stats, 3));
    assert_eq!(stats.get().poll, 3);
}

#[test]
fn manual_run_needs_exactly_its_polls() {
    let mut stats = Stats::new();
    let mut r = RunManual::new();
    assert!(!r.run(&mut stats, 33));
    let mut stats = Stats::new();
    let mut r = RunManual::new();
    assert!(r.run(&mut stats, 34));
}

#[test]
fn connection_blocks_on_every_other_attempt() {
    let mut stats = Stats::new();
    let mut c = Connection::new(FakeStream::new(), SMALL_BUFSIZE);
    assert_eq!(c.state, ConnectionState::ReceivingRequest);

    // first read would block
    assert!(!c.process(&mut stats));
    assert_eq!(c.state, ConnectionState::ReceivingRequest);
    assert!(!c.can_read);
    assert_eq!(stats.get().read, 1);
    assert_eq!(stats.get().write, 0);

    // second read brings the line, first write would block
    assert!(!c.process(&mut stats));
    assert_eq!(c.state, ConnectionState::SendingResponse);
    assert_eq!(c.buf_len, 12);
    assert_eq!(&c.buf[..12], b"hello world\n");
    assert!(!c.can_write);
    assert_eq!(c.sent, 0);
    assert_eq!(stats.get().read, 2);
    assert_eq!(stats.get().write, 1);

    // second write sends it all
    assert!(c.process(&mut stats));
    assert_eq!(c.sent, 12);
    assert_eq!(stats.get().read, 2);
    assert_eq!(stats.get().write, 2);
}

#[test]
fn serve_releases_everything() {
    let (net, finished) = serve::<128, Stats>(Stats::new(), usize::MAX);
    assert!(finished);
    assert_eq!(net.reactor.len(), 0);
    assert_eq!(net.stats.get(), EXPECTED_STATS);

    let (net, finished) = serve_boxed::<12, Stats>(Stats::new(), usize::MAX);
    assert!(finished);
    assert_eq!(net.reactor.len(), 0);
    assert_eq!(net.stats.get(), EXPECTED_STATS);
}

#[test]
fn serve_stops_when_its_budget_is_spent() {
    let (net, finished) = serve::<128, Stats>(Stats::new(), 10);
    assert!(!finished);
    assert!(net.stats.get().poll < 34);
    let (_, finished) = serve::<128, Stats>(Stats::new(), 0);
    assert!(!finished);
}

#[test]
fn the_step_bound_is_enough_for_every_run() {
    let (net, finished) = serve::<128, Stats>(Stats::new(), STEPS_MAX);
    assert!(finished);
    assert_eq!(net.stats.get(), EXPECTED_STATS);

    let (net, finished) = serve_boxed::<128, Stats>(Stats::new(), STEPS_MAX);
    assert!(finished);
    assert_eq!(net.stats.get(), EXPECTED_STATS);

    let mut stats = Stats::new();
    let mut r = RunManual::new();
    assert!(r.run(&mut stats, STEPS_MAX));
    assert_eq!(stats.get(), EXPECTED_STATS);
}

#[test]
fn served_counts_are_added_to_what_was_counted_before() {
    let mut stats = Stats::new();
    stats.inc(StatsType::Read);
    stats.inc(StatsType::Register);
    let (net, finished) = serve::<128, Stats>(stats, usize::MAX);
    assert!(finished);
    assert_eq!(
        net.stats.get(),
        StatsMetrics { register: 34, unregister: 33, poll: 34, accept: 64, read: 65, write: 64 }
    );
}

#[test]
fn counters_wrap_around() {
    assert_eq!(counted(0), 1);
    assert_eq!(counted(41), 42);
    assert_eq!(counted(u32::MAX - 1), u32::MAX);
    assert_eq!(counted(u32::MAX), 0);
}
