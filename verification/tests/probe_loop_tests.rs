use latency_probe::probe_loop::{
    round_trip, Action, Event, LoopState, ProbeLoop, StopReason, DEFAULT_INTERVAL_NANOS,
};
use latency_probe::scheduler::encode_id;

const SECOND: u64 = 1_000_000_000;

fn pong(id: u64, now: u64) -> Event {
    Event::Pong { payload: encode_id(id), now }
}

#[test]
fn default_interval_is_one_second() {
    assert_eq!(DEFAULT_INTERVAL_NANOS, 1_000_000_000);
}

#[test]
fn new_loop_is_running_and_empty() {
    let probe = ProbeLoop::new(1000);
    assert_eq!(probe.state(), LoopState::Running);
    assert!(probe.is_running());
    assert_eq!(probe.pending_len(), 0);
    assert_eq!(probe.samples(), Vec::<u64>::new());
}

#[test]
fn tick_sends_the_next_identifier() {
    let mut probe = ProbeLoop::new(10);
    assert_eq!(
        probe.step(Event::Tick { now: 5 }),
        Action::SendProbe { id: 1, payload: vec![0, 0, 0, 0, 0, 0, 0, 1] }
    );
    assert_eq!(
        probe.step(Event::Tick { now: 6 }),
        Action::SendProbe { id: 2, payload: vec![0, 0, 0, 0, 0, 0, 0, 2] }
    );
    assert_eq!(probe.pending_len(), 2);
    assert!(probe.is_running());
}

#[test]
fn matched_reply_is_reported_with_percentiles() {
    let mut probe = ProbeLoop::new(10);
    probe.step(Event::Tick { now: 100 });
    let action = probe.step(pong(1, 350));
    match action {
        Action::Report(report) => {
            assert_eq!(report.id, 1);
            assert_eq!(report.rtt, 250);
            assert_eq!(report.samples, 1);
            assert_eq!(report.summary.p50, 25_000);
            assert_eq!(report.summary.p95, 25_000);
            assert_eq!(report.summary.p99, 25_000);
        }
        other => panic!("unexpected action {:?}", other),
    }
    assert_eq!(probe.pending_len(), 0);
    assert_eq!(probe.samples(), vec![250]);
}

#[test]
fn duplicate_reply_is_ignored() {
    let mut probe = ProbeLoop::new(10);
    probe.step(Event::Tick { now: 100 });
    assert!(matches!(probe.step(pong(1, 150)), Action::Report(_)));
    assert_eq!(probe.step(pong(1, 160)), Action::Unmatched { id: 1 });
    assert_eq!(probe.samples(), vec![50]);
    assert!(probe.is_running());
}

#[test]
fn reply_to_an_unknown_identifier_is_ignored() {
    let mut probe = ProbeLoop::new(10);
    probe.step(Event::Tick { now: 100 });
    assert_eq!(probe.step(pong(77, 150)), Action::Unmatched { id: 77 });
    assert_eq!(probe.pending_len(), 1);
    assert_eq!(probe.samples(), Vec::<u64>::new());
    assert!(probe.is_running());
}

#[test]
fn short_payload_is_malformed_and_ignored() {
    let mut probe = ProbeLoop::new(10);
    probe.step(Event::Tick { now: 100 });
    assert_eq!(
        probe.step(Event::Pong { payload: Vec::new(), now: 120 }),
        Action::Malformed { len: 0 }
    );
    assert_eq!(
        probe.step(Event::Pong { payload: vec![0, 0, 0, 0, 0, 0, 1], now: 130 }),
        Action::Malformed { len: 7 }
    );
    assert_eq!(probe.pending_len(), 1);
    assert_eq!(probe.samples(), Vec::<u64>::new());
    assert!(probe.is_running());
}

#[test]
fn longer_payload_is_read_by_its_first_eight_bytes() {
    let mut probe = ProbeLoop::new(10);
    probe.step(Event::Tick { now: 100 });
    let mut payload = encode_id(1);
    payload.extend_from_slice(&[1, 2, 3]);
    assert!(matches!(
        probe.step(Event::Pong { payload, now: 130 }),
        Action::Report(report) if report.id == 1 && report.rtt == 30
    ));
}

#[test]
fn other_messages_change_nothing() {
    let mut probe = ProbeLoop::new(10);
    probe.step(Event::Tick { now: 100 });
    assert_eq!(probe.step(Event::Other), Action::Nothing);
    assert_eq!(probe.pending_len(), 1);
    assert!(probe.is_running());
}

#[test]
fn round_trip_is_the_difference_and_never_negative() {
    assert_eq!(round_trip(100, 350), 250);
    assert_eq!(round_trip(100, 100), 0);
    assert_eq!(round_trip(350, 100), 0);
    assert_eq!(round_trip(0, u64::MAX), u64::MAX);
}

#[test]
fn out_of_order_replies_end_to_end() {
    let mut probe = ProbeLoop::new(1000);
    for n in 1..=5u64 {
        assert_eq!(
            probe.step(Event::Tick { now: n * SECOND }),
            Action::SendProbe { id: n, payload: encode_id(n) }
        );
    }
    assert_eq!(probe.pending_len(), 5);
    let arrivals: [(u64, u64); 5] = [
        (3, 5_100_000_000),
        (1, 5_200_000_000),
        (2, 5_300_000_000),
        (5, 5_400_000_000),
        (4, 5_500_000_000),
    ];
    let rtts: [u64; 5] = [2_100_000_000, 4_200_000_000, 3_300_000_000, 400_000_000, 1_500_000_000];
    let mut last = None;
    for (k, (id, now)) in arrivals.iter().enumerate() {
        match probe.step(pong(*id, *now)) {
            Action::Report(report) => {
                assert_eq!(report.id, *id);
                assert_eq!(report.rtt, rtts[k]);
                assert_eq!(report.samples, k + 1);
                last = Some(report);
            }
            other => panic!("unexpected action {:?}", other),
        }
    }
    assert_eq!(probe.pending_len(), 0);
    assert_eq!(probe.samples(), rtts.to_vec());
    let report = last.unwrap();
    assert_eq!(report.summary.p50, 210_000_000_000);
    assert_eq!(report.summary.p95, 402_000_000_000);
    assert_eq!(report.summary.p99, 416_400_000_000);
    assert_eq!(report.summary.p50 as f64 / 100.0 / 1e6, 2100.0);
    assert_eq!(report.summary.p95 as f64 / 100.0 / 1e6, 4020.0);
    assert_eq!(report.summary.p99 as f64 / 100.0 / 1e6, 4164.0);
    assert!(probe.is_running());
}

#[test]
fn stream_end_is_fatal_and_stops_further_ticks() {
    let mut probe = ProbeLoop::new(10);
    probe.step(Event::Tick { now: 1 });
    probe.step(Event::Tick { now: 2 });
    assert!(matches!(probe.step(pong(1, 5)), Action::Report(_)));
    assert_eq!(probe.step(Event::StreamEnd), Action::Stop(StopReason::StreamExhausted));
    assert_eq!(probe.state(), LoopState::Terminated(StopReason::StreamExhausted));
    assert!(!probe.is_running());
    assert_eq!(
        probe.step(Event::Tick { now: 3 }),
        Action::Halted(StopReason::StreamExhausted)
    );
    assert_eq!(probe.step(pong(2, 9)), Action::Halted(StopReason::StreamExhausted));
    assert_eq!(probe.step(Event::Close), Action::Halted(StopReason::StreamExhausted));
    assert_eq!(
        probe.step(Event::Sweep { now: 100, max_age: 0 }),
        Action::Halted(StopReason::StreamExhausted)
    );
    assert_eq!(probe.state(), LoopState::Terminated(StopReason::StreamExhausted));
    assert_eq!(probe.pending_len(), 1);
    assert_eq!(probe.samples(), vec![4]);
}

#[test]
fn send_failure_is_fatal() {
    let mut probe = ProbeLoop::new(10);
    assert!(matches!(probe.step(Event::Tick { now: 1 }), Action::SendProbe { id: 1, .. }));
    assert_eq!(probe.step(Event::SendFailed), Action::Stop(StopReason::SendError));
    assert_eq!(probe.state(), LoopState::Terminated(StopReason::SendError));
    assert_eq!(probe.step(Event::Tick { now: 2 }), Action::Halted(StopReason::SendError));
}

#[test]
fn remote_close_is_fatal() {
    let mut probe = ProbeLoop::new(10);
    assert_eq!(probe.step(Event::Close), Action::Stop(StopReason::RemoteClose));
    assert_eq!(probe.state(), LoopState::Terminated(StopReason::RemoteClose));
    assert_eq!(probe.step(Event::StreamEnd), Action::Halted(StopReason::RemoteClose));
}

#[test]
fn transport_error_is_fatal() {
    let mut probe = ProbeLoop::new(10);
    assert_eq!(probe.step(Event::TransportError), Action::Stop(StopReason::TransportError));
    assert_eq!(probe.state(), LoopState::Terminated(StopReason::TransportError));
    assert_eq!(probe.step(Event::Other), Action::Halted(StopReason::TransportError));
}

#[test]
fn sweep_gives_up_stale_probes_only() {
    let mut probe = ProbeLoop::new(10);
    for n in 1..=4u64 {
        probe.step(Event::Tick { now: n * SECOND });
    }
    assert!(matches!(probe.step(pong(2, 4 * SECOND + 1)), Action::Report(_)));
    match probe.step(Event::Sweep { now: 5 * SECOND, max_age: 2 * SECOND }) {
        Action::TimedOut { ids } => assert_eq!(ids, vec![1]),
        other => panic!("unexpected action {:?}", other),
    }
    assert_eq!(probe.pending_len(), 2);
    assert_eq!(probe.step(pong(1, 6 * SECOND)), Action::Unmatched { id: 1 });
    assert!(matches!(
        probe.step(pong(3, 6 * SECOND)),
        Action::Report(report) if report.rtt == 3 * SECOND
    ));
    assert_eq!(
        probe.step(Event::Sweep { now: 6 * SECOND, max_age: 2 * SECOND }),
        Action::TimedOut { ids: Vec::new() }
    );
    assert_eq!(probe.pending_len(), 1);
}

#[test]
fn window_of_the_loop_is_bounded() {
    let mut probe = ProbeLoop::new(3);
    for n in 1..=10u64 {
        probe.step(Event::Tick { now: n * 100 });
        assert!(matches!(
            probe.step(pong(n, n * 100 + n)),
            Action::Report(report) if report.samples == std::cmp::min(n as usize, 3)
        ));
    }
    assert_eq!(probe.samples(), vec![8, 9, 10]);
}
