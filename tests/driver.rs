use neato_xv11::calc_checksum;
use neato_xv11::{
    CommandPoll, Control, LidarDriver, LidarDriverCommand, LidarDriverError, LidarDriverMessage,
    Step, SyncPhase,
};

/// A genuine frame with the given number and correct checksum.
fn genuine(number: u8) -> Vec<u8> {
    let mut f = vec![0u8; 22];
    f[0] = 0xFA;
    f[1] = number;
    for k in 2..20 {
        f[k] = (k as u8).wrapping_mul(7) & 0x3F;
    }
    let c = calc_checksum(&f[..20]) as u16;
    f[20..22].copy_from_slice(&c.to_le_bytes());
    f
}

#[derive(Debug, PartialEq)]
enum Seen {
    Packet(usize),
    Checksum(usize),
    Resync,
}

/// Runs the driver over `stream` as the read loop would, with no commands,
/// and records what it publishes.
fn run_over(driver: &mut LidarDriver, stream: &[u8]) -> Vec<Seen> {
    let mut out = Vec::new();
    let mut pos = 0;
    loop {
        let want = match driver.on_poll(CommandPoll::Empty) {
            Control::Read(n) => n,
            other => panic!("unexpected {:?}", other),
        };
        if pos + want > stream.len() {
            break;
        }
        let step = driver.on_bytes(&stream[pos..pos + want]);
        pos += want;
        match step {
            Step::Continue => {}
            Step::Publish(Ok(LidarDriverMessage::Packet(p))) => {
                out.push(Seen::Packet(p.readings[0].index / 4));
            }
            Step::Publish(Err(LidarDriverError::Checksum(i))) => out.push(Seen::Checksum(i)),
            Step::Publish(Err(LidarDriverError::ResyncRequired)) => out.push(Seen::Resync),
            Step::Publish(other) => panic!("unexpected {:?}", other),
        }
    }
    out
}

#[test]
fn new_driver_hunts_first() {
    let d = LidarDriver::new(false);
    assert_eq!(d.phase, SyncPhase::Hunting);
    assert!(!d.paused);
    assert_eq!(d.wanted(), 1);
    assert!(LidarDriver::new(true).paused);
}

#[test]
fn hunt_skips_junk_and_locks_on_frames() {
    let mut stream = vec![0x00, 0x13, 0x7F];
    stream.extend(genuine(0xA0));
    stream.extend(genuine(0xA1));
    stream.extend(genuine(0xA2));
    let mut d = LidarDriver::new(false);
    let seen = run_over(&mut d, &stream);
    assert_eq!(seen, vec![Seen::Packet(0), Seen::Packet(1), Seen::Packet(2)]);
    assert_eq!(d.phase, SyncPhase::Synchronized);
}

#[test]
fn false_marker_with_bad_number_is_skipped() {
    let mut stream = vec![0xFA, 0x10];
    stream.extend(vec![0x01; 20]);
    stream.extend(genuine(0xB0));
    stream.extend(genuine(0xB1));
    let mut d = LidarDriver::new(false);
    assert_eq!(run_over(&mut d, &stream), vec![Seen::Packet(0x10), Seen::Packet(0x11)]);
}

#[test]
fn false_sync_costs_one_resync() {
    // A marker with a plausible frame number inside the data.
    let mut stream = vec![0xFA, 0xA5];
    stream.extend(vec![0x02; 20]);
    // The next 22 bytes are misaligned: no marker where one should be.
    stream.extend(vec![0x03; 22]);
    stream.extend(vec![0x04; 5]);
    stream.extend(genuine(0xC0));
    stream.extend(genuine(0xC1));
    let mut d = LidarDriver::new(false);
    let seen = run_over(&mut d, &stream);
    assert_eq!(
        seen,
        vec![Seen::Checksum(5), Seen::Resync, Seen::Packet(0x20), Seen::Packet(0x21)]
    );
}

#[test]
fn synchronized_bad_header_requires_resync() {
    let mut d = LidarDriver { phase: SyncPhase::Synchronized, paused: false };
    let mut chunk = genuine(0xA0);
    chunk[1] = 0xFA;
    match d.on_bytes(&chunk) {
        Step::Publish(Err(e)) => assert!(matches!(e, LidarDriverError::ResyncRequired)),
        other => panic!("unexpected {:?}", other),
    }
    assert_eq!(d.phase, SyncPhase::Hunting);
    assert_eq!(d.wanted(), 1);
}

#[test]
fn marker_then_rest_asks_for_21_bytes() {
    let mut d = LidarDriver::new(false);
    assert!(matches!(d.on_bytes(&[0xFA]), Step::Continue));
    assert_eq!(d.phase, SyncPhase::Marker);
    assert_eq!(d.on_poll(CommandPoll::Empty), Control::Read(21));
}

#[test]
fn stop_is_seen_while_hunting() {
    let mut d = LidarDriver::new(false);
    for b in [0x00u8, 0x11, 0x22] {
        assert_eq!(d.on_poll(CommandPoll::Empty), Control::Read(1));
        assert!(matches!(d.on_bytes(&[b]), Step::Continue));
    }
    assert_eq!(d.on_poll(CommandPoll::Received(LidarDriverCommand::Pause)), Control::Skip);
    assert_eq!(d.on_poll(CommandPoll::Received(LidarDriverCommand::Stop)), Control::Stop);
    assert_eq!(d.phase, SyncPhase::Hunting);
}

#[test]
fn pause_then_stop_never_reads() {
    let mut d = LidarDriver::new(false);
    let polls = [
        CommandPoll::Received(LidarDriverCommand::Pause),
        CommandPoll::Empty,
        CommandPoll::Empty,
        CommandPoll::Received(LidarDriverCommand::Pause),
        CommandPoll::Received(LidarDriverCommand::Stop),
    ];
    let controls: Vec<Control> = polls.iter().map(|p| d.on_poll(*p)).collect();
    assert_eq!(
        controls,
        vec![Control::Skip, Control::Skip, Control::Skip, Control::Skip, Control::Stop]
    );
}

#[test]
fn run_resumes_reading() {
    let mut d = LidarDriver::new(true);
    assert_eq!(d.on_poll(CommandPoll::Empty), Control::Skip);
    assert_eq!(d.on_poll(CommandPoll::Received(LidarDriverCommand::Run)), Control::Read(1));
    assert!(!d.paused);
}

#[test]
fn stop_or_disconnect_stops_from_any_state() {
    for phase in [SyncPhase::Hunting, SyncPhase::Marker, SyncPhase::Synchronized] {
        for paused in [false, true] {
            let mut d = LidarDriver { phase, paused };
            assert_eq!(d.on_poll(CommandPoll::Received(LidarDriverCommand::Stop)), Control::Stop);
            assert_eq!(d.on_poll(CommandPoll::Disconnected), Control::Stop);
        }
    }
}

#[test]
fn command_labels() {
    assert_eq!(LidarDriverCommand::Pause.label(), "Pause");
    assert_eq!(LidarDriverCommand::Run.label(), "Run");
    assert_eq!(LidarDriverCommand::Stop.label(), "Stop");
}

#[test]
fn false_sync_that_lines_up_needs_no_resync() {
    let mut stream = vec![0x01, 0x02, 0xFA, 0xA7];
    stream.extend(vec![0x05; 20]);
    stream.extend(genuine(0xD0));
    stream.extend(genuine(0xD1));
    let mut d = LidarDriver::new(false);
    let seen = run_over(&mut d, &stream);
    assert_eq!(seen, vec![Seen::Checksum(7), Seen::Packet(0x30), Seen::Packet(0x31)]);
}
