//! The read loop's decisions: finding frame boundaries and obeying commands.
//!
//! The loop that owns the serial port and the channels drives a
//! [`LidarDriver`]. At the start of each iteration it polls the command
//! channel once and hands the outcome to [`LidarDriver::on_poll`], which says
//! whether to stop, to skip this iteration, or how many bytes to read. The
//! chunk read goes to [`LidarDriver::on_bytes`], which gives the message to
//! publish, if any, and ends the iteration. So the loop reads at most one
//! chunk, of at most 22 bytes, between two polls: a command is seen before
//! every read, also while the driver hunts for a frame start.
use vstd::prelude::*;

use crate::error::LidarDriverError;
use crate::frame::{
    header_ok, parse_packet, reports_frame, valid_frame_number, FIRST_FRAME_NUMBER, FRAME_LEN,
    LAST_FRAME_NUMBER, START_MARKER,
};
use crate::message::{LidarDriverCommand, LidarDriverMessage};

verus! {

/// Where the driver stands in finding frame boundaries.
#[derive(Debug, Clone, Copy, PartialEq, Eq, Structural)]
pub enum SyncPhase {
    /// Not synchronised: reading one byte at a time, looking for the start
    /// marker.
    Hunting,
    /// A start marker was just read; the other 21 bytes of the frame come next.
    Marker,
    /// Synchronised: every 22 bytes read are one frame.
    Synchronized,
}

/// What one non-blocking poll of the command channel gave.
#[derive(Debug, Clone, Copy, PartialEq, Eq, Structural)]
pub enum CommandPoll {
    /// A command arrived.
    Received(LidarDriverCommand),
    /// No command was waiting.
    Empty,
    /// The sending side of the channel is gone.
    Disconnected,
}

/// What the loop does in an iteration, after polling for a command.
#[derive(Debug, Clone, Copy, PartialEq, Eq, Structural)]
pub enum Control {
    /// Leave the loop and publish the final shutdown message.
    Stop,
    /// Paused: do no I/O in this iteration.
    Skip,
    /// Read exactly this many bytes and hand them to `on_bytes`.
    Read(usize),
}

/// What the loop does after handing a chunk to `on_bytes`; either way the
/// iteration is over.
#[derive(Debug)]
pub enum Step {
    /// Nothing to publish.
    Continue,
    /// Publish this message.
    Publish(Result<LidarDriverMessage, LidarDriverError>),
}

/// The decision state of the read loop.
#[derive(Debug, Clone, Copy, PartialEq, Eq, Structural)]
pub struct LidarDriver {
    /// Where the driver stands in finding frame boundaries.
    pub phase: SyncPhase,
    /// Whether reading is suspended.
    pub paused: bool,
}

/// How many bytes the driver reads next in phase `p`.
pub open spec fn bytes_wanted(p: SyncPhase) -> nat {
    match p {
        SyncPhase::Hunting => 1,
        SyncPhase::Marker => 21,
        SyncPhase::Synchronized => 22,
    }
}

/// What a chunk makes the driver publish.
pub ghost enum Emitted {
    /// A frame, handed to the decoder; what is published is its decoding.
    Frame(Seq<u8>),
    /// A resync-required error.
    Resync,
}

/// The next phase, and what is published, after chunk `bytes` is read in
/// phase `p`.
pub open spec fn feed(p: SyncPhase, bytes: Seq<u8>) -> (SyncPhase, Seq<Emitted>) {
    match p {
        SyncPhase::Hunting => if bytes[0] == START_MARKER {
            (SyncPhase::Marker, Seq::empty())
        } else {
            (SyncPhase::Hunting, Seq::empty())
        },
        SyncPhase::Marker => if valid_frame_number(bytes[0]) {
            (SyncPhase::Synchronized, seq![Emitted::Frame(seq![START_MARKER] + bytes)])
        } else {
            (SyncPhase::Hunting, Seq::empty())
        },
        SyncPhase::Synchronized => if header_ok(bytes) {
            (SyncPhase::Synchronized, seq![Emitted::Frame(bytes)])
        } else {
            (SyncPhase::Hunting, seq![Emitted::Resync])
        },
    }
}

/// Whether `r` is the step that publishes `e`, or, when `e` is empty,
/// publishes nothing.
pub open spec fn step_reports(r: Step, e: Seq<Emitted>) -> bool {
    if e.len() == 0 {
        r is Continue
    } else {
        e.len() == 1 && match (r, e[0]) {
            (Step::Publish(res), Emitted::Frame(f)) => reports_frame(res, f),
            (Step::Publish(Err(LidarDriverError::ResyncRequired)), Emitted::Resync) => true,
            _ => false,
        }
    }
}

/// What the loop does when driver `d` is not told to stop.
pub open spec fn control_of(d: LidarDriver) -> Control {
    if d.paused {
        Control::Skip
    } else {
        Control::Read(bytes_wanted(d.phase) as usize)
    }
}

/// The driver after poll outcome `poll`, and what the loop does next.
pub open spec fn poll_next(d: LidarDriver, poll: CommandPoll) -> (LidarDriver, Control) {
    match poll {
        CommandPoll::Received(LidarDriverCommand::Stop) => (d, Control::Stop),
        CommandPoll::Disconnected => (d, Control::Stop),
        CommandPoll::Received(LidarDriverCommand::Run) => {
            let e = LidarDriver { paused: false, ..d };
            (e, control_of(e))
        },
        CommandPoll::Received(LidarDriverCommand::Pause) => {
            let e = LidarDriver { paused: true, ..d };
            (e, control_of(e))
        },
        CommandPoll::Empty => (d, control_of(d)),
    }
}

/// Copies `bytes` into `frame` from offset `start` on.
fn fill_frame(frame: &mut [u8; 22], start: usize, bytes: &[u8])
    requires
        start + bytes@.len() == FRAME_LEN,
    ensures
        final(frame)@ == old(frame)@.subrange(0, start as int) + bytes@,
{
    let mut k: usize = 0;
    while k < bytes.len()
        invariant
            start + bytes@.len() == 22,
            k <= bytes@.len(),
            frame@.len() == 22,
            forall|m: int| 0 <= m < start ==> frame@[m] == old(frame)@[m],
            forall|m: int| 0 <= m < k ==> frame@[start + m] == bytes@[m],
        decreases bytes@.len() - k,
    {
        frame[start + k] = bytes[k];
        k = k + 1;
    }
    assert(frame@ =~= old(frame)@.subrange(0, start as int) + bytes@);
}

impl LidarDriver {
    /// A driver that is not synchronised, paused or running as `start_paused`
    /// says.
    pub fn new(start_paused: bool) -> (r: Self)
        ensures
            r.phase == SyncPhase::Hunting,
            r.paused == start_paused,
    {
        LidarDriver { phase: SyncPhase::Hunting, paused: start_paused }
    }

    /// Number of bytes the driver reads next.
    pub fn wanted(&self) -> (r: usize)
        ensures
            r == bytes_wanted(self.phase),
    {
        match self.phase {
            SyncPhase::Hunting => 1,
            SyncPhase::Marker => 21,
            SyncPhase::Synchronized => FRAME_LEN,
        }
    }

    /// Takes the outcome of the iteration's command poll: `Stop` or a closed
    /// channel stops the loop, `Run` and `Pause` clear and set the paused flag.
    /// A paused driver skips the iteration; a running one asks for its next
    /// chunk.
    pub fn on_poll(&mut self, poll: CommandPoll) -> (r: Control)
        ensures
            (*final(self), r) == poll_next(*old(self), poll),
    {
        match poll {
            CommandPoll::Received(LidarDriverCommand::Stop) => return Control::Stop,
            CommandPoll::Disconnected => return Control::Stop,
            CommandPoll::Received(LidarDriverCommand::Run) => self.paused = false,
            CommandPoll::Received(LidarDriverCommand::Pause) => self.paused = true,
            CommandPoll::Empty => {},
        }
        if self.paused {
            Control::Skip
        } else {
            Control::Read(self.wanted())
        }
    }

    /// Takes the chunk that the driver asked for.
    ///
    /// While hunting, a start marker makes the driver ask for the rest of the
    /// frame next. With the rest in hand, a valid frame number synchronises
    /// the driver and the frame is decoded; otherwise the hunt resumes with
    /// the next byte. While synchronised, a frame with a valid header is decoded,
    /// and any other chunk is reported as needing a resync and starts a hunt.
    pub fn on_bytes(&mut self, bytes: &[u8]) -> (r: Step)
        requires
            bytes@.len() == bytes_wanted(old(self).phase),
        ensures
            final(self).phase == feed(old(self).phase, bytes@).0,
            final(self).paused == old(self).paused,
            step_reports(r, feed(old(self).phase, bytes@).1),
    {
        match self.phase {
            SyncPhase::Hunting => {
                if bytes[0] == START_MARKER {
                    self.phase = SyncPhase::Marker;
                }
                Step::Continue
            },
            SyncPhase::Marker => {
                if bytes[0] < FIRST_FRAME_NUMBER || bytes[0] > LAST_FRAME_NUMBER {
                    self.phase = SyncPhase::Hunting;
                    return Step::Continue;
                }
                let mut frame: [u8; 22] = [0; 22];
                frame[0] = START_MARKER;
                fill_frame(&mut frame, 1, bytes);
                assert(frame@ =~= seq![START_MARKER] + bytes@);
                self.phase = SyncPhase::Synchronized;
                Step::Publish(parse_packet(&frame))
            },
            SyncPhase::Synchronized => {
                if bytes[0] != START_MARKER || bytes[1] < FIRST_FRAME_NUMBER
                    || bytes[1] > LAST_FRAME_NUMBER {
                    self.phase = SyncPhase::Hunting;
                    return Step::Publish(Err(LidarDriverError::ResyncRequired));
                }
                let mut frame: [u8; 22] = [0; 22];
                fill_frame(&mut frame, 0, bytes);
                assert(frame@ =~= bytes@);
                Step::Publish(parse_packet(&frame))
            },
        }
    }
}

/// What the driver publishes while reading stream `s` from phase `p`, chunk
/// by chunk, as long as whole chunks remain.
pub open spec fn run_stream(p: SyncPhase, s: Seq<u8>) -> Seq<Emitted>
    decreases s.len(),
{
    let n = bytes_wanted(p) as int;
    if s.len() < n {
        Seq::empty()
    } else {
        let (q, e) = feed(p, s.take(n));
        e + run_stream(q, s.skip(n))
    }
}

/// Whether `f` is a genuine frame: 22 bytes with a valid header.
pub open spec fn genuine_frame(f: Seq<u8>) -> bool {
    f.len() == FRAME_LEN && header_ok(f)
}

/// Whether every frame in `frames` is genuine.
pub open spec fn all_genuine(frames: Seq<Seq<u8>>) -> bool {
    forall|k: int| 0 <= k < frames.len() ==> #[trigger] genuine_frame(frames[k])
}

/// Whether the start marker never occurs in `s`.
pub open spec fn marker_free(s: Seq<u8>) -> bool {
    forall|k: int| 0 <= k < s.len() ==> s[k] != START_MARKER
}

/// What the driver publishes for `frames`: each handed to the decoder in turn.
pub open spec fn frames_emitted(frames: Seq<Seq<u8>>) -> Seq<Emitted> {
    frames.map_values(|f: Seq<u8>| Emitted::Frame(f))
}

/// Reading chunk `c`, then `rest`, from phase `p`.
proof fn lemma_run_chunk(p: SyncPhase, c: Seq<u8>, rest: Seq<u8>)
    requires
        c.len() == bytes_wanted(p),
    ensures
        run_stream(p, c + rest) == feed(p, c).1 + run_stream(feed(p, c).0, rest),
{
    let s = c + rest;
    assert(s.take(c.len() as int) =~= c);
    assert(s.skip(c.len() as int) =~= rest);
}

/// A synchronised driver passes every genuine frame to the decoder.
proof fn lemma_synchronized_keeps_frames(frames: Seq<Seq<u8>>)
    requires
        all_genuine(frames),
    ensures
        run_stream(SyncPhase::Synchronized, frames.flatten()) == frames_emitted(frames),
    decreases frames.len(),
{
    if frames.len() == 0 {
        assert(frames_emitted(frames) =~= Seq::empty());
        assert(run_stream(SyncPhase::Synchronized, frames.flatten()) =~= Seq::empty());
    } else {
        let f = frames[0];
        let tail = frames.drop_first();
        assert(genuine_frame(frames[0]));
        assert(all_genuine(tail)) by {
            assert forall|k: int| 0 <= k < tail.len() implies #[trigger] genuine_frame(tail[k]) by {
                assert(tail[k] == frames[k + 1]);
                assert(genuine_frame(frames[k + 1]));
            }
        }
        lemma_synchronized_keeps_frames(tail);
        assert(frames.flatten() == f + tail.flatten());
        lemma_run_chunk(SyncPhase::Synchronized, f, tail.flatten());
        assert(frames_emitted(frames) =~= seq![Emitted::Frame(f)] + frames_emitted(tail));
    }
}

/// A hunting driver skips bytes that are not the start marker.
proof fn lemma_hunt_skips(junk: Seq<u8>, rest: Seq<u8>)
    requires
        marker_free(junk),
    ensures
        run_stream(SyncPhase::Hunting, junk + rest) == run_stream(SyncPhase::Hunting, rest),
    decreases junk.len(),
{
    if junk.len() > 0 {
        let tail = junk.drop_first();
        assert(junk[0] != START_MARKER);
        assert(marker_free(tail)) by {
            assert forall|k: int| 0 <= k < tail.len() implies tail[k] != START_MARKER by {
                assert(tail[k] == junk[k + 1]);
            }
        }
        assert(junk + rest =~= seq![junk[0]] + (tail + rest));
        lemma_run_chunk(SyncPhase::Hunting, seq![junk[0]], tail + rest);
        assert(feed(SyncPhase::Hunting, seq![junk[0]]).1 =~= Seq::empty());
        lemma_hunt_skips(tail, rest);
        assert(Seq::<Emitted>::empty() + run_stream(SyncPhase::Hunting, tail + rest)
            =~= run_stream(SyncPhase::Hunting, tail + rest));
    } else {
        assert(junk + rest =~= rest);
    }
}

/// A hunting driver that meets the start of a genuine frame synchronises on
/// it and passes it and every genuine frame after it to the decoder.
proof fn lemma_hunt_finds_frames(frames: Seq<Seq<u8>>)
    requires
        frames.len() > 0,
        all_genuine(frames),
    ensures
        run_stream(SyncPhase::Hunting, frames.flatten()) == frames_emitted(frames),
{
    let f = frames[0];
    let tail = frames.drop_first();
    assert(genuine_frame(frames[0]));
    assert(all_genuine(tail)) by {
        assert forall|k: int| 0 <= k < tail.len() implies #[trigger] genuine_frame(tail[k]) by {
            assert(tail[k] == frames[k + 1]);
            assert(genuine_frame(frames[k + 1]));
        }
    }
    let marker = f.take(1);
    let body = f.skip(1);
    assert(f =~= marker + body);
    assert(frames.flatten() == f + tail.flatten());
    assert(frames.flatten() =~= marker + (body + tail.flatten()));
    lemma_run_chunk(SyncPhase::Hunting, marker, body + tail.flatten());
    lemma_run_chunk(SyncPhase::Marker, body, tail.flatten());
    assert(seq![START_MARKER] + body =~= f);
    lemma_synchronized_keeps_frames(tail);
    assert(frames_emitted(frames) =~= seq![Emitted::Frame(f)] + frames_emitted(tail));
    assert(run_stream(SyncPhase::Hunting, frames.flatten()) =~= Seq::<Emitted>::empty() + (
    seq![Emitted::Frame(f)] + frames_emitted(tail)));
}

/// Recovery after a false synchronisation: when a synchronised driver reads a
/// chunk without a valid frame header, it reports one resync. If the stream
/// then holds bytes without a start marker, and then genuine frames, the
/// driver synchronises on the first of them and passes each to the decoder,
/// with no further resync.
pub proof fn lemma_resync_recovers(chunk: Seq<u8>, junk: Seq<u8>, frames: Seq<Seq<u8>>)
    requires
        chunk.len() == FRAME_LEN,
        !header_ok(chunk),
        marker_free(junk),
        frames.len() > 0,
        all_genuine(frames),
    ensures
        run_stream(SyncPhase::Synchronized, chunk + junk + frames.flatten()) == seq![
            Emitted::Resync,
        ] + frames_emitted(frames),
{
    assert(chunk + junk + frames.flatten() =~= chunk + (junk + frames.flatten()));
    lemma_run_chunk(SyncPhase::Synchronized, chunk, junk + frames.flatten());
    lemma_hunt_skips(junk, frames.flatten());
    lemma_hunt_finds_frames(frames);
}

/// A start marker inside the data whose next byte is no valid frame number
/// costs the 22 bytes read with it: a hunting driver publishes nothing for
/// them and resumes the hunt, synchronising on the genuine frames that follow
/// any bytes without a marker.
pub proof fn lemma_false_marker_skipped(window: Seq<u8>, junk: Seq<u8>, frames: Seq<Seq<u8>>)
    requires
        window.len() == FRAME_LEN,
        window[0] == START_MARKER,
        !valid_frame_number(window[1]),
        marker_free(junk),
        frames.len() > 0,
        all_genuine(frames),
    ensures
        run_stream(SyncPhase::Hunting, window + junk + frames.flatten()) == frames_emitted(
            frames,
        ),
{
    let rest = junk + frames.flatten();
    assert(window + junk + frames.flatten() =~= window.take(1) + (window.skip(1) + rest));
    lemma_run_chunk(SyncPhase::Hunting, window.take(1), window.skip(1) + rest);
    lemma_run_chunk(SyncPhase::Marker, window.skip(1), rest);
    lemma_hunt_skips(junk, frames.flatten());
    lemma_hunt_finds_frames(frames);
    assert(Seq::<Emitted>::empty() + (Seq::<Emitted>::empty() + frames_emitted(frames))
        =~= frames_emitted(frames));
}

/// A start marker inside the data whose next byte looks like a frame number
/// makes a hunting driver synchronise falsely and decode those 22 bytes. The
/// next chunk without a valid header costs one resync, after which the driver
/// synchronises on the genuine frames that follow any bytes without a marker.
pub proof fn lemma_false_sync_recovers(
    window: Seq<u8>,
    chunk: Seq<u8>,
    junk: Seq<u8>,
    frames: Seq<Seq<u8>>,
)
    requires
        genuine_frame(window),
        chunk.len() == FRAME_LEN,
        !header_ok(chunk),
        marker_free(junk),
        frames.len() > 0,
        all_genuine(frames),
    ensures
        run_stream(SyncPhase::Hunting, window + chunk + junk + frames.flatten()) == seq![
            Emitted::Frame(window),
            Emitted::Resync,
        ] + frames_emitted(frames),
{
    let rest = chunk + junk + frames.flatten();
    assert(window + chunk + junk + frames.flatten() =~= window.take(1) + (window.skip(1) + rest));
    lemma_run_chunk(SyncPhase::Hunting, window.take(1), window.skip(1) + rest);
    lemma_run_chunk(SyncPhase::Marker, window.skip(1), rest);
    assert(seq![START_MARKER] + window.skip(1) =~= window);
    lemma_resync_recovers(chunk, junk, frames);
    assert(Seq::<Emitted>::empty() + (seq![Emitted::Frame(window)] + (seq![Emitted::Resync]
        + frames_emitted(frames))) =~= seq![Emitted::Frame(window), Emitted::Resync]
        + frames_emitted(frames));
}

/// Whether `f` is a genuine frame in which the start marker occurs only at
/// offset 0.
pub open spec fn clean_frame(f: Seq<u8>) -> bool {
    genuine_frame(f) && forall|k: int| 1 <= k < f.len() ==> f[k] != START_MARKER
}

/// Whether every frame in `frames` is clean.
pub open spec fn all_clean(frames: Seq<Seq<u8>>) -> bool {
    forall|k: int| 0 <= k < frames.len() ==> #[trigger] clean_frame(frames[k])
}

proof fn lemma_clean_tail(frames: Seq<Seq<u8>>)
    requires
        frames.len() > 0,
        all_clean(frames),
    ensures
        clean_frame(frames[0]),
        all_clean(frames.drop_first()),
        all_genuine(frames),
        frames.flatten() == frames[0] + frames.drop_first().flatten(),
{
    let tail = frames.drop_first();
    assert(clean_frame(frames[0]));
    assert forall|k: int| 0 <= k < tail.len() implies #[trigger] clean_frame(tail[k]) by {
        assert(tail[k] == frames[k + 1]);
        assert(clean_frame(frames[k + 1]));
    }
    assert forall|k: int| 0 <= k < frames.len() implies #[trigger] genuine_frame(frames[k]) by {
        assert(clean_frame(frames[k]));
    }
}

/// A hunt that starts at offset `o` of a run of clean frames, after bytes
/// without a marker, synchronises on the first frame that starts at or after
/// `o` and passes it and every later frame to the decoder.
proof fn lemma_hunt_from(u: Seq<u8>, frames: Seq<Seq<u8>>, o: int)
    requires
        marker_free(u),
        all_clean(frames),
        0 <= o <= 22 * frames.len(),
    ensures
        run_stream(SyncPhase::Hunting, u + frames.flatten().skip(o)) == frames_emitted(
            frames.skip((o + 21) / 22),
        ),
    decreases frames.len(),
{
    if frames.len() == 0 {
        assert(frames.flatten() =~= Seq::<u8>::empty());
        assert(u + frames.flatten().skip(o) =~= u + Seq::<u8>::empty());
        lemma_hunt_skips(u, Seq::<u8>::empty());
        assert(run_stream(SyncPhase::Hunting, Seq::<u8>::empty()) =~= Seq::empty());
        assert(frames_emitted(frames.skip((o + 21) / 22)) =~= Seq::empty());
    } else if o == 0 {
        lemma_clean_tail(frames);
        assert(frames.flatten().skip(0) =~= frames.flatten());
        lemma_hunt_skips(u, frames.flatten());
        lemma_hunt_finds_frames(frames);
        assert(frames.skip(0) =~= frames);
    } else {
        lemma_clean_tail(frames);
        let f = frames[0];
        let tail = frames.drop_first();
        if o < 22 {
            assert(frames.flatten().skip(o) =~= f.skip(o) + tail.flatten());
            let v = u + f.skip(o);
            assert(marker_free(v)) by {
                assert forall|k: int| 0 <= k < v.len() implies v[k] != START_MARKER by {
                    if k >= u.len() {
                        assert(v[k] == f[k - u.len() + o]);
                    }
                }
            }
            assert(u + frames.flatten().skip(o) =~= v + tail.flatten());
            lemma_hunt_skips(v, tail.flatten());
            if tail.len() > 0 {
                lemma_hunt_finds_frames(tail);
            } else {
                assert(tail.flatten() =~= Seq::<u8>::empty());
                assert(run_stream(SyncPhase::Hunting, tail.flatten()) =~= Seq::empty());
                assert(frames_emitted(tail) =~= Seq::empty());
            }
            assert(frames.skip(1) =~= tail);
        } else {
            lemma_flatten_len(tail);
            assert(f.len() == 22);
            assert(frames.flatten().skip(o) =~= tail.flatten().skip(o - 22));
            lemma_hunt_from(u, tail, o - 22);
            assert((o + 21) / 22 == (o - 22 + 21) / 22 + 1);
            assert(frames.skip((o + 21) / 22) =~= tail.skip((o - 22 + 21) / 22));
        }
    }
}

/// Whether reading `a`, a false start marker, `b`, then `frames`, from a
/// hunt, publishes at most the 22 bytes from the false marker, decoded, and
/// one resync, followed by every frame from the `m`-th on; the frames before
/// the `m`-th start less than 44 bytes after the false marker.
pub open spec fn recovers_from(a: Seq<u8>, b: Seq<u8>, frames: Seq<Seq<u8>>, m: int) -> bool {
    let t = seq![START_MARKER] + b + frames.flatten();
    let w = t.take(22);
    let out = run_stream(SyncPhase::Hunting, a + t);
    let rest = frames_emitted(frames.skip(m));
    &&& 0 <= m <= frames.len()
    &&& (m == 0 || b.len() + 1 + 22 * (m - 1) < 44)
    &&& (out == rest || out == seq![Emitted::Frame(w)] + rest || out == seq![
        Emitted::Frame(w),
        Emitted::Resync,
    ] + rest)
}

/// Recovery from a false start marker. In a stream of any bytes without a
/// marker, one false marker, any bytes without a marker, and then clean
/// frames, a hunting driver reports at most one resync. It passes every frame
/// from some frame on, in order, with no resync between them, and misses none
/// that starts 44 bytes or more after the false marker.
pub proof fn lemma_false_marker_recovers(a: Seq<u8>, b: Seq<u8>, frames: Seq<Seq<u8>>)
    requires
        marker_free(a),
        marker_free(b),
        all_clean(frames),
    ensures
        exists|m: int| #[trigger] recovers_from(a, b, frames, m),
{
    let ff = frames.flatten();
    let r = b + ff;
    let t = seq![START_MARKER] + b + ff;
    let n = frames.len() as int;
    lemma_flatten_len(frames);
    assert(t =~= seq![START_MARKER] + r);
    lemma_hunt_skips(a, t);
    let lb = b.len() as int;
    if r.len() < 21 {
        lemma_run_chunk(SyncPhase::Hunting, seq![START_MARKER], r);
        assert(run_stream(SyncPhase::Marker, r) =~= Seq::empty());
        assert(frames.skip(n) =~= Seq::<Seq<u8>>::empty());
        assert(frames_emitted(frames.skip(n)) =~= Seq::empty());
        assert(recovers_from(a, b, frames, n));
    } else {
        lemma_run_chunk(SyncPhase::Hunting, seq![START_MARKER], r);
        assert(r =~= r.take(21) + r.skip(21));
        lemma_run_chunk(SyncPhase::Marker, r.take(21), r.skip(21));
        assert(seq![START_MARKER] + r.take(21) =~= t.take(22));
        if !valid_frame_number(r[0]) {
            assert(r.take(21)[0] == r[0]);
            if lb >= 21 {
                assert(r.skip(21) =~= b.skip(21) + ff.skip(0));
                lemma_hunt_from(b.skip(21), frames, 0);
                assert(recovers_from(a, b, frames, 0));
            } else {
                assert(r.skip(21) =~= Seq::<u8>::empty() + ff.skip(21 - lb));
                lemma_hunt_from(Seq::<u8>::empty(), frames, 21 - lb);
                assert(recovers_from(a, b, frames, 1));
            }
        } else {
            assert(r.take(21)[0] == r[0]);
            let v = r.skip(21);
            if v.len() < 22 {
                assert(run_stream(SyncPhase::Synchronized, v) =~= Seq::empty());
                assert(frames.skip(n) =~= Seq::<Seq<u8>>::empty());
                assert(frames_emitted(frames.skip(n)) =~= Seq::empty());
                assert(seq![Emitted::Frame(t.take(22))] + Seq::<Emitted>::empty() =~= seq![
                    Emitted::Frame(t.take(22)),
                ] + frames_emitted(frames.skip(n)));
                assert(recovers_from(a, b, frames, n));
            } else {
                let c = v.take(22);
                assert(v =~= c + v.skip(22));
                lemma_run_chunk(SyncPhase::Synchronized, c, v.skip(22));
                if header_ok(c) {
                    assert(c[0] == v[0]);
                    assert(lb <= 21) by {
                        if lb > 21 {
                            assert(v[0] == b[21]);
                        }
                    }
                    assert(lb == 21) by {
                        if lb < 21 {
                            lemma_clean_tail(frames);
                            assert(v[0] == ff[21 - lb]);
                            assert(ff[21 - lb] == frames[0][21 - lb]);
                        }
                    }
                    assert(v =~= ff);
                    lemma_clean_tail(frames);
                    lemma_synchronized_keeps_frames(frames);
                    assert(frames.skip(0) =~= frames);
                    assert(recovers_from(a, b, frames, 0));
                } else {
                    assert(v.skip(22) =~= r.skip(43));
                    if lb >= 43 {
                        assert(r.skip(43) =~= b.skip(43) + ff.skip(0));
                        lemma_hunt_from(b.skip(43), frames, 0);
                        assert(seq![Emitted::Frame(t.take(22))] + (seq![Emitted::Resync]
                            + frames_emitted(frames.skip(0))) =~= seq![
                            Emitted::Frame(t.take(22)),
                            Emitted::Resync,
                        ] + frames_emitted(frames.skip(0)));
                        assert(recovers_from(a, b, frames, 0));
                    } else {
                        let o = 43 - lb;
                        assert(r.skip(43) =~= Seq::<u8>::empty() + ff.skip(o));
                        lemma_hunt_from(Seq::<u8>::empty(), frames, o);
                        let m = (o + 21) / 22;
                        assert(seq![Emitted::Frame(t.take(22))] + (seq![Emitted::Resync]
                            + frames_emitted(frames.skip(m))) =~= seq![
                            Emitted::Frame(t.take(22)),
                            Emitted::Resync,
                        ] + frames_emitted(frames.skip(m)));
                        assert(recovers_from(a, b, frames, m));
                    }
                }
            }
        }
    }
}

/// A run of frames of 22 bytes each is 22 bytes per frame long.
proof fn lemma_flatten_len(frames: Seq<Seq<u8>>)
    requires
        all_clean(frames),
    ensures
        frames.flatten().len() == 22 * frames.len(),
    decreases frames.len(),
{
    if frames.len() > 0 {
        lemma_clean_tail(frames);
        lemma_flatten_len(frames.drop_first());
    }
}

/// The driver after it reads chunk `bytes`.
pub open spec fn after_chunk(d: LidarDriver, bytes: Seq<u8>) -> LidarDriver {
    LidarDriver { phase: feed(d.phase, bytes).0, ..d }
}

/// The read loop, from driver `d`, when its command polls give `polls` in turn
/// and the sensor sends `s`: how many iterations it makes and how many bytes
/// it reads. It ends at the first `Stop`, when the polls run out, or when
/// the stream holds fewer bytes than a read asks for.
pub open spec fn run_loop(d: LidarDriver, polls: Seq<CommandPoll>, s: Seq<u8>) -> (nat, nat)
    decreases polls.len(),
{
    if polls.len() == 0 {
        (0, 0)
    } else {
        let (e, c) = poll_next(d, polls[0]);
        match c {
            Control::Stop => (1, 0),
            Control::Skip => {
                let (k, n) = run_loop(e, polls.drop_first(), s);
                (k + 1, n)
            },
            Control::Read(w) => if s.len() < w {
                (1, 0)
            } else {
                let (k, n) = run_loop(after_chunk(e, s.take(w as int)), polls.drop_first(), s.skip(w as int));
                (k + 1, n + w as nat)
            },
        }
    }
}

/// A `Stop` at any poll ends the loop in that iteration, whatever the driver's
/// state and whatever the sensor sends: with `Stop` as the `k`-th poll (from
/// 0), the loop makes at most `k + 1` iterations and reads at most 22 bytes in
/// each of those before the `Stop`.
pub proof fn lemma_stop_always_stops(d: LidarDriver, polls: Seq<CommandPoll>, s: Seq<u8>, k: int)
    requires
        0 <= k < polls.len(),
        polls[k] == CommandPoll::Received(LidarDriverCommand::Stop),
    ensures
        run_loop(d, polls, s).0 <= k + 1,
        run_loop(d, polls, s).1 <= 22 * k,
    decreases k,
{
    let (e, c) = poll_next(d, polls[0]);
    if k > 0 && c != Control::Stop {
        let tail = polls.drop_first();
        assert(tail[k - 1] == polls[k]);
        match c {
            Control::Read(w) => {
                if s.len() >= w {
                    lemma_stop_always_stops(
                        after_chunk(e, s.take(w as int)),
                        tail,
                        s.skip(w as int),
                        k - 1,
                    );
                }
            },
            _ => {
                lemma_stop_always_stops(e, tail, s, k - 1);
            },
        }
    }
}

/// A paused driver that gets no `Run` reads nothing.
proof fn lemma_paused_reads_nothing(d: LidarDriver, polls: Seq<CommandPoll>, s: Seq<u8>)
    requires
        d.paused,
        forall|k: int| 0 <= k < polls.len() ==> polls[k] != CommandPoll::Received(LidarDriverCommand::Run),
    ensures
        run_loop(d, polls, s).1 == 0,
    decreases polls.len(),
{
    if polls.len() > 0 {
        let tail = polls.drop_first();
        assert(polls[0] != CommandPoll::Received(LidarDriverCommand::Run));
        assert forall|k: int| 0 <= k < tail.len() implies tail[k] != CommandPoll::Received(
            LidarDriverCommand::Run,
        ) by {
            assert(tail[k] == polls[k + 1]);
        }
        let (e, c) = poll_next(d, polls[0]);
        lemma_paused_reads_nothing(e, tail, s);
    }
}

/// `Pause` followed by `Stop`, with no `Run` between them, makes the loop read
/// nothing, whatever the sensor sends, and end by the `Stop` at the latest.
pub proof fn lemma_pause_then_stop(d: LidarDriver, polls: Seq<CommandPoll>, s: Seq<u8>)
    requires
        polls.len() >= 2,
        polls[0] == CommandPoll::Received(LidarDriverCommand::Pause),
        polls.last() == CommandPoll::Received(LidarDriverCommand::Stop),
        forall|k: int| 0 <= k < polls.len() ==> polls[k] != CommandPoll::Received(LidarDriverCommand::Run),
    ensures
        run_loop(d, polls, s).1 == 0,
        run_loop(d, polls, s).0 <= polls.len(),
{
    let p = LidarDriver { paused: true, ..d };
    lemma_paused_reads_nothing(p, polls, s);
    lemma_stop_always_stops(d, polls, s, polls.len() - 1);
    assert(run_loop(d, polls, s) == run_loop(p, polls, s));
}

} // verus!
