//! The decisions of the scanning loop. The loop itself (timing, screen
//! capture, gray conversion, clipboard, notification) is run by the program;
//! for each captured frame it asks `expire_stale_message` whether the
//! message being collected has gone stale, and for each decoded frame it asks
//! `process_frame` what to do.
use vstd::prelude::*;
use crate::protocol::{Chunk, MessageAssembler, AssemblerView, chunk_of_bytes, feed_step, idle_state, text_of};

verus! {

/// Whether the scanner is capturing.
#[derive(Debug, Clone, Copy, PartialEq, Eq)]
pub enum ScanState {
    Idle,
    Scanning,
}

impl ScanState {
    /// The other state.
    pub open spec fn toggled_spec(self) -> ScanState {
        match self {
            ScanState::Idle => ScanState::Scanning,
            ScanState::Scanning => ScanState::Idle,
        }
    }

    /// The other state: what the start/stop button and the hotkey switch to.
    pub fn toggled(self) -> (s: ScanState)
        ensures
            s == self.toggled_spec(),
    {
        match self {
            ScanState::Idle => ScanState::Scanning,
            ScanState::Scanning => ScanState::Idle,
        }
    }
}

/// One poll of the hotkey: the scan state toggles only on the rising edge,
/// when the hotkey is down now and was not at the previous poll; the second
/// part of the result is what the next poll compares with.
pub fn hotkey_poll_step(state: ScanState, was_pressed: bool, pressed: bool) -> (r: (ScanState, bool))
    ensures
        r.0 == (if pressed && !was_pressed {
            state.toggled_spec()
        } else {
            state
        }),
        r.1 == pressed,
{
    if pressed && !was_pressed {
        (state.toggled(), pressed)
    } else {
        (state, pressed)
    }
}

/// Timing of the scanner: the capture interval, and how long a message may
/// go without a new chunk before it is dropped.
#[derive(Debug, Clone, Copy)]
pub struct ScanConfig {
    pub interval_ms: u64,
    pub timeout_secs: u64,
}

impl ScanConfig {
    pub fn new(interval_ms: u64) -> (c: Self)
        ensures
            c.interval_ms == interval_ms,
            c.timeout_secs == 30,
    {
        ScanConfig { interval_ms, timeout_secs: 30 }
    }
}

impl Default for ScanConfig {
    fn default() -> (c: Self)
        ensures
            c.interval_ms == 200,
            c.timeout_secs == 30,
    {
        ScanConfig { interval_ms: 200, timeout_secs: 30 }
    }
}

/// Counters shown by the read window.
#[derive(Debug, Clone)]
pub struct ScanStats {
    pub frames_captured: u64,
    pub frames_decoded: u64,
    pub chunks_received: u64,
    pub messages_completed: u64,
    pub last_message_time: Option<String>,
    pub current_total_chunks: u16,
    pub current_received_data_chunks: u16,
    pub current_message_active: bool,
}

impl Default for ScanStats {
    fn default() -> (s: Self)
        ensures
            s.frames_captured == 0,
            s.frames_decoded == 0,
            s.chunks_received == 0,
            s.messages_completed == 0,
            s.last_message_time is None,
            s.current_total_chunks == 0,
            s.current_received_data_chunks == 0,
            !s.current_message_active,
    {
        ScanStats {
            frames_captured: 0,
            frames_decoded: 0,
            chunks_received: 0,
            messages_completed: 0,
            last_message_time: None,
            current_total_chunks: 0,
            current_received_data_chunks: 0,
            current_message_active: false,
        }
    }
}

/// The state in which a chunk is fed: a message that has gone without a new
/// chunk for longer than the timeout is dropped first.
pub open spec fn after_timeout(s: AssemblerView, idle_ms: u64, timeout_ms: u64) -> AssemblerView {
    if s.active && idle_ms > timeout_ms {
        idle_state()
    } else {
        s
    }
}

/// Run on every captured frame, whether or not it holds a chunk: drops the
/// message being collected when no chunk has arrived for longer than
/// `timeout_ms` (`idle_ms` is the time since the last chunk). The progress
/// counters then follow the assembler; the other counters are unchanged.
pub fn expire_stale_message(
    assembler: &mut MessageAssembler,
    stats: &mut ScanStats,
    idle_ms: u64,
    timeout_ms: u64,
)
    ensures
        final(assembler)@ == after_timeout(old(assembler)@, idle_ms, timeout_ms),
        final(stats).current_message_active == final(assembler)@.active,
        final(stats).current_total_chunks == final(assembler)@.total,
        final(stats).current_received_data_chunks as nat == crate::protocol::filled_slots(
            final(assembler)@.slots,
        ),
        final(stats).frames_captured == old(stats).frames_captured,
        final(stats).frames_decoded == old(stats).frames_decoded,
        final(stats).chunks_received == old(stats).chunks_received,
        final(stats).messages_completed == old(stats).messages_completed,
        final(stats).last_message_time == old(stats).last_message_time,
{
    if assembler.is_active() && idle_ms > timeout_ms {
        assembler.reset();
    }
    stats.current_total_chunks = assembler.total_chunks();
    stats.current_received_data_chunks = assembler.filled_count();
    stats.current_message_active = assembler.is_active();
}

/// Handles one decoded QR frame: the frame is parsed as a chunk (frames that
/// are no chunk are ignored), counted, and fed to the assembler, after the
/// message being collected is dropped if no chunk arrived for longer than
/// `timeout_ms` (`idle_ms` is the time since the last chunk). The progress
/// counters follow the assembler; a completed message is counted and
/// returned, and scanning stops.
pub fn process_frame(
    assembler: &mut MessageAssembler,
    stats: &mut ScanStats,
    scan_state: &mut ScanState,
    decoded: &[u8],
    idle_ms: u64,
    timeout_ms: u64,
) -> (res: Option<String>)
    requires
        old(stats).chunks_received < u64::MAX,
        old(stats).messages_completed < u64::MAX,
    ensures
        *final(scan_state) == if res is Some {
            ScanState::Idle
        } else {
            *old(scan_state)
        },
        match chunk_of_bytes(decoded@) {
            None => {
                &&& res is None
                &&& final(assembler)@ == old(assembler)@
                &&& *final(stats) == *old(stats)
            },
            Some(c) => {
                let s = after_timeout(old(assembler)@, idle_ms, timeout_ms);
                &&& final(assembler)@ == feed_step(s, c).0
                &&& text_of(res) == feed_step(s, c).1
                &&& final(stats).chunks_received == old(stats).chunks_received + 1
                &&& final(stats).messages_completed == old(stats).messages_completed + if res is Some {
                    1int
                } else {
                    0int
                }
                &&& final(stats).frames_captured == old(stats).frames_captured
                &&& final(stats).frames_decoded == old(stats).frames_decoded
                &&& final(stats).last_message_time == old(stats).last_message_time
                &&& final(stats).current_total_chunks == final(assembler)@.total
                &&& final(stats).current_received_data_chunks as nat == crate::protocol::filled_slots(
                    final(assembler)@.slots,
                )
                &&& final(stats).current_message_active == final(assembler)@.active
            },
        },
{
    let chunk = match Chunk::decode(decoded) {
        Some(c) => c,
        None => {
            return None;
        },
    };
    stats.chunks_received = stats.chunks_received + 1;
    if assembler.is_active() && idle_ms > timeout_ms {
        assembler.reset();
    }
    let message = assembler.feed(&chunk);
    stats.current_total_chunks = assembler.total_chunks();
    stats.current_received_data_chunks = assembler.filled_count();
    stats.current_message_active = assembler.is_active();
    if message.is_some() {
        stats.messages_completed = stats.messages_completed + 1;
        *scan_state = ScanState::Idle;
    }
    message
}

} // verus!
