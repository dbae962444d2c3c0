//! Generate mode: the QR presets, the cycle intervals, and the decisions of
//! the generate window (which preset and interval a configuration selects,
//! how the text is cut into chunks, which frame comes next). The window
//! itself is run by the program.
use vstd::prelude::*;
use vstd::arithmetic::div_mod::{lemma_mod_self_0, lemma_small_mod};
use vstd::string::StringSliceAdditionalSpecFns;
use crate::protocol::{Chunk, HEADER_SIZE, MAX_CHUNKS, chunk_bytes, chunk_views, encode_message, lemma_message_chunk_size, message_chunks};
use crate::qr_gen::{EcLevel, QrGenParams};
use crate::read::Config;

verus! {

/// A QR preset: version, error correction, module size and the QR byte
/// capacity at that version and level.
#[derive(Debug, Clone, Copy)]
pub struct Preset {
    pub name: &'static str,
    pub version: i16,
    pub ec_level: EcLevel,
    pub module_size_px: u32,
    pub qr_capacity: usize,
}

/// The number of presets.
pub const PRESET_COUNT: usize = 4;

/// The number of cycle intervals.
pub const INTERVAL_COUNT: usize = 5;

/// The preset parameters at `index`: version, level, module size, capacity.
pub open spec fn preset_spec(index: int) -> (i16, EcLevel, u32, usize) {
    if index == 0 {
        (20, EcLevel::Q, 3, 427)
    } else if index == 1 {
        (25, EcLevel::M, 3, 779)
    } else if index == 2 {
        (30, EcLevel::M, 2, 1043)
    } else {
        (35, EcLevel::L, 2, 1595)
    }
}

/// The display name of the preset at `index`.
pub open spec fn preset_name(index: int) -> Seq<char> {
    if index == 0 {
        "Conservative V20-Q"@
    } else if index == 1 {
        "Default V25-M"@
    } else if index == 2 {
        "Fast V30-M"@
    } else {
        "Extreme V35-L"@
    }
}

/// The data bits of a normal QR code of `version` at `level`, for the
/// versions that the presets use (the table of ISO/IEC 18004, which the
/// `qrcode` crate holds as `DATA_LENGTHS`); 0 for other versions.
pub open spec fn qr_data_bits(version: i16, level: EcLevel) -> int {
    let row: (int, int, int, int) = if version == 20 {
        (6888, 5352, 3880, 3080)
    } else if version == 25 {
        (10208, 8000, 5744, 4304)
    } else if version == 30 {
        (13880, 10984, 7880, 5960)
    } else if version == 35 {
        (18448, 14496, 10288, 7888)
    } else {
        (0, 0, 0, 0)
    };
    match level {
        EcLevel::L => row.0,
        EcLevel::M => row.1,
        EcLevel::Q => row.2,
        EcLevel::H => row.3,
    }
}

/// The most bytes that one QR code of `version` (10 or more) at `level`
/// holds in byte mode: its data bits less the 4-bit mode indicator and the
/// 16-bit length, in whole bytes.
pub open spec fn qr_byte_capacity(version: i16, level: EcLevel) -> int {
    (qr_data_bits(version, level) - 20) / 8
}

/// The letter by which a preset name gives an error correction level.
pub open spec fn level_letter(level: EcLevel) -> char {
    match level {
        EcLevel::L => 'L',
        EcLevel::M => 'M',
        EcLevel::Q => 'Q',
        EcLevel::H => 'H',
    }
}

/// Each preset is what its name says, and its chunks fit its QR code: the
/// name ends in `V`, the two digits of the version, `-` and the letter of the
/// level; the capacity leaves room for the header and is at most what a QR
/// code of that version and level holds in byte mode.
pub proof fn lemma_preset_consistent(index: int)
    requires
        0 <= index < PRESET_COUNT,
    ensures
        preset_name(index).len() >= 5,
        preset_name(index)[preset_name(index).len() - 5] == 'V',
        preset_name(index)[preset_name(index).len() - 4] as u32 == 48 + preset_spec(index).0 / 10,
        preset_name(index)[preset_name(index).len() - 3] as u32 == 48 + preset_spec(index).0 % 10,
        preset_name(index)[preset_name(index).len() - 2] == '-',
        preset_name(index)[preset_name(index).len() - 1] == level_letter(preset_spec(index).1),
        HEADER_SIZE < preset_spec(index).3,
        preset_spec(index).3 <= qr_byte_capacity(preset_spec(index).0, preset_spec(index).1),
{
    reveal_strlit("Conservative V20-Q");
    reveal_strlit("Default V25-M");
    reveal_strlit("Fast V30-M");
    reveal_strlit("Extreme V35-L");
}

/// Every chunk that `plan_chunks` cuts for a preset fits one QR code of that
/// preset's version and level: its wire bytes are at most the byte-mode
/// capacity of that code.
pub proof fn lemma_plan_chunks_fit(text: Seq<char>, index: int, k: int)
    requires
        0 <= index < PRESET_COUNT,
        0 <= k < message_chunks(text, (preset_spec(index).3 - HEADER_SIZE) as nat).len(),
    ensures
        chunk_bytes(message_chunks(text, (preset_spec(index).3 - HEADER_SIZE) as nat)[k]).len()
            <= qr_byte_capacity(preset_spec(index).0, preset_spec(index).1),
{
    lemma_preset_consistent(index);
    lemma_message_chunk_size(text, (preset_spec(index).3 - HEADER_SIZE) as nat, k);
}

/// The preset at `index`.
pub fn preset(index: usize) -> (p: Preset)
    requires
        index < PRESET_COUNT,
    ensures
        (p.version, p.ec_level, p.module_size_px, p.qr_capacity) == preset_spec(index as int),
        p.name@ == preset_name(index as int),
{
    if index == 0 {
        Preset { name: "Conservative V20-Q", version: 20, ec_level: EcLevel::Q, module_size_px: 3, qr_capacity: 427 }
    } else if index == 1 {
        Preset { name: "Default V25-M", version: 25, ec_level: EcLevel::M, module_size_px: 3, qr_capacity: 779 }
    } else if index == 2 {
        Preset { name: "Fast V30-M", version: 30, ec_level: EcLevel::M, module_size_px: 2, qr_capacity: 1043 }
    } else {
        Preset { name: "Extreme V35-L", version: 35, ec_level: EcLevel::L, module_size_px: 2, qr_capacity: 1595 }
    }
}

impl Preset {
    /// The chunk payload that fits one QR code: the capacity less the header.
    pub fn payload_size(&self) -> (n: usize)
        ensures
            n == if self.qr_capacity >= HEADER_SIZE {
                self.qr_capacity - HEADER_SIZE
            } else {
                0
            },
    {
        self.qr_capacity.saturating_sub(HEADER_SIZE)
    }

    /// The QR generation parameters of this preset.
    pub fn qr_params(&self) -> (p: QrGenParams)
        ensures
            p.version == self.version,
            p.ec_level == self.ec_level,
            p.module_size_px == self.module_size_px,
    {
        QrGenParams { version: self.version, ec_level: self.ec_level, module_size_px: self.module_size_px }
    }
}

/// The cycle intervals, in milliseconds.
pub open spec fn interval_spec(index: int) -> u64 {
    if index == 0 {
        200
    } else if index == 1 {
        300
    } else if index == 2 {
        500
    } else if index == 3 {
        800
    } else {
        1000
    }
}

/// The cycle interval at `index`.
pub fn interval_ms(index: usize) -> (ms: u64)
    requires
        index < INTERVAL_COUNT,
    ensures
        ms == interval_spec(index as int),
{
    if index == 0 {
        200
    } else if index == 1 {
        300
    } else if index == 2 {
        500
    } else if index == 3 {
        800
    } else {
        1000
    }
}

/// The distance between two intervals.
pub open spec fn interval_distance(a: u64, b: u64) -> int {
    if a >= b {
        a - b
    } else {
        b - a
    }
}

/// The interval index that a configured interval selects: the interval
/// itself when it is one of the list, else the nearest one (the first of
/// equally near ones). Distances are taken between the true values, so an
/// interval beyond `i64::MAX` milliseconds selects the longest interval (a
/// signed 64-bit difference would wrap there and pick another one).
pub fn interval_index_for(ms: u64) -> (i: usize)
    ensures
        i < INTERVAL_COUNT,
        (exists|j: int| 0 <= j < INTERVAL_COUNT && interval_spec(j) == ms) ==> interval_spec(i as int)
            == ms && forall|j: int| 0 <= j < i ==> interval_spec(j) != ms,
        forall|j: int|
            0 <= j < INTERVAL_COUNT ==> interval_distance(interval_spec(i as int), ms)
                <= interval_distance(#[trigger] interval_spec(j), ms),
        forall|j: int|
            0 <= j < i ==> interval_distance(interval_spec(i as int), ms) < interval_distance(
                #[trigger] interval_spec(j),
                ms,
            ),
{
    let mut best: usize = 0;
    let mut best_dist: u64 = if interval_ms(0) >= ms {
        interval_ms(0) - ms
    } else {
        ms - interval_ms(0)
    };
    let mut k: usize = 1;
    while k < INTERVAL_COUNT
        invariant
            1 <= k <= INTERVAL_COUNT,
            best < k,
            best_dist == interval_distance(interval_spec(best as int), ms),
            forall|j: int| 0 <= j < k ==> best_dist <= interval_distance(#[trigger] interval_spec(j), ms),
            forall|j: int|
                0 <= j < best ==> best_dist < interval_distance(#[trigger] interval_spec(j), ms),
        decreases INTERVAL_COUNT - k,
    {
        let v = interval_ms(k);
        let d = if v >= ms {
            v - ms
        } else {
            ms - v
        };
        if d < best_dist {
            best = k;
            best_dist = d;
        }
        k = k + 1;
    }
    best
}

/// The preset index that a configured index selects: the last preset for an
/// index past the end.
pub fn preset_index_for(index: usize) -> (i: usize)
    ensures
        i == if index < PRESET_COUNT {
            index
        } else {
            (PRESET_COUNT - 1) as usize
        },
{
    if index < PRESET_COUNT - 1 {
        index
    } else {
        PRESET_COUNT - 1
    }
}

/// The preset and interval indices that the generate window starts with.
pub fn initial_selection(config: &Config) -> (r: (usize, usize))
    ensures
        r.0 == if config.generate_preset_index < PRESET_COUNT {
            config.generate_preset_index
        } else {
            (PRESET_COUNT - 1) as usize
        },
        r.1 < INTERVAL_COUNT,
        forall|j: int|
            0 <= j < INTERVAL_COUNT ==> interval_distance(
                interval_spec(r.1 as int),
                config.generate_interval_ms,
            ) <= interval_distance(#[trigger] interval_spec(j), config.generate_interval_ms),
{
    (preset_index_for(config.generate_preset_index), interval_index_for(config.generate_interval_ms))
}

/// What the generate window shows for a text.
pub enum ChunkPlan {
    /// No text: no QR codes.
    Empty,
    /// The text needs more chunks than a message may have (the count is
    /// given).
    TooLong(usize),
    /// The chunks to show in turn.
    Chunks(Vec<Chunk>),
}

/// Cuts `text` into chunks for the preset at `preset_index`: the text is
/// compressed and cut as `encode_message` does, and it is too long when that
/// gives more than `MAX_CHUNKS` chunks.
pub fn plan_chunks(text: &str, preset_index: usize) -> (plan: ChunkPlan)
    requires
        preset_index < PRESET_COUNT,
        text.spec_bytes().len() * 110 <= usize::MAX,
    ensures
        match plan {
            ChunkPlan::Empty => text@.len() == 0,
            ChunkPlan::TooLong(n) => text@.len() > 0 && n == message_chunks(
                text@,
                (preset_spec(preset_index as int).3 - HEADER_SIZE) as nat,
            ).len() && n > MAX_CHUNKS,
            ChunkPlan::Chunks(cs) => text@.len() > 0 && cs@.len() <= MAX_CHUNKS && chunk_views(cs@)
                == message_chunks(text@, (preset_spec(preset_index as int).3 - HEADER_SIZE) as nat),
        },
{
    if text.is_empty() {
        return ChunkPlan::Empty;
    }
    let p = preset(preset_index);
    let payload = p.payload_size();
    let chunks = encode_message(text, payload);
    if chunks.len() > MAX_CHUNKS as usize {
        return ChunkPlan::TooLong(chunks.len());
    }
    ChunkPlan::Chunks(chunks)
}

/// The frame after `current` in a cycle of `count` frames, and the cycle
/// counter, which goes up each time the cycle wraps to the first frame.
pub fn next_frame(current: usize, count: usize, cycle_count: u64) -> (r: (usize, u64))
    requires
        count > 0,
        current < count,
        cycle_count < u64::MAX,
    ensures
        r.0 == (current + 1) % (count as int),
        r.1 == if r.0 == 0 {
            cycle_count + 1
        } else {
            cycle_count as int
        },
{
    let next = if current + 1 == count {
        proof {
            lemma_mod_self_0(count as int);
        }
        0
    } else {
        proof {
            lemma_small_mod((current + 1) as nat, count as nat);
        }
        current + 1
    };
    let cycles = if next == 0 {
        cycle_count + 1
    } else {
        cycle_count
    };
    (next, cycles)
}

} // verus!
