//! Listening to one process on Windows: the format, the packets and their samples.

use vstd::prelude::*;

use crate::level::Level;

verus! {

/// How captured bytes hold samples.
#[derive(Clone, Copy, Debug, PartialEq, Eq, Structural)]
pub struct CaptureFormat {
    pub channels: u16,
    pub sample_rate: u32,
    pub bytes_per_sample: u16,
    pub is_float: bool,
}

/// How Windows tags samples that are plain integers.
pub const WAVE_FORMAT_PCM: u16 = 1;

/// The same format as Windows is told it.
#[derive(Clone, Copy, Debug, PartialEq, Eq, Structural)]
pub struct WaveFormat {
    pub format_tag: u16,
    pub channels: u16,
    pub samples_per_second: u32,
    pub average_bytes_per_second: u32,
    pub block_align: u16,
    pub bits_per_sample: u16,
    /// How many bytes of further description follow.
    pub extra_size: u16,
}

/// The format that everything is captured in: two channels of 16-bit integers at
/// 44.1 kHz, with no further description.
pub fn hardcoded_capture_format() -> (formats: (WaveFormat, CaptureFormat))
    ensures
        formats.1 == (CaptureFormat {
            channels: 2,
            sample_rate: 44_100,
            bytes_per_sample: 2,
            is_float: false,
        }),
        formats.0 == (WaveFormat {
            format_tag: WAVE_FORMAT_PCM,
            channels: 2,
            samples_per_second: 44_100,
            average_bytes_per_second: 176_400,
            block_align: 4,
            bits_per_sample: 16,
            extra_size: 0,
        }),
        formats.0.block_align == formats.1.channels * formats.1.bytes_per_sample,
        formats.0.average_bytes_per_second == formats.1.sample_rate * formats.0.block_align,
{
    let channels: u16 = 2;
    let sample_rate: u32 = 44_100;
    let bits_per_sample: u16 = 16;
    let block_align: u16 = channels * (bits_per_sample / 8);
    (
        WaveFormat {
            format_tag: WAVE_FORMAT_PCM,
            channels,
            samples_per_second: sample_rate,
            average_bytes_per_second: sample_rate * block_align as u32,
            block_align,
            bits_per_sample,
            extra_size: 0,
        },
        CaptureFormat {
            channels,
            sample_rate,
            bytes_per_sample: bits_per_sample / 8,
            is_float: false,
        },
    )
}

/// One sample as it was captured.
#[derive(Clone, Copy, Debug, PartialEq, Eq, Structural)]
pub enum Sample {
    Float(Level),
    Int16(i16),
    Int32(i32),
    /// A sample of a width that is not understood.
    Silence,
}

/// The number that bytes hold, the lowest first.
pub open spec fn little_endian(bytes: Seq<u8>) -> nat
    decreases bytes.len(),
{
    if bytes.len() == 0 {
        0
    } else {
        bytes[0] as nat + 256 * little_endian(bytes.skip(1))
    }
}

/// The signed number with the same bits as the unsigned `n` below `modulus`.
pub open spec fn signed(n: int, modulus: int) -> int {
    if n < modulus / 2 {
        n
    } else {
        n - modulus
    }
}

/// The sample that bytes hold.
pub open spec fn sample_of(bytes: Seq<u8>, is_float: bool) -> Sample {
    if is_float && bytes.len() == 4 {
        Sample::Float(Level { bits: little_endian(bytes) as u32 })
    } else if !is_float && bytes.len() == 2 {
        Sample::Int16(signed(little_endian(bytes) as int, 0x1_0000) as i16)
    } else if !is_float && bytes.len() == 4 {
        Sample::Int32(signed(little_endian(bytes) as int, 0x1_0000_0000) as i32)
    } else {
        Sample::Silence
    }
}

/// How many channels a frame has; a format without any counts as having one.
pub open spec fn channel_count(format: CaptureFormat) -> int {
    if format.channels == 0 {
        1
    } else {
        format.channels as int
    }
}

pub open spec fn frame_bytes(format: CaptureFormat) -> int {
    format.bytes_per_sample * channel_count(format)
}

/// How many whole frames the bytes hold.
pub open spec fn frame_count(len: nat, format: CaptureFormat) -> int {
    if format.bytes_per_sample == 0 {
        0
    } else {
        len as int / frame_bytes(format)
    }
}

/// The bytes of one sample.
pub open spec fn sample_bytes(
    data: Seq<u8>,
    format: CaptureFormat,
    frame: int,
    channel: int,
) -> Seq<u8> {
    let start = frame * frame_bytes(format) + channel * format.bytes_per_sample;
    data.subrange(start, start + format.bytes_per_sample)
}

proof fn lemma_little_endian_2(bytes: Seq<u8>)
    requires
        bytes.len() == 2,
    ensures
        little_endian(bytes) == bytes[0] + 256 * bytes[1],
{
    reveal_with_fuel(little_endian, 3);
    assert(bytes.skip(1)[0] == bytes[1]);
}

proof fn lemma_little_endian_4(bytes: Seq<u8>)
    requires
        bytes.len() == 4,
    ensures
        little_endian(bytes) == bytes[0] + 256 * bytes[1] + 65_536 * bytes[2] + 16_777_216
            * bytes[3],
{
    reveal_with_fuel(little_endian, 5);
    assert(bytes.skip(1)[0] == bytes[1]);
    assert(bytes.skip(1).skip(1)[0] == bytes[2]);
    assert(bytes.skip(1).skip(1).skip(1)[0] == bytes[3]);
}

fn read_u16(data: &[u8], start: usize) -> (n: u16)
    requires
        start + 2 <= data@.len(),
    ensures
        n == little_endian(data@.subrange(start as int, start + 2)),
{
    proof {
        lemma_little_endian_2(data@.subrange(start as int, start + 2));
    }
    data[start] as u16 + 256 * (data[start + 1] as u16)
}

fn read_u32(data: &[u8], start: usize) -> (n: u32)
    requires
        start + 4 <= data@.len(),
    ensures
        n == little_endian(data@.subrange(start as int, start + 4)),
{
    proof {
        lemma_little_endian_4(data@.subrange(start as int, start + 4));
    }
    data[start] as u32 + 256 * (data[start + 1] as u32) + 65_536 * (data[start + 2] as u32)
        + 16_777_216 * (data[start + 3] as u32)
}

fn as_signed_16(n: u16) -> (i: i16)
    ensures
        i == signed(n as int, 0x1_0000),
{
    if n < 0x8000 {
        n as i16
    } else {
        (n as i32 - 0x1_0000) as i16
    }
}

fn as_signed_32(n: u32) -> (i: i32)
    ensures
        i == signed(n as int, 0x1_0000_0000),
{
    if n < 0x8000_0000 {
        n as i32
    } else {
        (n as i64 - 0x1_0000_0000) as i32
    }
}

fn read_sample(data: &[u8], start: usize, bytes_per_sample: usize, is_float: bool) -> (sample:
    Sample)
    requires
        start + bytes_per_sample <= data@.len(),
    ensures
        sample == sample_of(
            data@.subrange(start as int, start + bytes_per_sample),
            is_float,
        ),
{
    if is_float && bytes_per_sample == 4 {
        Sample::Float(Level { bits: read_u32(data, start) })
    } else if !is_float && bytes_per_sample == 2 {
        Sample::Int16(as_signed_16(read_u16(data, start)))
    } else if !is_float && bytes_per_sample == 4 {
        Sample::Int32(as_signed_32(read_u32(data, start)))
    } else {
        Sample::Silence
    }
}

/// The samples of each whole frame, channel by channel. What is left over at the end
/// is dropped.
pub fn frames_of(data: &[u8], format: CaptureFormat) -> (frames: Vec<Vec<Sample>>)
    ensures
        frames@.len() == frame_count(data@.len(), format),
        forall|f: int|
            0 <= f < frames@.len() ==> (#[trigger] frames@[f])@.len() == channel_count(format),
        forall|f: int, c: int|
            0 <= f < frames@.len() && 0 <= c < channel_count(format) ==> #[trigger] frames@[f]@[c]
                == sample_of(sample_bytes(data@, format, f, c), format.is_float),
{
    let mut frames: Vec<Vec<Sample>> = Vec::new();
    let channels: usize = if format.channels == 0 {
        1
    } else {
        format.channels as usize
    };
    let width: usize = format.bytes_per_sample as usize;
    if width == 0 {
        return frames;
    }
    proof {
        assert(width * channels <= 65_535 * 65_535) by (nonlinear_arith)
            requires
                width <= 65_535,
                channels <= 65_535,
        ;
        assert(width * channels > 0) by (nonlinear_arith)
            requires
                width > 0,
                channels > 0,
        ;
    }
    let step: usize = width * channels;
    let count: usize = data.len() / step;
    let mut f: usize = 0;
    while f < count
        invariant
            f <= count,
            count == data.len() / step,
            channels == channel_count(format),
            width == format.bytes_per_sample,
            step == width * channels,
            step == frame_bytes(format),
            step > 0,
            width > 0,
            frames@.len() == f,
            forall|g: int| 0 <= g < f ==> (#[trigger] frames@[g])@.len() == channels,
            forall|g: int, c: int|
                0 <= g < f && 0 <= c < channels ==> #[trigger] frames@[g]@[c] == sample_of(
                    sample_bytes(data@, format, g, c),
                    format.is_float,
                ),
        decreases count - f,
    {
        let mut frame: Vec<Sample> = Vec::new();
        let mut c: usize = 0;
        proof {
            let len: usize = data.len();
            assert(f * step + step <= len) by (nonlinear_arith)
                requires
                    f < count,
                    count == len / step,
                    step > 0,
            ;
        }
        let base: usize = f * step;
        while c < channels
            invariant
                c <= channels,
                base == f * step,
                base + step <= data.len(),
                channels == channel_count(format),
                width == format.bytes_per_sample,
                step == width * channels,
                step == frame_bytes(format),
                frame@.len() == c,
                forall|d: int|
                    0 <= d < c ==> #[trigger] frame@[d] == sample_of(
                        sample_bytes(data@, format, f as int, d),
                        format.is_float,
                    ),
            decreases channels - c,
        {
            proof {
                assert(c * width + width <= width * channels) by (nonlinear_arith)
                    requires
                        c < channels,
                ;
            }
            frame.push(read_sample(data, base + c * width, width, format.is_float));
            c += 1;
        }
        frames.push(frame);
        f += 1;
    }
    frames
}

/// The flag of a packet that is to be taken as silence.
pub const SILENT_FLAG: u32 = 2;

pub open spec fn has_silent_flag(flags: u32) -> bool {
    (flags / 2) % 2 == 1
}

/// What a packet is taken as.
#[derive(Clone, Copy, Debug, PartialEq, Eq, Structural)]
pub enum PacketPlan {
    /// So many frames of silence, so that time goes on.
    Silence(u32),
    /// So many bytes to take the samples from.
    Decode(u64),
}

/// What a packet is taken as, from its flags, whether it has data, and its frames.
pub open spec fn taken_as(
    flags: u32,
    has_data: bool,
    num_frames: u32,
    format: CaptureFormat,
) -> PacketPlan {
    if has_silent_flag(flags) || !has_data || num_frames == 0 {
        PacketPlan::Silence(num_frames)
    } else {
        PacketPlan::Decode((num_frames * frame_bytes(format)) as u64)
    }
}

/// What a packet is taken as, from its flags, whether it has data, and its frames.
pub fn packet_plan(
    flags: u32,
    has_data: bool,
    num_frames: u32,
    format: CaptureFormat,
) -> (plan: PacketPlan)
    ensures
        plan == taken_as(flags, has_data, num_frames, format),
        num_frames * frame_bytes(format) <= u64::MAX,
{
    let channels: u64 = if format.channels == 0 {
        1
    } else {
        format.channels as u64
    };
    let width: u64 = format.bytes_per_sample as u64;
    proof {
        assert(width * channels <= 65_535 * 65_535) by (nonlinear_arith)
            requires
                width <= 65_535,
                channels <= 65_535,
        ;
        let n = num_frames as int;
        let b = width * channels;
        assert(n * b <= 0xffff_ffff * (65_535 * 65_535)) by (nonlinear_arith)
            requires
                0 <= n <= 0xffff_ffff,
                0 <= b <= 65_535 * 65_535,
        ;
        assert((flags & 2 != 0) <==> (flags / 2) % 2 == 1) by (bit_vector);
    }
    if flags & SILENT_FLAG != 0 || !has_data || num_frames == 0 {
        PacketPlan::Silence(num_frames)
    } else {
        PacketPlan::Decode(num_frames as u64 * (width * channels))
    }
}

/// What a capture does next.
#[derive(Clone, Copy, Debug, PartialEq, Eq, Structural)]
pub enum CaptureAction {
    Stop,
    /// Wait until more sound has come in.
    Sleep,
    /// Take the next packet.
    Read,
}

/// What a capture does next, given whether it was told to stop and the size of the
/// next packet.
pub open spec fn next_action(stop: bool, packet_size: u32) -> CaptureAction {
    if stop {
        CaptureAction::Stop
    } else if packet_size == 0 {
        CaptureAction::Sleep
    } else {
        CaptureAction::Read
    }
}

/// What a capture does next, given whether it was told to stop and the size of the
/// next packet.
pub fn capture_action(stop: bool, packet_size: u32) -> (action: CaptureAction)
    ensures
        action == next_action(stop, packet_size),
{
    if stop {
        CaptureAction::Stop
    } else if packet_size == 0 {
        CaptureAction::Sleep
    } else {
        CaptureAction::Read
    }
}

/// Two bytes that are not of a float hold a signed number: its value, or that plus 65536
/// where it is negative, is the first byte plus 256 times the second one.
pub proof fn law_what_two_bytes_hold(bytes: Seq<u8>)
    requires
        bytes.len() == 2,
    ensures
        sample_of(bytes, false) matches Sample::Int16(v) && (v as int) + (if v < 0 {
            65_536int
        } else {
            0
        }) == bytes[0] + 256 * bytes[1],
        sample_of(bytes, true) is Silence,
{
    lemma_little_endian_2(bytes);
}

/// Four bytes hold the bits of a float, or a signed number, the lowest byte first.
pub proof fn law_what_four_bytes_hold(bytes: Seq<u8>)
    requires
        bytes.len() == 4,
    ensures
        ({
            let bits = bytes[0] + 256 * bytes[1] + 65_536 * bytes[2] + 16_777_216 * bytes[3];
            &&& sample_of(bytes, true) matches Sample::Float(level)
            &&& level.bits == bits
            &&& sample_of(bytes, false) matches Sample::Int32(v)
            &&& v + (if v < 0 {
                4_294_967_296int
            } else {
                0
            }) == bits
        }),
{
    lemma_little_endian_4(bytes);
}

/// Samples of any other width are taken as silence.
pub proof fn law_other_widths_are_silent(bytes: Seq<u8>, is_float: bool)
    requires
        bytes.len() != 2,
        bytes.len() != 4,
    ensures
        sample_of(bytes, is_float) is Silence,
{
}

/// All frames fit into the bytes, and one more would not. A frame has a sample for every
/// channel, and for one channel where the format has none.
pub proof fn law_every_whole_frame_counts(len: nat, format: CaptureFormat)
    requires
        format.bytes_per_sample > 0,
    ensures
        ({
            let channels: int = if format.channels == 0 {
                1
            } else {
                format.channels as int
            };
            let count = frame_count(len, format);
            &&& 0 <= count
            &&& count * (channels * format.bytes_per_sample) <= len
            &&& len < (count + 1) * (channels * format.bytes_per_sample)
        }),
{
    let channels: int = if format.channels == 0 {
        1
    } else {
        format.channels as int
    };
    let width = format.bytes_per_sample as int;
    let step = channels * width;
    let n = len as int;
    assert(width * channels == step) by (nonlinear_arith)
        requires
            step == channels * width,
    ;
    assert(step > 0) by (nonlinear_arith)
        requires
            step == channels * width,
            channels > 0,
            width > 0,
    ;
    let count = n / step;
    assert(count >= 0 && count * step <= n && n < (count + 1) * step) by (nonlinear_arith)
        requires
            count == n / step,
            step > 0,
            n >= 0,
    ;
    assert(frame_bytes(format) == step);
}

/// Samples follow each other without gaps, channel by channel and frame by frame.
pub proof fn law_samples_follow_each_other(
    data: Seq<u8>,
    format: CaptureFormat,
    frame: int,
    channel: int,
    k: int,
)
    requires
        0 <= frame < frame_count(data.len(), format),
        0 <= channel < format.channels,
        0 <= k < format.bytes_per_sample,
    ensures
        sample_bytes(data, format, frame, channel).len() == format.bytes_per_sample,
        0 <= (frame * format.channels + channel) * format.bytes_per_sample + k < data.len(),
        sample_bytes(data, format, frame, channel)[k] == data[(frame * format.channels + channel)
            * format.bytes_per_sample + k],
{
    let width = format.bytes_per_sample as int;
    let channels = format.channels as int;
    let count = frame_count(data.len(), format);
    law_every_whole_frame_counts(data.len(), format);
    let n = data.len() as int;
    assert(frame * (width * channels) + channel * width == (frame * channels + channel) * width)
        by (nonlinear_arith);
    assert((frame * channels + channel) * width + width <= n) by (nonlinear_arith)
        requires
            0 <= frame < count,
            0 <= channel < channels,
            count * (channels * width) <= n,
            width > 0,
    ;
    assert(0 <= (frame * channels + channel) * width) by (nonlinear_arith)
        requires
            0 <= frame,
            0 <= channel < channels,
            width > 0,
    ;
}

/// A packet counts as silent exactly if the bit of the value two is set in its flags.
pub proof fn law_the_silent_bit(flags: u32)
    ensures
        has_silent_flag(flags) <==> flags & 2 == 2,
{
    assert((flags & 2 == 2) <==> (flags / 2) % 2 == 1) by (bit_vector);
}

/// Every frame of a packet counts, as sound or as silence. It is taken as sound exactly if it
/// is not flagged as silent, has data, and has frames; then the bytes of all its frames are
/// taken, and no more.
pub proof fn law_what_a_packet_is_taken_as(
    flags: u32,
    has_data: bool,
    num_frames: u32,
    format: CaptureFormat,
)
    requires
        format.channels > 0,
        format.bytes_per_sample > 0,
    ensures
        match taken_as(flags, has_data, num_frames, format) {
            PacketPlan::Silence(frames) => frames == num_frames && (flags & 2 == 2 || !has_data
                || num_frames == 0),
            PacketPlan::Decode(bytes) => flags & 2 == 0 && has_data && num_frames > 0 && bytes
                == num_frames * (format.channels * format.bytes_per_sample) && frame_count(
                bytes as nat,
                format,
            ) == num_frames,
        },
{
    let channels = format.channels as int;
    let width = format.bytes_per_sample as int;
    let n = num_frames as int;
    let step = width * channels;
    law_the_silent_bit(flags);
    assert((flags & 2 == 2) || (flags & 2 == 0)) by (bit_vector);
    assert(step == channels * width && 0 < step <= 65_535 * 65_535) by (nonlinear_arith)
        requires
            step == width * channels,
            0 < width <= 65_535,
            0 < channels <= 65_535,
    ;
    assert(0 <= n * step <= 0xffff_ffff * (65_535 * 65_535)) by (nonlinear_arith)
        requires
            0 <= n <= 0xffff_ffff,
            0 < step <= 65_535 * 65_535,
    ;
    assert((n * step) / step == n) by (nonlinear_arith)
        requires
            step > 0,
    ;
}

/// A capture that was told to stop stops, whatever there is to read; otherwise it reads
/// exactly if there is something.
pub proof fn law_what_a_capture_does_next(stop: bool, packet_size: u32)
    ensures
        next_action(stop, packet_size) is Stop <==> stop,
        next_action(stop, packet_size) is Read <==> !stop && packet_size > 0,
        next_action(stop, packet_size) is Sleep <==> !stop && packet_size < 1,
{
}

} // verus!
