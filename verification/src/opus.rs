//! Ogg Opus streams: headers, frames and granule positions.
//!
//! Turning samples into packets is done elsewhere. A stream says which samples
//! come next and is given the packet that they became.

use crate::text::{decimal, decimal_text};
use ogg::writing::{PacketWriteEndInfo, PacketWriter};
use vstd::prelude::*;
use vstd::string::StringExecFns;

verus! {

/// The one sample rate of a stream.
pub const SAMPLE_RATE: u32 = 48000;

/// The samples of a frame, for each channel: twenty milliseconds.
pub const FRAME_SIZE: u64 = 960;

/// The samples that a decoder drops at the start. As many must be put in behind
/// the end, such that nothing of the sound is lost.
pub const PRE_SKIP: u64 = 312;

/// The most bytes that a packet has.
pub const MAX_PACKET: usize = 4000;

/// The bit rate that is offered first, in kilobits per second.
pub const DEFAULT_BITRATE_KBPS: u32 = 96;

/// The number of the one stream in the file.
pub const SERIAL: u32 = 0x5350_494b;

/// The bit rates that are offered, in kilobits per second.
pub fn bitrates_kbps() -> (rates: Vec<u32>)
    ensures
        rates@ == seq![48u32, 96, 128, 192],
{
    let rates: Vec<u32> = vec![48, 96, 128, 192];
    assert(rates@ =~= seq![48u32, 96, 128, 192]);
    rates
}

/// What ends with a packet.
#[derive(Clone, Copy, PartialEq, Eq, Structural, Debug)]
pub enum PacketEnd {
    /// Nothing.
    Nothing,
    /// The page.
    Page,
    /// The stream.
    Stream,
}

/// A packet of a stream.
#[verifier::ext_equal]
pub struct PacketView {
    pub bytes: Seq<u8>,
    pub serial: u32,
    pub end: PacketEnd,
    /// How many samples can be decoded up to its end.
    pub granule: u64,
}

/// A [`PacketWriter`] that writes into a vector.
#[verifier::external_body]
pub struct OggWriter {
    inner: PacketWriter<'static, Vec<u8>>,
}

/// The packets that were given to a writer.
pub uninterp spec fn given_packets(writer: OggWriter) -> Seq<PacketView>;

/// The bytes of a file with packets.
pub uninterp spec fn ogg_bytes(packets: Seq<PacketView>) -> Seq<u8>;

/// A writer into a vector: calls [`PacketWriter::new`].
///
/// Claimed of it: no packet has been given to it yet.
#[verifier::external_body]
fn new_writer() -> (writer: OggWriter)
    ensures
        given_packets(writer) == Seq::<PacketView>::empty(),
{
    OggWriter { inner: PacketWriter::new(Vec::new()) }
}

/// Gives a packet to a writer: calls [`PacketWriter::write_packet`].
///
/// Claimed of it: the packet is behind those that were given before. It fails
/// only where what it writes to fails, and a vector does not. The limits keep
/// the writer's count of pages within its type.
#[verifier::external_body]
fn give_packet(
    writer: &mut OggWriter,
    bytes: Vec<u8>,
    serial: u32,
    end: PacketEnd,
    granule: u64,
) -> (result: Result<(), String>)
    requires
        bytes@.len() <= 60000,
        given_packets(*old(writer)).len() < 0x7fff_ffff,
    ensures
        result is Ok,
        given_packets(*final(writer)) == given_packets(*old(writer)).push(
            (PacketView { bytes: bytes@, serial, end, granule }),
        ),
{
    let info = match end {
        PacketEnd::Nothing => PacketWriteEndInfo::NormalPacket,
        PacketEnd::Page => PacketWriteEndInfo::EndPage,
        PacketEnd::Stream => PacketWriteEndInfo::EndStream,
    };
    writer.inner.write_packet(bytes, serial, info, granule).map_err(|e| e.to_string())
}

/// The file that a writer has written: calls [`PacketWriter::into_inner`].
///
/// Claimed of it: the bytes depend on the packets alone, and on nothing else
/// that the writer was given.
#[verifier::external_body]
fn written_file(writer: OggWriter) -> (bytes: Vec<u8>)
    ensures
        bytes@ == ogg_bytes(given_packets(writer)),
{
    writer.inner.into_inner()
}

/// A number as `count` bytes, the lowest first.
pub open spec fn low_bytes(number: int, count: nat) -> Seq<u8>
    decreases count,
{
    if count == 0 {
        Seq::empty()
    } else {
        seq![(number % 256) as u8] + low_bytes(number / 256, (count - 1) as nat)
    }
}

/// The letters of the packet that a stream starts with.
pub open spec fn head_mark() -> Seq<u8> {
    seq![79u8, 112, 117, 115, 72, 101, 97, 100]
}

/// The letters of the packet with comments.
pub open spec fn tags_mark() -> Seq<u8> {
    seq![79u8, 112, 117, 115, 84, 97, 103, 115]
}

/// The name of the program that wrote the stream.
pub open spec fn vendor() -> Seq<u8> {
    seq![99u8, 108, 97, 112, 45, 104, 111, 115, 116, 45, 116, 101, 115, 116]
}

/// The packet that a stream starts with: the mark, version 1, the channels, the
/// samples to drop, the rate, no gain, and the mapping for one or two channels.
pub open spec fn head_packet(channels: u8) -> Seq<u8> {
    head_mark() + seq![1u8, channels] + low_bytes(PRE_SKIP as int, 2) + low_bytes(
        SAMPLE_RATE as int,
        4,
    ) + low_bytes(0, 2) + seq![0u8]
}

/// The packet with comments: the mark, the program, and no comments.
pub open spec fn tags_packet() -> Seq<u8> {
    tags_mark() + low_bytes(vendor().len() as int, 4) + vendor() + low_bytes(0, 4)
}

/// Puts a number at the end, the lowest byte first.
fn push_low_bytes(bytes: &mut Vec<u8>, number: u32, count: usize)
    ensures
        final(bytes)@ == old(bytes)@ + low_bytes(number as int, count as nat),
{
    let ghost before = bytes@;
    let mut rest: u32 = number;
    let mut left: usize = count;
    assert(before + low_bytes(number as int, count as nat) =~= bytes@ + low_bytes(
        rest as int,
        left as nat,
    ));
    while left > 0
        invariant
            before + low_bytes(number as int, count as nat) == bytes@ + low_bytes(
                rest as int,
                left as nat,
            ),
        decreases left,
    {
        let ghost now = bytes@;
        let low: u8 = (rest % 256) as u8;
        bytes.push(low);
        assert(now + (seq![low] + low_bytes(rest as int / 256, (left - 1) as nat)) =~= bytes@
            + low_bytes(rest as int / 256, (left - 1) as nat));
        rest = rest / 256;
        left -= 1;
    }
    assert(bytes@ + low_bytes(rest as int, 0) =~= bytes@);
}

/// The packet that a stream starts with.
pub fn opus_head(channels: u8) -> (head: Vec<u8>)
    ensures
        head@ == head_packet(channels),
{
    let mut head: Vec<u8> = vec![79, 112, 117, 115, 72, 101, 97, 100];
    assert(head@ =~= head_mark());
    head.push(1);
    head.push(channels);
    assert(head@ =~= head_mark() + seq![1u8, channels]);
    push_low_bytes(&mut head, PRE_SKIP as u32, 2);
    push_low_bytes(&mut head, SAMPLE_RATE, 4);
    push_low_bytes(&mut head, 0, 2);
    head.push(0);
    assert(head@ =~= head_packet(channels));
    head
}

/// The packet with comments.
pub fn opus_tags() -> (tags: Vec<u8>)
    ensures
        tags@ == tags_packet(),
{
    let mut tags: Vec<u8> = vec![79, 112, 117, 115, 84, 97, 103, 115];
    assert(tags@ =~= tags_mark());
    let mut name: Vec<u8> = vec![
        99, 108, 97, 112, 45, 104, 111, 115, 116, 45, 116, 101, 115, 116,
    ];
    assert(name@ =~= vendor());
    push_low_bytes(&mut tags, 14, 4);
    tags.append(&mut name);
    push_low_bytes(&mut tags, 0, 4);
    tags
}

/// Why a sound cannot be written, if it cannot.
pub open spec fn refusal(samples: int, channels: u16, sample_rate: u32) -> Option<Seq<char>> {
    if sample_rate != SAMPLE_RATE {
        Some(
            "Opus は "@ + decimal(SAMPLE_RATE as nat) + "Hz でのみ書き出せます (渡されたのは "@
                + decimal(sample_rate as nat) + "Hz)"@,
        )
    } else if channels != 1 && channels != 2 {
        Some(
            "Opus で書き出せるのはモノラルかステレオだけです ("@ + decimal(channels as nat)
                + "ch)"@,
        )
    } else if samples == 0 {
        Some("書き出す音がありません"@)
    } else {
        None
    }
}

/// Up to which sample a stream of `frames` samples goes: as many more as a
/// decoder drops.
pub open spec fn target_of(frames: int) -> int {
    frames + PRE_SKIP
}

/// The packet that becomes of the frame at position `index`: the last one ends
/// the stream, and what was put in behind the sound is cut off.
pub open spec fn frame_packet(bytes: Seq<u8>, index: int, frames: int) -> PacketView {
    let fed = (index + 1) * FRAME_SIZE;
    PacketView {
        bytes,
        serial: SERIAL,
        end: if fed >= target_of(frames) {
            PacketEnd::Stream
        } else {
            PacketEnd::Nothing
        },
        granule: (if fed < target_of(frames) {
            fed
        } else {
            target_of(frames)
        }) as u64,
    }
}

/// The packets of a stream: the two headers, each on its own page, and the
/// frames.
pub open spec fn stream_packets(channels: u8, frames: int, packets: Seq<Seq<u8>>) -> Seq<
    PacketView,
> {
    seq![
        PacketView {
            bytes: head_packet(channels),
            serial: SERIAL,
            end: PacketEnd::Page,
            granule: 0,
        },
        PacketView { bytes: tags_packet(), serial: SERIAL, end: PacketEnd::Page, granule: 0 },
    ] + Seq::new(packets.len(), |i: int| frame_packet(packets[i], i, frames))
}

/// A stream that is being written.
pub struct OpusStream {
    writer: OggWriter,
    samples: usize,
    channels: u8,
    frames: u64,
    fed: u64,
    given: Ghost<Seq<Seq<u8>>>,
}

/// What an [`OpusStream`] is about.
#[verifier::ext_equal]
pub struct StreamView {
    /// How many samples the sound has, over all channels.
    pub samples: int,
    pub channels: int,
    /// The packets that were given.
    pub packets: Seq<Seq<u8>>,
}

impl StreamView {
    /// How many samples the sound has, for each channel.
    pub open spec fn frames(self) -> int {
        self.samples / self.channels
    }

    /// How many samples have been turned into packets, for each channel.
    pub open spec fn fed(self) -> int {
        self.packets.len() * FRAME_SIZE
    }

    /// Whether all of the sound has been turned into packets.
    pub open spec fn is_complete(self) -> bool {
        self.fed() >= target_of(self.frames())
    }

    /// Whether every packet was needed: without the last one, the sound would not
    /// be complete.
    pub open spec fn has_no_surplus(self) -> bool {
        self.packets.len() > 0 ==> (self.packets.len() - 1) * FRAME_SIZE < target_of(self.frames())
    }

    /// The samples of the next frame, from the first one to behind the last one.
    /// Behind the sound there are none.
    pub open spec fn next_samples(self) -> (int, int) {
        let start = self.fed() * self.channels;
        let end = start + FRAME_SIZE * self.channels;
        (
            if start < self.samples {
                start
            } else {
                self.samples
            },
            if end < self.samples {
                end
            } else {
                self.samples
            },
        )
    }
}

impl View for OpusStream {
    type V = StreamView;

    closed spec fn view(&self) -> StreamView {
        StreamView {
            samples: self.samples as int,
            channels: self.channels as int,
            packets: self.given@,
        }
    }
}

impl OpusStream {
    /// Whether what the stream counts is what it was given.
    pub closed spec fn is_valid(self) -> bool {
        &&& 1 <= self.channels <= 2
        &&& self.samples > 0
        &&& self.samples <= 0x100_0000_0000
        &&& self.frames == self@.frames()
        &&& self.fed == self@.fed()
        &&& self@.has_no_surplus()
        &&& given_packets(self.writer) == stream_packets(
            self.channels,
            self.frames as int,
            self.given@,
        )
    }

    /// Begins a stream for a sound, or says why it cannot be written.
    pub fn begin(samples: usize, channels: u16, sample_rate: u32) -> (result: Result<
        OpusStream,
        String,
    >)
        requires
            samples <= 0x100_0000_0000,
        ensures
            match refusal(samples as int, channels, sample_rate) {
                Some(why) => result matches Err(message) && message@ == why,
                None => result matches Ok(stream) && stream.is_valid() && stream@ == (StreamView {
                    samples: samples as int,
                    channels: channels as int,
                    packets: Seq::empty(),
                }),
            },
    {
        if sample_rate != SAMPLE_RATE {
            let mut message = String::from_str("Opus は ");
            message.append(decimal_text(SAMPLE_RATE as u64).as_str());
            message.append("Hz でのみ書き出せます (渡されたのは ");
            message.append(decimal_text(sample_rate as u64).as_str());
            message.append("Hz)");
            return Err(message);
        }
        if channels != 1 && channels != 2 {
            let mut message = String::from_str("Opus で書き出せるのはモノラルかステレオだけです (");
            message.append(decimal_text(channels as u64).as_str());
            message.append("ch)");
            return Err(message);
        }
        if samples == 0 {
            return Err(String::from_str("書き出す音がありません"));
        }
        let mut writer = new_writer();
        proof {
            lemma_header_sizes(channels as u8);
        }
        match give_packet(&mut writer, opus_head(channels as u8), SERIAL, PacketEnd::Page, 0) {
            Ok(()) => {},
            Err(message) => {
                return Err(message);
            },
        }
        match give_packet(&mut writer, opus_tags(), SERIAL, PacketEnd::Page, 0) {
            Ok(()) => {},
            Err(message) => {
                return Err(message);
            },
        }
        let frames: u64 = samples as u64 / channels as u64;
        let stream = OpusStream {
            writer,
            samples,
            channels: channels as u8,
            frames,
            fed: 0,
            given: Ghost(Seq::empty()),
        };
        proof {
            assert(given_packets(writer) =~= stream_packets(
                channels as u8,
                frames as int,
                Seq::empty(),
            ));
            assert(stream@.packets =~= Seq::empty());
        }
        Ok(stream)
    }
}

impl OpusStream {
    /// The samples of the next frame; `None` where all of the sound has been
    /// turned into packets. A frame that is too short is filled up with silence.
    pub fn next_frame(&self) -> (samples: Option<(usize, usize)>)
        requires
            self.is_valid(),
        ensures
            match samples {
                Some((start, end)) => !self@.is_complete() && (start as int, end as int)
                    == self@.next_samples(),
                None => self@.is_complete(),
            },
    {
        proof {
            let (frames, samples, channels) = (self@.frames(), self@.samples, self@.channels);
            assert(frames <= samples) by (nonlinear_arith)
                requires
                    frames == samples / channels,
                    samples >= 0,
                    channels >= 1,
            ;
        }
        if self.fed >= self.frames + PRE_SKIP {
            return None;
        }
        let channels: u64 = self.channels as u64;
        proof {
            let fed = self.fed;
            assert(0 <= fed * channels <= 0x400_0000_0000) by (nonlinear_arith)
                requires
                    0 <= fed <= 0x100_0000_0138,
                    1 <= channels <= 2,
            ;
        }
        let start: u64 = self.fed * channels;
        let end: u64 = start + FRAME_SIZE * channels;
        let from: usize = if start < self.samples as u64 {
            start as usize
        } else {
            self.samples
        };
        let to: usize = if end < self.samples as u64 {
            end as usize
        } else {
            self.samples
        };
        Some((from, to))
    }

    /// Takes the packet that the next frame became.
    pub fn push_packet(&mut self, packet: Vec<u8>) -> (result: Result<(), String>)
        requires
            old(self).is_valid(),
            !old(self)@.is_complete(),
            packet@.len() <= MAX_PACKET,
        ensures
            result is Ok,
            final(self).is_valid(),
            final(self)@ == (StreamView {
                packets: old(self)@.packets.push(packet@),
                ..old(self)@
            }),
    {
        let ghost before = self@;
        let ghost count = self@.packets.len() as int;
        let ghost given = given_packets(self.writer);
        proof {
            let (frames, samples, channels) = (self@.frames(), self@.samples, self@.channels);
            assert(frames <= samples) by (nonlinear_arith)
                requires
                    frames == samples / channels,
                    samples >= 0,
                    channels >= 1,
            ;
            assert(given.len() == count + 2);
        }
        let target: u64 = self.frames + PRE_SKIP;
        let fed: u64 = self.fed + FRAME_SIZE;
        let last: bool = fed >= target;
        let granule: u64 = if last {
            target
        } else {
            fed
        };
        let end = if last {
            PacketEnd::Stream
        } else {
            PacketEnd::Nothing
        };
        let ghost bytes = packet@;
        assert((count + 1) * FRAME_SIZE == fed);
        match give_packet(&mut self.writer, packet, SERIAL, end, granule) {
            Ok(()) => {},
            Err(why) => {
                let mut message = String::from_str("Opus のパケットを書けません: ");
                message.append(why.as_str());
                return Err(message);
            },
        }
        self.fed = fed;
        proof {
            self.given@ = self.given@.push(bytes);
            let packets = before.packets.push(bytes);
            assert(given_packets(self.writer) =~= stream_packets(
                self.channels,
                self.frames as int,
                packets,
            ));
        }
        Ok(())
    }

    /// The bytes of the file.
    pub fn finish(self) -> (bytes: Vec<u8>)
        requires
            self.is_valid(),
        ensures
            bytes@ == ogg_bytes(
                stream_packets(self@.channels as u8, self@.frames(), self@.packets),
            ),
            self@.has_no_surplus(),
    {
        written_file(self.writer)
    }
}

/// The bits per second of a rate in kilobits. A rate that no encoder has wraps
/// around to a negative number.
pub fn bits_per_second(kbps: u32) -> (bps: i32)
    requires
        kbps * 1000 <= u32::MAX,
    ensures
        kbps * 1000 <= i32::MAX ==> bps == kbps * 1000,
        kbps * 1000 > i32::MAX ==> bps == kbps * 1000 - 0x1_0000_0000,
{
    let bits: u32 = kbps * 1000;
    proof {
        assert(bits > 0x7fff_ffff ==> bits as i32 == bits - 0x1_0000_0000) by (bit_vector);
        assert(bits <= 0x7fff_ffff ==> bits as i32 == bits) by (bit_vector);
    }
    #[verifier::truncate]
    (bits as i32)
}

/// A complete stream ends with its last packet and not before, at exactly as many
/// samples as the sound has and a decoder drops.
pub proof fn a_complete_stream_ends_once(channels: u8, frames: int, packets: Seq<Seq<u8>>)
    requires
        0 <= frames <= 0x1000_0000_0000,
        packets.len() > 0,
        (packets.len() - 1) * FRAME_SIZE < target_of(frames) <= packets.len() * FRAME_SIZE,
    ensures
        ({
            let all = stream_packets(channels, frames, packets);
            &&& all.last().end == PacketEnd::Stream
            &&& all.last().granule == frames + PRE_SKIP
            &&& forall|i: int|
                0 <= i < all.len() - 1 ==> (#[trigger] all[i]).end != PacketEnd::Stream
        }),
{
    let all = stream_packets(channels, frames, packets);
    assert(all.last() == frame_packet(packets.last(), packets.len() - 1, frames));
    assert forall|i: int| 0 <= i < all.len() - 1 implies (#[trigger] all[i]).end
        != PacketEnd::Stream by {
        if i >= 2 {
            assert(all[i] == frame_packet(packets[i - 2], i - 2, frames));
        }
    }
}

/// A stream that has all of the sound has exactly as many packets as it needs, and
/// ends once, with the last of them.
pub proof fn a_finished_stream_ends_once(stream: OpusStream)
    requires
        stream.is_valid(),
        stream@.is_complete(),
    ensures
        ({
            let frames = stream@.frames();
            let count = stream@.packets.len();
            let all = stream_packets(stream@.channels as u8, frames, stream@.packets);
            &&& (count - 1) * FRAME_SIZE < target_of(frames) <= count * FRAME_SIZE
            &&& all.last().end == PacketEnd::Stream
            &&& all.last().granule == frames + PRE_SKIP
            &&& forall|i: int|
                0 <= i < all.len() - 1 ==> (#[trigger] all[i]).end != PacketEnd::Stream
        }),
{
    let (frames, samples, channels) = (
        stream@.frames(),
        stream@.samples,
        stream@.channels,
    );
    assert(0 <= frames <= samples) by (nonlinear_arith)
        requires
            frames == samples / channels,
            samples >= 0,
            channels >= 1,
    ;
    a_complete_stream_ends_once(stream@.channels as u8, frames, stream@.packets);
}

/// The granule positions of a stream never go back.
pub proof fn granules_ascend(channels: u8, frames: int, packets: Seq<Seq<u8>>, i: int, j: int)
    requires
        0 <= frames <= 0x1000_0000_0000,
        packets.len() <= 0x7fff_ffff,
        0 <= i <= j < packets.len() + 2,
    ensures
        stream_packets(channels, frames, packets)[i].granule <= stream_packets(
            channels,
            frames,
            packets,
        )[j].granule,
{
    let all = stream_packets(channels, frames, packets);
    if i >= 2 {
        assert(all[i] == frame_packet(packets[i - 2], i - 2, frames));
    }
    if j >= 2 {
        assert(all[j] == frame_packet(packets[j - 2], j - 2, frames));
    }
}

/// Every sample of the sound is in exactly one frame: the frames follow each
/// other, and the last one goes to the end.
pub proof fn frames_cover_the_sound(stream: StreamView, packet: Seq<u8>)
    requires
        1 <= stream.channels <= 2,
        stream.samples >= 0,
    ensures
        ({
            let next = StreamView { packets: stream.packets.push(packet), ..stream };
            &&& stream.packets.len() == 0 ==> stream.next_samples().0 == 0
            &&& next.next_samples().0 == stream.next_samples().1
            &&& stream.is_complete() && stream.samples % stream.channels == 0
                ==> stream.next_samples().0 == stream.samples
        }),
{
    let next = StreamView { packets: stream.packets.push(packet), ..stream };
    let channels = stream.channels;
    let fed = stream.fed();
    assert(next.fed() == fed + FRAME_SIZE);
    assert((fed + FRAME_SIZE) * channels == fed * channels + FRAME_SIZE * channels)
        by (nonlinear_arith);
    if stream.is_complete() && stream.samples % channels == 0 {
        let frames = stream.frames();
        assert(fed * channels >= stream.samples) by (nonlinear_arith)
            requires
                fed >= frames,
                channels >= 1,
                frames == stream.samples / channels,
                stream.samples % channels == 0,
                stream.samples >= 0,
        ;
    }
}

proof fn lemma_header_sizes(channels: u8)
    ensures
        head_packet(channels).len() == 19,
        tags_packet().len() == 30,
{
    reveal_with_fuel(low_bytes, 5);
}

/// A number is written with its lowest byte first: the bytes, each times 256 more
/// often than the one before, make it up.
pub proof fn low_bytes_make_up_the_number(number: int)
    ensures
        low_bytes(number, 2).len() == 2,
        low_bytes(number, 4).len() == 4,
        0 <= number < 0x1_0000 ==> number == low_bytes(number, 2)[0] + 256 * low_bytes(number, 2)[1],
        0 <= number < 0x1_0000_0000 ==> number == low_bytes(number, 4)[0] + 256 * low_bytes(
            number,
            4,
        )[1] + 0x1_0000 * low_bytes(number, 4)[2] + 0x100_0000 * low_bytes(number, 4)[3],
{
    reveal_with_fuel(low_bytes, 5);
    let rest = number / 256;
    assert(low_bytes(number, 2)[0] == (number % 256) as u8);
    assert(low_bytes(number, 2)[1] == (rest % 256) as u8);
    assert(low_bytes(number, 4)[0] == (number % 256) as u8);
    assert(low_bytes(number, 4)[1] == (rest % 256) as u8);
    assert(low_bytes(number, 4)[2] == (rest / 256 % 256) as u8);
    assert(low_bytes(number, 4)[3] == (rest / 256 / 256 % 256) as u8);
}

/// The packet that a stream starts with says what the stream is: its mark, version
/// 1, how many channels, that 312 samples are dropped, and the rate of 48000.
pub proof fn the_head_says_what_the_stream_is(channels: u8)
    ensures
        ({
            let head = head_packet(channels);
            &&& head.len() == 19
            &&& head.take(8) == seq![79u8, 112, 117, 115, 72, 101, 97, 100]
            &&& head[8] == 1
            &&& head[9] == channels
            &&& head[10] + 256 * head[11] == 312
            &&& head[12] + 256 * head[13] + 0x1_0000 * head[14] + 0x100_0000 * head[15] == 48000
            &&& head[16] == 0 && head[17] == 0
            &&& head[18] == 0
        }),
{
    let head = head_packet(channels);
    low_bytes_make_up_the_number(312);
    low_bytes_make_up_the_number(48000);
    low_bytes_make_up_the_number(0);
    assert(head.take(8) =~= head_mark());
    assert(head[10] == low_bytes(312, 2)[0] && head[11] == low_bytes(312, 2)[1]);
    assert(head[12] == low_bytes(48000, 4)[0] && head[13] == low_bytes(48000, 4)[1]);
    assert(head[14] == low_bytes(48000, 4)[2] && head[15] == low_bytes(48000, 4)[3]);
    assert(head[16] == low_bytes(0, 2)[0] && head[17] == low_bytes(0, 2)[1]);
}

/// The packet with comments has the name of the program behind its length, and no
/// comments.
pub proof fn the_tags_name_the_program()
    ensures
        ({
            let tags = tags_packet();
            let count = vendor().len() as int;
            &&& tags.take(8) == seq![79u8, 112, 117, 115, 84, 97, 103, 115]
            &&& tags[8] + 256 * tags[9] + 0x1_0000 * tags[10] + 0x100_0000 * tags[11] == count
            &&& tags.subrange(12, 12 + count) == vendor()
            &&& tags.len() == 12 + count + 4
            &&& tags[12 + count] == 0 && tags[13 + count] == 0 && tags[14 + count] == 0
                && tags[15 + count] == 0
        }),
{
    let tags = tags_packet();
    let count = vendor().len() as int;
    low_bytes_make_up_the_number(count);
    low_bytes_make_up_the_number(0);
    assert(tags.take(8) =~= tags_mark());
    assert(tags[8] == low_bytes(count, 4)[0] && tags[9] == low_bytes(count, 4)[1]);
    assert(tags[10] == low_bytes(count, 4)[2] && tags[11] == low_bytes(count, 4)[3]);
    assert(tags.subrange(12, 12 + count) =~= vendor());
    assert(tags[12 + count] == low_bytes(0, 4)[0] && tags[13 + count] == low_bytes(0, 4)[1]);
    assert(tags[14 + count] == low_bytes(0, 4)[2] && tags[15 + count] == low_bytes(0, 4)[3]);
}

/// A sound can be written if it has samples, at a rate of 48000, in one channel
/// or two.
pub proof fn a_sound_is_refused_for_what_is_wrong(samples: int, channels: u16, sample_rate: u32)
    ensures
        refusal(samples, channels, sample_rate) is None <==> sample_rate == 48000 && (channels == 1
            || channels == 2) && samples != 0,
{
}

/// A stream holds the packets of all frames in their order, unchanged, behind the
/// two headers. A frame ends 960 samples behind the one before it, but none ends
/// behind the sound and the 312 samples that are dropped.
pub proof fn a_stream_holds_its_frames(channels: u8, frames: int, packets: Seq<Seq<u8>>, i: int)
    requires
        0 <= i < packets.len() <= 0x7fff_ffff,
        0 <= frames <= 0x1000_0000_0000,
    ensures
        ({
            let all = stream_packets(channels, frames, packets);
            let end = (i + 1) * 960;
            &&& all.len() == packets.len() + 2
            &&& all[0].bytes == head_packet(channels)
            &&& all[1].bytes == tags_packet()
            &&& all[0].end == PacketEnd::Page && all[1].end == PacketEnd::Page
            &&& all[i + 2].bytes == packets[i]
            &&& all[i + 2].serial == all[0].serial
            &&& end < frames + 312 ==> all[i + 2].granule == end
            &&& end >= frames + 312 ==> all[i + 2].granule == frames + 312
            &&& all[0].granule == 0 && all[1].granule == 0
            &&& end >= frames + 312 <==> all[i + 2].end == PacketEnd::Stream
            &&& end < frames + 312 <==> all[i + 2].end == PacketEnd::Nothing
        }),
{
    let all = stream_packets(channels, frames, packets);
    assert(all[i + 2] == frame_packet(packets[i], i, frames));
}

} // verus!
