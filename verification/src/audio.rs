//! Finding the console's audio device, and frames of audio samples.
//!
//! A captured frame is interleaved: the samples of all channels at one instant stand side by
//! side, channel after channel.

use crate::text::{contains_text, same_text, signed_decimal_text};
use vstd::arithmetic::div_mod::lemma_fundamental_div_mod_converse;
use vstd::prelude::*;
use vstd::string::StringExecFns;

verus! {

/// What was found out about one sound card.
#[derive(Debug)]
pub enum CardProbe {
    /// The card is not there after all.
    Absent,
    /// The card is there, but its control interface did not answer.
    Unreadable,
    /// The card and the two names that it goes by.
    Card { index: i32, name: String, long_name: String },
}

/// Whether a card's name is one of those that the console's USB interface goes by.
pub open spec fn is_console_name(name: Seq<char>) -> bool {
    crate::text::occurs_in("USB"@, name) || crate::text::occurs_in("M32"@, name)
}

/// The name under which the first device of a card is opened.
pub open spec fn device_name(index: int) -> Seq<char> {
    "hw:"@ + crate::text::signed_decimal(index) + ",0"@
}

/// Whether the search ends at this card.
pub open spec fn ends_search(card: CardProbe) -> bool {
    match card {
        CardProbe::Absent => false,
        CardProbe::Unreadable => true,
        CardProbe::Card { index, name, long_name } => is_console_name(name@) || is_console_name(
            long_name@,
        ),
    }
}

/// The device that the search finds: the first card that bears a console's name, unless a card
/// before it did not answer.
pub open spec fn found_device(cards: Seq<CardProbe>) -> Option<Seq<char>>
    decreases cards.len(),
{
    if cards.len() == 0 {
        None
    } else if !ends_search(cards[0]) {
        found_device(cards.skip(1))
    } else {
        match cards[0] {
            CardProbe::Card { index, name, long_name } => Some(device_name(index as int)),
            _ => None,
        }
    }
}

fn has_console_name(name: &str) -> (r: bool)
    ensures
        r == is_console_name(name@),
{
    contains_text(name, "USB") || contains_text(name, "M32")
}

/// Picks the console's device out of the sound cards, given in the order of their numbers.
pub fn find_m32_usb_device(cards: &Vec<CardProbe>) -> (r: Option<String>)
    ensures
        match r {
            Some(name) => found_device(cards@) == Some(name@),
            None => found_device(cards@) is None,
        },
{
    let mut i: usize = 0;
    assert(cards@.skip(0) == cards@);
    while i < cards.len()
        invariant
            i <= cards.len(),
            found_device(cards@) == found_device(cards@.skip(i as int)),
        decreases cards.len() - i,
    {
        assert(cards@.skip(i as int).skip(1) == cards@.skip(i + 1));
        match &cards[i] {
            CardProbe::Absent => {},
            CardProbe::Unreadable => {
                return None;
            },
            CardProbe::Card { index, name, long_name } => {
                if has_console_name(name.as_str()) || has_console_name(long_name.as_str()) {
                    let mut device = "hw:".to_owned();
                    device.append(signed_decimal_text(*index as i64).as_str());
                    device.append(",0");
                    return Some(device);
                }
            },
        }
        i += 1;
    }
    None
}

/// How samples are encoded by the device.
#[derive(Debug, Clone, Copy, PartialEq, Eq, Structural)]
pub enum SampleFormat {
    /// Signed, 32 bits, in the machine's byte order.
    Signed32,
}

/// How the samples of several channels lie in a frame.
#[derive(Debug, Clone, Copy, PartialEq, Eq, Structural)]
pub enum SampleLayout {
    Interleaved,
}

/// What a device is asked for when it is opened.
#[derive(Debug)]
pub struct CaptureRequest {
    pub device: String,
    pub channels: u32,
    /// The wanted rate in Hz; the device may take the nearest that it has.
    pub rate: u32,
    pub format: SampleFormat,
    pub layout: SampleLayout,
}

/// What to ask of `device` to capture `channels` channels at `rate` Hz.
pub fn open_and_capture(device: &str, channels: u32, rate: u32) -> (r: CaptureRequest)
    ensures
        r.device@ == device@,
        r.channels == channels,
        r.rate == rate,
        r.format == SampleFormat::Signed32,
        r.layout == SampleLayout::Interleaved,
{
    CaptureRequest {
        device: device.to_owned(),
        channels,
        rate,
        format: SampleFormat::Signed32,
        layout: SampleLayout::Interleaved,
    }
}

/// Which artificial signal stands in for the device.
#[derive(Debug, Clone, Copy, PartialEq, Eq, Structural)]
pub enum AudioMockMode {
    /// The same signal on every channel.
    UnitTest,
    /// An audible tone of another frequency on every channel.
    Auditory,
}

impl AudioMockMode {
    /// The mode that a setting names; audible tones where it names none.
    pub fn from_env(value: Option<&str>) -> (r: AudioMockMode)
        ensures
            (r == AudioMockMode::UnitTest) == (value matches Some(v) && v@ == "unit"@),
    {
        match value {
            Some(v) => {
                if same_text(v, "unit") {
                    AudioMockMode::UnitTest
                } else {
                    AudioMockMode::Auditory
                }
            },
            None => AudioMockMode::Auditory,
        }
    }
}

/// Whether a frame of that size can be held in memory.
pub open spec fn frame_fits(channels: nat, frames: nat) -> bool {
    channels * frames * 4 <= isize::MAX
}

/// A frame in which every sample is the number of its channel, counted from 0.
pub open spec fn channel_numbers(channels: nat, frames: nat) -> Seq<i32> {
    Seq::new(channels * frames, |k: int| (k % channels as int) as i32)
}

/// A frame in which every sample is the number of its instant, counted from 0.
pub open spec fn instant_numbers(channels: nat, frames: nat) -> Seq<i32> {
    Seq::new(channels * frames, |k: int| (k / channels as int) as i32)
}

/// A frame in which channel `c` plays the samples `tones[c]`.
pub open spec fn interleaved_tones(tones: Seq<Vec<i32>>, channels: nat, frames: nat) -> Seq<i32> {
    Seq::new(channels * frames, |k: int| tones[k % channels as int]@[k / channels as int])
}

/// The position of channel `c` at instant `f` leads back to `c` and `f`.
pub proof fn lemma_position(channels: nat, f: nat, c: nat)
    requires
        c < channels,
    ensures
        (f * channels + c) % channels == c,
        (f * channels + c) / channels == f,
{
    lemma_fundamental_div_mod_converse(
        (f * channels + c) as int,
        channels as int,
        f as int,
        c as int,
    );
}

proof fn lemma_next_row(channels: nat, f: nat)
    ensures
        (f + 1) * channels == f * channels + channels,
{
    assert((f + 1) * channels == f * channels + channels) by (nonlinear_arith);
}

/// A frame in which every sample is the number of its channel.
pub fn channel_number_frame(channels: usize, frames: usize) -> (r: Vec<i32>)
    requires
        frame_fits(channels as nat, frames as nat),
    ensures
        r@ == channel_numbers(channels as nat, frames as nat),
{
    let mut buffer: Vec<i32> = Vec::new();
    let mut f: usize = 0;
    while f < frames
        invariant
            f <= frames,
            buffer@.len() == f * channels,
            forall|k: int|
                0 <= k < buffer@.len() ==> #[trigger] buffer@[k] == (k % channels as int) as i32,
        decreases frames - f,
    {
        let mut c: usize = 0;
        while c < channels
            invariant
                c <= channels,
                buffer@.len() == f * channels + c,
                forall|k: int|
                    0 <= k < buffer@.len() ==> #[trigger] buffer@[k] == (k % channels as int)
                        as i32,
            decreases channels - c,
        {
            proof {
                lemma_position(channels as nat, f as nat, c as nat);
            }
            buffer.push(c as i32);
            c += 1;
        }
        proof {
            lemma_next_row(channels as nat, f as nat);
        }
        f += 1;
    }
    assert(buffer@ == channel_numbers(channels as nat, frames as nat)) by {
        assert(frames * channels == channels * frames) by (nonlinear_arith);
    }
    buffer
}

fn instant_number_frame(channels: usize, frames: usize) -> (r: Vec<i32>)
    ensures
        r@ == instant_numbers(channels as nat, frames as nat),
{
    let mut buffer: Vec<i32> = Vec::new();
    let mut f: usize = 0;
    while f < frames
        invariant
            f <= frames,
            buffer@.len() == f * channels,
            forall|k: int|
                0 <= k < buffer@.len() ==> #[trigger] buffer@[k] == (k / channels as int) as i32,
        decreases frames - f,
    {
        let mut c: usize = 0;
        while c < channels
            invariant
                c <= channels,
                buffer@.len() == f * channels + c,
                forall|k: int|
                    0 <= k < buffer@.len() ==> #[trigger] buffer@[k] == (k / channels as int)
                        as i32,
            decreases channels - c,
        {
            proof {
                lemma_position(channels as nat, f as nat, c as nat);
            }
            buffer.push(f as i32);
            c += 1;
        }
        proof {
            lemma_next_row(channels as nat, f as nat);
        }
        f += 1;
    }
    assert(buffer@ == instant_numbers(channels as nat, frames as nat)) by {
        assert(frames * channels == channels * frames) by (nonlinear_arith);
    }
    buffer
}

fn tone_frame(tones: &Vec<Vec<i32>>, channels: usize, frames: usize) -> (r: Vec<i32>)
    requires
        tones@.len() == channels,
        forall|c: int| 0 <= c < channels ==> (#[trigger] tones@[c])@.len() == frames,
    ensures
        r@ == interleaved_tones(tones@, channels as nat, frames as nat),
{
    let mut buffer: Vec<i32> = Vec::new();
    let mut f: usize = 0;
    while f < frames
        invariant
            f <= frames,
            tones@.len() == channels,
            forall|c: int| 0 <= c < channels ==> (#[trigger] tones@[c])@.len() == frames,
            buffer@.len() == f * channels,
            forall|k: int|
                0 <= k < buffer@.len() ==> #[trigger] buffer@[k] == tones@[k
                    % channels as int]@[k / channels as int],
        decreases frames - f,
    {
        let mut c: usize = 0;
        while c < channels
            invariant
                c <= channels,
                f < frames,
                tones@.len() == channels,
                forall|c: int| 0 <= c < channels ==> (#[trigger] tones@[c])@.len() == frames,
                buffer@.len() == f * channels + c,
                forall|k: int|
                    0 <= k < buffer@.len() ==> #[trigger] buffer@[k] == tones@[k
                        % channels as int]@[k / channels as int],
            decreases channels - c,
        {
            proof {
                lemma_position(channels as nat, f as nat, c as nat);
            }
            let tone: &Vec<i32> = &tones[c];
            buffer.push(tone[f]);
            c += 1;
        }
        proof {
            lemma_next_row(channels as nat, f as nat);
        }
        f += 1;
    }
    assert(buffer@ == interleaved_tones(tones@, channels as nat, frames as nat)) by {
        assert(frames * channels == channels * frames) by (nonlinear_arith);
    }
    buffer
}

/// An artificial frame. In the audible mode `tones` holds the samples of each channel's tone.
pub fn capture_audio_frame_mock(
    channels: usize,
    frames: usize,
    mode: AudioMockMode,
    tones: &Vec<Vec<i32>>,
) -> (r: Vec<i32>)
    requires
        frame_fits(channels as nat, frames as nat),
        mode == AudioMockMode::Auditory ==> tones@.len() == channels && forall|c: int|
            0 <= c < channels ==> (#[trigger] tones@[c])@.len() == frames,
    ensures
        r@ == match mode {
            AudioMockMode::UnitTest => instant_numbers(channels as nat, frames as nat),
            AudioMockMode::Auditory => interleaved_tones(tones@, channels as nat, frames as nat),
        },
{
    match mode {
        AudioMockMode::UnitTest => instant_number_frame(channels, frames),
        AudioMockMode::Auditory => tone_frame(tones, channels, frames),
    }
}

/// What was recorded, brought to a length of `n` samples: cut off, or with silence behind it.
pub open spec fn fitted(recorded: Seq<i32>, n: nat) -> Seq<i32> {
    Seq::new(
        n,
        |k: int|
            if k < recorded.len() {
                recorded[k]
            } else {
                0
            },
    )
}

/// Brings what was recorded to a length of `n` samples.
fn fit_frame(recorded: Vec<i32>, n: usize) -> (r: Vec<i32>)
    ensures
        r@ == fitted(recorded@, n as nat),
{
    let mut out: Vec<i32> = recorded;
    out.truncate(n);
    while out.len() < n
        invariant
            out@.len() <= n,
            forall|k: int|
                0 <= k < out@.len() ==> #[trigger] out@[k] == fitted(recorded@, n as nat)[k],
            out@.len() < n ==> out@.len() >= recorded@.len(),
        decreases n - out@.len(),
    {
        out.push(0);
    }
    assert(out@ =~= fitted(recorded@, n as nat));
    out
}

/// The frame to send. `mock` is the setting that asks for an artificial frame, where it is set;
/// `device` is what the device recorded, where there is one. Without a recording, and whenever
/// an artificial frame is asked for, every sample is the number of its channel. A frame always has
/// a sample for each channel at each instant.
pub fn capture_audio_frame(
    channels: usize,
    frames: usize,
    mock: Option<&str>,
    device: Option<Vec<i32>>,
) -> (r: Vec<i32>)
    requires
        frame_fits(channels as nat, frames as nat),
    ensures
        r@ == if mock is None && device is Some {
            fitted(device->Some_0@, (channels * frames) as nat)
        } else {
            channel_numbers(channels as nat, frames as nat)
        },
        r@.len() == channels * frames,
{
    match mock {
        Some(_) => channel_number_frame(channels, frames),
        None => match device {
            Some(buffer) => {
                assert(channels * frames <= isize::MAX);
                fit_frame(buffer, channels * frames)
            },
            None => channel_number_frame(channels, frames),
        },
    }
}

/// The sample of channel `c` at instant `f` of an interleaved frame, or silence where the frame
/// does not reach that far.
pub open spec fn sample_at(frame: Seq<i32>, channels: nat, f: nat, c: nat) -> i32 {
    if f * channels + c < frame.len() {
        frame[(f * channels + c) as int]
    } else {
        0
    }
}

/// The frame with the samples of each channel side by side.
pub open spec fn by_channel(frame: Seq<i32>, channels: nat, frames: nat) -> Seq<i32> {
    Seq::new(
        channels * frames,
        |k: int|
            sample_at(frame, channels, (k % frames as int) as nat, (k / frames as int) as nat),
    )
}

/// Puts the samples of each channel of an interleaved frame side by side.
pub fn group_by_channel(frame: &Vec<i32>, channels: usize, frames: usize) -> (r: Vec<i32>)
    requires
        frame_fits(channels as nat, frames as nat),
    ensures
        r@ == by_channel(frame@, channels as nat, frames as nat),
{
    let mut out: Vec<i32> = Vec::new();
    let mut c: usize = 0;
    while c < channels
        invariant
            c <= channels,
            frame_fits(channels as nat, frames as nat),
            out@.len() == c * frames,
            forall|k: int|
                0 <= k < out@.len() ==> #[trigger] out@[k] == sample_at(
                    frame@,
                    channels as nat,
                    (k % frames as int) as nat,
                    (k / frames as int) as nat,
                ),
        decreases channels - c,
    {
        let mut f: usize = 0;
        while f < frames
            invariant
                f <= frames,
                c < channels,
                frame_fits(channels as nat, frames as nat),
                out@.len() == c * frames + f,
                forall|k: int|
                    0 <= k < out@.len() ==> #[trigger] out@[k] == sample_at(
                        frame@,
                        channels as nat,
                        (k % frames as int) as nat,
                        (k / frames as int) as nat,
                    ),
            decreases frames - f,
        {
            proof {
                lemma_position(frames as nat, c as nat, f as nat);
                assert(f * channels + channels <= frames * channels) by (nonlinear_arith)
                    requires
                        f + 1 <= frames,
                ;
                assert(frames * channels == channels * frames) by (nonlinear_arith);
            }
            let at: usize = f * channels + c;
            if at < frame.len() {
                out.push(frame[at]);
            } else {
                out.push(0);
            }
            f += 1;
        }
        proof {
            lemma_next_row(frames as nat, c as nat);
        }
        c += 1;
    }
    out
}

/// In an artificial frame every sample that belongs to a channel is that channel's number.
pub proof fn law_channel_numbers(channels: nat, frames: nat, c: nat, f: nat)
    requires
        c < channels,
        f < frames,
    ensures
        sample_at(channel_numbers(channels, frames), channels, f, c) == c as i32,
        by_channel(channel_numbers(channels, frames), channels, frames)[(c * frames + f) as int]
            == c as i32,
{
    lemma_position(channels, f, c);
    lemma_position(frames, c, f);
    assert(f * channels + channels <= frames * channels) by (nonlinear_arith)
        requires
            f + 1 <= frames,
    ;
    assert(frames * channels == channels * frames) by (nonlinear_arith);
    assert(c * frames + frames <= channels * frames) by (nonlinear_arith)
        requires
            c + 1 <= channels,
    ;
}

/// Whether a name holds one of the two by which the console is known.
pub open spec fn names_console(name: Seq<char>) -> bool {
    exists|i: int|
        0 <= i <= name.len() - 3 && (#[trigger] name.subrange(i, i + 3) == seq!['U', 'S', 'B']
            || name.subrange(i, i + 3) == seq!['M', '3', '2'])
}

proof fn lemma_names_console(name: Seq<char>)
    ensures
        names_console(name) <==> is_console_name(name),
{
    reveal_strlit("USB");
    reveal_strlit("M32");
    let usb = "USB"@;
    let m32 = "M32"@;
    assert(usb =~= seq!['U', 'S', 'B']);
    assert(m32 =~= seq!['M', '3', '2']);
    if names_console(name) {
        let i = choose|i: int|
            0 <= i <= name.len() - 3 && (#[trigger] name.subrange(i, i + 3) == seq!['U', 'S', 'B']
                || name.subrange(i, i + 3) == seq!['M', '3', '2']);
        assert(crate::text::occurs_at(usb, name, i) || crate::text::occurs_at(m32, name, i));
    }
    if crate::text::occurs_in(usb, name) {
        let i = choose|i: int| crate::text::occurs_at(usb, name, i);
        assert(name.subrange(i, i + 3) == seq!['U', 'S', 'B']);
    }
    if crate::text::occurs_in(m32, name) {
        let i = choose|i: int| crate::text::occurs_at(m32, name, i);
        assert(name.subrange(i, i + 3) == seq!['M', '3', '2']);
    }
}

/// Whether a card bears a name of the console.
pub open spec fn is_console(card: CardProbe) -> bool {
    card matches CardProbe::Card { index, name, long_name } && (names_console(name@)
        || names_console(long_name@))
}

proof fn lemma_found_device(cards: Seq<CardProbe>, i: int)
    requires
        0 <= i < cards.len(),
        forall|j: int| 0 <= j < i ==> !ends_search(#[trigger] cards[j]),
        ends_search(cards[i]),
    ensures
        found_device(cards) == match cards[i] {
            CardProbe::Card { index, name, long_name } => Some(device_name(index as int)),
            _ => None,
        },
    decreases i,
{
    if i > 0 {
        assert(!ends_search(cards[0]));
        let rest = cards.skip(1);
        assert forall|j: int| 0 <= j < i - 1 implies !ends_search(#[trigger] rest[j]) by {
            assert(rest[j] == cards[j + 1]);
        }
        lemma_found_device(rest, i - 1);
    }
}

proof fn lemma_no_device(cards: Seq<CardProbe>)
    requires
        forall|j: int| 0 <= j < cards.len() ==> !ends_search(#[trigger] cards[j]),
    ensures
        found_device(cards) is None,
    decreases cards.len(),
{
    if cards.len() > 0 {
        assert(!ends_search(cards[0]));
        let rest = cards.skip(1);
        assert forall|j: int| 0 <= j < rest.len() implies !ends_search(#[trigger] rest[j]) by {
            assert(rest[j] == cards[j + 1]);
        }
        lemma_no_device(rest);
    }
}

/// The first card that bears a name of the console is found, under its number, unless a card before it
/// did not answer.
pub proof fn law_first_console_is_found(
    cards: &Vec<CardProbe>,
    r: Option<String>,
    i: int,
    number: String,
)
    requires
        call_ensures(find_m32_usb_device, (cards,), r),
        0 <= i < cards@.len(),
        forall|j: int|
            0 <= j < i ==> !is_console(#[trigger] cards@[j]) && !(cards@[j] is Unreadable),
        is_console(cards@[i]),
        cards@[i] matches CardProbe::Card { index, name, long_name } && call_ensures(
            signed_decimal_text,
            (index as i64,),
            number,
        ),
    ensures
        r matches Some(device) && device@ == "hw:"@ + number@ + ",0"@,
{
    assert forall|j: int| 0 <= j <= i implies ends_search(#[trigger] cards@[j]) == (is_console(
        cards@[j],
    ) || cards@[j] is Unreadable) by {
        match cards@[j] {
            CardProbe::Card { index, name, long_name } => {
                lemma_names_console(name@);
                lemma_names_console(long_name@);
            },
            _ => {},
        }
    }
    lemma_found_device(cards@, i);
}

/// Nothing is found where no card bears a name of the console, or where one before all that do did not
/// answer.
pub proof fn law_no_console_is_found(cards: &Vec<CardProbe>, r: Option<String>, i: int)
    requires
        call_ensures(find_m32_usb_device, (cards,), r),
        0 <= i <= cards@.len(),
        forall|j: int|
            0 <= j < i ==> !is_console(#[trigger] cards@[j]) && !(cards@[j] is Unreadable),
        i < cards@.len() ==> cards@[i] is Unreadable,
    ensures
        r is None,
{
    assert forall|j: int| 0 <= j < i implies !ends_search(#[trigger] cards@[j]) by {
        match cards@[j] {
            CardProbe::Card { index, name, long_name } => {
                assert(!is_console(cards@[j]));
                lemma_names_console(name@);
                lemma_names_console(long_name@);
            },
            _ => {},
        }
    }
    if i < cards@.len() {
        lemma_found_device(cards@, i);
    } else {
        lemma_no_device(cards@);
    }
}

/// A device is asked for signed samples of 32 bits side by side, of as many channels and at the rate
/// that are wanted.
pub proof fn law_device_is_asked_for_what_is_wanted(
    device: &str,
    channels: u32,
    rate: u32,
    r: CaptureRequest,
)
    requires
        call_ensures(open_and_capture, (device, channels, rate), r),
    ensures
        r.device@ == device@,
        r.channels == channels,
        r.rate == rate,
        r.format == SampleFormat::Signed32,
        r.layout == SampleLayout::Interleaved,
{
}

/// Only the setting `unit` asks for the same signal on every channel.
pub proof fn law_mock_modes(value: Option<&str>, r: AudioMockMode)
    requires
        call_ensures(AudioMockMode::from_env, (value,), r),
    ensures
        r == AudioMockMode::UnitTest <==> (value matches Some(v) && v@ == seq!['u', 'n', 'i', 't']),
        r == AudioMockMode::Auditory <==> !(value matches Some(v) && v@ == seq![
            'u',
            'n',
            'i',
            't',
        ]),
{
    reveal_strlit("unit");
    assert("unit"@ =~= seq!['u', 'n', 'i', 't']);
}

proof fn lemma_within_frame(channels: nat, frames: nat, c: nat, f: nat)
    requires
        c < channels,
        f < frames,
    ensures
        f * channels + c < channels * frames,
        c * frames + f < channels * frames,
{
    assert(f * channels + channels <= frames * channels) by (nonlinear_arith)
        requires
            f + 1 <= frames,
    ;
    assert(c * frames + frames <= channels * frames) by (nonlinear_arith)
        requires
            c + 1 <= channels,
    ;
    assert(frames * channels == channels * frames) by (nonlinear_arith);
}

/// An artificial frame holds, for channel `c` at instant `f`, the number of the instant in the one mode
/// and that sample of the channel's tone in the other.
pub proof fn law_artificial_frame(
    channels: usize,
    frames: usize,
    mode: AudioMockMode,
    tones: &Vec<Vec<i32>>,
    r: Vec<i32>,
    c: nat,
    f: nat,
)
    requires
        frame_fits(channels as nat, frames as nat),
        mode == AudioMockMode::Auditory ==> tones@.len() == channels && forall|c: int|
            0 <= c < channels ==> (#[trigger] tones@[c])@.len() == frames,
        call_ensures(capture_audio_frame_mock, (channels, frames, mode, tones), r),
        c < channels,
        f < frames,
    ensures
        r@.len() == channels * frames,
        r@[(f * channels + c) as int] == match mode {
            AudioMockMode::UnitTest => f as i32,
            AudioMockMode::Auditory => tones@[c as int]@[f as int],
        },
{
    lemma_position(channels as nat, f, c);
    lemma_within_frame(channels as nat, frames as nat, c, f);
}

/// A frame has a sample for each channel at each instant. It is what the device recorded, cut off or
/// with silence behind it; without a device, or where an artificial one is asked for, each sample is
/// the number of its channel, counted from 0.
pub proof fn law_captured_frame(
    channels: usize,
    frames: usize,
    mock: Option<&str>,
    device: Option<Vec<i32>>,
    r: Vec<i32>,
    c: nat,
    f: nat,
)
    requires
        frame_fits(channels as nat, frames as nat),
        call_ensures(capture_audio_frame, (channels, frames, mock, device), r),
        c < channels,
        f < frames,
    ensures
        r@.len() == channels * frames,
        ({
            let at = (f * channels + c) as int;
            &&& mock is Some || device is None ==> r@[at] == c as i32
            &&& mock is None ==> (device matches Some(recorded) ==> r@[at] == if at
                < recorded@.len() {
                recorded@[at]
            } else {
                0
            })
        }),
{
    lemma_position(channels as nat, f, c);
    lemma_within_frame(channels as nat, frames as nat, c, f);
}

/// Grouping a frame by channel puts the sample of channel `c` at instant `f` behind those of the channels
/// before and of the instants before, with silence where the frame does not reach that far.
pub proof fn law_frame_is_grouped(
    frame: &Vec<i32>,
    channels: usize,
    frames: usize,
    r: Vec<i32>,
    c: nat,
    f: nat,
)
    requires
        frame_fits(channels as nat, frames as nat),
        call_ensures(group_by_channel, (frame, channels, frames), r),
        c < channels,
        f < frames,
    ensures
        r@.len() == channels * frames,
        r@[(c * frames + f) as int] == if f * channels + c < frame@.len() {
            frame@[(f * channels + c) as int]
        } else {
            0
        },
{
    lemma_position(frames as nat, c, f);
    lemma_within_frame(channels as nat, frames as nat, c, f);
}

} // verus!
