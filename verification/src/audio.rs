//! Audio input: choosing a device and reading one channel of it.

use crate::decimal::{decimal, decimal_text, push_natural};
use crate::float::{of_int, of_nat, quotient, single, Float32, Value};
use crate::natural::Natural;
use crate::text::{chars_of, same, string_of};
use vstd::prelude::*;
use vstd::string::StringExecFns;

verus! {

/// Why audio cannot be read.
#[derive(Debug, Clone)]
pub enum AudioError {
    /// No input device has the configured name.
    DeviceNotFound { name: String },
    /// There is no default input device.
    NoDefaultDevice,
    /// The device has no channels.
    NoChannels,
    /// The device does not have the configured channel.
    ChannelOutOfRange { channel: usize, channels: usize },
}

/// Why audio cannot be read, in a specification.
pub enum AudioFault {
    DeviceNotFound { name: Seq<char> },
    NoDefaultDevice,
    NoChannels,
    ChannelOutOfRange { channel: nat, channels: nat },
}

impl View for AudioError {
    type V = AudioFault;

    open spec fn view(&self) -> AudioFault {
        match *self {
            AudioError::DeviceNotFound { name } => AudioFault::DeviceNotFound { name: name@ },
            AudioError::NoDefaultDevice => AudioFault::NoDefaultDevice,
            AudioError::NoChannels => AudioFault::NoChannels,
            AudioError::ChannelOutOfRange { channel, channels } => AudioFault::ChannelOutOfRange {
                channel: channel as nat,
                channels: channels as nat,
            },
        }
    }
}

/// The words for an error.
pub open spec fn audio_fault_text(fault: AudioFault) -> Seq<char> {
    match fault {
        AudioFault::DeviceNotFound { name } => "audio device '"@ + name + "' not found"@,
        AudioFault::NoDefaultDevice => "no default input device found"@,
        AudioFault::NoChannels => "audio device reports 0 channels"@,
        AudioFault::ChannelOutOfRange { channel, channels } => "audio_channel "@ + decimal(channel)
            + " out of range for device with "@ + decimal(channels) + " channels"@,
    }
}

impl AudioError {
    pub fn message(&self) -> (message: String)
        ensures
            message@ == audio_fault_text(self@),
    {
        match self {
            AudioError::DeviceNotFound { name } => {
                String::from_str("audio device '").concat(name.as_str()).concat("' not found")
            },
            AudioError::NoDefaultDevice => String::from_str("no default input device found"),
            AudioError::NoChannels => String::from_str("audio device reports 0 channels"),
            AudioError::ChannelOutOfRange { channel, channels } => {
                String::from_str("audio_channel ").concat(
                    decimal_text(*channel as u64).as_str(),
                ).concat(" out of range for device with ").concat(
                    decimal_text(*channels as u64).as_str(),
                ).concat(" channels")
            },
        }
    }
}

/// The index of the first text that is `name`.
pub open spec fn first_named(names: Seq<String>, name: Seq<char>, i: int) -> bool {
    &&& 0 <= i < names.len()
    &&& names[i]@ == name
    &&& forall|k: int| 0 <= k < i ==> (#[trigger] names[k])@ != name
}

/// Finds the device to listen to among the names of the input devices: the first one with the
/// configured name. Where none is configured the default device is to be used, and `None` says
/// so.
pub fn choose_device(names: &Vec<String>, wanted: &Option<String>, has_default: bool) -> (choice:
    Result<Option<usize>, AudioError>)
    ensures
        match (*wanted, choice) {
            (Some(name), Ok(Some(i))) => first_named(names@, name@, i as int),
            (Some(name), Err(error)) => error@ == (AudioFault::DeviceNotFound { name: name@ })
                && forall|k: int| 0 <= k < names@.len() ==> (#[trigger] names@[k])@ != name@,
            (Some(_), Ok(None)) => false,
            (None, Ok(None)) => has_default,
            (None, Err(error)) => !has_default && error@ == AudioFault::NoDefaultDevice,
            (None, Ok(Some(_))) => false,
        },
{
    match wanted {
        Some(name) => {
            let chars = chars_of(name.as_str());
            let mut i: usize = 0;
            while i < names.len()
                invariant
                    i <= names@.len(),
                    *wanted == Some(*name),
                    chars@ == name@,
                    forall|k: int| 0 <= k < i ==> (#[trigger] names@[k])@ != name@,
                decreases names.len() - i,
            {
                if same(&chars_of(names[i].as_str()), &chars) {
                    return Ok(Some(i));
                }
                i = i + 1;
            }
            Err(AudioError::DeviceNotFound { name: name.clone() })
        },
        None => if has_default {
            Ok(None)
        } else {
            Err(AudioError::NoDefaultDevice)
        },
    }
}

/// The line for a device in the list of devices, which are counted from one.
pub open spec fn device_line_text(
    index: nat,
    name: Seq<char>,
    default_name: Option<Seq<char>>,
) -> Seq<char> {
    let marker: Seq<char> = if default_name == Some(name) {
        " [DEFAULT]"@
    } else {
        seq![]
    };
    "  "@ + decimal(index + 1) + ". "@ + name + marker
}

/// The line for a device in the list of devices.
pub fn device_line(index: usize, name: &str, default_name: &Option<String>) -> (line: String)
    ensures
        line@ == device_line_text(
            index as nat,
            name@,
            match *default_name {
                Some(name) => Some(name@),
                None => None,
            },
        ),
{
    let marked: bool = match default_name {
        Some(default_name) => same(&chars_of(default_name.as_str()), &chars_of(name)),
        None => false,
    };
    let mut number: Vec<char> = Vec::new();
    push_natural(&mut number, &Natural::from_u64(index as u64).mul_add(1, 1));
    let mut line = String::from_str("  ");
    line.append(string_of(&number).as_str());
    line.append(". ");
    line.append(name);
    if marked {
        line.append(" [DEFAULT]");
    }
    proof {
        assert(line@ + Seq::<char>::empty() =~= line@);
    }
    line
}

/// Checks that a device has the channel to listen to.
pub fn check_audio_channel(channel: usize, channels: usize) -> (result: Result<(), AudioError>)
    ensures
        match result {
            Ok(()) => channel < channels,
            Err(error) => error@ == if channels == 0 {
                AudioFault::NoChannels
            } else {
                AudioFault::ChannelOutOfRange {
                    channel: channel as nat,
                    channels: channels as nat,
                }
            } && channel >= channels,
        },
{
    if channels == 0 {
        Err(AudioError::NoChannels)
    } else if channel >= channels {
        Err(AudioError::ChannelOutOfRange { channel, channels })
    } else {
        Ok(())
    }
}

/// Every sample of one channel of interleaved samples, from the one at index `i` on.
pub open spec fn channel_samples<T>(data: Seq<T>, i: nat, channels: nat) -> Seq<T>
    decreases
        if i < data.len() {
            data.len() - i
        } else {
            0
        },
{
    if channels == 0 || i >= data.len() {
        seq![]
    } else {
        seq![data[i as int]] + channel_samples(data, i + channels, channels)
    }
}

/// Picks one channel out of interleaved samples.
pub fn pick_channel<T: Copy>(data: &[T], channel: usize, channels: usize) -> (samples: Vec<T>)
    requires
        channels > 0,
    ensures
        samples@ == channel_samples(data@, channel as nat, channels as nat),
{
    let mut samples: Vec<T> = Vec::new();
    let mut i: usize = channel;
    assert(samples@ + channel_samples(data@, i as nat, channels as nat) =~= channel_samples(
        data@,
        channel as nat,
        channels as nat,
    ));
    while i < data.len()
        invariant
            channels > 0,
            samples@ + channel_samples(data@, i as nat, channels as nat) == channel_samples(
                data@,
                channel as nat,
                channels as nat,
            ),
        decreases data@.len() - i,
    {
        let ghost before = samples@;
        samples.push(data[i]);
        proof {
            assert(samples@ + channel_samples(data@, (i + channels) as nat, channels as nat)
                =~= before + channel_samples(data@, i as nat, channels as nat));
        }
        if data.len() - i <= channels {
            proof {
                assert(samples@ =~= samples@ + channel_samples(
                    data@,
                    (i + channels) as nat,
                    channels as nat,
                ));
            }
            return samples;
        }
        i = i + channels;
    }
    assert(samples@ + channel_samples(data@, i as nat, channels as nat) =~= samples@);
    samples
}

/// A signed 16-bit sample as a number between -1 and 1.
pub open spec fn normalised(sample: i16) -> Value {
    quotient(single(), of_int(single(), sample as int), of_nat(single(), 32767))
}

/// Normalises signed 16-bit samples.
pub fn normalise(samples: &Vec<i16>) -> (numbers: Vec<Float32>)
    ensures
        numbers@.len() == samples@.len(),
        forall|i: int|
            0 <= i < samples@.len() ==> (#[trigger] numbers@[i])@ == normalised(samples@[i]),
{
    let full = Float32::from_u32(32767);
    let mut numbers: Vec<Float32> = Vec::new();
    let mut i: usize = 0;
    while i < samples.len()
        invariant
            i <= samples@.len(),
            full@ == of_nat(single(), 32767),
            numbers@.len() == i,
            forall|k: int| 0 <= k < i ==> (#[trigger] numbers@[k])@ == normalised(samples@[k]),
        decreases samples.len() - i,
    {
        numbers.push(Float32::from_i16(samples[i]).divided_by(&full));
        i = i + 1;
    }
    numbers
}

/// Milliseconds between two looks at whether timecode has paused.
pub fn pause_check_interval_ms(pause_detection_threshold_ms: u64) -> (interval: u64)
    ensures
        interval == pause_detection_threshold_ms / 2,
{
    pause_detection_threshold_ms / 2
}

/// The samples of a channel stand as far apart as there are channels.
pub proof fn law_channel_holds_every_nth_sample<T>(
    data: Seq<T>,
    channel: nat,
    channels: nat,
    k: int,
)
    requires
        channels > 0,
        0 <= k,
    ensures
        k < channel_samples(data, channel, channels).len() <==> channel + k * channels < data.len(),
        k < channel_samples(data, channel, channels).len() ==> channel_samples(
            data,
            channel,
            channels,
        )[k] == data[channel + k * channels],
    decreases k,
{
    if channel >= data.len() {
        assert(channel + k * channels >= data.len()) by (nonlinear_arith)
            requires
                channel >= data.len(),
                k >= 0,
                channels > 0,
        ;
    } else if k > 0 {
        law_channel_holds_every_nth_sample(data, channel + channels, channels, k - 1);
        assert(channel + channels + (k - 1) * channels == channel + k * channels)
            by (nonlinear_arith);
    } else {
        assert(k * channels == 0) by (nonlinear_arith)
            requires
                k == 0,
        ;
    }
}

/// The default device is marked at the end of its line, and no other device is.
pub proof fn law_default_device_is_marked(index: nat, name: Seq<char>, other: Seq<char>)
    ensures
        device_line_text(index, name, Some(name)) == device_line_text(index, name, None)
            + " [DEFAULT]"@,
        other != name ==> device_line_text(index, name, Some(other)) == device_line_text(
            index,
            name,
            None,
        ),
        device_line_text(index, name, None) == "  "@ + decimal(index + 1) + ". "@ + name,
{
    assert(device_line_text(index, name, None) =~= "  "@ + decimal(index + 1) + ". "@ + name);
    assert(device_line_text(index, name, Some(name)) =~= device_line_text(index, name, None)
        + " [DEFAULT]"@);
}

/// The device that is chosen has the name, no device before it has it, and so there is only one
/// that it can be.
pub proof fn law_first_device_of_the_name_is_chosen(
    names: Seq<String>,
    name: Seq<char>,
    i: int,
    k: int,
)
    requires
        first_named(names, name, i),
        0 <= k < names.len(),
    ensures
        names[i]@ == name,
        names[k]@ == name ==> i <= k,
{
}

} // verus!
