use vstd::prelude::*;

verus! {

/// Why an operation of the processor was refused.
#[derive(Debug, Clone, Copy, PartialEq, Eq, Structural)]
pub enum AudioError {
    /// `set_audio_data` was given no channel at all.
    NoAudioData,
    /// The first channel handed to `set_audio_data` holds no sample.
    EmptyChannels,
    /// A channel's length differs from the first channel's length.
    InconsistentChannelLengths { first_len: usize, channel: usize, len: usize },
    /// The processor holds no frequency-domain data.
    NoFftData,
    /// The processor holds no frequency-domain data to split.
    NoFftDataForSplit,
    /// The processor holds no time-domain data.
    NoTimeData,
    /// The spectrum is too short for bin swapping.
    NotEnoughBins,
    /// The swap distance rounds down to zero bins.
    BlockSizeTooSmall,
    /// Channel swapping needs two channels.
    NotEnoughChannels,
    /// The mixing weights do not match the channels one for one.
    WeightCountMismatch { weights: usize, channels: usize },
    /// A split was asked for zero parts.
    ZeroParts,
    /// A split part index is not below the number of parts.
    PartIndexOutOfRange { part_index: usize, num_parts: usize },
    /// The bin assignment does not cover the spectrum bin for bin.
    AssignmentLengthMismatch,
    /// Two spectra to be combined have different channel counts.
    ChannelCountMismatch,
    /// Two spectra to be combined have different bin counts.
    BinCountMismatch,
    /// One of two spectra to be combined is missing.
    SpectrumMissing,
}

/// The character of decimal digit `d`.
pub open spec fn digit_char(d: nat) -> char {
    (48 + d) as char
}

/// `n` written in decimal, as `{}` formats an unsigned integer: its digits,
/// most significant first, with no leading zero.
pub open spec fn decimal(n: nat) -> Seq<char>
    decreases n,
{
    if n < 10 {
        seq![digit_char(n)]
    } else {
        decimal(n / 10).push(digit_char(n % 10))
    }
}

/// The message for uneven channels.
pub open spec fn inconsistent_lengths_text(first_len: usize, channel: usize, len: usize) -> Seq<char> {
    "Inconsistent channel lengths: channel 0 has "@ + decimal(first_len as nat) + " samples, channel "@
        + decimal(channel as nat) + " has "@ + decimal(len as nat) + " samples"@
}

/// The message for a weight count mismatch.
pub open spec fn weight_count_text(weights: usize, channels: usize) -> Seq<char> {
    "Number of weights ("@ + decimal(weights as nat) + ") must match number of channels ("@
        + decimal(channels as nat) + ")"@
}

/// The message for a part index out of range.
pub open spec fn part_index_text(part_index: usize, last_part: usize) -> Seq<char> {
    "Part index "@ + decimal(part_index as nat) + " is out of range (0 to "@ + decimal(
        last_part as nat,
    ) + ")"@
}

/// `format!` of the message for uneven channels, the three counts written in
/// decimal by `{}`.
#[verifier::external_body]
fn inconsistent_lengths_message(first_len: usize, channel: usize, len: usize) -> (r: String)
    ensures
        r@ == inconsistent_lengths_text(first_len, channel, len),
{
    format!(
        "Inconsistent channel lengths: channel 0 has {} samples, channel {} has {} samples",
        first_len, channel, len
    )
}

/// `format!` of the message for a weight count mismatch, the two counts
/// written in decimal by `{}`.
#[verifier::external_body]
fn weight_count_message(weights: usize, channels: usize) -> (r: String)
    ensures
        r@ == weight_count_text(weights, channels),
{
    format!(
        "Number of weights ({}) must match number of channels ({})",
        weights, channels
    )
}

/// `format!` of the message for a part index out of range, the two numbers
/// written in decimal by `{}`.
#[verifier::external_body]
fn part_index_message(part_index: usize, last_part: usize) -> (r: String)
    ensures
        r@ == part_index_text(part_index, last_part),
{
    format!("Part index {} is out of range (0 to {})", part_index, last_part)
}

/// The message that describes `e` to a user.
pub open spec fn message_text(e: AudioError) -> Seq<char> {
    match e {
        AudioError::NoAudioData => "No audio data provided"@,
        AudioError::EmptyChannels => "Audio data contains empty channels"@,
        AudioError::InconsistentChannelLengths { first_len, channel, len } => inconsistent_lengths_text(
            first_len,
            channel,
            len,
        ),
        AudioError::NoFftData => "No FFT data available. Load a file first."@,
        AudioError::NoFftDataForSplit => "No FFT data available. Load a file and perform FFT first."@,
        AudioError::NoTimeData => "No time domain data available"@,
        AudioError::NotEnoughBins => "Not enough frequency bins to perform swapping"@,
        AudioError::BlockSizeTooSmall => "Block size too small for the given FFT size"@,
        AudioError::NotEnoughChannels => "Need at least 2 channels to perform channel swapping"@,
        AudioError::WeightCountMismatch { weights, channels } => weight_count_text(weights, channels),
        AudioError::ZeroParts => "Number of parts must be greater than zero"@,
        AudioError::PartIndexOutOfRange { part_index, num_parts } => part_index_text(
            part_index,
            if num_parts == 0 {
                0
            } else {
                (num_parts - 1) as usize
            },
        ),
        AudioError::AssignmentLengthMismatch => "bins_per_channel <> bin_assignments"@,
        AudioError::ChannelCountMismatch => "Number of channels must be the same"@,
        AudioError::BinCountMismatch => "Number of bins must be the same"@,
        AudioError::SpectrumMissing => "FFT data missing in one or both processors"@,
    }
}

impl AudioError {
    /// The message that describes this error to a user.
    pub fn message(&self) -> (r: String)
        ensures
            r@ == message_text(*self),
    {
        match self {
            AudioError::NoAudioData => "No audio data provided".to_owned(),
            AudioError::EmptyChannels => "Audio data contains empty channels".to_owned(),
            AudioError::InconsistentChannelLengths { first_len, channel, len } => {
                inconsistent_lengths_message(*first_len, *channel, *len)
            },
            AudioError::NoFftData => "No FFT data available. Load a file first.".to_owned(),
            AudioError::NoFftDataForSplit => "No FFT data available. Load a file and perform FFT first.".to_owned(),
            AudioError::NoTimeData => "No time domain data available".to_owned(),
            AudioError::NotEnoughBins => "Not enough frequency bins to perform swapping".to_owned(),
            AudioError::BlockSizeTooSmall => "Block size too small for the given FFT size".to_owned(),
            AudioError::NotEnoughChannels => "Need at least 2 channels to perform channel swapping".to_owned(),
            AudioError::WeightCountMismatch { weights, channels } => {
                weight_count_message(*weights, *channels)
            },
            AudioError::ZeroParts => "Number of parts must be greater than zero".to_owned(),
            AudioError::PartIndexOutOfRange { part_index, num_parts } => {
                if *num_parts == 0 {
                    part_index_message(*part_index, 0)
                } else {
                    part_index_message(*part_index, *num_parts - 1)
                }
            },
            AudioError::AssignmentLengthMismatch => "bins_per_channel <> bin_assignments".to_owned(),
            AudioError::ChannelCountMismatch => "Number of channels must be the same".to_owned(),
            AudioError::BinCountMismatch => "Number of bins must be the same".to_owned(),
            AudioError::SpectrumMissing => "FFT data missing in one or both processors".to_owned(),
        }
    }
}

} // verus!
