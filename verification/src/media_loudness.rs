//! Audio channel layouts and the errors of loudness validation.
use vstd::prelude::*;

verus! {

#[derive(Debug, Clone, Copy, PartialEq, Eq, Structural)]
pub enum ChannelLayout {
    Mono,
    Stereo,
    Surround51,
}

#[derive(Debug, Clone, Copy, PartialEq, Eq, Structural)]
pub enum LoudnessError {
    NonFinite,
    LoudnessOutOfRange,
    TruePeakExceeded,
    UnsupportedChannels,
    InvalidDuration,
}

pub open spec fn channel_count(layout: ChannelLayout) -> u8 {
    match layout {
        ChannelLayout::Mono => 1,
        ChannelLayout::Stereo => 2,
        ChannelLayout::Surround51 => 6,
    }
}

impl ChannelLayout {
    /// The number of channels of the layout.
    pub fn count(self) -> (n: u8)
        ensures
            n == channel_count(self),
    {
        match self {
            ChannelLayout::Mono => 1,
            ChannelLayout::Stereo => 2,
            ChannelLayout::Surround51 => 6,
        }
    }

    /// Refuses a layout with more channels than `max_channels`.
    pub fn check_channels(self, max_channels: u8) -> (r: Result<(), LoudnessError>)
        ensures
            r is Ok <==> channel_count(self) <= max_channels,
            r is Err ==> r == Err::<(), LoudnessError>(LoudnessError::UnsupportedChannels),
    {
        if self.count() > max_channels {
            Err(LoudnessError::UnsupportedChannels)
        } else {
            Ok(())
        }
    }
}

} // verus!
