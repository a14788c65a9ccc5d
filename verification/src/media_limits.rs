//! Cross-module media dimension and duration policy validation.
use vstd::prelude::*;

verus! {

#[derive(Debug, Clone, Copy, PartialEq, Eq, Structural)]
pub enum MediaLimitsError {
    InvalidDimensions,
    InvalidDuration,
    InvalidFrameRate,
    TooWide,
    TooTall,
    TooLong,
    TooShort,
    FrameRateExceeded,
    AspectRatioMismatch,
}

#[derive(Debug, Clone, Copy, PartialEq, Eq, Structural)]
pub struct MediaLimits {
    pub max_width: u32,
    pub max_height: u32,
    pub min_duration_ms: u64,
    pub max_duration_ms: u64,
    pub max_frame_rate_milli: u32,
    pub max_aspect_ratio_milli: u32,
}

#[derive(Debug, Clone, Copy, PartialEq, Eq, Structural)]
pub struct MediaFacts {
    pub width: u32,
    pub height: u32,
    pub duration_ms: u64,
    pub frame_rate_milli: u32,
}

/// What `validate` answers: the first limit the facts break, in a fixed order.
pub open spec fn limits_check(l: MediaLimits, f: MediaFacts) -> Result<(), MediaLimitsError> {
    if f.width == 0 || f.height == 0 {
        Err(MediaLimitsError::InvalidDimensions)
    } else if f.duration_ms == 0 {
        Err(MediaLimitsError::InvalidDuration)
    } else if f.frame_rate_milli == 0 {
        Err(MediaLimitsError::InvalidFrameRate)
    } else if f.width > l.max_width {
        Err(MediaLimitsError::TooWide)
    } else if f.height > l.max_height {
        Err(MediaLimitsError::TooTall)
    } else if f.duration_ms < l.min_duration_ms {
        Err(MediaLimitsError::TooShort)
    } else if f.duration_ms > l.max_duration_ms {
        Err(MediaLimitsError::TooLong)
    } else if f.frame_rate_milli > l.max_frame_rate_milli {
        Err(MediaLimitsError::FrameRateExceeded)
    } else if (f.width * 1000) / (f.height as int) > l.max_aspect_ratio_milli {
        Err(MediaLimitsError::AspectRatioMismatch)
    } else {
        Ok(())
    }
}

impl MediaLimits {
    /// Checks media facts against the limits.
    pub fn validate(&self, facts: MediaFacts) -> (r: Result<(), MediaLimitsError>)
        ensures
            r == limits_check(*self, facts),
    {
        if facts.width == 0 || facts.height == 0 {
            return Err(MediaLimitsError::InvalidDimensions);
        }
        if facts.duration_ms == 0 {
            return Err(MediaLimitsError::InvalidDuration);
        }
        if facts.frame_rate_milli == 0 {
            return Err(MediaLimitsError::InvalidFrameRate);
        }
        if facts.width > self.max_width {
            return Err(MediaLimitsError::TooWide);
        }
        if facts.height > self.max_height {
            return Err(MediaLimitsError::TooTall);
        }
        if facts.duration_ms < self.min_duration_ms {
            return Err(MediaLimitsError::TooShort);
        }
        if facts.duration_ms > self.max_duration_ms {
            return Err(MediaLimitsError::TooLong);
        }
        if facts.frame_rate_milli > self.max_frame_rate_milli {
            return Err(MediaLimitsError::FrameRateExceeded);
        }
        let ratio = (facts.width as u64 * 1000) / facts.height as u64;
        if ratio > self.max_aspect_ratio_milli as u64 {
            return Err(MediaLimitsError::AspectRatioMismatch);
        }
        Ok(())
    }
}

} // verus!
