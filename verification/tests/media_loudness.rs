use yaiko::media_loudness::{ChannelLayout, LoudnessError};

#[test]
fn channel_counts_and_limits() {
    assert_eq!(ChannelLayout::Mono.count(), 1);
    assert_eq!(ChannelLayout::Stereo.count(), 2);
    assert_eq!(ChannelLayout::Surround51.count(), 6);
    assert_eq!(ChannelLayout::Surround51.check_channels(2), Err(LoudnessError::UnsupportedChannels));
    assert_eq!(ChannelLayout::Stereo.check_channels(2), Ok(()));
}
