use midi_interpolator::config::{ConfigError, EngineConfig};
use midi_interpolator::event::{CHANNELS, MAX_NOTE};
use midi_interpolator::ratio::UNIT;

#[test]
fn constants_have_their_midi_values() {
    assert_eq!(UNIT, 1_000_000);
    assert_eq!(CHANNELS, 16);
    assert_eq!(MAX_NOTE, 127);
}

#[test]
fn config_keeps_what_it_was_given() {
    let config = EngineConfig::new(250_000, 3, 9).unwrap();
    assert_eq!(config.mix(), 250_000);
    assert_eq!(config.channel_a(), 3);
    assert_eq!(config.channel_b(), 9);
}

#[test]
fn config_accepts_the_bounds() {
    assert!(EngineConfig::new(0, 0, 0).is_ok());
    assert!(EngineConfig::new(UNIT, 15, 15).is_ok());
    assert!(EngineConfig::new(UNIT, 0, 15).is_ok());
}

#[test]
fn config_refuses_a_mix_above_one() {
    assert_eq!(EngineConfig::new(UNIT + 1, 0, 1).err(), Some(ConfigError::MixOutOfRange));
    assert_eq!(EngineConfig::new(u32::MAX, 0, 1).err(), Some(ConfigError::MixOutOfRange));
}

#[test]
fn config_refuses_a_channel_out_of_range() {
    assert_eq!(EngineConfig::new(0, 16, 1).err(), Some(ConfigError::ChannelAOutOfRange));
    assert_eq!(EngineConfig::new(0, 255, 1).err(), Some(ConfigError::ChannelAOutOfRange));
    assert_eq!(EngineConfig::new(0, 1, 16).err(), Some(ConfigError::ChannelBOutOfRange));
    assert_eq!(EngineConfig::new(0, 15, 200).err(), Some(ConfigError::ChannelBOutOfRange));
}

#[test]
fn config_reports_the_first_fault() {
    assert_eq!(EngineConfig::new(UNIT + 1, 16, 16).err(), Some(ConfigError::MixOutOfRange));
    assert_eq!(EngineConfig::new(UNIT, 16, 16).err(), Some(ConfigError::ChannelAOutOfRange));
    assert_eq!(
        EngineConfig::from_user_channels(UNIT + 1, 0, 0).err(),
        Some(ConfigError::MixOutOfRange)
    );
    assert_eq!(
        EngineConfig::from_user_channels(UNIT, 0, 0).err(),
        Some(ConfigError::ChannelAOutOfRange)
    );
}

#[test]
fn user_channels_are_numbered_from_one() {
    let config = EngineConfig::from_user_channels(500_000, 1, 2).unwrap();
    assert_eq!(config.mix(), 500_000);
    assert_eq!(config.channel_a(), 0);
    assert_eq!(config.channel_b(), 1);
    let config = EngineConfig::from_user_channels(0, 16, 16).unwrap();
    assert_eq!(config.channel_a(), 15);
    assert_eq!(config.channel_b(), 15);
}

#[test]
fn user_channels_out_of_range_are_refused() {
    assert_eq!(
        EngineConfig::from_user_channels(0, 0, 1).err(),
        Some(ConfigError::ChannelAOutOfRange)
    );
    assert_eq!(
        EngineConfig::from_user_channels(0, 17, 1).err(),
        Some(ConfigError::ChannelAOutOfRange)
    );
    assert_eq!(
        EngineConfig::from_user_channels(0, 1, 0).err(),
        Some(ConfigError::ChannelBOutOfRange)
    );
    assert_eq!(
        EngineConfig::from_user_channels(0, 16, 17).err(),
        Some(ConfigError::ChannelBOutOfRange)
    );
    assert_eq!(
        EngineConfig::from_user_channels(UNIT + 1, 1, 2).err(),
        Some(ConfigError::MixOutOfRange)
    );
}

#[test]
fn default_config_blends_the_first_two_channels_evenly() {
    let config = EngineConfig::default();
    assert_eq!(config.mix(), 500_000);
    assert_eq!(config.channel_a(), 0);
    assert_eq!(config.channel_b(), 1);
}
