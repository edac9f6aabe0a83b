//! The engine's configuration, checked once where it is accepted.

use vstd::prelude::*;
use crate::event::CHANNELS;
use crate::ratio::UNIT;

verus! {

/// Why a configuration was refused.
#[derive(Clone, Copy, Debug, PartialEq, Eq, Structural)]
pub enum ConfigError {
    /// The mix ratio is above `UNIT`.
    MixOutOfRange,
    /// Channel A is not one of the 16 channels.
    ChannelAOutOfRange,
    /// Channel B is not one of the 16 channels.
    ChannelBOutOfRange,
}

/// A snapshot of the three parameters, valid for one block: the mix ratio
/// as a fraction of `UNIT`, and the two source channels, numbered from zero.
#[derive(Clone, Copy, Debug)]
pub struct EngineConfig {
    mix: u32,
    channel_a: u8,
    channel_b: u8,
}

/// Whether `channel` is a channel number as users write it, from 1 to 16.
pub open spec fn is_user_channel(channel: u8) -> bool {
    1 <= channel <= CHANNELS
}

impl EngineConfig {
    /// The mix ratio: 0 is all side A, `UNIT` is all side B.
    pub closed spec fn spec_mix(&self) -> u32 {
        self.mix
    }

    /// Source channel A, numbered from zero.
    pub closed spec fn spec_channel_a(&self) -> u8 {
        self.channel_a
    }

    /// Source channel B, numbered from zero.
    pub closed spec fn spec_channel_b(&self) -> u8 {
        self.channel_b
    }

    /// Every value of this type that executable code can hold is well formed.
    #[verifier::type_invariant]
    pub open spec fn wf(self) -> bool {
        &&& self.spec_mix() <= UNIT
        &&& self.spec_channel_a() < CHANNELS
        &&& self.spec_channel_b() < CHANNELS
    }

    /// The error that `new` reports for these parameters, if any. The mix
    /// ratio is looked at first, then channel A, then channel B.
    pub open spec fn rejection(mix: u32, channel_a: u8, channel_b: u8) -> Option<ConfigError> {
        if mix > UNIT {
            Some(ConfigError::MixOutOfRange)
        } else if channel_a >= CHANNELS {
            Some(ConfigError::ChannelAOutOfRange)
        } else if channel_b >= CHANNELS {
            Some(ConfigError::ChannelBOutOfRange)
        } else {
            None
        }
    }

    /// The error that `from_user_channels` reports for these parameters, if
    /// any, in the same order.
    pub open spec fn user_rejection(mix: u32, channel_a: u8, channel_b: u8) -> Option<
        ConfigError,
    > {
        if mix > UNIT {
            Some(ConfigError::MixOutOfRange)
        } else if !is_user_channel(channel_a) {
            Some(ConfigError::ChannelAOutOfRange)
        } else if !is_user_channel(channel_b) {
            Some(ConfigError::ChannelBOutOfRange)
        } else {
            None
        }
    }

    /// Accepts a mix ratio in `0..=UNIT` and two channels numbered from
    /// zero, as events number them. The two channels may be equal.
    pub fn new(mix: u32, channel_a: u8, channel_b: u8) -> (r: Result<EngineConfig, ConfigError>)
        ensures
            match r {
                Ok(c) => {
                    &&& Self::rejection(mix, channel_a, channel_b) is None
                    &&& c.wf()
                    &&& c.spec_mix() == mix
                    &&& c.spec_channel_a() == channel_a
                    &&& c.spec_channel_b() == channel_b
                },
                Err(e) => Self::rejection(mix, channel_a, channel_b) == Some(e),
            },
    {
        if mix > UNIT {
            Err(ConfigError::MixOutOfRange)
        } else if channel_a >= CHANNELS {
            Err(ConfigError::ChannelAOutOfRange)
        } else if channel_b >= CHANNELS {
            Err(ConfigError::ChannelBOutOfRange)
        } else {
            Ok(EngineConfig { mix, channel_a, channel_b })
        }
    }

    /// Accepts a mix ratio in `0..=UNIT` and two channels numbered from 1 to
    /// 16, as users number them, and stores the channels numbered from zero.
    pub fn from_user_channels(mix: u32, channel_a: u8, channel_b: u8) -> (r: Result<
        EngineConfig,
        ConfigError,
    >)
        ensures
            match r {
                Ok(c) => {
                    &&& Self::user_rejection(mix, channel_a, channel_b) is None
                    &&& c.wf()
                    &&& c.spec_mix() == mix
                    &&& c.spec_channel_a() == channel_a - 1
                    &&& c.spec_channel_b() == channel_b - 1
                },
                Err(e) => Self::user_rejection(mix, channel_a, channel_b) == Some(e),
            },
    {
        if mix > UNIT {
            Err(ConfigError::MixOutOfRange)
        } else if channel_a < 1 || channel_a > CHANNELS {
            Err(ConfigError::ChannelAOutOfRange)
        } else if channel_b < 1 || channel_b > CHANNELS {
            Err(ConfigError::ChannelBOutOfRange)
        } else {
            Ok(EngineConfig { mix, channel_a: channel_a - 1, channel_b: channel_b - 1 })
        }
    }

    #[verifier::when_used_as_spec(spec_mix)]
    pub fn mix(&self) -> (m: u32)
        ensures
            m == self.spec_mix(),
            m <= UNIT,
    {
        proof {
            use_type_invariant(self);
        }
        self.mix
    }

    #[verifier::when_used_as_spec(spec_channel_a)]
    pub fn channel_a(&self) -> (c: u8)
        ensures
            c == self.spec_channel_a(),
            c < CHANNELS,
    {
        proof {
            use_type_invariant(self);
        }
        self.channel_a
    }

    #[verifier::when_used_as_spec(spec_channel_b)]
    pub fn channel_b(&self) -> (c: u8)
        ensures
            c == self.spec_channel_b(),
            c < CHANNELS,
    {
        proof {
            use_type_invariant(self);
        }
        self.channel_b
    }
}

impl Default for EngineConfig {
    /// The mix ratio in the middle, channel A on the first channel and
    /// channel B on the second.
    fn default() -> (c: EngineConfig)
        ensures
            c.wf(),
            c.spec_mix() == UNIT / 2,
            c.spec_channel_a() == 0,
            c.spec_channel_b() == 1,
    {
        EngineConfig { mix: UNIT / 2, channel_a: 0, channel_b: 1 }
    }
}

} // verus!
