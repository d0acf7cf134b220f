//! The simulation configuration: the physical constants and the domain,
//! passed by value to every tick.
use vstd::prelude::*;
use crate::fixed::ONE;

verus! {

/// Largest accepted domain extent or interaction distance (2^36 millionths).
pub const EXTENT_LIMIT: i64 = 68_719_476_736;

/// Largest accepted magnitude of the repulsion and attraction constants
/// (2^32 millionths per tick).
pub const FORCE_LIMIT: i64 = 4_294_967_296;

/// Physical constants and domain size, all in fixed point (see `ONE`).
#[derive(Clone, Copy, Debug, PartialEq, Eq, Structural)]
pub struct SimConfig {
    /// Distance below which particles repel regardless of type.
    pub min_distance: i64,
    /// Distance from which particles no longer interact.
    pub max_distance: i64,
    pub repel_constant: i64,
    pub attract_constant: i64,
    /// Fraction of velocity lost per tick, in `[0, ONE]`.
    pub friction: i64,
    pub width: i64,
    pub height: i64,
}

/// Why a configuration was refused.
#[derive(Clone, Copy, Debug, PartialEq, Eq, Structural)]
pub enum ConfigError {
    NegativeDistance,
    InvertedDistances,
    DistanceTooLarge,
    ConstantTooLarge,
    FrictionOutOfRange,
    NonPositiveDomain,
    DomainTooLarge,
}

/// The first rule that the given values break, if any, in the order the
/// variants of `ConfigError` are listed.
pub open spec fn config_error(
    min_distance: int,
    max_distance: int,
    repel_constant: int,
    attract_constant: int,
    friction: int,
    width: int,
    height: int,
) -> Option<ConfigError> {
    if min_distance < 0 {
        Some(ConfigError::NegativeDistance)
    } else if max_distance < min_distance {
        Some(ConfigError::InvertedDistances)
    } else if max_distance > EXTENT_LIMIT {
        Some(ConfigError::DistanceTooLarge)
    } else if repel_constant < -FORCE_LIMIT || repel_constant > FORCE_LIMIT
        || attract_constant < -FORCE_LIMIT || attract_constant > FORCE_LIMIT {
        Some(ConfigError::ConstantTooLarge)
    } else if friction < 0 || friction > ONE {
        Some(ConfigError::FrictionOutOfRange)
    } else if width <= 0 || height <= 0 {
        Some(ConfigError::NonPositiveDomain)
    } else if width > EXTENT_LIMIT || height > EXTENT_LIMIT {
        Some(ConfigError::DomainTooLarge)
    } else {
        None
    }
}

impl SimConfig {
    pub open spec fn valid(&self) -> bool {
        config_error(
            self.min_distance as int,
            self.max_distance as int,
            self.repel_constant as int,
            self.attract_constant as int,
            self.friction as int,
            self.width as int,
            self.height as int,
        ) is None
    }

    /// Builds a configuration, refusing values the kernel cannot work with.
    pub fn new(
        min_distance: i64,
        max_distance: i64,
        repel_constant: i64,
        attract_constant: i64,
        friction: i64,
        width: i64,
        height: i64,
    ) -> (r: Result<SimConfig, ConfigError>)
        ensures
            match config_error(
                min_distance as int,
                max_distance as int,
                repel_constant as int,
                attract_constant as int,
                friction as int,
                width as int,
                height as int,
            ) {
                Some(e) => r == Err::<SimConfig, ConfigError>(e),
                None => r == Ok::<SimConfig, ConfigError>(
                    SimConfig {
                        min_distance,
                        max_distance,
                        repel_constant,
                        attract_constant,
                        friction,
                        width,
                        height,
                    },
                ),
            },
    {
        if min_distance < 0 {
            Err(ConfigError::NegativeDistance)
        } else if max_distance < min_distance {
            Err(ConfigError::InvertedDistances)
        } else if max_distance > EXTENT_LIMIT {
            Err(ConfigError::DistanceTooLarge)
        } else if repel_constant < -FORCE_LIMIT || repel_constant > FORCE_LIMIT
            || attract_constant < -FORCE_LIMIT || attract_constant > FORCE_LIMIT {
            Err(ConfigError::ConstantTooLarge)
        } else if friction < 0 || friction > ONE {
            Err(ConfigError::FrictionOutOfRange)
        } else if width <= 0 || height <= 0 {
            Err(ConfigError::NonPositiveDomain)
        } else if width > EXTENT_LIMIT || height > EXTENT_LIMIT {
            Err(ConfigError::DomainTooLarge)
        } else {
            Ok(SimConfig {
                min_distance,
                max_distance,
                repel_constant,
                attract_constant,
                friction,
                width,
                height,
            })
        }
    }

    /// The classic setting: a 1500 x 1500 domain, repulsion below 10,
    /// interaction up to 150, repulsion 2, attraction 0.03, friction 0.15.
    pub fn standard() -> (r: SimConfig)
        ensures
            r.valid(),
            r.min_distance == 10 * ONE,
            r.max_distance == 150 * ONE,
            r.repel_constant == 2 * ONE,
            r.attract_constant == 30_000,
            r.friction == 150_000,
            r.width == 1500 * ONE,
            r.height == 1500 * ONE,
    {
        SimConfig {
            min_distance: 10 * ONE,
            max_distance: 150 * ONE,
            repel_constant: 2 * ONE,
            attract_constant: 30_000,
            friction: 150_000,
            width: 1500 * ONE,
            height: 1500 * ONE,
        }
    }
}

} // verus!
