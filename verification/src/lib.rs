//! A hypersphere-invariant automated market maker.
//!
//! A pool holds reserves of `n` tokens constrained to the surface of a
//! hypersphere of radius `r`: the reserves always satisfy
//! `sum_i (r - x_i)^2 == r^2` up to a documented tolerance.  Liquidity bands
//! wrap one pool each with a plane constant and simplified liquidity-provider
//! share accounting, and an aggregator routes trades across many bands.
//!
//! All quantities (amounts, reserves, radii, plane constants, percentages)
//! are fixed-point integers counted in millionths of a token unit, so that
//! every computation is exact integer arithmetic with stated rounding.

pub mod errors;
pub mod numerics;
pub mod sphere;
pub mod ticks;
mod text;

pub use errors::AmmError;
pub use sphere::SphereAMM;
pub use ticks::MarketSnapshot;
pub use ticks::MultiTickAMM;
pub use ticks::OrbitalTick;
pub use ticks::TickSnapshot;
