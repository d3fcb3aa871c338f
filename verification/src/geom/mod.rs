//! Direction and classification primitives of the geometry.
pub mod card;
pub mod sector;

pub use crate::geom::card::Card;
pub use crate::geom::card::CardMask;
pub use crate::geom::sector::mask_has_corner_sector;
pub use crate::geom::sector::Sector;
pub use crate::geom::sector::ShapeKind;
pub use crate::geom::sector::Side;
