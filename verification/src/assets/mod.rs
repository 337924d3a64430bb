//! Image and icon assets: the sidecar archive they ship in, decoding, and the
//! generation and recoloring of icon SVGs.

pub mod asset_laws;
pub mod bundle;
pub mod decode;
pub mod icons;
pub mod icons_gen;
pub mod json;
pub mod nowdat;
