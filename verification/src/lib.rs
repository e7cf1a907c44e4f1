//! Decisions of an audio control popup: grouping of playback streams per
//! application, reconciliation of the widgets that show streams, devices and
//! media players, theme colour parsing and the stylesheet built from it.
pub mod text;
pub mod theme;
pub mod audio;
pub mod mixer;
pub mod decimal;
pub mod devices;
pub mod widgets;
pub mod icons;
pub mod media;
