//! Remote control of a tethered camera: exposure, focus, capture, stacking.
pub mod align;
pub mod autofocus;
pub mod body;
pub mod capture;
pub mod composite;
pub mod connection;
pub mod detector;
pub mod grid;
pub mod jpeg;
pub mod json;
pub mod lifecycle;
pub mod lock;
pub mod markers;
pub mod order;
pub mod props;
pub mod reply;
pub mod stack;
pub mod stacker;
pub mod stars;
pub mod storage;
pub mod stream;
pub mod swaf;
pub mod sweep;
pub mod text;
pub mod wide;
