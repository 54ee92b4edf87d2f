//! Logical core of a keyboard firmware: matrix scanning, debouncing,
//! layered action resolution with hold-tap keys, and HID report assembly.
//!
//! Every function in this crate is verified. Hardware access (pins, timer,
//! USB transport) stays outside; the crate exposes step functions that say
//! what to do next and take back what the hardware answered.
//!
//! - `matrix`: positions, raw frames, and the row-strobing scan sequence;
//! - `debounce`: the per-cell debounce filter and its events;
//! - `stream`: the events of one key over many frames;
//! - `action`, `layers`: what keys are bound to, and the validated table;
//! - `layout`: the layout engine;
//! - `holdtap`: what becomes of a pending hold-tap key;
//! - `report`: the report layout and its truncation rule;
//! - `assembler`: when a report goes out;
//! - `keyboard`: one tick, from raw frame to report.

pub mod action;
pub mod assembler;
pub mod debounce;
pub mod holdtap;
pub mod keyboard;
pub mod layers;
pub mod layout;
pub mod matrix;
pub mod report;
pub mod stream;
