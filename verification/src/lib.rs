//! The verified core of a per-application volume mixer.

pub mod duck_detect;

pub mod duck_laws;

pub mod gain;

pub mod grouping;

pub mod grouping_laws;

pub mod hidden;

pub mod icons;

pub mod level;

pub mod linux;

pub mod linux_laws;

pub mod macos;

pub mod macos_apps;

pub mod macos_device;

pub mod macos_laws;

pub mod macos_listing;

pub mod macos_row_laws;

pub mod mix;

pub mod mix_laws;

pub mod mock;

pub mod name_map;

pub mod order;

pub mod poll;

pub mod poll_laws;

pub mod ring;

pub mod rounding;

pub mod seqs;

pub mod session;

pub mod session_laws;

pub mod sink_laws;

pub mod text;

pub mod text_laws;

pub mod window;

pub mod windows;

pub mod windows_capture;

pub mod windows_controls;

pub mod windows_laws;

pub mod windows_listing;

pub mod windows_routing;

pub mod windows_row_laws;
