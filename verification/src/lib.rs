//! QuickAccent's logic: its settings and their file, the accent picker's
//! pages, labels and window, and the requests of the panel menu.
pub mod config;
pub mod languages;
pub mod lines;
pub mod overlay;
pub mod service;
pub mod text;
pub mod toml_scan;

pub use config::{
    default_activation_key, default_hold_delay_ms, default_input_time_ms, default_languages,
    ActivationKey, Config,
};
pub use languages::replace_languages;
pub use overlay::{
    message_for, page_range, page_ranges, shows_page_counter, variant_label, App, GrabEvent, Message, Picker, PickerCell,
    WindowCommand,
};
pub use service::{Service, UiEvent};
