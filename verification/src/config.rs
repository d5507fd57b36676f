//! The user's settings: the accent sets to offer, the timing thresholds and
//! the key that opens the picker.
use vstd::prelude::*;
use crate::text::{same_text, texts};

verus! {

/// Which key(s) open the accent picker while a letter is held.
#[derive(Debug, Clone, Copy, PartialEq, Eq, Structural)]
pub enum ActivationKey {
    Space,
    LeftRightArrow,
    Both,
}

/// The settings read from `config.toml`.
#[derive(Debug, Clone)]
pub struct Config {
    pub languages: Vec<String>,
    pub input_time_ms: u64,
    pub hold_delay_ms: u64,
    pub activation_key: String,
}

/// The key named by the `activation_key` setting: `"Space"` and
/// `"LeftRightArrow"` name themselves; any other text means both.
pub open spec fn activation_key_named(name: Seq<char>) -> ActivationKey {
    if name == "Space"@ {
        ActivationKey::Space
    } else if name == "LeftRightArrow"@ {
        ActivationKey::LeftRightArrow
    } else {
        ActivationKey::Both
    }
}

/// The language list used when the file names none: French alone.
pub fn default_languages() -> (r: Vec<String>)
    ensures
        texts(r@) == seq!["French"@],
{
    let french = "French".to_owned();
    let r = vec![french];
    assert(texts(r@) =~= seq!["French"@]);
    r
}

/// Minimum hold (ms) before an accent is committed.
pub fn default_input_time_ms() -> (r: u64)
    ensures
        r == 200,
{
    200
}

/// Minimum hold (ms) before the activation key shows the picker.
pub fn default_hold_delay_ms() -> (r: u64)
    ensures
        r == 250,
{
    250
}

/// The activation key used when the file names none.
pub fn default_activation_key() -> (r: String)
    ensures
        r@ == "Both"@,
{
    "Both".to_owned()
}

impl Config {
    /// The activation key this configuration names.
    pub fn activation_key_parsed(&self) -> (r: ActivationKey)
        ensures
            r == activation_key_named(self.activation_key@),
    {
        let name = self.activation_key.as_str();
        if same_text(name, "Space") {
            ActivationKey::Space
        } else if same_text(name, "LeftRightArrow") {
            ActivationKey::LeftRightArrow
        } else {
            ActivationKey::Both
        }
    }
}

impl Default for Config {
    fn default() -> (c: Config)
        ensures
            texts(c.languages@) == seq!["French"@],
            c.input_time_ms == 200,
            c.hold_delay_ms == 250,
            c.activation_key@ == "Both"@,
    {
        Config {
            languages: default_languages(),
            input_time_ms: default_input_time_ms(),
            hold_delay_ms: default_hold_delay_ms(),
            activation_key: default_activation_key(),
        }
    }
}

} // verus!
