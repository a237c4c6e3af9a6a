//! Configuration flags consumed by every pipeline stage.

use vstd::prelude::*;

verus! {

/// The set of recognized output and preprocessing options. Every combination
/// of flags is valid; the configuration is immutable once constructed and is
/// passed by reference to each stage.
#[derive(Clone, Copy, PartialEq, Eq, Structural, Debug)]
pub struct RegExpConfig {
    /// Lowercase all examples first and emit the inline case-insensitivity flag.
    pub is_case_insensitive_matching: bool,
    /// Merge single-character literal units into character-class units.
    pub is_char_class_feature_enabled: bool,
    /// Fold runs of equal units into a single quantified unit.
    pub is_repetition_converted: bool,
    /// Wrap an alternation root in a capturing group instead of a non-capturing one.
    pub is_capturing_group_enabled: bool,
    /// Wrap decorations and tokens in terminal color escape sequences.
    pub is_output_colorized: bool,
    /// Route rendering through the verbose reformatter.
    pub is_verbose_mode_enabled: bool,
}

impl RegExpConfig {
    /// The default configuration: every feature switched off.
    pub fn new() -> (c: RegExpConfig)
        ensures
            !c.is_case_insensitive_matching,
            !c.is_char_class_feature_enabled,
            !c.is_repetition_converted,
            !c.is_capturing_group_enabled,
            !c.is_output_colorized,
            !c.is_verbose_mode_enabled,
    {
        RegExpConfig {
            is_case_insensitive_matching: false,
            is_char_class_feature_enabled: false,
            is_repetition_converted: false,
            is_capturing_group_enabled: false,
            is_output_colorized: false,
            is_verbose_mode_enabled: false,
        }
    }

    pub fn is_case_insensitive_matching(&self) -> (b: bool)
        ensures
            b == self.is_case_insensitive_matching,
    {
        self.is_case_insensitive_matching
    }

    pub fn is_char_class_feature_enabled(&self) -> (b: bool)
        ensures
            b == self.is_char_class_feature_enabled,
    {
        self.is_char_class_feature_enabled
    }

    pub fn is_repetition_converted(&self) -> (b: bool)
        ensures
            b == self.is_repetition_converted,
    {
        self.is_repetition_converted
    }

    pub fn is_capturing_group_enabled(&self) -> (b: bool)
        ensures
            b == self.is_capturing_group_enabled,
    {
        self.is_capturing_group_enabled
    }
}

} // verus!
