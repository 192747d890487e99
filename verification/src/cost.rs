//! What a step cost to produce.

use vstd::prelude::*;
use crate::binary64::{self, Binary64};

verus! {

/// Tokens in and out, and optionally the dollar figure the caller knew at
/// call time. `dollars == None` means "not recorded", never "free".
#[derive(Debug, Clone, Copy, PartialEq)]
pub struct StepCost {
    /// Tokens fed into the step.
    pub input_tokens: u64,
    /// Tokens produced by the step.
    pub output_tokens: u64,
    /// Dollar cost, as a binary64 bit pattern.
    pub dollars: Option<Binary64>,
}

/// `a + b`, or `u64::MAX` if that overflows.
pub open spec fn saturating_sum(a: u64, b: u64) -> u64 {
    if a + b > u64::MAX {
        u64::MAX
    } else {
        (a + b) as u64
    }
}

impl Default for StepCost {
    /// No tokens and no dollar figure.
    fn default() -> (c: StepCost)
        ensures
            c.input_tokens == 0 && c.output_tokens == 0 && c.dollars is None,
    {
        StepCost { input_tokens: 0, output_tokens: 0, dollars: None }
    }
}

impl StepCost {
    /// A token cost with no dollar figure.
    pub fn new(input_tokens: u64, output_tokens: u64) -> (c: StepCost)
        ensures
            c.input_tokens == input_tokens,
            c.output_tokens == output_tokens,
            c.dollars is None,
    {
        StepCost { input_tokens, output_tokens, dollars: None }
    }

    /// Builder: attach a dollar figure. Negative values and `NaN` become
    /// `0.0`.
    pub fn with_dollars(self, dollars: Binary64) -> (c: StepCost)
        ensures
            c.input_tokens == self.input_tokens,
            c.output_tokens == self.output_tokens,
            c.dollars == Some(binary64::non_negative_spec(dollars)),
    {
        StepCost { dollars: Some(binary64::non_negative(dollars)), ..self }
    }

    /// Input plus output tokens, saturating at `u64::MAX`.
    pub fn total_tokens(&self) -> (n: u64)
        ensures
            n == saturating_sum(self.input_tokens, self.output_tokens),
    {
        self.input_tokens.saturating_add(self.output_tokens)
    }

    /// True if nothing was recorded: no tokens and no dollar figure.
    pub fn is_zero(&self) -> (b: bool)
        ensures
            b == (self.input_tokens == 0 && self.output_tokens == 0 && self.dollars is None),
    {
        self.input_tokens == 0 && self.output_tokens == 0 && self.dollars.is_none()
    }
}

} // verus!
