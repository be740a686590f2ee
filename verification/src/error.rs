//! Why a document could not be parsed.

use crate::grammar::block::{BlockRule, BLOCK_RULES};
use vstd::prelude::*;

verus! {

/// The two ways in which a parse fails.
#[derive(Clone, Copy, Debug, PartialEq, Eq)]
pub enum ErrorKind {
    /// Input is left, and no rule matches at its head.
    GrammarMismatch,
    /// `rule` found the opening fence of its block, and no closing fence
    /// behind it.
    MalformedFence { rule: BlockRule },
}

/// A failed parse. No block is handed out with it.
#[derive(Clone, Copy, Debug, PartialEq, Eq)]
pub struct ParseError {
    pub kind: ErrorKind,
    /// How many bytes of the input were read as blocks before the failure:
    /// the position of the block that could not be read.
    pub position: usize,
}

impl BlockRule {
    /// The place of the rule in the order in which the rules are tried.
    pub open spec fn rank(self) -> int {
        match self {
            BlockRule::Header => 0,
            BlockRule::HorizontalRule => 1,
            BlockRule::UnorderedList => 2,
            BlockRule::OrderedList => 3,
            BlockRule::SourceCode => 4,
            BlockRule::Equation => 5,
            BlockRule::Quote => 6,
            BlockRule::TextLine => 7,
        }
    }
}

impl ErrorKind {
    /// The rules that were tried where the parse failed, in the order in
    /// which they were tried: all of them where none matched, and those up
    /// to the rule that found the fence where a fence is not closed.
    pub open spec fn attempted(self) -> Seq<BlockRule> {
        match self {
            ErrorKind::GrammarMismatch => BLOCK_RULES@,
            ErrorKind::MalformedFence { rule } => BLOCK_RULES@.take(rule.rank() + 1),
        }
    }
}

impl ParseError {
    /// The rules that were tried at `position`, in the order in which they
    /// were tried.
    pub fn attempted(&self) -> (rules: Vec<BlockRule>)
        ensures
            rules@ == self.kind.attempted(),
    {
        let mut rules: Vec<BlockRule> = Vec::new();
        let mut k: usize = 0;
        while k < BLOCK_RULES.len()
            invariant
                k <= BLOCK_RULES@.len(),
                rules@ == BLOCK_RULES@.take(k as int),
                self.kind matches ErrorKind::MalformedFence { rule } ==> k <= rule.rank(),
            decreases BLOCK_RULES@.len() - k,
        {
            let rule = BLOCK_RULES[k];
            rules.push(rule);
            assert(rules@ =~= BLOCK_RULES@.take(k + 1));
            k += 1;
            if let ErrorKind::MalformedFence { rule: fence } = self.kind {
                if rule == fence {
                    return rules;
                }
            }
        }
        assert(BLOCK_RULES@.take(k as int) =~= BLOCK_RULES@);
        rules
    }
}

} // verus!
