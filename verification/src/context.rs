//! The state of the pass over one function.

use crate::inserter::FunctionInserter;
use crate::post_order::PostOrder;
use vstd::prelude::*;

verus! {

/// The pass over one function.
#[derive(Debug)]
pub struct Context {
    pub post_order: PostOrder,
    pub inserter: FunctionInserter,
}

impl Context {
    /// Whether this state differs from an earlier one by new values only:
    /// every value of `before` is still there under its id, and instructions,
    /// blocks, replacements and the order of the blocks are as they were.
    pub open spec fn grew_from(&self, before: &Context) -> bool {
        &&& self.post_order.blocks@ == before.post_order.blocks@
        &&& self.inserter@.grew_from(before.inserter@)
    }
}

} // verus!
