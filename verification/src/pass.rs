//! The pass over whole functions and programs.

use crate::context::Context;
use crate::dfg::{BlockView, Function, Ssa};
use crate::inserter::{resolver, FunctionInserter, InserterView};
use crate::instruction::{InstructionView, TerminatorView};
use crate::post_order::{comes_before, in_post_order, reachable, successors, PostOrder};
use crate::resolver::{canonical, lemma_canonical_is_where_it_settles, settles};
use crate::rewriter::{accessed_array, block_rewritten, can_process, lemma_can_process_stays, pads, rewritten, rewritten_upto, tracking_of};
use crate::tracker::{block_effect, Tracking};
use crate::value::{extends, BasicBlockId, InstructionId, ValueId, ValueView};
use vstd::prelude::*;

verus! {

/// Whether `b` stands in `order` behind position `i`.
pub open spec fn comes_after(order: Seq<BasicBlockId>, b: BasicBlockId, i: int) -> bool {
    exists|j: int| i < j < order.len() && order[j] == b
}

/// Whether `order` is an order in which the blocks of a function may be
/// rewritten: it holds the blocks within reach of the entry, each once,
/// starts with the entry, and has each block before the blocks that it leads
/// to, but for those that lead back to it.
pub open spec fn is_rewriting_order(state: InserterView, order: Seq<BasicBlockId>) -> bool {
    &&& forall|i: int, s: int|
        0 <= i < order.len() && 0 <= s < successors(state.dfg.blocks, order[i]).len() ==> comes_after(
            order,
            #[trigger] successors(state.dfg.blocks, order[i])[s],
            i,
        ) || reachable(state.dfg.blocks, successors(state.dfg.blocks, order[i])[s], order[i])
    &&& order.no_duplicates()
    &&& forall|b: BasicBlockId|
        order.contains(b) <==> b < state.dfg.blocks.len() && reachable(
            state.dfg.blocks,
            state.entry_block,
            b,
        )
    &&& order.len() > 0
    &&& order.first() == state.entry_block
}

/// Whether `end` is `start` after the first `n` blocks of `order` have been
/// rewritten one after the other.
pub open spec fn blocks_rewritten(start: InserterView, end: InserterView, order: Seq<BasicBlockId>, n: nat) -> bool
    decreases n,
{
    if n == 0 {
        end == start
    } else {
        exists|mid: InserterView|
            blocks_rewritten(start, mid, order, (n - 1) as nat) && #[trigger] block_rewritten(
                mid,
                end,
                order[n - 1],
            )
    }
}

/// Whether `post` is `pre` after every block within reach of the entry has
/// been rewritten, the entry first.
pub open spec fn function_rewritten(pre: InserterView, post: InserterView) -> bool {
    exists|order: Seq<BasicBlockId>| #[trigger]
        is_rewriting_order(pre, order) && blocks_rewritten(pre, post, order, order.len())
}

/// Whether every block within reach of the entry can be rewritten.
pub open spec fn can_process_all(state: InserterView) -> bool {
    forall|b: BasicBlockId|
        b < state.dfg.blocks.len() && #[trigger] reachable(state.dfg.blocks, state.entry_block, b)
            ==> can_process(state, b)
}

/// The state in which the pass over a function starts: nothing is replaced.
pub open spec fn initial(function: Function) -> InserterView {
    InserterView { dfg: function.dfg@, entry_block: function.entry_block, replaced: Map::empty() }
}

/// Whether `after` is what the pass makes of `before`.
pub open spec fn filled(before: Function, after: Function) -> bool {
    exists|end: InserterView| #[trigger]
        function_rewritten(initial(before), end) && end.dfg == after.dfg@ && end.entry_block
            == after.entry_block
}

impl Context {
    /// The state in which the pass over `function` starts.
    pub fn new(function: Function) -> (context: Context)
        requires
            function.wf(),
        ensures
            context.inserter.wf(),
            context.inserter@ == initial(function),
            context.inserter.function == function,
            context.post_order.blocks@.no_duplicates(),
            forall|b: BasicBlockId|
                context.post_order.blocks@.contains(b) <==> b < function.dfg@.blocks.len() && reachable(
                    function.dfg@.blocks,
                    function.entry_block,
                    b,
                ),
            context.post_order.blocks@.len() > 0,
            context.post_order.blocks@.last() == function.entry_block,
            in_post_order(function.dfg@.blocks, context.post_order.blocks@),
    {
        let post_order = PostOrder::with_function(&function);
        let inserter = FunctionInserter::new(function);
        Context { post_order, inserter }
    }

    /// Rewrites every block of the function that is within reach of its
    /// entry, in reverse post order: a block is rewritten before the blocks
    /// that it leads to, as far as no cycle forbids it.
    #[verifier::rlimit(50)]
    pub fn process_blocks(&mut self)
        requires
            old(self).inserter.wf(),
            can_process_all(old(self).inserter@),
        ensures
            final(self).inserter.wf(),
            final(self).post_order.blocks@ == old(self).post_order.blocks@,
            function_rewritten(old(self).inserter@, final(self).inserter@),
            extends(old(self).inserter@.dfg.values, final(self).inserter@.dfg.values),
    {
        let ghost pre = self.inserter@;
        let block_order = PostOrder::with_function(&self.inserter.function).into_vec();
        let count = block_order.len();
        let ghost listed = block_order@;
        let ghost order = Seq::new(count as nat, |k: int| listed[count - 1 - k]);
        proof {
            assert(listed.contains(listed.last()));
            assert forall|b: BasicBlockId| order.contains(b) <==> listed.contains(b) by {
                if order.contains(b) {
                    let k = choose|k: int| 0 <= k < order.len() && order[k] == b;
                    assert(listed[count - 1 - k] == b);
                }
                if listed.contains(b) {
                    let k = choose|k: int| 0 <= k < listed.len() && listed[k] == b;
                    assert(order[count - 1 - k] == b);
                }
            }
            assert forall|i: int, s: int|
                0 <= i < order.len() && 0 <= s < successors(pre.dfg.blocks, order[i]).len() implies comes_after(
                order,
                #[trigger] successors(pre.dfg.blocks, order[i])[s],
                i,
            ) || reachable(pre.dfg.blocks, successors(pre.dfg.blocks, order[i])[s], order[i]) by {
                let at = count - 1 - i;
                assert(order[i] == listed[at]);
                let next = successors(pre.dfg.blocks, listed[at])[s];
                if comes_before(listed, next, at) {
                    let j = choose|j: int| 0 <= j < at && listed[j] == next;
                    assert(order[count - 1 - j] == next);
                }
            }
            assert(is_rewriting_order(pre, order));
            assert forall|j: int| 0 <= j < count implies can_process(pre, #[trigger] order[j]) by {
                assert(order.contains(order[j]));
            }
        }
        let mut k: usize = 0;
        while k < count
            invariant
                k <= count,
                count == block_order.len(),
                listed == block_order@,
                order == Seq::new(count as nat, |k: int| listed[count - 1 - k]),
                order.no_duplicates(),
                self.inserter.wf(),
                self.post_order.blocks@ == old(self).post_order.blocks@,
                extends(pre.dfg.values, self.inserter@.dfg.values),
                blocks_rewritten(pre, self.inserter@, order, k as nat),
                forall|j: int| k <= j < count ==> can_process(self.inserter@, #[trigger] order[j]),
            decreases count - k,
        {
            let block: BasicBlockId = block_order[count - 1 - k];
            let ghost here = self.inserter@;
            assert(block == order[k as int]);
            self.process_block(block);
            proof {
                let now = self.inserter@;
                assert forall|j: int| k + 1 <= j < count implies can_process(now, #[trigger] order[j]) by {
                    assert(order[j] != order[k as int]);
                    lemma_can_process_stays(here, now, block, order[j]);
                }
                let next = (k + 1) as nat;
                assert(blocks_rewritten(pre, here, order, (next - 1) as nat));
                assert(block_rewritten(here, now, order[next - 1]));
                assert(blocks_rewritten(pre, now, order, next));
            }
            k += 1;
        }
    }
}

/// Whether the pass can run on `function`: it is well formed, and every
/// block within reach of its entry can be rewritten.
pub open spec fn can_fill(function: Function) -> bool {
    function.wf() && can_process_all(initial(function))
}

impl Ssa {
    /// Runs the pass on each function in turn, the last first. Where it is
    /// `guarded` it first makes sure that the pass can run on the function,
    /// and gives up where it cannot.
    #[verifier::rlimit(50)]
    fn fill_each(self, guarded: bool) -> (ssa: Option<Ssa>)
        requires
            !guarded ==> forall|i: int| 0 <= i < self.functions.len() ==> can_fill(#[trigger] self.functions@[i]),
        ensures
            match ssa {
                Some(filled_in) => {
                    &&& filled_in.functions.len() == self.functions.len()
                    &&& forall|i: int|
                        0 <= i < self.functions.len() ==> (#[trigger] filled_in.functions@[i]).wf() && filled(
                            self.functions@[i],
                            filled_in.functions@[i],
                        ) && can_fill(self.functions@[i])
                },
                None => guarded && exists|i: int|
                    0 <= i < self.functions.len() && !can_fill(#[trigger] self.functions@[i]),
            },
    {
        let ghost before = self.functions@;
        let mut waiting = self.functions;
        let mut reversed: Vec<Function> = Vec::new();
        while waiting.len() > 0
            invariant
                before == self.functions@,
                waiting.len() + reversed.len() == before.len(),
                forall|j: int| 0 <= j < waiting.len() ==> waiting@[j] == #[trigger] before[j],
                !guarded ==> forall|j: int| 0 <= j < before.len() ==> can_fill(#[trigger] before[j]),
                forall|j: int|
                    0 <= j < reversed.len() ==> (#[trigger] reversed@[j]).wf() && filled(
                        before[before.len() - 1 - j],
                        reversed@[j],
                    ) && can_fill(before[before.len() - 1 - j]),
            decreases waiting.len(),
        {
            let function = waiting.pop().unwrap();
            let ghost origin = function;
            assert(origin == before[waiting.len() as int]);
            if guarded && !function.is_well_formed() {
                assert(!can_fill(self.functions@[waiting.len() as int]));
                return None;
            }
            let mut context = Context::new(function);
            if guarded && !context.can_process_blocks() {
                assert(!can_fill(self.functions@[waiting.len() as int]));
                return None;
            }
            context.process_blocks();
            let ghost end = context.inserter@;
            let function = context.inserter.function;
            assert(function_rewritten(initial(origin), end) && end.dfg == function.dfg@ && end.entry_block
                == function.entry_block);
            assert(filled(origin, function));
            let ghost earlier = reversed@;
            reversed.push(function);
            assert forall|j: int| 0 <= j < reversed.len() implies (#[trigger] reversed@[j]).wf() && filled(
                before[before.len() - 1 - j],
                reversed@[j],
            ) && can_fill(before[before.len() - 1 - j]) by {
                if j < earlier.len() {
                    assert(reversed@[j] == earlier[j]);
                }
            }
        }
        let mut functions: Vec<Function> = Vec::new();
        while reversed.len() > 0
            invariant
                functions.len() + reversed.len() == before.len(),
                forall|j: int|
                    0 <= j < reversed.len() ==> (#[trigger] reversed@[j]).wf() && filled(
                        before[before.len() - 1 - j],
                        reversed@[j],
                    ) && can_fill(before[before.len() - 1 - j]),
                forall|j: int|
                    0 <= j < functions.len() ==> (#[trigger] functions@[j]).wf() && filled(
                        before[j],
                        functions@[j],
                    ) && can_fill(before[j]),
            decreases reversed.len(),
        {
            let ghost at = reversed.len() - 1;
            let ghost earlier = reversed@;
            let ghost listed = functions@;
            assert(earlier[at].wf() && filled(before[before.len() - 1 - at], earlier[at]) && can_fill(
                before[before.len() - 1 - at],
            ));
            let function = reversed.pop().unwrap();
            functions.push(function);
            assert forall|j: int| 0 <= j < functions.len() implies (#[trigger] functions@[j]).wf() && filled(
                before[j],
                functions@[j],
            ) && can_fill(before[j]) by {
                if j < listed.len() {
                    assert(functions@[j] == listed[j]);
                }
            }
            assert forall|j: int| 0 <= j < reversed.len() implies (#[trigger] reversed@[j]).wf() && filled(
                before[before.len() - 1 - j],
                reversed@[j],
            ) && can_fill(before[before.len() - 1 - j]) by {
                assert(reversed@[j] == earlier[j]);
            }
        }
        Some(Ssa { functions })
    }

    /// Fills the slices of every function with dummy data, so that every
    /// slice nested in another is as wide as the widest that may stand in
    /// its place: a read of a nested slice at an index that is in range for
    /// one branch of the program is then in range for every branch.
    pub fn fill_internal_slices(self) -> (ssa: Ssa)
        requires
            forall|i: int| 0 <= i < self.functions.len() ==> can_fill(#[trigger] self.functions@[i]),
        ensures
            ssa.functions.len() == self.functions.len(),
            forall|i: int|
                0 <= i < self.functions.len() ==> (#[trigger] ssa.functions@[i]).wf() && filled(
                    self.functions@[i],
                    ssa.functions@[i],
                ),
    {
        self.fill_each(false).unwrap()
    }

    /// Fills the slices of every function with dummy data as
    /// [`Ssa::fill_internal_slices`] does, if the pass can run on every
    /// function; gives `None` if there is one on which it cannot.
    pub fn try_fill_internal_slices(self) -> (ssa: Option<Ssa>)
        ensures
            match ssa {
                Some(filled_in) => {
                    &&& filled_in.functions.len() == self.functions.len()
                    &&& forall|i: int|
                        0 <= i < self.functions.len() ==> (#[trigger] filled_in.functions@[i]).wf() && filled(
                            self.functions@[i],
                            filled_in.functions@[i],
                        ) && can_fill(self.functions@[i])
                },
                None => exists|i: int| 0 <= i < self.functions.len() && !can_fill(#[trigger] self.functions@[i]),
            },
    {
        self.fill_each(true)
    }
}

/// Whether the instruction reads or writes an array constant whose type
/// holds a slice: the only instructions that make tracking mark an array.
pub open spec fn touches_slice(values: Seq<ValueView>, instruction: InstructionView) -> bool {
    accessed_array(instruction) matches Some(array) && array < values.len() && values[array as int] is Array
        && values[array as int].type_of().contains_slice_element()
}

/// Whether some instruction of `block` reads or writes an array constant
/// whose type holds a slice.
pub open spec fn block_touches_slices(state: InserterView, block: BasicBlockId) -> bool {
    let ids = state.dfg.blocks[block as int].instructions;
    exists|i: int|
        0 <= i < ids.len() && touches_slice(state.dfg.values, state.dfg.instructions[#[trigger] ids[i] as int])
}

/// Tracking marks no array as long as no instruction reads or writes an
/// array constant whose type holds a slice.
pub proof fn lemma_nothing_marked(
    values: Seq<ValueView>,
    instructions: Seq<InstructionView>,
    results: Seq<Seq<ValueId>>,
    ids: Seq<InstructionId>,
    n: nat,
)
    requires
        n <= ids.len(),
        block_effect(values, instructions, results, ids, n) is Some,
        forall|i: int| 0 <= i < n ==> !touches_slice(values, instructions[#[trigger] ids[i] as int]),
    ensures
        block_effect(values, instructions, results, ids, n).unwrap().seen.len() == 0,
    decreases n,
{
    if n > 0 {
        lemma_nothing_marked(values, instructions, results, ids, (n - 1) as nat);
        assert(!touches_slice(values, instructions[ids[n - 1] as int]));
    }
}

/// With nothing replaced, every value stands for itself.
pub proof fn lemma_nothing_replaced(instruction: InstructionView, terminator: TerminatorView)
    ensures
        forall|value: ValueId| #[trigger] canonical(Map::empty(), value) == value,
        instruction.map_values(resolver(Map::empty())) == instruction,
        terminator.map_values(resolver(Map::empty())) == terminator,
{
    let nothing = Map::<ValueId, ValueId>::empty();
    assert forall|value: ValueId| #[trigger] canonical(nothing, value) == value by {
        assert(settles(nothing, value, 0));
        lemma_canonical_is_where_it_settles(nothing, value, 0);
    }
    match instruction {
        InstructionView::Call { func, arguments } => {
            assert(arguments.map_values(resolver(nothing)) =~= arguments);
        },
        _ => {},
    }
    match terminator {
        TerminatorView::Jmp { destination, arguments } => {
            assert(arguments.map_values(resolver(nothing)) =~= arguments);
        },
        TerminatorView::Return { return_values } => {
            assert(return_values.map_values(resolver(nothing)) =~= return_values);
        },
        _ => {},
    }
}

/// Where tracking marked no array and nothing was replaced before, dealing
/// with instructions puts them back as they were.
pub proof fn lemma_untouched_upto(
    start: InserterView,
    end: InserterView,
    tracking: Tracking,
    block: BasicBlockId,
    ids: Seq<InstructionId>,
    n: nat,
)
    requires
        start.replaced == Map::<ValueId, ValueId>::empty(),
        tracking.seen.len() == 0,
        n <= ids.len(),
        block < start.dfg.blocks.len(),
        rewritten_upto(start, end, tracking, block, ids, n),
    ensures
        end == start.with_block(
            block,
            BlockView {
                instructions: start.dfg.blocks[block as int].instructions + ids.take(n as int),
                terminator: start.dfg.blocks[block as int].terminator,
            },
        ),
    decreases n,
{
    let list = start.dfg.blocks[block as int].instructions;
    if n == 0 {
        assert(list + ids.take(0) =~= list);
        assert(start.dfg.blocks.update(block as int, start.dfg.blocks[block as int]) =~= start.dfg.blocks);
    } else {
        let mid = choose|mid: InserterView|
            rewritten_upto(start, mid, tracking, block, ids, (n - 1) as nat) && #[trigger] rewritten(
                mid,
                end,
                tracking,
                block,
                ids[n - 1],
            );
        lemma_untouched_upto(start, mid, tracking, block, ids, (n - 1) as nat);
        let id = ids[n - 1];
        let instruction = mid.dfg.instructions[id as int];
        lemma_nothing_replaced(instruction, TerminatorView::Return { return_values: Seq::empty() });
        assert(!pads(instruction, tracking));
        assert(end == mid.kept(id, block));
        assert((list + ids.take(n - 1)).push(id) =~= list + ids.take(n as int));
        assert(end.dfg.blocks =~= start.dfg.blocks.update(
            block as int,
            BlockView {
                instructions: list + ids.take(n as int),
                terminator: start.dfg.blocks[block as int].terminator,
            },
        ));
    }
}

/// A block in which tracking marks no array is left as it was, as long as
/// nothing was replaced before: no value is made and no instruction is
/// replaced.
pub proof fn lemma_untouched_block(pre: InserterView, post: InserterView, block: BasicBlockId)
    requires
        block < pre.dfg.blocks.len(),
        pre.replaced == Map::<ValueId, ValueId>::empty(),
        tracking_of(pre, block) matches Some(tracking) && tracking.seen.len() == 0,
        block_rewritten(pre, post, block),
    ensures
        post == pre,
{
    let ids = pre.dfg.blocks[block as int].instructions;
    let tracking = tracking_of(pre, block).unwrap();
    let end = choose|end: InserterView|
        rewritten_upto(pre.emptied(block), end, tracking, block, ids, ids.len()) && post
            == #[trigger] end.terminated(block);
    lemma_untouched_upto(pre.emptied(block), end, tracking, block, ids, ids.len());
    assert(Seq::<InstructionId>::empty() + ids.take(ids.len() as int) =~= ids);
    match pre.dfg.blocks[block as int].terminator {
        Some(terminator) => {
            lemma_nothing_replaced(InstructionView::Allocate, terminator);
        },
        None => {},
    }
    assert(post.dfg.blocks =~= pre.dfg.blocks);
}

/// A function in which no block within reach of the entry reads or writes an
/// array constant whose type holds a slice comes out of the pass as it went
/// in.
pub proof fn lemma_untouched_function(pre: InserterView, post: InserterView, order: Seq<BasicBlockId>, n: nat)
    requires
        pre.replaced == Map::<ValueId, ValueId>::empty(),
        n <= order.len(),
        forall|k: int| 0 <= k < order.len() ==> #[trigger] order[k] < pre.dfg.blocks.len(),
        forall|k: int|
            0 <= k < order.len() ==> can_process(pre, #[trigger] order[k]) && !block_touches_slices(
                pre,
                order[k],
            ),
        blocks_rewritten(pre, post, order, n),
    ensures
        post == pre,
    decreases n,
{
    if n > 0 {
        let mid = choose|mid: InserterView|
            blocks_rewritten(pre, mid, order, (n - 1) as nat) && #[trigger] block_rewritten(
                mid,
                post,
                order[n - 1],
            );
        lemma_untouched_function(pre, mid, order, (n - 1) as nat);
        let block = order[n - 1];
        let ids = pre.dfg.blocks[block as int].instructions;
        assert(can_process(pre, block) && !block_touches_slices(pre, block));
        lemma_nothing_marked(pre.dfg.values, pre.dfg.instructions, pre.dfg.results, ids, ids.len());
        lemma_untouched_block(pre, post, block);
    }
}

/// The pass leaves a function as it is where no block within reach of its
/// entry reads or writes an array constant whose type holds a slice.
pub proof fn lemma_nothing_to_fill(before: Function, after: Function)
    requires
        can_process_all(initial(before)),
        forall|b: BasicBlockId|
            b < before.dfg@.blocks.len() && #[trigger] reachable(before.dfg@.blocks, before.entry_block, b)
                ==> !block_touches_slices(initial(before), b),
        filled(before, after),
    ensures
        after.dfg@ == before.dfg@,
        after.entry_block == before.entry_block,
{
    let pre = initial(before);
    let end = choose|end: InserterView| #[trigger]
        function_rewritten(pre, end) && end.dfg == after.dfg@ && end.entry_block == after.entry_block;
    let order = choose|order: Seq<BasicBlockId>| #[trigger]
        is_rewriting_order(pre, order) && blocks_rewritten(pre, end, order, order.len());
    assert forall|k: int| 0 <= k < order.len() implies (#[trigger] order[k]) < pre.dfg.blocks.len()
        && can_process(pre, order[k]) && !block_touches_slices(pre, order[k]) by {
        assert(order.contains(order[k]));
    }
    lemma_untouched_function(pre, end, order, order.len());
}

} // verus!
