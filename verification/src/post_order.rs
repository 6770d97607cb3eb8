//! The order in which the blocks of a function are rewritten.

use crate::dfg::{BlockView, DataFlowGraph, Function};
use crate::instruction::TerminatorInstruction;
use crate::value::BasicBlockId;
use vstd::prelude::*;

verus! {

/// The blocks that control may go to from the end of block `b`.
pub open spec fn successors(blocks: Seq<BlockView>, b: BasicBlockId) -> Seq<BasicBlockId> {
    match blocks[b as int].terminator {
        Some(terminator) => terminator.successors(),
        None => Seq::empty(),
    }
}

/// Whether control can get from `from` to `to` in `steps` jumps.
pub open spec fn leads_to(blocks: Seq<BlockView>, from: BasicBlockId, to: BasicBlockId, steps: nat) -> bool
    decreases steps,
{
    if steps == 0 {
        from == to
    } else {
        exists|mid: BasicBlockId|
            leads_to(blocks, from, mid, (steps - 1) as nat) && mid < blocks.len() && (#[trigger] successors(
                blocks,
                mid,
            )).contains(to)
    }
}

/// Whether control can get from `entry` to `b`.
pub open spec fn reachable(blocks: Seq<BlockView>, entry: BasicBlockId, b: BasicBlockId) -> bool {
    exists|steps: nat| leads_to(blocks, entry, b, steps)
}

/// The number of blocks not yet visited.
pub open spec fn unvisited(visited: Seq<bool>) -> nat
    decreases visited.len(),
{
    if visited.len() == 0 {
        0
    } else {
        unvisited(visited.drop_last()) + if visited.last() {
            0nat
        } else {
            1nat
        }
    }
}

/// Visiting one more block leaves one block fewer to visit.
proof fn lemma_visit_one(visited: Seq<bool>, b: int)
    requires
        0 <= b < visited.len(),
        !visited[b],
    ensures
        unvisited(visited.update(b, true)) + 1 == unvisited(visited),
    decreases visited.len(),
{
    let marked = visited.update(b, true);
    if b == visited.len() - 1 {
        assert(marked.drop_last() =~= visited.drop_last());
    } else {
        assert(marked.drop_last() =~= visited.drop_last().update(b, true));
        lemma_visit_one(visited.drop_last(), b);
    }
}

/// Visiting more blocks leaves no more blocks to visit.
proof fn lemma_visit_more(before: Seq<bool>, after: Seq<bool>)
    requires
        before.len() == after.len(),
        forall|b: int| 0 <= b < before.len() && before[b] ==> after[b],
    ensures
        unvisited(after) <= unvisited(before),
    decreases before.len(),
{
    if before.len() > 0 {
        lemma_visit_more(before.drop_last(), after.drop_last());
    }
}

/// What a walk has done between two of its states: blocks that were visited
/// stay visited, the order grew at its end, and what it grew by are blocks
/// that were visited in between, each once, each within reach of `entry`.
pub open spec fn walked(
    blocks: Seq<BlockView>,
    entry: BasicBlockId,
    visited: Seq<bool>,
    order: Seq<BasicBlockId>,
    later_visited: Seq<bool>,
    later_order: Seq<BasicBlockId>,
) -> bool {
    &&& visited.len() == blocks.len()
    &&& later_visited.len() == blocks.len()
    &&& forall|b: int| 0 <= b < blocks.len() && visited[b] ==> later_visited[b]
    &&& order.is_prefix_of(later_order)
    &&& forall|k: int|
        order.len() <= k < later_order.len() ==> {
            &&& (#[trigger] later_order[k]) < blocks.len()
            &&& !visited[later_order[k] as int]
            &&& later_visited[later_order[k] as int]
        }
    &&& forall|j: int, k: int|
        order.len() <= j < k < later_order.len() ==> later_order[j] != later_order[k]
    &&& forall|b: int|
        0 <= b < blocks.len() && later_visited[b] && !visited[b] ==> reachable(
            blocks,
            entry,
            b as BasicBlockId,
        )
}

/// Whether the walk is through with every block visited between two of its
/// states, but for `open`: the block is in the order, and so is every block
/// that it leads to.
pub open spec fn settled(
    blocks: Seq<BlockView>,
    visited: Seq<bool>,
    order: Seq<BasicBlockId>,
    later_visited: Seq<bool>,
    later_order: Seq<BasicBlockId>,
    open: Option<BasicBlockId>,
) -> bool {
    forall|b: int|
        0 <= b < blocks.len() && #[trigger] later_visited[b] && !visited[b] && open != Some(
            b as BasicBlockId,
        ) ==> {
            &&& exists|k: int| order.len() <= k < later_order.len() && later_order[k] == b
            &&& forall|s: int|
                0 <= s < successors(blocks, b as BasicBlockId).len() ==> (#[trigger] successors(blocks, b as BasicBlockId)[s]) < blocks.len() && later_visited[successors(blocks, b as BasicBlockId)[s] as int]
        }
}

/// Whether every block that the walk has visited but is not through with
/// leads to `target`.
pub open spec fn open_lead_to(
    blocks: Seq<BlockView>,
    visited: Seq<bool>,
    order: Seq<BasicBlockId>,
    target: BasicBlockId,
) -> bool {
    forall|g: int|
        0 <= g < blocks.len() && #[trigger] visited[g] && !order.contains(g as BasicBlockId) ==> reachable(
            blocks,
            g as BasicBlockId,
            target,
        )
}

/// Whether `b` stands in `order` before position `i`.
pub open spec fn comes_before(order: Seq<BasicBlockId>, b: BasicBlockId, i: int) -> bool {
    exists|j: int| 0 <= j < i && order[j] == b
}

/// Whether `order` is a post order: each block stands after the blocks that
/// it leads to, but for those that lead back to it.
pub open spec fn in_post_order(blocks: Seq<BlockView>, order: Seq<BasicBlockId>) -> bool {
    forall|i: int, s: int|
        0 <= i < order.len() && 0 <= s < successors(blocks, order[i]).len() ==> comes_before(
            order,
            #[trigger] successors(blocks, order[i])[s],
            i,
        ) || reachable(blocks, successors(blocks, order[i])[s], order[i])
}

/// What leads to a block leads to the blocks that it jumps to.
proof fn lemma_reaches_on(blocks: Seq<BlockView>, from: BasicBlockId, mid: BasicBlockId, to: BasicBlockId)
    requires
        reachable(blocks, from, mid),
        mid < blocks.len(),
        successors(blocks, mid).contains(to),
    ensures
        reachable(blocks, from, to),
{
    let steps = choose|steps: nat| leads_to(blocks, from, mid, steps);
    assert(leads_to(blocks, from, to, steps + 1));
}

/// A post order stays one when blocks are put behind it whose jumps keep
/// to the rule.
proof fn lemma_post_order_grows(blocks: Seq<BlockView>, order: Seq<BasicBlockId>, longer: Seq<BasicBlockId>)
    requires
        in_post_order(blocks, order),
        order.is_prefix_of(longer),
        forall|i: int, s: int|
            order.len() <= i < longer.len() && 0 <= s < successors(blocks, longer[i]).len() ==> comes_before(
                longer,
                #[trigger] successors(blocks, longer[i])[s],
                i,
            ) || reachable(blocks, successors(blocks, longer[i])[s], longer[i]),
    ensures
        in_post_order(blocks, longer),
{
    assert forall|i: int, s: int|
        0 <= i < longer.len() && 0 <= s < successors(blocks, longer[i]).len() implies comes_before(
        longer,
        #[trigger] successors(blocks, longer[i])[s],
        i,
    ) || reachable(blocks, successors(blocks, longer[i])[s], longer[i]) by {
        if i < order.len() {
            assert(longer[i] == order[i]);
            let next = successors(blocks, order[i])[s];
            if comes_before(order, next, i) {
                let j = choose|j: int| 0 <= j < i && order[j] == next;
                assert(longer[j] == next);
            }
        }
    }
}

/// The blocks that control may go to from the end of block `b`.
fn successors_of(dfg: &DataFlowGraph, b: BasicBlockId) -> (next: Vec<BasicBlockId>)
    requires
        b < dfg@.blocks.len(),
    ensures
        next@ == successors(dfg@.blocks, b),
{
    let mut next: Vec<BasicBlockId> = Vec::new();
    match &dfg.blocks[b].terminator {
        Some(TerminatorInstruction::JmpIf { then_destination, else_destination, .. }) => {
            next.push(*then_destination);
            next.push(*else_destination);
        },
        Some(TerminatorInstruction::Jmp { destination, .. }) => {
            next.push(*destination);
        },
        _ => {},
    }
    assert(next@ =~= successors(dfg@.blocks, b));
    next
}

/// Two stretches of a walk, one after the other, make one.
proof fn lemma_walked_again(
    blocks: Seq<BlockView>,
    entry: BasicBlockId,
    visited0: Seq<bool>,
    order0: Seq<BasicBlockId>,
    visited1: Seq<bool>,
    order1: Seq<BasicBlockId>,
    visited2: Seq<bool>,
    order2: Seq<BasicBlockId>,
    open: Option<BasicBlockId>,
)
    requires
        walked(blocks, entry, visited0, order0, visited1, order1),
        walked(blocks, entry, visited1, order1, visited2, order2),
        settled(blocks, visited0, order0, visited1, order1, open),
        settled(blocks, visited1, order1, visited2, order2, None),
    ensures
        walked(blocks, entry, visited0, order0, visited2, order2),
        settled(blocks, visited0, order0, visited2, order2, open),
{
    assert forall|k: int| order0.len() <= k < order2.len() implies {
        &&& (#[trigger] order2[k]) < blocks.len()
        &&& !visited0[order2[k] as int]
        &&& visited2[order2[k] as int]
    } by {
        if k < order1.len() {
            assert(order2[k] == order1[k]);
        }
    }
    assert forall|j: int, k: int| order0.len() <= j < k < order2.len() implies order2[j] != order2[k] by {
        if j < order1.len() {
            assert(order2[j] == order1[j]);
            if k < order1.len() {
                assert(order2[k] == order1[k]);
            } else {
                assert(visited1[order1[j] as int]);
                assert(!visited1[order2[k] as int]);
            }
        }
    }
    assert forall|b: int|
        0 <= b < blocks.len() && #[trigger] visited2[b] && !visited0[b] && open != Some(
            b as BasicBlockId,
        ) implies {
        &&& exists|k: int| order0.len() <= k < order2.len() && order2[k] == b
        &&& forall|s: int|
            0 <= s < successors(blocks, b as BasicBlockId).len() ==> (#[trigger] successors(blocks, b as BasicBlockId)[s]) < blocks.len() && visited2[successors(blocks, b as BasicBlockId)[s] as int]
    } by {
        if visited1[b] {
            let k = choose|k: int| order0.len() <= k < order1.len() && order1[k] == b;
            assert(order2[k] == b);
            assert forall|s: int| 0 <= s < successors(blocks, b as BasicBlockId).len() implies (#[trigger] successors(blocks, b as BasicBlockId)[s]) < blocks.len() && visited2[successors(blocks, b as BasicBlockId)[s] as int] by {
                let next = successors(blocks, b as BasicBlockId)[s];
                assert(visited1[next as int]);
            }
        } else {
            let k = choose|k: int| order1.len() <= k < order2.len() && order2[k] == b;
            assert(order0.len() <= k);
        }
    }
}

/// Visits `block` and whatever it leads to that was not visited before, and
/// puts each at the end of `order` once it is through with what the block
/// leads to.
#[verifier::rlimit(50)]
fn visit(
    dfg: &DataFlowGraph,
    block: BasicBlockId,
    visited: &mut Vec<bool>,
    order: &mut Vec<BasicBlockId>,
    Ghost(entry): Ghost<BasicBlockId>,
)
    requires
        dfg.wf(),
        block < dfg@.blocks.len(),
        old(visited).len() == dfg@.blocks.len(),
        !old(visited)[block as int],
        reachable(dfg@.blocks, entry, block),
        open_lead_to(dfg@.blocks, old(visited)@, old(order)@, block),
        in_post_order(dfg@.blocks, old(order)@),
    ensures
        in_post_order(dfg@.blocks, final(order)@),
        walked(dfg@.blocks, entry, old(visited)@, old(order)@, final(visited)@, final(order)@),
        settled(dfg@.blocks, old(visited)@, old(order)@, final(visited)@, final(order)@, None),
        final(visited)[block as int],
        final(order).len() > old(order).len(),
        final(order)@.last() == block,
    decreases unvisited(old(visited)@),
{
    let ghost blocks = dfg@.blocks;
    let ghost visited0 = visited@;
    let ghost order0 = order@;
    visited.set(block, true);
    let ghost visited1 = visited@;
    proof {
        lemma_visit_one(visited0, block as int);
        assert(blocks[block as int].wf(dfg@.instructions.len(), dfg@.values.len(), blocks.len()));
        assert(walked(blocks, entry, visited0, order0, visited1, order0));
        assert(leads_to(blocks, block, block, 0));
        assert(open_lead_to(blocks, visited1, order0, block));

    }
    let next = successors_of(dfg, block);
    let mut i: usize = 0;
    while i < next.len()
        invariant
            i <= next.len(),
            dfg.wf(),
            blocks == dfg@.blocks,
            block < blocks.len(),
            visited0 == old(visited)@,
            order0 == old(order)@,
            next@ == successors(blocks, block),
            forall|s: int| 0 <= s < next.len() ==> next[s] < blocks.len(),
            visited1 == visited0.update(block as int, true),
            unvisited(visited1) + 1 == unvisited(visited0),
            visited0.len() == blocks.len(),
            !visited0[block as int],
            reachable(blocks, entry, block),
            walked(blocks, entry, visited0, order0, visited@, order@),
            settled(blocks, visited0, order0, visited@, order@, Some(block)),
            visited[block as int],
            forall|k: int| order0.len() <= k < order.len() ==> order[k] != block,
            forall|s: int| 0 <= s < i ==> visited[next[s] as int],
            open_lead_to(blocks, visited@, order@, block),
            in_post_order(blocks, order@),
        decreases next.len() - i,
    {
        let target: BasicBlockId = next[i];
        if !visited[target] {
            let ghost visited2 = visited@;
            let ghost order2 = order@;
            proof {
                assert forall|b: int| 0 <= b < visited1.len() && visited1[b] implies visited2[b] by {
                    if b != block {
                        assert(visited0[b]);
                    }
                }
                lemma_visit_more(visited1, visited2);
                let steps = choose|steps: nat| leads_to(blocks, entry, block, steps);
                assert(successors(blocks, block).contains(target));
                assert(leads_to(blocks, entry, target, steps + 1));
                assert forall|g: int|
                    0 <= g < blocks.len() && #[trigger] visited2[g] && !order2.contains(
                        g as BasicBlockId,
                    ) implies reachable(blocks, g as BasicBlockId, target) by {
                    lemma_reaches_on(blocks, g as BasicBlockId, block, target);
                }
            }
            visit(dfg, target, visited, order, Ghost(entry));
            proof {
                let visited3 = visited@;
                let order3 = order@;
                lemma_walked_again(
                    blocks,
                    entry,
                    visited0,
                    order0,
                    visited2,
                    order2,
                    visited3,
                    order3,
                    Some(block),
                );
                assert forall|k: int| order0.len() <= k < order3.len() implies order3[k] != block by {
                    if k < order2.len() {
                        assert(order3[k] == order2[k]);
                    } else {
                        assert(!visited2[order3[k] as int]);
                    }
                }
                assert forall|s: int| 0 <= s < i + 1 implies visited3[next[s] as int] by {
                    assert(visited2[next[s] as int] ==> visited3[next[s] as int]);
                }
                assert forall|g: int|
                    0 <= g < blocks.len() && #[trigger] visited3[g] && !order3.contains(
                        g as BasicBlockId,
                    ) implies reachable(blocks, g as BasicBlockId, block) by {
                    if visited2[g] {
                        if order2.contains(g as BasicBlockId) {
                            let k = choose|k: int| 0 <= k < order2.len() && order2[k] == g as BasicBlockId;
                            assert(order3[k] == g as BasicBlockId);
                        }
                    } else {
                        let k = choose|k: int| order2.len() <= k < order3.len() && order3[k] == g;
                        assert(order3[k] == g as BasicBlockId);
                    }
                }
            }
        }
        i += 1;
    }
    let ghost visited4 = visited@;
    let ghost order4 = order@;
    order.push(block);
    proof {
        let order5 = order@;
        assert forall|i: int, s: int|
            order4.len() <= i < order5.len() && 0 <= s < successors(blocks, order5[i]).len() implies comes_before(
            order5,
            #[trigger] successors(blocks, order5[i])[s],
            i,
        ) || reachable(blocks, successors(blocks, order5[i])[s], order5[i]) by {
            let target = next[s];
            assert(visited4[target as int]);
            if order4.contains(target) {
                let j = choose|j: int| 0 <= j < order4.len() && order4[j] == target;
                assert(order5[j] == target);
            } else {
                assert(reachable(blocks, target as int as BasicBlockId, block));
            }
        }
        lemma_post_order_grows(blocks, order4, order5);
        assert forall|k: int| order0.len() <= k < order5.len() implies {
            &&& (#[trigger] order5[k]) < blocks.len()
            &&& !visited0[order5[k] as int]
            &&& visited4[order5[k] as int]
        } by {
            if k < order4.len() {
                assert(order5[k] == order4[k]);
            }
        }
        assert forall|j: int, k: int| order0.len() <= j < k < order5.len() implies order5[j] != order5[k] by {
            assert(order5[j] == order4[j]);
            if k < order4.len() {
                assert(order5[k] == order4[k]);
            }
        }
        assert forall|b: int|
            0 <= b < blocks.len() && #[trigger] visited4[b] && !visited0[b] && None::<BasicBlockId> != Some(
                b as BasicBlockId,
            ) implies {
            &&& exists|k: int| order0.len() <= k < order5.len() && order5[k] == b
            &&& forall|s: int|
                0 <= s < successors(blocks, b as BasicBlockId).len() ==> (#[trigger] successors(blocks, b as BasicBlockId)[s]) < blocks.len() && visited4[successors(blocks, b as BasicBlockId)[s] as int]
        } by {
            if b == block {
                assert(order5[order5.len() - 1] == b);
                assert forall|s: int| 0 <= s < successors(blocks, b as BasicBlockId).len() implies (#[trigger] successors(blocks, b as BasicBlockId)[s]) < blocks.len() && visited4[successors(blocks, b as BasicBlockId)[s] as int] by {
                    assert(visited4[next[s] as int]);
                }
            } else {
                let k = choose|k: int| order0.len() <= k < order4.len() && order4[k] == b;
                assert(order5[k] == b);
            }
        }
    }
}

/// The blocks of a function that can be reached from its entry, each after
/// the blocks that it leads to and that were not met before it.
#[derive(Debug)]
pub struct PostOrder {
    pub blocks: Vec<BasicBlockId>,
}

impl PostOrder {
    /// Walks the blocks of `function` from its entry, depth first, and lists
    /// each block once the walk is through with the blocks it leads to. The
    /// list holds the blocks within reach of the entry, each once, the entry
    /// last.
    pub fn with_function(function: &Function) -> (post_order: PostOrder)
        requires
            function.wf(),
        ensures
            post_order.blocks@.no_duplicates(),
            forall|b: BasicBlockId|
                post_order.blocks@.contains(b) <==> b < function.dfg@.blocks.len() && reachable(
                    function.dfg@.blocks,
                    function.entry_block,
                    b,
                ),
            post_order.blocks@.len() > 0,
            post_order.blocks@.last() == function.entry_block,
            in_post_order(function.dfg@.blocks, post_order.blocks@),
    {
        let ghost blocks = function.dfg@.blocks;
        let ghost entry = function.entry_block;
        let mut visited: Vec<bool> = Vec::new();
        let mut b: usize = 0;
        while b < function.dfg.blocks.len()
            invariant
                b <= function.dfg.blocks.len(),
                visited.len() == b,
                forall|k: int| 0 <= k < b ==> !visited[k],
            decreases function.dfg.blocks.len() - b,
        {
            visited.push(false);
            b += 1;
        }
        let mut order: Vec<BasicBlockId> = Vec::new();
        assert(leads_to(blocks, entry, entry, 0));
        let ghost visited0 = visited@;
        visit(&function.dfg, function.entry_block, &mut visited, &mut order, Ghost(entry));
        proof {
            let listed = order@;
            let seen = visited@;
            assert forall|b: BasicBlockId| listed.contains(b) implies b < blocks.len() && reachable(
                blocks,
                entry,
                b,
            ) by {
                let k = choose|k: int| 0 <= k < listed.len() && listed[k] == b;
                assert(listed[k] < blocks.len());
            }
            assert forall|b: BasicBlockId| b < blocks.len() && reachable(blocks, entry, b) implies listed.contains(
                b,
            ) by {
                let steps = choose|steps: nat| leads_to(blocks, entry, b, steps);
                lemma_walk_is_complete(blocks, entry, visited0, seen, listed, b, steps);
                assert(seen[b as int]);
            }
        }
        PostOrder { blocks: order }
    }

    /// The blocks, in order.
    pub fn into_vec(self) -> (blocks: Vec<BasicBlockId>)
        ensures
            blocks == self.blocks,
    {
        self.blocks
    }
}

/// A walk that is through with every block it visited, and that visited the
/// entry, has visited every block within reach of the entry.
proof fn lemma_walk_is_complete(
    blocks: Seq<BlockView>,
    entry: BasicBlockId,
    visited: Seq<bool>,
    later_visited: Seq<bool>,
    later_order: Seq<BasicBlockId>,
    b: BasicBlockId,
    steps: nat,
)
    requires
        visited.len() == blocks.len(),
        later_visited.len() == blocks.len(),
        forall|k: int| 0 <= k < blocks.len() ==> !visited[k],
        settled(blocks, visited, Seq::empty(), later_visited, later_order, None),
        entry < blocks.len(),
        later_visited[entry as int],
        leads_to(blocks, entry, b, steps),
    ensures
        b < blocks.len(),
        later_visited[b as int],
        later_order.contains(b),
    decreases steps,
{
    if steps > 0 {
        let mid = choose|mid: BasicBlockId|
            leads_to(blocks, entry, mid, (steps - 1) as nat) && mid < blocks.len() && (#[trigger] successors(
                blocks,
                mid,
            )).contains(b);
        lemma_walk_is_complete(blocks, entry, visited, later_visited, later_order, mid, (steps - 1) as nat);
        let s = choose|s: int| 0 <= s < successors(blocks, mid).len() && successors(blocks, mid)[s] == b;
        let at = mid as int;
        assert(later_visited[at] && !visited[at]);
        assert(at as BasicBlockId == mid);
        assert(successors(blocks, at as BasicBlockId)[s] < blocks.len() && later_visited[successors(
            blocks,
            at as BasicBlockId,
        )[s] as int]);
    }
    assert(later_visited[b as int]);
    let k = choose|k: int| 0 <= k < later_order.len() && later_order[k] == b;
}

} // verus!
