//! Analysis in context: what the analysis of blocks does to a state in which
//! something has been analysed already, told from what it does on empty
//! stacks.

use vstd::prelude::*;
use crate::analyzer::{
    accumulate, combine, constant_after_opcode, constant_after_push, lemma_combine_associative,
    merge_branches, opcode_effect, plain_status, representable, status_of, zero_status,
    AnalysisError, AnalyzerState, IfStackEle, StackStatus,
};
use crate::builder::{find, lemma_find, BlockView, FragmentView};
use crate::instruction::{decodable, instructions_of, InstructionView};
use crate::opcodes::{OP_ELSE, OP_ENDIF, OP_IF, OP_NOTIF, OP_PICK, OP_RESERVED, OP_ROLL};

verus! {

/// Whether `inner` is the state that the analysis of some blocks reaches on
/// empty stacks while `outer` is the state that the analysis of the same
/// blocks reaches from `start`: the status that `inner` has outside all
/// conditionals is added to the current status of `start`, the conditionals
/// that `inner` has open are open on top of those of `start`, and a constant
/// that `inner` knows is known to `outer`.
pub open spec fn follows(start: AnalyzerState, inner: AnalyzerState, outer: AnalyzerState) -> bool {
    &&& inner.last_constant is Some ==> outer.last_constant == inner.last_constant
    &&& match start.apply(inner.status) {
        Ok(base) => outer.status == base.status && outer.branches == base.branches
            + inner.branches,
        Err(_) => false,
    }
}

/// Three statuses added in two orders give the same.
proof fn lemma_accumulate_twice(s: StackStatus, a: StackStatus, e: StackStatus)
    requires
        accumulate(s, a) is Ok,
        accumulate(a, e) is Ok,
        accumulate(accumulate(s, a).unwrap(), e) is Ok,
    ensures
        accumulate(s, accumulate(a, e).unwrap()) == accumulate(accumulate(s, a).unwrap(), e),
{
    lemma_combine_associative(s@, a@, e@);
    let ae = accumulate(a, e).unwrap();
    let sa = accumulate(s, a).unwrap();
    assert(ae@ == combine(a@, e@));
    assert(sa@ == combine(s@, a@));
}

/// An effect added in both analyses keeps the one following the other.
proof fn lemma_follows_apply(
    start: AnalyzerState,
    inner: AnalyzerState,
    outer: AnalyzerState,
    effect: StackStatus,
)
    requires
        follows(start, inner, outer),
        inner.apply(effect) is Ok,
        outer.apply(effect) is Ok,
    ensures
        follows(start, inner.apply(effect).unwrap(), outer.apply(effect).unwrap()),
{
    let base = start.apply(inner.status).unwrap();
    let inner2 = inner.apply(effect).unwrap();
    let outer2 = outer.apply(effect).unwrap();
    if inner.branches.len() == 0 {
        assert(outer.branches =~= base.branches);
        assert(outer.current() == base.current());
        assert(base.current() == accumulate(start.current(), inner.status).unwrap());
        lemma_accumulate_twice(start.current(), inner.status, effect);
        let base2 = start.apply(inner2.status).unwrap();
        assert(base2.current() == outer2.current());
        if start.branches.len() == 0 {
            assert(outer2.branches =~= base2.branches + inner2.branches);
        } else {
            assert(outer2.branches =~= base2.branches + inner2.branches);
        }
    } else {
        let n = inner.branches.len() as int;
        assert(outer.branches.last() == inner.branches.last());
        assert(outer.branches.drop_last() =~= base.branches + inner.branches.drop_last());
        assert(outer2.branches =~= base.branches + inner2.branches);
    }
}

/// One opcode taken in both analyses keeps the one following the other.
proof fn lemma_follows_opcode(
    start: AnalyzerState,
    inner: AnalyzerState,
    outer: AnalyzerState,
    op: u8,
)
    requires
        follows(start, inner, outer),
        inner.after_opcode(op) is Ok,
        outer.after_opcode(op) is Ok,
    ensures
        follows(start, inner.after_opcode(op).unwrap(), outer.after_opcode(op).unwrap()),
{
    let base = start.apply(inner.status).unwrap();
    let inner2 = inner.flow_step(op).unwrap();
    let outer2 = outer.flow_step(op).unwrap();
    if op == OP_IF || op == OP_NOTIF {
        let effect = plain_status(-1i32, -1i32);
        lemma_follows_apply(start, inner, outer, effect);
        let inner1 = inner.apply(effect).unwrap();
        let outer1 = outer.apply(effect).unwrap();
        let base1 = start.apply(inner1.status).unwrap();
        assert(outer2.branches =~= base1.branches + inner2.branches);
    } else if op == OP_RESERVED {
    } else if op == OP_ELSE {
        assert(outer.branches.last() == inner.branches.last());
        assert(outer.branches.drop_last() =~= base.branches + inner.branches.drop_last());
        assert(outer2.branches =~= base.branches + inner2.branches);
    } else if op == OP_ENDIF {
        assert(outer.branches.last() == inner.branches.last());
        assert(outer.branches.drop_last() =~= base.branches + inner.branches.drop_last());
        let inner_left = inner.leave();
        let outer_left = outer.leave();
        assert(outer_left.branches =~= base.branches + inner_left.branches);
        assert(follows(start, inner_left, outer_left));
        match inner.branches.last() {
            IfStackEle::IfFlow(s) => {
                lemma_follows_apply(start, inner_left, outer_left, s);
            },
            IfStackEle::ElseFlow(a, b) => {
                lemma_follows_apply(start, inner_left, outer_left, merge_branches(a, b));
            },
        }
    } else if op == OP_PICK || op == OP_ROLL {
        let depth = inner.last_constant.unwrap();
        let effect = AnalyzerState::reach_effect(
            depth,
            if op == OP_PICK {
                0i32
            } else {
                -1i32
            },
        ).unwrap();
        lemma_follows_apply(start, inner, outer, effect);
    } else {
        lemma_follows_apply(start, inner, outer, opcode_effect(op).unwrap());
    }
}

/// One push taken in both analyses keeps the one following the other.
proof fn lemma_follows_push(
    start: AnalyzerState,
    inner: AnalyzerState,
    outer: AnalyzerState,
    data: Seq<u8>,
)
    requires
        follows(start, inner, outer),
        inner.after_push(data) is Ok,
        outer.after_push(data) is Ok,
    ensures
        follows(start, inner.after_push(data).unwrap(), outer.after_push(data).unwrap()),
{
    let inner1 = AnalyzerState {
        last_constant: constant_after_push(data),
        ..inner
    };
    let outer1 = AnalyzerState {
        last_constant: constant_after_push(data),
        ..outer
    };
    assert(follows(start, inner1, outer1));
    lemma_follows_apply(start, inner1, outer1, plain_status(0i32, 1i32));
}

/// A run of instructions that succeeds has succeeded on all but the last of
/// them.
proof fn lemma_instructions_before(state: AnalyzerState, items: Seq<(nat, InstructionView)>)
    requires
        items.len() > 0,
        state.run_instructions(items) is Ok,
    ensures
        state.run_instructions(items.drop_last()) is Ok,
{
}

/// Instructions taken in both analyses keep the one following the other.
proof fn lemma_follows_instructions(
    start: AnalyzerState,
    inner: AnalyzerState,
    outer: AnalyzerState,
    items: Seq<(nat, InstructionView)>,
)
    requires
        follows(start, inner, outer),
        inner.run_instructions(items) is Ok,
        outer.run_instructions(items) is Ok,
    ensures
        follows(
            start,
            inner.run_instructions(items).unwrap(),
            outer.run_instructions(items).unwrap(),
        ),
    decreases items.len(),
{
    if items.len() > 0 {
        lemma_instructions_before(inner, items);
        lemma_instructions_before(outer, items);
        lemma_follows_instructions(start, inner, outer, items.drop_last());
        let inner1 = inner.run_instructions(items.drop_last()).unwrap();
        let outer1 = outer.run_instructions(items.drop_last()).unwrap();
        match items.last().1 {
            InstructionView::Op(op) => {
                lemma_follows_opcode(start, inner1, outer1, op);
            },
            InstructionView::PushBytes(data) => {
                lemma_follows_push(start, inner1, outer1, data);
            },
        }
    }
}

/// Blocks taken in both analyses keep the one following the other.
pub proof fn lemma_follows_blocks(
    start: AnalyzerState,
    inner: AnalyzerState,
    outer: AnalyzerState,
    subs: Seq<(u64, FragmentView)>,
    blocks: Seq<BlockView>,
)
    requires
        follows(start, inner, outer),
        inner.run_blocks(subs, blocks) is Ok,
        outer.run_blocks(subs, blocks) is Ok,
    ensures
        follows(
            start,
            inner.run_blocks(subs, blocks).unwrap(),
            outer.run_blocks(subs, blocks).unwrap(),
        ),
    decreases subs.len(), blocks.len(),
{
    if blocks.len() > 0 {
        assert(inner.run_blocks(subs, blocks.drop_last()) is Ok);
        assert(outer.run_blocks(subs, blocks.drop_last()) is Ok);
        lemma_follows_blocks(start, inner, outer, subs, blocks.drop_last());
        let inner1 = inner.run_blocks(subs, blocks.drop_last()).unwrap();
        let outer1 = outer.run_blocks(subs, blocks.drop_last()).unwrap();
        assert(inner.run_blocks(subs, blocks) == inner1.run_block(subs, blocks.last()));
        assert(outer.run_blocks(subs, blocks) == outer1.run_block(subs, blocks.last()));
        match blocks.last() {
            BlockView::Script(bytes) => {
                assert(inner1.run_block(subs, blocks.last()) == inner1.run_instructions(
                    instructions_of(bytes),
                ));
                assert(outer1.run_block(subs, blocks.last()) == outer1.run_instructions(
                    instructions_of(bytes),
                ));
                lemma_follows_instructions(start, inner1, outer1, instructions_of(bytes));
            },
            BlockView::Call(id) => {
                lemma_find(subs, id);
                let p = find(subs, id).unwrap();
                match subs[p].1.stack_hint {
                    Some(hint) => {
                        lemma_follows_apply(start, inner1, outer1, hint);
                    },
                    None => {
                        lemma_follows_blocks(
                            start,
                            inner1,
                            outer1,
                            subs.take(p),
                            subs[p].1.blocks,
                        );
                    },
                }
            },
        }
    }
}

/// Whether a status has accessed no deeper on either stack than where the
/// stack now stands.
pub open spec fn settled(status: StackStatus) -> bool {
    status.deepest_stack_accessed <= status.stack_changed && status.deepest_altstack_accessed
        <= status.altstack_changed
}

/// The analysis of blocks in context is their analysis on empty stacks,
/// added to the context.
///
/// Where the analysis of `blocks`, begun on empty stacks with no constant
/// known, ends outside all conditionals with the status `found`, and their
/// analysis begun in the state `start` succeeds, the latter ends with
/// `found` added to the current status of `start` and with the conditionals
/// open that were open in `start`. So a call of a fragment that carries
/// `found` as its hint leaves the same statuses as a call of the fragment
/// without a hint; only the constant known afterwards can differ, which a
/// hint leaves as it was.
pub proof fn lemma_analysis_in_context(
    start: AnalyzerState,
    subs: Seq<(u64, FragmentView)>,
    blocks: Seq<BlockView>,
)
    requires
        settled(start.current()),
        AnalyzerState::starting(zero_status(), None).run_blocks(subs, blocks) is Ok,
        AnalyzerState::starting(zero_status(), None).run_blocks(subs, blocks).unwrap().outcome()
            is Ok,
        start.run_blocks(subs, blocks) is Ok,
    ensures
        ({
            let found = AnalyzerState::starting(zero_status(), None).run_blocks(
                subs,
                blocks,
            ).unwrap().status;
            let native = start.run_blocks(subs, blocks).unwrap();
            &&& start.apply(found) is Ok
            &&& native.status == start.apply(found).unwrap().status
            &&& native.branches == start.apply(found).unwrap().branches
        }),
{
    let fresh = AnalyzerState::starting(zero_status(), None);
    assert(follows(start, fresh, start)) by {
        let kept = accumulate(start.current(), zero_status());
        assert(combine(start.current()@, zero_status()@) == start.current()@);
        assert(representable(start.current()@));
        assert(status_of(start.current()@) == start.current());
        assert(kept == Ok::<StackStatus, AnalysisError>(start.current()));
        let base = start.apply(zero_status()).unwrap();
        if start.branches.len() > 0 {
            assert(base.branches =~= start.branches);
        }
        assert(start.branches =~= base.branches + fresh.branches);
    }
    lemma_follows_blocks(start, fresh, start, subs, blocks);
    let inner = fresh.run_blocks(subs, blocks).unwrap();
    let base = start.apply(inner.status).unwrap();
    assert(base.branches + inner.branches =~= base.branches);
}

} // verus!
