//! The walks through a structured script that compile and analyse it: the
//! frames of the fragments under way, the record of the fragments already
//! compiled, and the facts that carry a walk from step to step.

use vstd::prelude::*;
use crate::analyzer::{lemma_run_blocks_fails, AnalysisError, AnalyzerState};
use crate::builder::{
    calls_resolve, entry_wf, find, flat, lemma_find, lemma_take_next, meaning, BlockView,
    FragmentView, ScriptView,
};

verus! {

/// The blocks of the registered fragment at position `sub`, or of the
/// script's own fragment where `sub` is the number of registered fragments.
pub open spec fn blocks_at(script: ScriptView, sub: int) -> Seq<BlockView> {
    if 0 <= sub < script.subs.len() {
        script.subs[sub].1.blocks
    } else {
        script.body.blocks
    }
}

/// The number of steps that it takes to walk through `blocks` and all that
/// they call: one for each block, and for a call one more and the steps of
/// the fragment called.
pub open spec fn walk_cost(subs: Seq<(u64, FragmentView)>, blocks: Seq<BlockView>) -> nat
    decreases subs.len(), blocks.len() + 1,
{
    if blocks.len() == 0 {
        0
    } else {
        walk_cost(subs, blocks.drop_last()) + block_cost(subs, blocks.last())
    }
}

/// The number of steps that one block takes.
pub open spec fn block_cost(subs: Seq<(u64, FragmentView)>, block: BlockView) -> nat
    decreases subs.len(), 0nat,
{
    match block {
        BlockView::Script(_) => 1,
        BlockView::Call(id) => match find(subs, id) {
            Some(j) => if 0 <= j < subs.len() {
                2 + walk_cost(subs.take(j), subs[j].1.blocks)
            } else {
                1
            },
            None => 1,
        },
    }
}

/// A fragment whose compilation is under way: its position among the
/// registered fragments, the number of its blocks that are done, and the
/// length of the output when it was begun.
#[derive(Debug, Clone, Copy)]
pub struct Frame {
    pub sub: usize,
    pub next: usize,
    pub start: usize,
}

/// Where in the output a registered fragment has been compiled to.
#[derive(Debug, Clone, Copy)]
pub struct Emitted {
    pub known: bool,
    pub start: usize,
    pub end: usize,
}

/// The steps that a frame still has to take, the one that ends it included.
pub open spec fn frame_cost(script: ScriptView, frame: Frame) -> nat {
    let all = walk_cost(script.subs.take(frame.sub as int), blocks_at(script, frame.sub as int));
    let done = walk_cost(
        script.subs.take(frame.sub as int),
        blocks_at(script, frame.sub as int).take(frame.next as int),
    );
    if all >= done {
        (1 + all - done) as nat
    } else {
        1
    }
}

/// The steps that a stack of frames still has to take.
pub open spec fn frames_cost(script: ScriptView, frames: Seq<Frame>) -> nat
    decreases frames.len(),
{
    if frames.len() == 0 {
        0
    } else {
        frames_cost(script, frames.drop_last()) + frame_cost(script, frames.last())
    }
}

/// The walk through the first blocks of a sequence costs no more than the
/// walk through all of them.
pub proof fn lemma_walk_cost_take(subs: Seq<(u64, FragmentView)>, blocks: Seq<BlockView>, n: int)
    requires
        0 <= n <= blocks.len(),
    ensures
        walk_cost(subs, blocks.take(n)) <= walk_cost(subs, blocks),
    decreases blocks.len(),
{
    if n < blocks.len() {
        lemma_walk_cost_take(subs, blocks.drop_last(), n);
        assert(blocks.drop_last().take(n) =~= blocks.take(n));
    } else {
        assert(blocks.take(n) =~= blocks);
    }
}


/// What the first `n + 1` blocks cost, from the first `n`.
pub proof fn lemma_cost_next(subs: Seq<(u64, FragmentView)>, blocks: Seq<BlockView>, n: int)
    requires
        0 <= n < blocks.len(),
    ensures
        walk_cost(subs, blocks.take(n + 1)) == walk_cost(subs, blocks.take(n)) + block_cost(
            subs,
            blocks[n],
        ),
        block_cost(subs, blocks[n]) >= 1,
{
    assert(blocks.take(n + 1).drop_last() =~= blocks.take(n));
    assert(blocks.take(n + 1).last() == blocks[n]);
}

/// The frame above `frames[t]`: the next in the stack, or the current one.
pub open spec fn child_of(frames: Seq<Frame>, cur: Frame, t: int) -> Frame {
    if t + 1 < frames.len() {
        frames[t + 1]
    } else {
        cur
    }
}

/// The frame at the bottom: that of the script's own fragment.
pub open spec fn bottom_of(frames: Seq<Frame>, cur: Frame) -> Frame {
    if frames.len() > 0 {
        frames[0]
    } else {
        cur
    }
}

/// Whether the suspended frame `f` and the frame `child` above it agree with
/// the output: `f` waits at a call of the fragment of `child`, and the
/// output from the start of `f` to the start of `child` is what the blocks
/// of `f` before that call compile to.
pub open spec fn link_ok(script: ScriptView, f: Frame, child: Frame, out: Seq<u8>) -> bool {
    let blocks = blocks_at(script, f.sub as int);
    &&& f.sub <= script.subs.len()
    &&& 1 <= f.next <= blocks.len()
    &&& f.start <= child.start <= out.len()
    &&& child.sub < f.sub
    &&& blocks[f.next - 1] is Call
    &&& find(script.subs.take(f.sub as int), blocks[f.next - 1]->Call_0) == Some(
        child.sub as int,
    )
    &&& out.subrange(f.start as int, child.start as int) == flat(
        script.subs.take(f.sub as int),
        blocks.take(f.next - 1),
    )
}

/// Whether the suspended frame at `t` agrees with the frame above it.
pub open spec fn link_at(
    script: ScriptView,
    frames: Seq<Frame>,
    cur: Frame,
    out: Seq<u8>,
    t: int,
) -> bool {
    link_ok(script, frames[t], child_of(frames, cur, t), out)
}

/// Whether the current frame agrees with the output: the output from its
/// start on is what its blocks done so far compile to.
pub open spec fn top_ok(script: ScriptView, cur: Frame, out: Seq<u8>) -> bool {
    let blocks = blocks_at(script, cur.sub as int);
    &&& cur.sub <= script.subs.len()
    &&& cur.next <= blocks.len()
    &&& cur.start <= out.len()
    &&& out.subrange(cur.start as int, out.len() as int) == flat(
        script.subs.take(cur.sub as int),
        blocks.take(cur.next as int),
    )
}

/// Whether the stack of frames agrees with the output.
#[verifier::opaque]
pub open spec fn stack_ok(script: ScriptView, frames: Seq<Frame>, cur: Frame, out: Seq<u8>) -> bool {
    &&& top_ok(script, cur, out)
    &&& forall|t: int|
        0 <= t < frames.len() ==> #[trigger] link_at(script, frames, cur, out, t)
    &&& bottom_of(frames, cur).sub == script.subs.len()
    &&& bottom_of(frames, cur).start == 0
}

/// Whether the record of compiled fragments agrees with the output.
#[verifier::opaque]
pub open spec fn cache_ok(script: ScriptView, cache: Seq<Emitted>, out: Seq<u8>) -> bool {
    &&& cache.len() == script.subs.len()
    &&& forall|j: int|
        0 <= j < cache.len() && (#[trigger] cache[j]).known ==> {
            &&& cache[j].start <= cache[j].end <= out.len()
            &&& out.subrange(cache[j].start as int, cache[j].end as int) == flat(
                script.subs.take(j),
                script.subs[j].1.blocks,
            )
        }
}

/// The calls of the blocks of any frame resolve among the fragments
/// registered before it.
pub proof fn lemma_frame_resolves(script: ScriptView, sub: int)
    requires
        script.wf(),
        0 <= sub <= script.subs.len(),
    ensures
        calls_resolve(script.subs.take(sub), blocks_at(script, sub)),
{
    if sub < script.subs.len() {
        assert(entry_wf(script.subs, sub));
    } else {
        assert(script.subs.take(sub) =~= script.subs);
    }
}

/// The walk may start with the frame of the script's own fragment, no
/// output and nothing recorded.
pub proof fn lemma_walk_start(script: ScriptView, cache: Seq<Emitted>, root: usize)
    requires
        root == script.subs.len(),
        cache.len() == script.subs.len(),
        forall|j: int| 0 <= j < cache.len() ==> !(#[trigger] cache[j]).known,
    ensures
        stack_ok(
            script,
            Seq::<Frame>::empty(),
            Frame { sub: root, next: 0, start: 0 },
            Seq::<u8>::empty(),
        ),
        cache_ok(script, cache, Seq::<u8>::empty()),
{
    reveal(stack_ok);
    reveal(cache_ok);
    assert(blocks_at(script, root as int).take(0) =~= Seq::<BlockView>::empty());
    assert(Seq::<u8>::empty().subrange(0, 0) =~= Seq::<u8>::empty());
    lemma_walk_cost_take(script.subs.take(root as int), blocks_at(script, root as int), 0);
}

/// More output leaves the record of compiled fragments in agreement.
pub proof fn lemma_cache_grow(script: ScriptView, cache: Seq<Emitted>, out: Seq<u8>, more: Seq<u8>)
    requires
        cache_ok(script, cache, out),
    ensures
        cache_ok(script, cache, out + more),
{
    reveal(cache_ok);
    assert forall|j: int| 0 <= j < cache.len() && (#[trigger] cache[j]).known implies {
        &&& cache[j].start <= cache[j].end <= (out + more).len()
        &&& (out + more).subrange(cache[j].start as int, cache[j].end as int) == flat(
            script.subs.take(j),
            script.subs[j].1.blocks,
        )
    } by {
        assert((out + more).subrange(cache[j].start as int, cache[j].end as int)
            =~= out.subrange(cache[j].start as int, cache[j].end as int));
    }
}

/// More output leaves the suspended frames in agreement.
proof fn lemma_links_grow(
    script: ScriptView,
    frames: Seq<Frame>,
    cur: Frame,
    out: Seq<u8>,
    more: Seq<u8>,
)
    requires
        forall|t: int|
            0 <= t < frames.len() ==> #[trigger] link_at(script, frames, cur, out, t),
    ensures
        forall|t: int|
            0 <= t < frames.len() ==> #[trigger] link_at(script, frames, cur, out + more, t),
{
    assert forall|t: int| 0 <= t < frames.len() implies #[trigger] link_at(
        script,
        frames,
        cur,
        out + more,
        t,
    ) by {
        let f = frames[t];
        let child = child_of(frames, cur, t);
        assert(link_at(script, frames, cur, out, t));
        assert((out + more).subrange(f.start as int, child.start as int) =~= out.subrange(
            f.start as int,
            child.start as int,
        ));
    }
}

/// A step over a block adds what the block stands for to the output.
pub proof fn lemma_step_over(
    script: ScriptView,
    frames: Seq<Frame>,
    cur: Frame,
    out: Seq<u8>,
    more: Seq<u8>,
    stepped: Frame,
)
    requires
        stack_ok(script, frames, cur, out),
        cur.next < blocks_at(script, cur.sub as int).len(),
        more == meaning(
            script.subs.take(cur.sub as int),
            blocks_at(script, cur.sub as int)[cur.next as int],
        ),
        stepped.sub == cur.sub,
        stepped.next == cur.next + 1,
        stepped.start == cur.start,
    ensures
        stack_ok(script, frames, stepped, out + more),
        frame_cost(script, stepped) < frame_cost(script, cur),
{
    reveal(stack_ok);
    let ctx = script.subs.take(cur.sub as int);
    let blocks = blocks_at(script, cur.sub as int);
    lemma_walk_cost_take(ctx, blocks, cur.next as int);
    lemma_take_next(ctx, blocks, cur.next as int);
    lemma_cost_next(ctx, blocks, cur.next as int);
    lemma_walk_cost_take(ctx, blocks, cur.next + 1);
    lemma_links_grow(script, frames, cur, out, more);
    assert((out + more).subrange(cur.start as int, (out + more).len() as int) =~= out.subrange(
        cur.start as int,
        out.len() as int,
    ) + more);
    assert forall|t: int| 0 <= t < frames.len() implies #[trigger] link_at(
        script,
        frames,
        stepped,
        out + more,
        t,
    ) by {
        assert(link_at(script, frames, cur, out + more, t));
    }
}

/// What a call stands for in the context of a frame, once it is known which
/// fragment it names.
pub proof fn lemma_call_meaning(script: ScriptView, sub: int, id: u64, target: int)
    requires
        0 <= sub <= script.subs.len(),
        find(script.subs.take(sub), id) == Some(target),
    ensures
        0 <= target < sub,
        meaning(script.subs.take(sub), BlockView::Call(id)) == flat(
            script.subs.take(target),
            script.subs[target].1.blocks,
        ),
        block_cost(script.subs.take(sub), BlockView::Call(id)) == 2 + walk_cost(
            script.subs.take(target),
            script.subs[target].1.blocks,
        ),
{
    let ctx = script.subs.take(sub);
    lemma_find(ctx, id);
    assert(ctx.take(target) =~= script.subs.take(target));
    assert(ctx[target] == script.subs[target]);
}

/// A step into a call that is not yet recorded suspends the current frame
/// and begins one for the fragment called.
pub proof fn lemma_step_into(
    script: ScriptView,
    frames: Seq<Frame>,
    cur: Frame,
    out: Seq<u8>,
    id: u64,
    target: usize,
    suspended: Frame,
    begun: Frame,
)
    requires
        stack_ok(script, frames, cur, out),
        cur.next < blocks_at(script, cur.sub as int).len(),
        blocks_at(script, cur.sub as int)[cur.next as int] == BlockView::Call(id),
        find(script.subs.take(cur.sub as int), id) == Some(target as int),
        suspended.sub == cur.sub,
        suspended.next == cur.next + 1,
        suspended.start == cur.start,
        begun.sub == target,
        begun.next == 0,
        begun.start == out.len(),
    ensures
        stack_ok(script, frames.push(suspended), begun, out),
        frames_cost(script, frames.push(suspended)) + frame_cost(script, begun) < frames_cost(
            script,
            frames,
        ) + frame_cost(script, cur),
{
    reveal(stack_ok);
    let ctx = script.subs.take(cur.sub as int);
    let blocks = blocks_at(script, cur.sub as int);
    lemma_walk_cost_take(ctx, blocks, cur.next as int);
    let more = frames.push(suspended);
    lemma_call_meaning(script, cur.sub as int, id, target as int);
    lemma_cost_next(ctx, blocks, cur.next as int);
    lemma_walk_cost_take(ctx, blocks, cur.next + 1);
    lemma_walk_cost_take(script.subs.take(target as int), blocks_at(script, target as int), 0);
    assert(more.drop_last() =~= frames);
    assert(blocks_at(script, target as int).take(0) =~= Seq::<BlockView>::empty());
    assert(out.subrange(out.len() as int, out.len() as int) =~= Seq::<u8>::empty());
    assert forall|t: int| 0 <= t < more.len() implies #[trigger] link_at(script, more, begun, out, t) by {
        if t < frames.len() {
            assert(more[t] == frames[t]);
            assert(link_at(script, frames, cur, out, t));
            if t + 1 < frames.len() {
                assert(more[t + 1] == frames[t + 1]);
            }
        }
    }
}

/// The end of a frame other than the bottom one: the output from its start
/// on is what its fragment stands for, and the frame below goes on behind
/// its call.
pub proof fn lemma_step_back(script: ScriptView, frames: Seq<Frame>, cur: Frame, out: Seq<u8>)
    requires
        stack_ok(script, frames, cur, out),
        frames.len() > 0,
        cur.next == blocks_at(script, cur.sub as int).len(),
    ensures
        cur.sub < script.subs.len(),
        out.subrange(cur.start as int, out.len() as int) == flat(
            script.subs.take(cur.sub as int),
            script.subs[cur.sub as int].1.blocks,
        ),
        stack_ok(script, frames.drop_last(), frames.last(), out),
        frames_cost(script, frames.drop_last()) + frame_cost(script, frames.last())
            < frames_cost(script, frames) + frame_cost(script, cur),
{
    reveal(stack_ok);
    let parent = frames.last();
    let below = frames.drop_last();
    let blocks = blocks_at(script, cur.sub as int);
    assert(blocks.take(cur.next as int) =~= blocks);
    assert(link_at(script, frames, cur, out, frames.len() - 1));
    let pctx = script.subs.take(parent.sub as int);
    let pblocks = blocks_at(script, parent.sub as int);
    let id = pblocks[parent.next - 1]->Call_0;
    assert(pblocks[parent.next - 1] == BlockView::Call(id));
    lemma_call_meaning(script, parent.sub as int, id, cur.sub as int);
    lemma_take_next(pctx, pblocks, parent.next - 1);
    lemma_walk_cost_take(pctx, pblocks, parent.next as int);
    lemma_walk_cost_take(script.subs.take(cur.sub as int), blocks, cur.next as int);
    assert(out.subrange(parent.start as int, out.len() as int) =~= out.subrange(
        parent.start as int,
        cur.start as int,
    ) + out.subrange(cur.start as int, out.len() as int));
    assert forall|t: int| 0 <= t < below.len() implies #[trigger] link_at(script, below, parent, out, t) by {
        assert(below[t] == frames[t]);
        assert(link_at(script, frames, cur, out, t));
        if t + 1 < below.len() {
            assert(below[t + 1] == frames[t + 1]);
        }
    }
    if below.len() > 0 {
        assert(below[0] == frames[0]);
    }
}

/// The end of the bottom frame: the output is what the script compiles to.
pub proof fn lemma_walk_end(script: ScriptView, cur: Frame, out: Seq<u8>)
    requires
        stack_ok(script, Seq::<Frame>::empty(), cur, out),
        cur.next == blocks_at(script, cur.sub as int).len(),
    ensures
        out == script.compiled(),
{
    reveal(stack_ok);
    let root = script.subs.len() as int;
    assert(script.subs.take(root) =~= script.subs);
    assert(blocks_at(script, root).take(cur.next as int) =~= blocks_at(script, root));
    assert(out.subrange(0, out.len() as int) =~= out);
}

/// A fragment that has just been compiled may be recorded.
pub proof fn lemma_cache_record(
    script: ScriptView,
    cache: Seq<Emitted>,
    out: Seq<u8>,
    sub: int,
    start: usize,
    end: usize,
)
    requires
        cache_ok(script, cache, out),
        0 <= sub < script.subs.len(),
        start <= end == out.len(),
        out.subrange(start as int, out.len() as int) == flat(
            script.subs.take(sub),
            script.subs[sub].1.blocks,
        ),
    ensures
        cache_ok(
            script,
            cache.update(sub, Emitted { known: true, start, end }),
            out,
        ),
{
    reveal(cache_ok);
}

/// What a recorded fragment says about the output.
pub proof fn lemma_cache_use(script: ScriptView, cache: Seq<Emitted>, out: Seq<u8>, sub: int)
    requires
        cache_ok(script, cache, out),
        0 <= sub < script.subs.len(),
        cache[sub].known,
    ensures
        cache[sub].start <= cache[sub].end <= out.len(),
        out.subrange(cache[sub].start as int, cache[sub].end as int) == flat(
            script.subs.take(sub),
            script.subs[sub].1.blocks,
        ),
{
    reveal(cache_ok);
}

/// What the invariant of the walk says about the current frame.
pub proof fn lemma_stack_bounds(script: ScriptView, frames: Seq<Frame>, cur: Frame, out: Seq<u8>)
    requires
        stack_ok(script, frames, cur, out),
    ensures
        cur.sub <= script.subs.len(),
        cur.next <= blocks_at(script, cur.sub as int).len(),
        cur.start <= out.len(),
        frame_cost(script, cur) >= 1,
        frames.len() == 0 ==> cur.sub == script.subs.len(),
{
    reveal(stack_ok);
}

/// The state in which the frame at `t` was begun, where `entries` holds the
/// states for the suspended frames and `cur_entry` is that of the current
/// one.
pub open spec fn entry_of(entries: Seq<AnalyzerState>, cur_entry: AnalyzerState, t: int) -> AnalyzerState {
    if 0 <= t < entries.len() {
        entries[t]
    } else {
        cur_entry
    }
}

/// Whether the suspended frame `f`, begun in the state `entry`, waits at a
/// call of the fragment of `child`, which carries no hint, and the analysis
/// of the blocks of `f` before that call has led from `entry` to the state
/// in which `child` was begun.
pub open spec fn call_ok(
    script: ScriptView,
    f: Frame,
    entry: AnalyzerState,
    child: Frame,
    child_entry: AnalyzerState,
) -> bool {
    let blocks = blocks_at(script, f.sub as int);
    &&& f.sub <= script.subs.len()
    &&& 1 <= f.next <= blocks.len()
    &&& child.sub < f.sub
    &&& blocks[f.next - 1] is Call
    &&& find(script.subs.take(f.sub as int), blocks[f.next - 1]->Call_0) == Some(
        child.sub as int,
    )
    &&& script.subs[child.sub as int].1.stack_hint is None
    &&& entry.run_blocks(script.subs.take(f.sub as int), blocks.take(f.next - 1)) == Ok::<
        AnalyzerState,
        AnalysisError,
    >(child_entry)
}

/// Whether the suspended frame at `t` agrees with the frame above it.
pub open spec fn trace_at(
    script: ScriptView,
    frames: Seq<Frame>,
    entries: Seq<AnalyzerState>,
    cur: Frame,
    cur_entry: AnalyzerState,
    t: int,
) -> bool {
    call_ok(
        script,
        frames[t],
        entries[t],
        child_of(frames, cur, t),
        entry_of(entries, cur_entry, t + 1),
    )
}

/// Whether the suspended frames agree with one another and the bottom one
/// is that of the script's own fragment, begun in the state `start`.
pub open spec fn links_ok(
    script: ScriptView,
    frames: Seq<Frame>,
    entries: Seq<AnalyzerState>,
    cur: Frame,
    cur_entry: AnalyzerState,
    start: AnalyzerState,
) -> bool {
    &&& entries.len() == frames.len()
    &&& cur.sub <= script.subs.len()
    &&& forall|t: int|
        0 <= t < frames.len() ==> #[trigger] trace_at(script, frames, entries, cur, cur_entry, t)
    &&& bottom_of(frames, cur).sub == script.subs.len()
    &&& entry_of(entries, cur_entry, 0) == start
}

/// Whether the stack of frames of an analysis agrees with the state `now`
/// that the analysis has reached: the blocks of the current frame that are
/// done have led from the state in which it was begun to `now`.
#[verifier::opaque]
pub open spec fn trace_ok(
    script: ScriptView,
    frames: Seq<Frame>,
    entries: Seq<AnalyzerState>,
    cur: Frame,
    cur_entry: AnalyzerState,
    now: AnalyzerState,
    start: AnalyzerState,
) -> bool {
    &&& links_ok(script, frames, entries, cur, cur_entry, start)
    &&& cur.next <= blocks_at(script, cur.sub as int).len()
    &&& cur_entry.run_blocks(
        script.subs.take(cur.sub as int),
        blocks_at(script, cur.sub as int).take(cur.next as int),
    ) == Ok::<AnalyzerState, AnalysisError>(now)
}

/// An analysis may start with the frame of the script's own fragment.
pub proof fn lemma_trace_start(script: ScriptView, start: AnalyzerState, root: usize)
    requires
        root == script.subs.len(),
    ensures
        trace_ok(
            script,
            Seq::<Frame>::empty(),
            Seq::<AnalyzerState>::empty(),
            Frame { sub: root, next: 0, start: 0 },
            start,
            start,
            start,
        ),
{
    reveal(trace_ok);
    assert(blocks_at(script, root as int).take(0) =~= Seq::<BlockView>::empty());
}

/// What the invariant of an analysis says about the current frame.
pub proof fn lemma_trace_bounds(
    script: ScriptView,
    frames: Seq<Frame>,
    entries: Seq<AnalyzerState>,
    cur: Frame,
    cur_entry: AnalyzerState,
    now: AnalyzerState,
    start: AnalyzerState,
)
    requires
        trace_ok(script, frames, entries, cur, cur_entry, now, start),
    ensures
        cur.sub <= script.subs.len(),
        cur.next <= blocks_at(script, cur.sub as int).len(),
        entries.len() == frames.len(),
        frame_cost(script, cur) >= 1,
{
    reveal(trace_ok);
}

/// A step over a block leads to the state that the block leads to.
pub proof fn lemma_trace_over(
    script: ScriptView,
    frames: Seq<Frame>,
    entries: Seq<AnalyzerState>,
    cur: Frame,
    cur_entry: AnalyzerState,
    now: AnalyzerState,
    start: AnalyzerState,
    next: AnalyzerState,
    stepped: Frame,
)
    requires
        trace_ok(script, frames, entries, cur, cur_entry, now, start),
        cur.next < blocks_at(script, cur.sub as int).len(),
        now.run_block(
            script.subs.take(cur.sub as int),
            blocks_at(script, cur.sub as int)[cur.next as int],
        ) == Ok::<AnalyzerState, AnalysisError>(next),
        stepped.sub == cur.sub,
        stepped.next == cur.next + 1,
    ensures
        trace_ok(script, frames, entries, stepped, cur_entry, next, start),
        frame_cost(script, stepped) < frame_cost(script, cur),
{
    reveal(trace_ok);
    let ctx = script.subs.take(cur.sub as int);
    let blocks = blocks_at(script, cur.sub as int);
    lemma_cost_next(ctx, blocks, cur.next as int);
    lemma_walk_cost_take(ctx, blocks, cur.next as int);
    lemma_walk_cost_take(ctx, blocks, cur.next + 1);
    assert(blocks.take(cur.next + 1).drop_last() =~= blocks.take(cur.next as int));
    assert(blocks.take(cur.next + 1).last() == blocks[cur.next as int]);
    assert forall|t: int| 0 <= t < frames.len() implies #[trigger] trace_at(
        script,
        frames,
        entries,
        stepped,
        cur_entry,
        t,
    ) by {
        assert(trace_at(script, frames, entries, cur, cur_entry, t));
    }
}

/// A step into a call of a fragment without a hint suspends the current
/// frame and begins one for the fragment called, in the state reached.
pub proof fn lemma_trace_into(
    script: ScriptView,
    frames: Seq<Frame>,
    entries: Seq<AnalyzerState>,
    cur: Frame,
    cur_entry: AnalyzerState,
    now: AnalyzerState,
    start: AnalyzerState,
    id: u64,
    suspended: Frame,
    begun: Frame,
)
    requires
        trace_ok(script, frames, entries, cur, cur_entry, now, start),
        cur.next < blocks_at(script, cur.sub as int).len(),
        blocks_at(script, cur.sub as int)[cur.next as int] == BlockView::Call(id),
        find(script.subs.take(cur.sub as int), id) == Some(begun.sub as int),
        script.subs[begun.sub as int].1.stack_hint is None,
        suspended.sub == cur.sub,
        suspended.next == cur.next + 1,
        begun.next == 0,
    ensures
        trace_ok(
            script,
            frames.push(suspended),
            entries.push(cur_entry),
            begun,
            now,
            now,
            start,
        ),
        frames_cost(script, frames.push(suspended)) + frame_cost(script, begun) < frames_cost(
            script,
            frames,
        ) + frame_cost(script, cur),
{
    reveal(trace_ok);
    let ctx = script.subs.take(cur.sub as int);
    let blocks = blocks_at(script, cur.sub as int);
    let more = frames.push(suspended);
    let states = entries.push(cur_entry);
    lemma_call_meaning(script, cur.sub as int, id, begun.sub as int);
    lemma_cost_next(ctx, blocks, cur.next as int);
    lemma_walk_cost_take(ctx, blocks, cur.next as int);
    lemma_walk_cost_take(ctx, blocks, cur.next + 1);
    lemma_walk_cost_take(
        script.subs.take(begun.sub as int),
        blocks_at(script, begun.sub as int),
        0,
    );
    assert(more.drop_last() =~= frames);
    assert(blocks_at(script, begun.sub as int).take(0) =~= Seq::<BlockView>::empty());
    assert forall|t: int| 0 <= t < more.len() implies #[trigger] trace_at(
        script,
        more,
        states,
        begun,
        now,
        t,
    ) by {
        if t < frames.len() {
            assert(trace_at(script, frames, entries, cur, cur_entry, t));
            assert(more[t] == frames[t]);
            assert(states[t] == entries[t]);
            if t + 1 < frames.len() {
                assert(more[t + 1] == frames[t + 1]);
                assert(states[t + 1] == entries[t + 1]);
            }
        }
    }
    if frames.len() > 0 {
        assert(more[0] == frames[0]);
        assert(states[0] == entries[0]);
    }
}

/// What the blocks of a frame lead to is what the call that the frame below
/// waits at leads to.
proof fn lemma_call_runs(
    script: ScriptView,
    parent: Frame,
    parent_entry: AnalyzerState,
    cur: Frame,
    cur_entry: AnalyzerState,
)
    requires
        call_ok(script, parent, parent_entry, cur, cur_entry),
    ensures
        parent_entry.run_blocks(
            script.subs.take(parent.sub as int),
            blocks_at(script, parent.sub as int).take(parent.next as int),
        ) == cur_entry.run_blocks(
            script.subs.take(cur.sub as int),
            blocks_at(script, cur.sub as int),
        ),
{
    let pctx = script.subs.take(parent.sub as int);
    let pblocks = blocks_at(script, parent.sub as int);
    let id = pblocks[parent.next - 1]->Call_0;
    assert(pblocks[parent.next - 1] == BlockView::Call(id));
    lemma_find(pctx, id);
    assert(pctx.take(cur.sub as int) =~= script.subs.take(cur.sub as int));
    assert(pctx[cur.sub as int] == script.subs[cur.sub as int]);
    assert(pblocks.take(parent.next as int).drop_last() =~= pblocks.take(parent.next - 1));
    assert(pblocks.take(parent.next as int).last() == pblocks[parent.next - 1]);
    assert(cur_entry.run_block(pctx, BlockView::Call(id)) == cur_entry.run_blocks(
        script.subs.take(cur.sub as int),
        script.subs[cur.sub as int].1.blocks,
    ));
}

/// The end of a frame other than the bottom one: the frame below goes on
/// behind its call, in the state reached.
pub proof fn lemma_trace_back(
    script: ScriptView,
    frames: Seq<Frame>,
    entries: Seq<AnalyzerState>,
    cur: Frame,
    cur_entry: AnalyzerState,
    now: AnalyzerState,
    start: AnalyzerState,
)
    requires
        trace_ok(script, frames, entries, cur, cur_entry, now, start),
        frames.len() > 0,
        cur.next == blocks_at(script, cur.sub as int).len(),
    ensures
        trace_ok(
            script,
            frames.drop_last(),
            entries.drop_last(),
            frames.last(),
            entries.last(),
            now,
            start,
        ),
        frames_cost(script, frames.drop_last()) + frame_cost(script, frames.last())
            < frames_cost(script, frames) + frame_cost(script, cur),
{
    reveal(trace_ok);
    let parent = frames.last();
    let parent_entry = entries.last();
    let below = frames.drop_last();
    let states = entries.drop_last();
    let blocks = blocks_at(script, cur.sub as int);
    assert(blocks.take(cur.next as int) =~= blocks);
    assert(trace_at(script, frames, entries, cur, cur_entry, frames.len() - 1));
    lemma_call_runs(script, parent, parent_entry, cur, cur_entry);
    lemma_walk_cost_take(
        script.subs.take(parent.sub as int),
        blocks_at(script, parent.sub as int),
        parent.next as int,
    );
    lemma_walk_cost_take(script.subs.take(cur.sub as int), blocks, cur.next as int);
    assert forall|t: int| 0 <= t < below.len() implies #[trigger] trace_at(
        script,
        below,
        states,
        parent,
        parent_entry,
        t,
    ) by {
        assert(trace_at(script, frames, entries, cur, cur_entry, t));
        assert(below[t] == frames[t]);
        assert(states[t] == entries[t]);
        if t + 1 < below.len() {
            assert(below[t + 1] == frames[t + 1]);
            assert(states[t + 1] == entries[t + 1]);
        }
    }
    if below.len() > 0 {
        assert(below[0] == frames[0]);
        assert(states[0] == entries[0]);
    }
}

/// The end of the bottom frame: the analysis of the blocks of the script
/// has led from the start to the state reached.
pub proof fn lemma_trace_end(
    script: ScriptView,
    cur: Frame,
    cur_entry: AnalyzerState,
    now: AnalyzerState,
    start: AnalyzerState,
)
    requires
        trace_ok(
            script,
            Seq::<Frame>::empty(),
            Seq::<AnalyzerState>::empty(),
            cur,
            cur_entry,
            now,
            start,
        ),
        cur.next == blocks_at(script, cur.sub as int).len(),
    ensures
        start.run_blocks(script.subs, script.body.blocks) == Ok::<AnalyzerState, AnalysisError>(
            now,
        ),
{
    reveal(trace_ok);
    let root = script.subs.len() as int;
    assert(script.subs.take(root) =~= script.subs);
    assert(blocks_at(script, root).take(cur.next as int) =~= blocks_at(script, root));
}

/// An error in the blocks of the current frame is the error of the whole
/// analysis: it rises through every frame that waits.
proof fn lemma_error_rises(
    script: ScriptView,
    frames: Seq<Frame>,
    entries: Seq<AnalyzerState>,
    cur: Frame,
    cur_entry: AnalyzerState,
    start: AnalyzerState,
    e: AnalysisError,
)
    requires
        links_ok(script, frames, entries, cur, cur_entry, start),
        cur_entry.run_blocks(
            script.subs.take(cur.sub as int),
            blocks_at(script, cur.sub as int),
        ) == Err::<AnalyzerState, AnalysisError>(e),
    ensures
        start.run_blocks(script.subs, script.body.blocks) == Err::<AnalyzerState, AnalysisError>(
            e,
        ),
    decreases frames.len(),
{
    if frames.len() == 0 {
        let root = script.subs.len() as int;
        assert(script.subs.take(root) =~= script.subs);
    } else {
        let parent = frames.last();
        let parent_entry = entries.last();
        let below = frames.drop_last();
        let states = entries.drop_last();
        assert(trace_at(script, frames, entries, cur, cur_entry, frames.len() - 1));
        lemma_call_runs(script, parent, parent_entry, cur, cur_entry);
        lemma_run_blocks_fails(
            parent_entry,
            script.subs.take(parent.sub as int),
            blocks_at(script, parent.sub as int),
            parent.next as int,
        );
        assert forall|t: int| 0 <= t < below.len() implies #[trigger] trace_at(
            script,
            below,
            states,
            parent,
            parent_entry,
            t,
        ) by {
            assert(trace_at(script, frames, entries, cur, cur_entry, t));
            assert(below[t] == frames[t]);
            assert(states[t] == entries[t]);
            if t + 1 < below.len() {
                assert(below[t + 1] == frames[t + 1]);
                assert(states[t + 1] == entries[t + 1]);
            }
        }
        if below.len() > 0 {
            assert(below[0] == frames[0]);
            assert(states[0] == entries[0]);
        }
        lemma_error_rises(script, below, states, parent, parent_entry, start, e);
    }
}

/// An error at the next block of the current frame is the error of the
/// whole analysis.
pub proof fn lemma_trace_fails(
    script: ScriptView,
    frames: Seq<Frame>,
    entries: Seq<AnalyzerState>,
    cur: Frame,
    cur_entry: AnalyzerState,
    now: AnalyzerState,
    start: AnalyzerState,
    e: AnalysisError,
)
    requires
        trace_ok(script, frames, entries, cur, cur_entry, now, start),
        cur.next < blocks_at(script, cur.sub as int).len(),
        now.run_block(
            script.subs.take(cur.sub as int),
            blocks_at(script, cur.sub as int)[cur.next as int],
        ) == Err::<AnalyzerState, AnalysisError>(e),
    ensures
        start.run_blocks(script.subs, script.body.blocks) == Err::<AnalyzerState, AnalysisError>(
            e,
        ),
{
    reveal(trace_ok);
    let ctx = script.subs.take(cur.sub as int);
    let blocks = blocks_at(script, cur.sub as int);
    assert(blocks.take(cur.next + 1).drop_last() =~= blocks.take(cur.next as int));
    assert(blocks.take(cur.next + 1).last() == blocks[cur.next as int]);
    lemma_run_blocks_fails(cur_entry, ctx, blocks, cur.next + 1);
    lemma_error_rises(script, frames, entries, cur, cur_entry, start, e);
}

} // verus!
