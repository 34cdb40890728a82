//! Structured scripts: a script as a list of blocks, each either literal
//! script bytes or a call of a registered sub-script, and the builder that
//! puts such scripts together.

use vstd::prelude::*;
use std::collections::HashMap;
use std::collections::hash_map::DefaultHasher;
use std::hash::Hasher;
use vstd::bytes::{spec_u64_to_le_bytes, u64_to_le_bytes};
use vstd::std_specs::hash::DefaultHasherAdditionalSpecFns;
use crate::analyzer::StackStatus;
use crate::encoding::{
    encode_push, lemma_scriptint_len, lemma_scriptint_round_trip, push_encoding,
    scriptint_bytes, scriptint_value, write_scriptint,
};
use crate::instruction::{
    decodable, instructions, instructions_of, is_minimal, located_views, pushes_are_minimal,
    Instruction, InstructionView, Located,
};
use crate::opcodes::{OP_ENDIF, OP_IF, OP_NOTIF, OP_PUSHBYTES_0, OP_PUSHNUM_1};
use crate::analyzer::fits_i32;
use crate::sharing::{
    compatible, joined_label, labelled, lemma_merge,
    lemma_merge_entry, lemma_push_env_script, lemma_registry, lemma_share, lemma_take_wf,
    merge_subs,
    same_where_found,
};
use vstd::string::StringExecFns;
use crate::walk::{
    blocks_at, cache_ok, frame_cost, frames_cost, lemma_cache_grow, lemma_cache_record,
    lemma_cache_use, lemma_call_meaning, lemma_frame_resolves, lemma_stack_bounds,
    lemma_step_back, lemma_step_into, lemma_step_over, lemma_walk_end, lemma_walk_start,
    stack_ok, Emitted, Frame,
};

verus! {

/// One block of a structured script.
#[derive(Debug, Clone, PartialEq, Eq, Hash)]
pub enum Block {
    /// A call of the sub-script registered under this identifier.
    Call(u64),
    /// Literal script bytes.
    Script(Vec<u8>),
}

/// A block as a mathematical value.
pub enum BlockView {
    Call(u64),
    Script(Seq<u8>),
}

impl View for Block {
    type V = BlockView;

    open spec fn view(&self) -> BlockView {
        match self {
            Block::Call(id) => BlockView::Call(*id),
            Block::Script(bytes) => BlockView::Script(bytes@),
        }
    }
}

/// The views of a sequence of blocks.
pub open spec fn block_views(blocks: Seq<Block>) -> Seq<BlockView> {
    blocks.map_values(|b: Block| b@)
}

/// What a script is apart from the sub-scripts registered with it.
pub struct FragmentView {
    /// The number of bytes the fragment compiles to.
    pub size: nat,
    /// The stack effect attached by hand, which replaces analysis.
    pub stack_hint: Option<StackStatus>,
    /// Where the fragment comes from, for diagnostics.
    pub debug_identifier: Seq<char>,
    /// The positions of the conditionals that are still open, outermost
    /// first.
    pub unclosed_ifs: Seq<usize>,
    /// The positions of the `OP_ENDIF`s that close nothing in this fragment.
    pub extra_endifs: Seq<usize>,
    /// The widest span from an opening opcode to the `OP_ENDIF` that closes
    /// it.
    pub max_if_interval: (usize, usize),
    /// The blocks in order.
    pub blocks: Seq<BlockView>,
}

/// A structured script as a mathematical value: its own fragment, and the
/// registered sub-scripts, each with its identifier, in the order of
/// registration. A registered fragment calls only fragments registered
/// before it.
pub struct ScriptView {
    pub body: FragmentView,
    pub subs: Seq<(u64, FragmentView)>,
}

/// The position at which `id` is registered in `subs`.
pub open spec fn find(subs: Seq<(u64, FragmentView)>, id: u64) -> Option<int>
    decreases subs.len(),
{
    if subs.len() == 0 {
        None
    } else if subs.last().0 == id {
        Some(subs.len() - 1)
    } else {
        find(subs.drop_last(), id)
    }
}

/// The bytes that one block stands for when calls are looked up in `subs`:
/// its own bytes, or those of the blocks of the fragment it calls, looked up
/// among the fragments registered before that one.
pub open spec fn meaning(subs: Seq<(u64, FragmentView)>, block: BlockView) -> Seq<u8>
    decreases subs.len(), 0nat,
{
    match block {
        BlockView::Script(bytes) => bytes,
        BlockView::Call(id) => match find(subs, id) {
            Some(j) => if 0 <= j < subs.len() {
                flat(subs.take(j), subs[j].1.blocks)
            } else {
                Seq::<u8>::empty()
            },
            None => Seq::<u8>::empty(),
        },
    }
}

/// The bytes that `blocks` compile to when calls are looked up in `subs`.
pub open spec fn flat(subs: Seq<(u64, FragmentView)>, blocks: Seq<BlockView>) -> Seq<u8>
    decreases subs.len(), blocks.len() + 1,
{
    if blocks.len() == 0 {
        Seq::<u8>::empty()
    } else {
        flat(subs, blocks.drop_last()) + meaning(subs, blocks.last())
    }
}

/// The number of bytes that one block stands for, by the sizes recorded in
/// `subs`.
pub open spec fn span(subs: Seq<(u64, FragmentView)>, block: BlockView) -> nat {
    match block {
        BlockView::Script(bytes) => bytes.len(),
        BlockView::Call(id) => match find(subs, id) {
            Some(j) => if 0 <= j < subs.len() {
                subs[j].1.size
            } else {
                0
            },
            None => 0,
        },
    }
}

/// The sum of the spans of `blocks`.
pub open spec fn total_span(subs: Seq<(u64, FragmentView)>, blocks: Seq<BlockView>) -> nat
    decreases blocks.len(),
{
    if blocks.len() == 0 {
        0
    } else {
        total_span(subs, blocks.drop_last()) + span(subs, blocks.last())
    }
}

/// Whether every call in `blocks` names a fragment registered in `subs`.
pub open spec fn calls_resolve(subs: Seq<(u64, FragmentView)>, blocks: Seq<BlockView>) -> bool {
    forall|i: int|
        0 <= i < blocks.len() ==> match #[trigger] blocks[i] {
            BlockView::Call(id) => find(subs, id) is Some,
            BlockView::Script(_) => true,
        }
}

/// Whether `f` is consistent with `subs`: its calls resolve, its size is
/// the sum of the spans of its blocks, and the positions it records lie
/// within it.
pub open spec fn fragment_wf(subs: Seq<(u64, FragmentView)>, f: FragmentView) -> bool {
    &&& calls_resolve(subs, f.blocks)
    &&& f.size == total_span(subs, f.blocks)
    &&& f.bounded_by(f.size)
}

/// Whether the fragment registered at `j` has an identifier that none
/// before it has, and is consistent with the fragments registered before
/// it.
pub open spec fn entry_wf(subs: Seq<(u64, FragmentView)>, j: int) -> bool {
    &&& find(subs.take(j), subs[j].0) is None
    &&& fragment_wf(subs.take(j), subs[j].1)
}

/// Whether each registered fragment has an identifier of its own and is
/// consistent with the fragments registered before it.
pub open spec fn subs_wf(subs: Seq<(u64, FragmentView)>) -> bool {
    forall|j: int| 0 <= j < subs.len() ==> #[trigger] entry_wf(subs, j)
}

/// The wider of the interval `current` and the interval from `start` to
/// `end`; `current` where they are equally wide.
pub open spec fn wider(current: (usize, usize), start: usize, end: usize) -> (usize, usize) {
    if end - start > current.1 - current.0 {
        (start, end)
    } else {
        current
    }
}

pub open spec fn min_nat(a: nat, b: nat) -> nat {
    if a <= b {
        a
    } else {
        b
    }
}

/// The positions `positions`, each moved up by `by`.
pub open spec fn shifted(positions: Seq<usize>, by: nat) -> Seq<usize> {
    positions.map_values(|p: usize| (p + by) as usize)
}

/// The widest interval after the first `n` of `closes`, moved up by `by`,
/// have closed the last `n` of `opens`, the first the last.
pub open spec fn close_pairs(
    widest: (usize, usize),
    opens: Seq<usize>,
    closes: Seq<usize>,
    by: nat,
    n: nat,
) -> (usize, usize)
    decreases n,
{
    if n == 0 {
        widest
    } else {
        wider(
            close_pairs(widest, opens, closes, by, (n - 1) as nat),
            opens[opens.len() - n],
            (closes[n - 1] + by) as usize,
        )
    }
}

/// `blocks` with `bytes` added at the end: appended to the last block where
/// that is literal, as a new literal block otherwise.
pub open spec fn append_literal(blocks: Seq<BlockView>, bytes: Seq<u8>) -> Seq<BlockView> {
    if blocks.len() > 0 && blocks.last() is Script {
        blocks.drop_last().push(BlockView::Script(blocks.last()->Script_0 + bytes))
    } else {
        blocks.push(BlockView::Script(bytes))
    }
}

/// The bytes that push the integer `n` in the shortest way.
pub open spec fn int_push_bytes(n: int) -> Seq<u8> {
    if n == -1 || 1 <= n <= 16 {
        seq![(n - 1 + OP_PUSHNUM_1) as u8]
    } else if n == 0 {
        seq![OP_PUSHBYTES_0]
    } else {
        push_encoding(scriptint_bytes(n))
    }
}

impl FragmentView {
    /// The fragment without blocks that carries the label `label`.
    pub open spec fn empty(label: Seq<char>) -> FragmentView {
        FragmentView {
            size: 0,
            stack_hint: None,
            debug_identifier: label,
            unclosed_ifs: Seq::empty(),
            extra_endifs: Seq::empty(),
            max_if_interval: (0usize, 0usize),
            blocks: Seq::empty(),
        }
    }

    /// The number of conditionals left open minus the number of `OP_ENDIF`s
    /// that close nothing.
    pub open spec fn num_unclosed_ifs(self) -> int {
        self.unclosed_ifs.len() - self.extra_endifs.len()
    }

    /// The bookkeeping of conditionals after the opcode `op` at position
    /// `pos`.
    pub open spec fn note_flow(self, op: u8, pos: usize) -> FragmentView {
        if op == OP_IF || op == OP_NOTIF {
            FragmentView { unclosed_ifs: self.unclosed_ifs.push(pos), ..self }
        } else if op == OP_ENDIF {
            if self.unclosed_ifs.len() > 0 {
                FragmentView {
                    unclosed_ifs: self.unclosed_ifs.drop_last(),
                    max_if_interval: wider(self.max_if_interval, self.unclosed_ifs.last(), pos),
                    ..self
                }
            } else {
                FragmentView { extra_endifs: self.extra_endifs.push(pos), ..self }
            }
        } else {
            self
        }
    }

    /// The bookkeeping of conditionals after the instructions `items`, whose
    /// positions count from `base`.
    pub open spec fn note_instructions(
        self,
        items: Seq<(nat, InstructionView)>,
        base: nat,
    ) -> FragmentView
        decreases items.len(),
    {
        if items.len() == 0 {
            self
        } else {
            let before = self.note_instructions(items.drop_last(), base);
            match items.last().1 {
                InstructionView::Op(op) => before.note_flow(op, (base + items.last().0) as usize),
                InstructionView::PushBytes(_) => before,
            }
        }
    }

    /// Whether the recorded positions lie below `limit`.
    pub open spec fn bounded_by(self, limit: nat) -> bool {
        &&& forall|i: int|
            0 <= i < self.unclosed_ifs.len() ==> (#[trigger] self.unclosed_ifs[i]) < limit
        &&& forall|i: int|
            0 <= i < self.extra_endifs.len() ==> (#[trigger] self.extra_endifs[i]) < limit
        &&& self.max_if_interval.0 <= limit
        &&& self.max_if_interval.1 <= limit
    }

    /// The fragment with `block` added, which stands for `other`: the size
    /// grows by that of `other`, and the bookkeeping of `other`, moved up by
    /// the size so far, is joined to this one. The `OP_ENDIF`s that close
    /// nothing in `other` close the innermost open conditionals of this
    /// fragment, the first of them the innermost.
    pub open spec fn splice(self, other: FragmentView, block: BlockView) -> FragmentView {
        let closable = min_nat(self.unclosed_ifs.len(), other.extra_endifs.len());
        FragmentView {
            size: self.size + other.size,
            unclosed_ifs: self.unclosed_ifs.take(self.unclosed_ifs.len() - closable) + shifted(
                other.unclosed_ifs,
                self.size,
            ),
            extra_endifs: self.extra_endifs + shifted(
                other.extra_endifs.skip(closable as int),
                self.size,
            ),
            max_if_interval: wider(
                close_pairs(
                    self.max_if_interval,
                    self.unclosed_ifs,
                    other.extra_endifs,
                    self.size,
                    closable,
                ),
                (other.max_if_interval.0 + self.size) as usize,
                (other.max_if_interval.1 + self.size) as usize,
            ),
            blocks: self.blocks.push(block),
            ..self
        }
    }

    /// The fragment with `bytes` added as literal script.
    pub open spec fn push_literal(self, bytes: Seq<u8>) -> FragmentView {
        FragmentView {
            size: self.size + bytes.len(),
            blocks: append_literal(self.blocks, bytes),
            ..self
        }
    }

    /// The fragment with the opcode `op` added.
    pub open spec fn push_opcode(self, op: u8) -> FragmentView {
        self.note_flow(op, self.size as usize).push_literal(seq![op])
    }

    /// The fragment with decodable `bytes` added as a literal block of their
    /// own.
    pub open spec fn push_script(self, bytes: Seq<u8>) -> FragmentView {
        let noted = self.note_instructions(instructions_of(bytes), self.size);
        FragmentView {
            size: self.size + bytes.len(),
            blocks: self.blocks.push(BlockView::Script(bytes)),
            ..noted
        }
    }
}

impl ScriptView {
    /// The script without blocks or sub-scripts that carries the label
    /// `label`.
    pub open spec fn empty(label: Seq<char>) -> ScriptView {
        ScriptView { body: FragmentView::empty(label), subs: Seq::empty() }
    }

    /// Whether the script is consistent.
    pub open spec fn wf(self) -> bool {
        &&& subs_wf(self.subs)
        &&& fragment_wf(self.subs, self.body)
    }

    /// The bytes the script compiles to.
    pub open spec fn compiled(self) -> Seq<u8> {
        flat(self.subs, self.body.blocks)
    }

    /// The registered fragment at `sub`, or the script's own where `sub` is
    /// the number of registered fragments.
    pub open spec fn fragment_at(self, sub: int) -> FragmentView {
        if 0 <= sub < self.subs.len() {
            self.subs[sub].1
        } else {
            self.body
        }
    }

    /// This script with another fragment of its own.
    pub open spec fn with_body(self, body: FragmentView) -> ScriptView {
        ScriptView { body, ..self }
    }
}

/// What one block feeds to the hasher: a tag, then the identifier of a call,
/// or the length and the bytes of a literal block.
pub open spec fn block_hash_input(block: BlockView) -> Seq<Seq<u8>> {
    match block {
        BlockView::Call(id) => seq![seq![0u8], spec_u64_to_le_bytes(id)],
        BlockView::Script(bytes) => seq![
            seq![1u8],
            spec_u64_to_le_bytes(bytes.len() as u64),
            bytes,
        ],
    }
}

/// What a sequence of blocks feeds to the hasher.
pub open spec fn hash_input(blocks: Seq<BlockView>) -> Seq<Seq<u8>>
    decreases blocks.len(),
{
    if blocks.len() == 0 {
        Seq::<Seq<u8>>::empty()
    } else {
        hash_input(blocks.drop_last()) + block_hash_input(blocks.last())
    }
}

/// The content hash of a sequence of blocks: what the standard library's
/// default hasher makes of them. Sizes, labels, hints and bookkeeping take
/// no part.
pub open spec fn content_hash(blocks: Seq<BlockView>) -> u64 {
    DefaultHasher::spec_finish(hash_input(blocks))
}

/// Where an identifier is found, the entry there carries it; where it is
/// not found, no entry carries it.
pub proof fn lemma_find(subs: Seq<(u64, FragmentView)>, id: u64)
    ensures
        match find(subs, id) {
            Some(j) => 0 <= j < subs.len() && subs[j].0 == id,
            None => forall|j: int| 0 <= j < subs.len() ==> (#[trigger] subs[j]).0 != id,
        },
    decreases subs.len(),
{
    if subs.len() > 0 && subs.last().0 != id {
        lemma_find(subs.drop_last(), id);
        match find(subs.drop_last(), id) {
            Some(j) => {},
            None => {
                assert forall|j: int| 0 <= j < subs.len() implies (#[trigger] subs[j]).0
                    != id by {
                    if j < subs.len() - 1 {
                        assert(subs.drop_last()[j] == subs[j]);
                    }
                }
            },
        }
    }
}

/// Registering a fragment under an identifier that is not yet taken leaves
/// the meaning, the span and the resolution of blocks that resolved before
/// as they were.
pub proof fn lemma_register_keeps(
    subs: Seq<(u64, FragmentView)>,
    entry: (u64, FragmentView),
    blocks: Seq<BlockView>,
)
    requires
        find(subs, entry.0) is None,
        calls_resolve(subs, blocks),
    ensures
        calls_resolve(subs.push(entry), blocks),
        total_span(subs.push(entry), blocks) == total_span(subs, blocks),
        flat(subs.push(entry), blocks) == flat(subs, blocks),
    decreases blocks.len(),
{
    let more = subs.push(entry);
    assert(more.drop_last() =~= subs);
    assert forall|i: int| 0 <= i < blocks.len() implies match #[trigger] blocks[i] {
        BlockView::Call(id) => find(more, id) is Some,
        BlockView::Script(_) => true,
    } by {}
    if blocks.len() > 0 {
        let front = blocks.drop_last();
        assert forall|i: int| 0 <= i < front.len() implies match #[trigger] front[i] {
            BlockView::Call(id) => find(subs, id) is Some,
            BlockView::Script(_) => true,
        } by {
            assert(front[i] == blocks[i]);
        }
        lemma_register_keeps(subs, entry, front);
        match blocks.last() {
            BlockView::Call(id) => {
                assert(find(subs, id) is Some);
                lemma_find(subs, id);
                let j = find(subs, id).unwrap();
                assert(find(more, id) == Some(j));
                assert(more.take(j) =~= subs.take(j));
                assert(more[j] == subs[j]);
                assert(meaning(more, blocks.last()) == meaning(subs, blocks.last()));
            },
            BlockView::Script(_) => {
                assert(meaning(more, blocks.last()) == meaning(subs, blocks.last()));
            },
        }
    }
}

/// Taking instructions into the bookkeeping changes nothing but the
/// bookkeeping of conditionals.
pub proof fn lemma_note_instructions_frame(
    f: FragmentView,
    items: Seq<(nat, InstructionView)>,
    base: nat,
)
    ensures
        f.note_instructions(items, base).size == f.size,
        f.note_instructions(items, base).blocks == f.blocks,
        f.note_instructions(items, base).stack_hint == f.stack_hint,
        f.note_instructions(items, base).debug_identifier == f.debug_identifier,
    decreases items.len(),
{
    if items.len() > 0 {
        lemma_note_instructions_frame(f, items.drop_last(), base);
    }
}

/// What the first `n + 1` blocks compile to, from the first `n`.
pub proof fn lemma_take_next(subs: Seq<(u64, FragmentView)>, blocks: Seq<BlockView>, n: int)
    requires
        0 <= n < blocks.len(),
    ensures
        flat(subs, blocks.take(n + 1)) == flat(subs, blocks.take(n)) + meaning(subs, blocks[n]),
{
    assert(blocks.take(n + 1).drop_last() =~= blocks.take(n));
    assert(blocks.take(n + 1).last() == blocks[n]);
}

/// An identifier found among the first `k` registered fragments is found at
/// the same place among all of them.
pub proof fn lemma_find_prefix(subs: Seq<(u64, FragmentView)>, k: int, id: u64)
    requires
        subs_wf(subs),
        0 <= k <= subs.len(),
        find(subs.take(k), id) is Some,
    ensures
        find(subs, id) == find(subs.take(k), id),
        find(subs.take(k), id).unwrap() < k,
{
    lemma_find(subs.take(k), id);
    lemma_find(subs, id);
    let j = find(subs.take(k), id).unwrap();
    assert(subs.take(k)[j] == subs[j]);
    let full = find(subs, id).unwrap();
    if full != j {
        let (low, high) = if j < full {
            (j, full)
        } else {
            (full, j)
        };
        assert(entry_wf(subs, high));
        lemma_find(subs.take(high), id);
        assert(subs.take(high)[low] == subs[low]);
    }
}

/// Positions below a limit lie below every higher limit.
pub proof fn lemma_bounded_grows(f: FragmentView, low: nat, limit: nat)
    requires
        f.bounded_by(low),
        low <= limit,
    ensures
        f.bounded_by(limit),
{
    assert forall|i: int| 0 <= i < f.unclosed_ifs.len() implies (#[trigger] f.unclosed_ifs[i])
        < limit by {
        assert(f.unclosed_ifs[i] < low);
    }
    assert forall|i: int| 0 <= i < f.extra_endifs.len() implies (#[trigger] f.extra_endifs[i])
        < limit by {
        assert(f.extra_endifs[i] < low);
    }
}

/// Taking one opcode at a position below `limit` into the bookkeeping keeps
/// the recorded positions below `limit`.
pub proof fn lemma_note_flow_bounded(f: FragmentView, op: u8, pos: usize, low: nat, limit: nat)
    requires
        f.bounded_by(low),
        low <= limit,
        pos < limit,
    ensures
        f.note_flow(op, pos).bounded_by(limit),
{
    let g = f.note_flow(op, pos);
    assert forall|i: int| 0 <= i < g.unclosed_ifs.len() implies (#[trigger] g.unclosed_ifs[i])
        < limit by {
        if i < f.unclosed_ifs.len() {
            assert(f.unclosed_ifs[i] < low);
        }
    }
    if f.unclosed_ifs.len() > 0 {
        assert(f.unclosed_ifs[f.unclosed_ifs.len() - 1] < low);
    }
    assert forall|i: int| 0 <= i < g.extra_endifs.len() implies (#[trigger] g.extra_endifs[i])
        < limit by {
        if i < f.extra_endifs.len() {
            assert(f.extra_endifs[i] < low);
        }
    }
}

/// Taking instructions at positions below `limit` into the bookkeeping
/// keeps the recorded positions below `limit`.
pub proof fn lemma_note_instructions_bounded(
    f: FragmentView,
    items: Seq<(nat, InstructionView)>,
    base: nat,
    limit: nat,
)
    requires
        f.bounded_by(base),
        base <= limit <= usize::MAX,
        forall|i: int| 0 <= i < items.len() ==> base + (#[trigger] items[i]).0 < limit,
    ensures
        f.note_instructions(items, base).bounded_by(limit),
    decreases items.len(),
{
    if items.len() == 0 {
        lemma_bounded_grows(f, base, limit);
    } else {
        let front = items.drop_last();
        assert forall|i: int| 0 <= i < front.len() implies base + (#[trigger] front[i]).0
            < limit by {
            assert(front[i] == items[i]);
        }
        lemma_note_instructions_bounded(f, front, base, limit);
        let before = f.note_instructions(front, base);
        assert(base + items[items.len() - 1].0 < limit);
        match items.last().1 {
            InstructionView::Op(op) => {
                lemma_note_flow_bounded(
                    before,
                    op,
                    (base + items.last().0) as usize,
                    limit,
                    limit,
                );
            },
            InstructionView::PushBytes(_) => {},
        }
    }
}

/// The widest interval after closing pairs ends no higher than the highest
/// close, moved up, or where it ended before.
pub proof fn lemma_close_pairs_bounded(
    widest: (usize, usize),
    opens: Seq<usize>,
    closes: Seq<usize>,
    by: nat,
    n: nat,
    limit: nat,
)
    requires
        n <= closes.len(),
        n <= opens.len(),
        widest.0 <= limit,
        widest.1 <= limit,
        limit <= usize::MAX,
        forall|i: int| 0 <= i < closes.len() ==> (#[trigger] closes[i]) + by < limit,
        forall|i: int| 0 <= i < opens.len() ==> (#[trigger] opens[i]) < limit,
    ensures
        close_pairs(widest, opens, closes, by, n).0 <= limit,
        close_pairs(widest, opens, closes, by, n).1 <= limit,
    decreases n,
{
    if n > 0 {
        lemma_close_pairs_bounded(widest, opens, closes, by, (n - 1) as nat, limit);
        assert(closes[n - 1] + by < limit);
        assert(opens[opens.len() - n] < limit);
    }
}

/// A fragment joined to another keeps its recorded positions within the
/// sum of the sizes.
pub proof fn lemma_splice_bounded(f: FragmentView, other: FragmentView, block: BlockView)
    requires
        f.bounded_by(f.size),
        other.bounded_by(other.size),
        f.size + other.size <= usize::MAX,
    ensures
        f.splice(other, block).bounded_by(f.size + other.size),
{
    let g = f.splice(other, block);
    let limit = f.size + other.size;
    let closable = min_nat(f.unclosed_ifs.len(), other.extra_endifs.len());
    assert forall|i: int| 0 <= i < g.unclosed_ifs.len() implies (#[trigger] g.unclosed_ifs[i])
        < limit by {
        let kept = f.unclosed_ifs.len() - closable;
        if i < kept {
            assert(f.unclosed_ifs[i] < f.size);
        } else {
            assert(other.unclosed_ifs[i - kept] < other.size);
        }
    }
    assert forall|i: int| 0 <= i < g.extra_endifs.len() implies (#[trigger] g.extra_endifs[i])
        < limit by {
        if i < f.extra_endifs.len() {
            assert(f.extra_endifs[i] < f.size);
        } else {
            assert(other.extra_endifs[i - f.extra_endifs.len() + closable] < other.size);
        }
    }
    assert forall|i: int| 0 <= i < other.extra_endifs.len() implies (
    #[trigger] other.extra_endifs[i]) + f.size < limit by {
        assert(other.extra_endifs[i] < other.size);
    }
    assert forall|i: int| 0 <= i < f.unclosed_ifs.len() implies (#[trigger] f.unclosed_ifs[i])
        < limit by {
        assert(f.unclosed_ifs[i] < f.size);
    }
    lemma_close_pairs_bounded(
        f.max_if_interval,
        f.unclosed_ifs,
        other.extra_endifs,
        f.size,
        closable,
        limit,
    );
}

/// The bytes that push one element of data as the builder does: the
/// shortest push of its number for a single byte, a data push otherwise.
pub open spec fn element_push_bytes(data: Seq<u8>) -> Seq<u8> {
    if data.len() == 1 {
        int_push_bytes(data[0] as int)
    } else {
        push_encoding(data)
    }
}

/// The bytes that push the elements `items` one after the other.
pub open spec fn elements_push_bytes(items: Seq<Seq<u8>>) -> Seq<u8>
    decreases items.len(),
{
    if items.len() == 0 {
        Seq::<u8>::empty()
    } else {
        elements_push_bytes(items.drop_last()) + element_push_bytes(items.last())
    }
}

/// The first block of `blocks` that covers the byte at `position`, with the
/// position of that byte within it.
pub open spec fn locate(
    subs: Seq<(u64, FragmentView)>,
    blocks: Seq<BlockView>,
    position: nat,
) -> Option<(int, nat)>
    decreases blocks.len(),
{
    if blocks.len() == 0 {
        None
    } else {
        let before = total_span(subs, blocks.drop_last());
        if position >= before {
            if position < before + span(subs, blocks.last()) {
                Some((blocks.len() - 1, (position - before) as nat))
            } else {
                None
            }
        } else {
            locate(subs, blocks.drop_last(), position)
        }
    }
}

/// The label of the fragment whose literal block holds the byte at
/// `position` of `f`: that of `f` itself, or, where a call covers the
/// position, what the fragment called gives for it.
pub open spec fn label_at(
    subs: Seq<(u64, FragmentView)>,
    f: FragmentView,
    position: nat,
) -> Seq<char>
    decreases subs.len(),
{
    match locate(subs, f.blocks, position) {
        Some((i, offset)) => match f.blocks[i] {
            BlockView::Script(_) => f.debug_identifier,
            BlockView::Call(id) => match find(subs, id) {
                Some(p) => if 0 <= p < subs.len() {
                    label_at(subs.take(p), subs[p].1, offset)
                } else {
                    f.debug_identifier
                },
                None => f.debug_identifier,
            },
        },
        None => f.debug_identifier,
    }
}

/// The spans of the first blocks of a sequence sum to no more than those of
/// all.
pub proof fn lemma_span_take(subs: Seq<(u64, FragmentView)>, blocks: Seq<BlockView>, n: int)
    requires
        0 <= n <= blocks.len(),
    ensures
        total_span(subs, blocks.take(n)) <= total_span(subs, blocks),
        n < blocks.len() ==> total_span(subs, blocks.take(n + 1)) == total_span(
            subs,
            blocks.take(n),
        ) + span(subs, blocks[n]),
    decreases blocks.len(),
{
    if n < blocks.len() {
        lemma_span_take(subs, blocks.drop_last(), n);
        assert(blocks.drop_last().take(n) =~= blocks.take(n));
        assert(blocks.take(n + 1).drop_last() =~= blocks.take(n));
        assert(blocks.take(n + 1).last() == blocks[n]);
    } else {
        assert(blocks.take(n) =~= blocks);
    }
}

/// A block that begins at or before a position and ends after it is the
/// one that `locate` finds.
pub proof fn lemma_locate(
    subs: Seq<(u64, FragmentView)>,
    blocks: Seq<BlockView>,
    position: nat,
    i: int,
)
    requires
        0 <= i < blocks.len(),
        total_span(subs, blocks.take(i)) <= position < total_span(subs, blocks.take(i + 1)),
    ensures
        locate(subs, blocks, position) == Some(
            (i, (position - total_span(subs, blocks.take(i))) as nat),
        ),
    decreases blocks.len(),
{
    lemma_span_take(subs, blocks, i);
    if i == blocks.len() - 1 {
        assert(blocks.take(i) =~= blocks.drop_last());
        assert(blocks.take(i + 1) =~= blocks);
    } else {
        lemma_span_take(subs, blocks.drop_last(), i + 1);
        assert(blocks.drop_last().take(i + 1) =~= blocks.take(i + 1));
        assert(blocks.drop_last().take(i) =~= blocks.take(i));
        lemma_locate(subs, blocks.drop_last(), position, i);
    }
}

/// Literal bytes added in two steps are the bytes added at once.
pub proof fn lemma_push_literal_twice(f: FragmentView, first: Seq<u8>, second: Seq<u8>)
    ensures
        f.push_literal(first).push_literal(second) == f.push_literal(first + second),
{
    let once = f.push_literal(first + second);
    let twice = f.push_literal(first).push_literal(second);
    if f.blocks.len() > 0 && f.blocks.last() is Script {
        let had = f.blocks.last()->Script_0;
        assert(f.push_literal(first).blocks.drop_last() =~= f.blocks.drop_last());
        assert((had + first) + second =~= had + (first + second));
        assert(twice.blocks =~= once.blocks);
    } else {
        assert(f.push_literal(first).blocks.drop_last() =~= f.blocks);
        assert(twice.blocks =~= once.blocks);
    }
}

/// The pushes of the first elements are no longer than the pushes of all.
pub proof fn lemma_elements_take(items: Seq<Seq<u8>>, n: int)
    requires
        0 <= n <= items.len(),
    ensures
        elements_push_bytes(items.take(n)).len() <= elements_push_bytes(items).len(),
        n < items.len() ==> elements_push_bytes(items.take(n + 1)) == elements_push_bytes(
            items.take(n),
        ) + element_push_bytes(items[n]),
    decreases items.len(),
{
    if n < items.len() {
        lemma_elements_take(items.drop_last(), n);
        assert(items.drop_last().take(n) =~= items.take(n));
        assert(items.take(n + 1).drop_last() =~= items.take(n));
        assert(items.take(n + 1).last() == items[n]);
    } else {
        assert(items.take(n) =~= items);
    }
}

/// The number that the bytes of one short push put on the stack, by the
/// rules of the script format: the opcodes for -1 and for 1 to 16 stand for
/// their number, and a push of up to 75 bytes that is announced by its
/// length stands for the script number that its data encode.
pub open spec fn pushed_number(bytes: Seq<u8>) -> Option<int> {
    if bytes.len() == 1 && bytes[0] == 0x4f {
        Some(-1)
    } else if bytes.len() == 1 && 0x51 <= bytes[0] <= 0x60 {
        Some(bytes[0] - 0x50)
    } else if bytes.len() >= 1 && bytes[0] <= 0x4b && bytes.len() == bytes[0] + 1 {
        scriptint_value(bytes.skip(1))
    } else {
        None
    }
}

/// What `push_int` writes for a number of up to four bytes of sign and
/// magnitude stands for that number; -1 and 1 to 16 take one byte, and zero
/// is the empty push.
pub proof fn lemma_push_int_round_trip(n: int)
    requires
        -0x7fff_ffff <= n <= 0x7fff_ffff,
    ensures
        pushed_number(int_push_bytes(n)) == Some(n),
        n == -1 || 1 <= n <= 16 ==> int_push_bytes(n).len() == 1,
        n == 0 ==> int_push_bytes(n) == seq![0u8],
{
    lemma_scriptint_round_trip(n);
    let bytes = int_push_bytes(n);
    if n == -1 || 1 <= n <= 16 {
    } else if n == 0 {
        assert(bytes.skip(1) =~= Seq::<u8>::empty());
    } else {
        lemma_scriptint_len(n);
        assert(bytes.skip(1) =~= scriptint_bytes(n));
    }
}

/// A literal block added at the end adds its bytes to what the blocks
/// compile to and its length to their span, and no call.
pub proof fn lemma_append_literal(
    subs: Seq<(u64, FragmentView)>,
    blocks: Seq<BlockView>,
    bytes: Seq<u8>,
)
    ensures
        flat(subs, append_literal(blocks, bytes)) == flat(subs, blocks) + bytes,
        total_span(subs, append_literal(blocks, bytes)) == total_span(subs, blocks) + bytes.len(),
        calls_resolve(subs, blocks) ==> calls_resolve(subs, append_literal(blocks, bytes)),
{
    let joined = append_literal(blocks, bytes);
    if blocks.len() > 0 && blocks.last() is Script {
        let old_bytes = blocks.last()->Script_0;
        assert(joined.drop_last() =~= blocks.drop_last());
        assert(joined.last() == BlockView::Script(old_bytes + bytes));
        assert(meaning(subs, joined.last()) == old_bytes + bytes);
        assert(meaning(subs, blocks.last()) == old_bytes);
        assert(flat(subs, joined) == flat(subs, blocks.drop_last()) + (old_bytes + bytes));
        assert(flat(subs, blocks) == flat(subs, blocks.drop_last()) + old_bytes);
        assert(flat(subs, joined) =~= flat(subs, blocks) + bytes);
    } else {
        assert(joined.drop_last() =~= blocks);
        assert(meaning(subs, joined.last()) == bytes);
    }
    if calls_resolve(subs, blocks) {
        assert forall|i: int| 0 <= i < joined.len() implies match #[trigger] joined[i] {
            BlockView::Call(id) => find(subs, id) is Some,
            BlockView::Script(_) => true,
        } by {
            if i < joined.len() - 1 {
                assert(joined[i] == blocks[i]);
            }
        }
    }
}

/// A block added at the end adds what it stands for.
pub proof fn lemma_push_block(
    subs: Seq<(u64, FragmentView)>,
    blocks: Seq<BlockView>,
    block: BlockView,
)
    ensures
        flat(subs, blocks.push(block)) == flat(subs, blocks) + meaning(subs, block),
        total_span(subs, blocks.push(block)) == total_span(subs, blocks) + span(subs, block),
{
    assert(blocks.push(block).drop_last() =~= blocks);
}

/// Adds the bytes of `src` to the end of `dst`.
pub fn extend_bytes(dst: &mut Vec<u8>, src: &[u8])
    ensures
        final(dst)@ == old(dst)@ + src@,
{
    let n: usize = src.len();
    let mut i: usize = 0;
    while i < n
        invariant
            n == src@.len(),
            i <= n,
            dst@ == old(dst)@ + src@.take(i as int),
        decreases n - i,
    {
        dst.push(src[i]);
        assert(src@.take(i + 1) =~= src@.take(i as int).push(src@[i as int]));
        i += 1;
    }
    assert(src@.take(n as int) =~= src@);
}

/// A new vector with the bytes of `src`.
pub fn copy_bytes(src: &[u8]) -> (out: Vec<u8>)
    ensures
        out@ == src@,
{
    let mut out: Vec<u8> = Vec::new();
    extend_bytes(&mut out, src);
    assert(Seq::<u8>::empty() + src@ =~= src@);
    out
}

/// A new vector with the positions in `src`.
fn copy_positions(src: &Vec<usize>) -> (out: Vec<usize>)
    ensures
        out@ == src@,
{
    let n: usize = src.len();
    let mut out: Vec<usize> = Vec::new();
    let mut i: usize = 0;
    while i < n
        invariant
            n == src@.len(),
            i <= n,
            out@ == src@.take(i as int),
        decreases n - i,
    {
        out.push(src[i]);
        assert(src@.take(i + 1) =~= src@.take(i as int).push(src@[i as int]));
        i += 1;
    }
    assert(src@.take(n as int) =~= src@);
    out
}

/// Adds the positions of `src` from index `from` on, each moved up by `by`,
/// to the end of `dst`.
fn shift_into(dst: &mut Vec<usize>, src: &Vec<usize>, from: usize, by: usize)
    requires
        from <= src@.len(),
        forall|i: int| 0 <= i < src@.len() ==> (#[trigger] src@[i]) + by <= usize::MAX,
    ensures
        final(dst)@ == old(dst)@ + shifted(src@.skip(from as int), by as nat),
{
    let n: usize = src.len();
    let ghost moved = shifted(src@.skip(from as int), by as nat);
    let mut i: usize = from;
    while i < n
        invariant
            n == src@.len(),
            from <= i <= n,
            moved == shifted(src@.skip(from as int), by as nat),
            forall|k: int| 0 <= k < src@.len() ==> (#[trigger] src@[k]) + by <= usize::MAX,
            dst@ == old(dst)@ + moved.take(i - from),
        decreases n - i,
    {
        assert(src@[i as int] + by <= usize::MAX);
        dst.push(src[i] + by);
        assert(moved.take(i + 1 - from) =~= moved.take(i - from).push(moved[i - from]));
        assert(moved[i - from] == (src@[i as int] + by) as usize);
        i += 1;
    }
    assert(moved.take(n - from) =~= moved);
}

/// Whether two byte vectors hold the same bytes.
fn bytes_same(a: &Vec<u8>, b: &Vec<u8>) -> (out: bool)
    ensures
        out == (a@ == b@),
{
    let n: usize = a.len();
    if n != b.len() {
        return false;
    }
    let mut i: usize = 0;
    while i < n
        invariant
            n == a@.len(),
            n == b@.len(),
            i <= n,
            forall|k: int| 0 <= k < i ==> a@[k] == b@[k],
        decreases n - i,
    {
        if a[i] != b[i] {
            return false;
        }
        i += 1;
    }
    assert(a@ =~= b@);
    true
}

/// Whether two lists of blocks are the same.
fn blocks_same(a: &Vec<Block>, b: &Vec<Block>) -> (out: bool)
    ensures
        out == (block_views(a@) == block_views(b@)),
{
    let n: usize = a.len();
    if n != b.len() {
        assert(block_views(a@).len() != block_views(b@).len());
        return false;
    }
    let mut i: usize = 0;
    while i < n
        invariant
            n == a@.len(),
            n == b@.len(),
            i <= n,
            forall|k: int| 0 <= k < i ==> a@[k]@ == b@[k]@,
        decreases n - i,
    {
        let same: bool = match (&a[i], &b[i]) {
            (Block::Call(x), Block::Call(y)) => *x == *y,
            (Block::Script(x), Block::Script(y)) => bytes_same(x, y),
            _ => false,
        };
        if !same {
            assert(block_views(a@)[i as int] != block_views(b@)[i as int]);
            return false;
        }
        i += 1;
    }
    assert(block_views(a@) =~= block_views(b@));
    true
}

/// A copy of a list of blocks.
fn duplicate_blocks(blocks: &Vec<Block>) -> (out: Vec<Block>)
    ensures
        block_views(out@) == block_views(blocks@),
{
    let n: usize = blocks.len();
    let mut out: Vec<Block> = Vec::new();
    let mut i: usize = 0;
    while i < n
        invariant
            n == blocks@.len(),
            i <= n,
            out@.len() == i,
            forall|k: int| 0 <= k < i ==> out@[k]@ == blocks@[k]@,
        decreases n - i,
    {
        let copy: Block = match &blocks[i] {
            Block::Call(id) => Block::Call(*id),
            Block::Script(bytes) => Block::Script(copy_bytes(bytes.as_slice())),
        };
        out.push(copy);
        i += 1;
    }
    assert(block_views(out@) =~= block_views(blocks@));
    out
}

/// What a script holds apart from the sub-scripts registered with it.
#[derive(Debug, Clone, PartialEq)]
pub struct Fragment {
    pub size: usize,
    pub stack_hint: Option<StackStatus>,
    pub debug_identifier: String,
    pub unclosed_if_positions: Vec<usize>,
    pub extra_endif_positions: Vec<usize>,
    pub max_if_start: usize,
    pub max_if_end: usize,
    pub blocks: Vec<Block>,
}

impl View for Fragment {
    type V = FragmentView;

    open spec fn view(&self) -> FragmentView {
        FragmentView {
            size: self.size as nat,
            stack_hint: self.stack_hint,
            debug_identifier: self.debug_identifier@,
            unclosed_ifs: self.unclosed_if_positions@,
            extra_endifs: self.extra_endif_positions@,
            max_if_interval: (self.max_if_start, self.max_if_end),
            blocks: block_views(self.blocks@),
        }
    }
}

/// A fragment registered under an identifier.
#[derive(Debug, Clone, PartialEq)]
pub struct Registered {
    pub id: u64,
    pub fragment: Fragment,
}

/// The views of a sequence of registered fragments.
pub open spec fn sub_views(subs: Seq<Registered>) -> Seq<(u64, FragmentView)> {
    subs.map_values(|e: Registered| (e.id, e.fragment@))
}

impl Fragment {
    fn new(debug_info: &str) -> (out: Fragment)
        ensures
            out@ == FragmentView::empty(debug_info@),
    {
        let out = Fragment {
            size: 0,
            stack_hint: None,
            debug_identifier: debug_info.to_owned(),
            unclosed_if_positions: Vec::new(),
            extra_endif_positions: Vec::new(),
            max_if_start: 0,
            max_if_end: 0,
            blocks: Vec::new(),
        };
        assert(out@.blocks =~= Seq::<BlockView>::empty());
        out
    }

    fn note_flow(&mut self, op: u8, pos: usize)
        ensures
            final(self)@ == old(self)@.note_flow(op, pos),
    {
        if op == OP_IF || op == OP_NOTIF {
            self.unclosed_if_positions.push(pos);
        } else if op == OP_ENDIF {
            match self.unclosed_if_positions.pop() {
                Some(start) => {
                    if pos as i128 - start as i128 > self.max_if_end as i128
                        - self.max_if_start as i128 {
                        self.max_if_start = start;
                        self.max_if_end = pos;
                    }
                    assert(self.unclosed_if_positions@ =~= old(self).unclosed_if_positions@.drop_last());
                },
                None => {
                    self.extra_endif_positions.push(pos);
                },
            }
        }
    }

    fn note_instructions(&mut self, items: &Vec<Located>, base: usize, len: usize)
        requires
            base + len <= usize::MAX,
            forall|i: int| 0 <= i < items@.len() ==> (#[trigger] located_views(items@)[i]).0 < len,
        ensures
            final(self)@ == old(self)@.note_instructions(located_views(items@), base as nat),
    {
        let n: usize = items.len();
        let ghost views = located_views(items@);
        let mut i: usize = 0;
        while i < n
            invariant
                n == items@.len(),
                i <= n,
                views == located_views(items@),
                base + len <= usize::MAX,
                forall|k: int| 0 <= k < views.len() ==> (#[trigger] views[k]).0 < len,
                self@ == old(self)@.note_instructions(views.take(i as int), base as nat),
            decreases n - i,
        {
            assert(views.take(i + 1).drop_last() =~= views.take(i as int));
            assert(views.take(i + 1).last() == views[i as int]);
            assert(views[i as int] == items@[i as int]@);
            match &items[i].instruction {
                Instruction::Op(op) => {
                    self.note_flow(*op, base + items[i].at);
                },
                Instruction::PushBytes(_) => {},
            }
            i += 1;
        }
        assert(views.take(n as int) =~= views);
    }

    /// A copy of this fragment.
    fn duplicate(&self) -> (out: Fragment)
        ensures
            out@ == self@,
    {
        Fragment {
            size: self.size,
            stack_hint: self.stack_hint,
            debug_identifier: self.debug_identifier.clone(),
            unclosed_if_positions: copy_positions(&self.unclosed_if_positions),
            extra_endif_positions: copy_positions(&self.extra_endif_positions),
            max_if_start: self.max_if_start,
            max_if_end: self.max_if_end,
            blocks: duplicate_blocks(&self.blocks),
        }
    }

    /// A fragment without blocks that has the size and the bookkeeping of
    /// conditionals of this one.
    fn outline(&self) -> (out: Fragment)
        ensures
            out@ == (FragmentView {
                stack_hint: None,
                debug_identifier: Seq::<char>::empty(),
                blocks: Seq::<BlockView>::empty(),
                ..self@
            }),
    {
        let out = Fragment {
            size: self.size,
            stack_hint: None,
            debug_identifier: String::new(),
            unclosed_if_positions: copy_positions(&self.unclosed_if_positions),
            extra_endif_positions: copy_positions(&self.extra_endif_positions),
            max_if_start: self.max_if_start,
            max_if_end: self.max_if_end,
            blocks: Vec::new(),
        };
        assert(out@.blocks =~= Seq::<BlockView>::empty());
        out
    }

    /// Adds `block`, which stands for `other`, and joins the bookkeeping of
    /// `other` to this one.
    fn splice(&mut self, other: &Fragment, block: Block)
        requires
            old(self).size + other.size <= usize::MAX,
            other@.bounded_by(other.size as nat),
        ensures
            final(self)@ == old(self)@.splice(other@, block@),
    {
        let shift: usize = self.size;
        let opens: usize = self.unclosed_if_positions.len();
        let closes: usize = other.extra_endif_positions.len();
        let closable: usize = if opens <= closes {
            opens
        } else {
            closes
        };
        let ghost before = self@;
        let mut n: usize = 0;
        while n < closable
            invariant
                n <= closable,
                closable <= opens,
                closable <= closes,
                opens == before.unclosed_ifs.len(),
                closes == other@.extra_endifs.len(),
                shift == before.size,
                shift + other.size <= usize::MAX,
                other@.bounded_by(other.size as nat),
                self.unclosed_if_positions@ == before.unclosed_ifs.take(opens - n),
                (self.max_if_start, self.max_if_end) == close_pairs(
                    before.max_if_interval,
                    before.unclosed_ifs,
                    other@.extra_endifs,
                    shift as nat,
                    n as nat,
                ),
                self.size == before.size,
                self.stack_hint == before.stack_hint,
                self.debug_identifier@ == before.debug_identifier,
                self.extra_endif_positions@ == before.extra_endifs,
                block_views(self.blocks@) == before.blocks,
            decreases closable - n,
        {
            assert(other@.extra_endifs[n as int] < other.size);
            let end: usize = other.extra_endif_positions[n] + shift;
            match self.unclosed_if_positions.pop() {
                Some(start) => {
                    assert(start == before.unclosed_ifs[opens - n - 1]);
                    if end as i128 - start as i128 > self.max_if_end as i128
                        - self.max_if_start as i128 {
                        self.max_if_start = start;
                        self.max_if_end = end;
                    }
                    assert(self.unclosed_if_positions@ =~= before.unclosed_ifs.take(
                        opens - n - 1,
                    ));
                },
                None => {},
            }
            n += 1;
        }
        proof {
            assert forall|i: int| 0 <= i < other.unclosed_if_positions@.len() implies (
            #[trigger] other.unclosed_if_positions@[i]) + shift <= usize::MAX by {
                assert(other@.unclosed_ifs[i] < other.size);
            }
            assert forall|i: int| 0 <= i < other.extra_endif_positions@.len() implies (
            #[trigger] other.extra_endif_positions@[i]) + shift <= usize::MAX by {
                assert(other@.extra_endifs[i] < other.size);
            }
            assert(other.unclosed_if_positions@.skip(0) =~= other.unclosed_if_positions@);
        }
        shift_into(&mut self.unclosed_if_positions, &other.unclosed_if_positions, 0, shift);
        shift_into(&mut self.extra_endif_positions, &other.extra_endif_positions, closable, shift);
        let start: usize = other.max_if_start + shift;
        let end: usize = other.max_if_end + shift;
        if end as i128 - start as i128 > self.max_if_end as i128 - self.max_if_start as i128 {
            self.max_if_start = start;
            self.max_if_end = end;
        }
        self.size = shift + other.size;
        self.blocks.push(block);
        assert(block_views(self.blocks@) =~= before.blocks.push(block@));
    }

    fn push_literal(&mut self, bytes: &[u8])
        requires
            old(self).size + bytes@.len() <= usize::MAX,
        ensures
            final(self)@ == old(self)@.push_literal(bytes@),
    {
        let ghost before = block_views(self.blocks@);
        match self.blocks.pop() {
            Some(Block::Script(mut buffer)) => {
                let ghost had = buffer@;
                extend_bytes(&mut buffer, bytes);
                self.blocks.push(Block::Script(buffer));
                assert(block_views(self.blocks@) =~= before.drop_last().push(
                    BlockView::Script(had + bytes@),
                ));
                assert(before.last() == BlockView::Script(had));
            },
            Some(Block::Call(id)) => {
                self.blocks.push(Block::Call(id));
                self.blocks.push(Block::Script(copy_bytes(bytes)));
                assert(before.last() == BlockView::Call(id));
                assert(block_views(self.blocks@) =~= before.push(BlockView::Script(bytes@)));
            },
            None => {
                self.blocks.push(Block::Script(copy_bytes(bytes)));
                assert(block_views(self.blocks@) =~= before.push(BlockView::Script(bytes@)));
            },
        }
        self.size = self.size + bytes.len();
    }
}

/// A script built from literal script bytes and calls of sub-scripts.
///
/// The sub-scripts that the script calls, directly or through others, are
/// registered with it, each under an identifier.
#[derive(Debug, Clone, PartialEq)]
pub struct StructuredScript {
    body: Fragment,
    subs: Vec<Registered>,
    index: HashMap<u64, usize>,
}

impl View for StructuredScript {
    type V = ScriptView;

    closed spec fn view(&self) -> ScriptView {
        ScriptView { body: self.body@, subs: sub_views(self.subs@) }
    }
}

impl StructuredScript {
    /// The invariant of a structured script: its view is consistent, and
    /// its lookup table finds exactly the registered fragments.
    #[verifier::opaque]
    pub closed spec fn wf(&self) -> bool {
        &&& self@.wf()
        &&& forall|id: u64| #[trigger]
            self.index@.contains_key(id) <==> find(self@.subs, id) is Some
        &&& forall|id: u64| #[trigger]
            self.index@.contains_key(id) ==> find(self@.subs, id) == Some(self.index@[id] as int)
    }

    /// A well-formed script has a consistent view.
    pub proof fn lemma_wf_view(&self)
        requires
            self.wf(),
        ensures
            self@.wf(),
    {
        reveal(StructuredScript::wf);
    }

    /// A script without blocks, labelled `debug_info`.
    pub fn new(debug_info: &str) -> (out: StructuredScript)
        ensures
            out.wf(),
            out@ == ScriptView::empty(debug_info@),
    {
        proof {
            reveal(StructuredScript::wf);
        }
        let out = StructuredScript {
            body: Fragment::new(debug_info),
            subs: Vec::new(),
            index: HashMap::new(),
        };
        assert(out@.subs =~= Seq::<(u64, FragmentView)>::empty());
        out
    }

    /// The number of bytes the script compiles to.
    pub fn len(&self) -> (out: usize)
        ensures
            out == self@.body.size,
    {
        self.body.size
    }

    /// Whether the script compiles to no bytes.
    pub fn is_empty(&self) -> (out: bool)
        ensures
            out == (self@.body.size == 0),
    {
        self.body.size == 0
    }

    /// Adds one opcode.
    pub fn push_opcode(self, data: u8) -> (out: StructuredScript)
        requires
            self.wf(),
            self@.body.size < usize::MAX,
        ensures
            out.wf(),
            out@ == self@.with_body(self@.body.push_opcode(data)),
    {
        proof {
            reveal(StructuredScript::wf);
        }
        let mut script = self;
        let pos: usize = script.body.size;
        script.body.note_flow(data, pos);
        let one: [u8; 1] = [data];
        assert(one@ =~= seq![data]);
        script.body.push_literal(one.as_slice());
        proof {
            lemma_append_literal(self@.subs, self@.body.blocks, seq![data]);
        }
        script
    }
    /// Adds a data push of `data`, in the shortest form for its length.
    pub fn push_slice(self, data: &[u8]) -> (out: StructuredScript)
        requires
            self.wf(),
            data@.len() < 0x1_0000_0000,
            self@.body.size + push_encoding(data@).len() <= usize::MAX,
        ensures
            out.wf(),
            out@ == self@.with_body(self@.body.push_literal(push_encoding(data@))),
    {
        proof {
            reveal(StructuredScript::wf);
        }
        let mut script = self;
        let encoded: Vec<u8> = encode_push(data);
        script.body.push_literal(encoded.as_slice());
        proof {
            lemma_append_literal(self@.subs, self@.body.blocks, push_encoding(data@));
        }
        script
    }

    /// Adds a push of the integer `data`, in the shortest form: a single
    /// opcode for -1 and for 0 to 16, a push of the minimal script number
    /// otherwise.
    pub fn push_int(self, data: i64) -> (out: StructuredScript)
        requires
            self.wf(),
            data != i64::MIN,
            self@.body.size + int_push_bytes(data as int).len() <= usize::MAX,
        ensures
            out.wf(),
            out@ == self@.with_body(self@.body.push_literal(int_push_bytes(data as int))),
    {
        if data == -1 || (1 <= data && data <= 16) {
            let opcode: u8 = (data - 1 + 0x51) as u8;
            self.push_opcode(opcode)
        } else if data == 0 {
            self.push_opcode(OP_PUSHBYTES_0)
        } else {
            self.push_int_non_minimal(data)
        }
    }

    fn push_int_non_minimal(self, data: i64) -> (out: StructuredScript)
        requires
            self.wf(),
            data != i64::MIN,
            self@.body.size + push_encoding(scriptint_bytes(data as int)).len() <= usize::MAX,
        ensures
            out.wf(),
            out@ == self@.with_body(
                self@.body.push_literal(push_encoding(scriptint_bytes(data as int))),
            ),
    {
        let number: Vec<u8> = write_scriptint(data);
        proof {
            lemma_scriptint_len(data as int);
        }
        self.push_slice(number.as_slice())
    }

    /// Adds `data` as a literal block of its own and takes the conditionals
    /// in it into the bookkeeping.
    pub fn push_script(self, data: Vec<u8>) -> (out: StructuredScript)
        requires
            self.wf(),
            decodable(data@),
            self@.body.size + data@.len() <= usize::MAX,
        ensures
            out.wf(),
            out@ == self@.with_body(self@.body.push_script(data@)),
    {
        proof {
            reveal(StructuredScript::wf);
        }
        let mut script = self;
        match instructions(data.as_slice()) {
            Some(items) => {
                let base: usize = script.body.size;
                script.body.note_instructions(&items, base, data.len());
                script.body.size = base + data.len();
                proof {
                    lemma_note_instructions_frame(
                        self@.body,
                        located_views(items@),
                        base as nat,
                    );
                    lemma_note_instructions_bounded(
                        self@.body,
                        located_views(items@),
                        base as nat,
                        (base + data@.len()) as nat,
                    );
                    lemma_push_block(self@.subs, self@.body.blocks, BlockView::Script(data@));
                    assert(block_views(script.body.blocks@.push(Block::Script(data)))
                        =~= self@.body.blocks.push(BlockView::Script(data@)));
                    assert forall|i: int|
                        0 <= i < self@.body.blocks.push(
                            BlockView::Script(data@),
                        ).len() implies match #[trigger] self@.body.blocks.push(
                        BlockView::Script(data@),
                    )[i] {
                        BlockView::Call(id) => find(self@.subs, id) is Some,
                        BlockView::Script(_) => true,
                    } by {
                        if i < self@.body.blocks.len() {
                            assert(self@.body.blocks.push(BlockView::Script(data@))[i]
                                == self@.body.blocks[i]);
                        }
                    }
                }
                script.body.blocks.push(Block::Script(data));
                script
            },
            None => script,
        }
    }

    /// Adds `data` as `push_script` does where it is decodable and the size
    /// stays within the machine's limit, and hands the script back unchanged
    /// where not.
    pub fn try_push_script(self, data: Vec<u8>) -> (out: Result<
        StructuredScript,
        StructuredScript,
    >)
        requires
            self.wf(),
        ensures
            match out {
                Ok(script) => decodable(data@) && self@.body.size + data@.len() <= usize::MAX
                    && script.wf() && script@ == self@.with_body(self@.body.push_script(data@)),
                Err(script) => !(decodable(data@) && self@.body.size + data@.len()
                    <= usize::MAX) && script == self,
            },
    {
        if data.len() > usize::MAX - self.body.size {
            return Err(self);
        }
        match instructions(data.as_slice()) {
            Some(_) => Ok(self.push_script(data)),
            None => Err(self),
        }
    }

    /// The stack effect attached by hand, if any.
    pub fn stack_hint(&self) -> (out: Option<StackStatus>)
        ensures
            out == self@.body.stack_hint,
    {
        self.body.stack_hint
    }

    /// Whether a stack effect is attached by hand.
    pub fn has_stack_hint(&self) -> (out: bool)
        ensures
            out == (self@.body.stack_hint is Some),
    {
        self.body.stack_hint.is_some()
    }

    /// Attaches the main-stack part of a stack effect by hand. The alt-stack
    /// part of an earlier hint stays; without one it is zero.
    pub fn add_stack_hint(self, access: i32, changed: i32) -> (out: StructuredScript)
        requires
            self.wf(),
        ensures
            out.wf(),
            out@ == self@.with_body(
                FragmentView {
                    stack_hint: Some(
                        StackStatus {
                            deepest_stack_accessed: access,
                            stack_changed: changed,
                            deepest_altstack_accessed: match self@.body.stack_hint {
                                Some(hint) => hint.deepest_altstack_accessed,
                                None => 0,
                            },
                            altstack_changed: match self@.body.stack_hint {
                                Some(hint) => hint.altstack_changed,
                                None => 0,
                            },
                        },
                    ),
                    ..self@.body
                },
            ),
    {
        proof {
            reveal(StructuredScript::wf);
        }
        let mut script = self;
        let (alt_access, alt_changed): (i32, i32) = match script.body.stack_hint {
            Some(hint) => (hint.deepest_altstack_accessed, hint.altstack_changed),
            None => (0, 0),
        };
        script.body.stack_hint = Some(
            StackStatus {
                deepest_stack_accessed: access,
                stack_changed: changed,
                deepest_altstack_accessed: alt_access,
                altstack_changed: alt_changed,
            },
        );
        script
    }

    /// Attaches the alt-stack part of a stack effect by hand. The main-stack
    /// part of an earlier hint stays; without one it is zero.
    pub fn add_altstack_hint(self, access: i32, changed: i32) -> (out: StructuredScript)
        requires
            self.wf(),
        ensures
            out.wf(),
            out@ == self@.with_body(
                FragmentView {
                    stack_hint: Some(
                        StackStatus {
                            deepest_stack_accessed: match self@.body.stack_hint {
                                Some(hint) => hint.deepest_stack_accessed,
                                None => 0,
                            },
                            stack_changed: match self@.body.stack_hint {
                                Some(hint) => hint.stack_changed,
                                None => 0,
                            },
                            deepest_altstack_accessed: access,
                            altstack_changed: changed,
                        },
                    ),
                    ..self@.body
                },
            ),
    {
        proof {
            reveal(StructuredScript::wf);
        }
        let mut script = self;
        let (main_access, main_changed): (i32, i32) = match script.body.stack_hint {
            Some(hint) => (hint.deepest_stack_accessed, hint.stack_changed),
            None => (0, 0),
        };
        script.body.stack_hint = Some(
            StackStatus {
                deepest_stack_accessed: main_access,
                stack_changed: main_changed,
                deepest_altstack_accessed: access,
                altstack_changed: changed,
            },
        );
        script
    }

    /// The number of conditionals left open minus the number of
    /// `OP_ENDIF`s that close nothing.
    pub fn num_unclosed_ifs(&self) -> (out: i32)
        requires
            fits_i32(self@.body.num_unclosed_ifs()),
        ensures
            out == self@.body.num_unclosed_ifs(),
    {
        (self.body.unclosed_if_positions.len() as i128 - self.body.extra_endif_positions.len()
            as i128) as i32
    }

    /// The number of conditionals left open minus the number of
    /// `OP_ENDIF`s that close nothing, whatever its size.
    pub fn flow_balance(&self) -> (out: i128)
        ensures
            out == self@.body.num_unclosed_ifs(),
            -0x1_0000_0000_0000_0000 <= out <= 0x1_0000_0000_0000_0000,
    {
        self.body.unclosed_if_positions.len() as i128 - self.body.extra_endif_positions.len()
            as i128
    }

    /// The positions of the conditionals that are still open.
    pub fn unclosed_if_positions(&self) -> (out: Vec<usize>)
        ensures
            out@ == self@.body.unclosed_ifs,
    {
        copy_positions(&self.body.unclosed_if_positions)
    }

    /// The positions of the `OP_ENDIF`s that close nothing.
    pub fn extra_endif_positions(&self) -> (out: Vec<usize>)
        ensures
            out@ == self@.body.extra_endifs,
    {
        copy_positions(&self.body.extra_endif_positions)
    }

    /// The widest span from an opening opcode to its `OP_ENDIF`.
    pub fn max_op_if_interval(&self) -> (out: (usize, usize))
        ensures
            out == self@.body.max_if_interval,
    {
        (self.body.max_if_start, self.body.max_if_end)
    }

    /// Whether the script holds an opcode that opens or closes a
    /// conditional.
    pub fn contains_flow_op(&self) -> (out: bool)
        ensures
            out == !(self@.body.unclosed_ifs.len() == 0 && self@.body.extra_endifs.len() == 0
                && self@.body.max_if_interval == (0usize, 0usize)),
    {
        !(self.body.unclosed_if_positions.len() == 0 && self.body.extra_endif_positions.len()
            == 0 && self.body.max_if_start == 0 && self.body.max_if_end == 0)
    }

    /// Whether the script is one literal block.
    pub fn is_script_buf(&self) -> (out: bool)
        ensures
            out == (self@.body.blocks.len() == 1 && self@.body.blocks[0] is Script),
    {
        if self.body.blocks.len() != 1 {
            return false;
        }
        assert(self@.body.blocks[0] == self.body.blocks@[0]@);
        match &self.body.blocks[0] {
            Block::Script(_) => true,
            Block::Call(_) => false,
        }
    }

    /// Whether the script is one literal block that holds one instruction.
    pub fn is_single_instruction(&self) -> (out: bool)
        ensures
            out == (self@.body.blocks.len() == 1 && match self@.body.blocks[0] {
                BlockView::Script(bytes) => decodable(bytes) && instructions_of(bytes).len()
                    == 1,
                BlockView::Call(_) => false,
            }),
    {
        if self.body.blocks.len() != 1 {
            return false;
        }
        assert(self@.body.blocks[0] == self.body.blocks@[0]@);
        match &self.body.blocks[0] {
            Block::Script(bytes) => match instructions(bytes.as_slice()) {
                Some(items) => items.len() == 1,
                None => false,
            },
            Block::Call(_) => false,
        }
    }

    /// The label of the script.
    pub fn debug_identifier(&self) -> (out: &str)
        ensures
            out@ == self@.body.debug_identifier,
    {
        self.body.debug_identifier.as_str()
    }

    /// The blocks of the script.
    pub fn blocks(&self) -> (out: &Vec<Block>)
        ensures
            block_views(out@) == self@.body.blocks,
    {
        &self.body.blocks
    }

    /// The number of registered fragments.
    pub(crate) fn registered(&self) -> (out: usize)
        ensures
            out == self@.subs.len(),
    {
        self.subs.len()
    }

    /// The hint attached to the registered fragment at `sub`.
    pub(crate) fn hint_of(&self, sub: usize) -> (out: Option<StackStatus>)
        requires
            sub < self@.subs.len(),
        ensures
            out == self@.subs[sub as int].1.stack_hint,
    {
        assert(self@.subs[sub as int] == (
            self.subs@[sub as int].id,
            self.subs@[sub as int].fragment@,
        ));
        self.subs[sub].fragment.stack_hint
    }

    /// The size of the registered fragment at `sub`.
    pub(crate) fn size_of(&self, sub: usize) -> (out: usize)
        requires
            sub < self@.subs.len(),
        ensures
            out == self@.subs[sub as int].1.size,
    {
        assert(self@.subs[sub as int] == (
            self.subs@[sub as int].id,
            self.subs@[sub as int].fragment@,
        ));
        self.subs[sub].fragment.size
    }

    /// The blocks of the registered fragment at `sub`, or the script's own
    /// where `sub` is the number of registered fragments.
    pub(crate) fn blocks_of(&self, sub: usize) -> (out: &Vec<Block>)
        requires
            sub <= self@.subs.len(),
        ensures
            block_views(out@) == blocks_at(self@, sub as int),
    {
        if sub < self.subs.len() {
            assert(self@.subs[sub as int] == (
                self.subs@[sub as int].id,
                self.subs@[sub as int].fragment@,
            ));
            &self.subs[sub].fragment.blocks
        } else {
            &self.body.blocks
        }
    }

    /// The position of the fragment that the call at block `at` of the
    /// fragment at `sub` names.
    pub(crate) fn resolve(&self, sub: usize, at: usize, id: u64) -> (out: usize)
        requires
            self.wf(),
            sub <= self@.subs.len(),
            at < blocks_at(self@, sub as int).len(),
            blocks_at(self@, sub as int)[at as int] == BlockView::Call(id),
        ensures
            find(self@.subs.take(sub as int), id) == Some(out as int),
            out < sub,
    {
        proof {
            self.lemma_wf_view();
            lemma_frame_resolves(self@, sub as int);
            assert(find(self@.subs.take(sub as int), id) is Some);
            lemma_find_prefix(self@.subs, sub as int, id);
        }
        match self.lookup(id) {
            Some(position) => position,
            None => 0,
        }
    }

    /// Compiles the script to bytes.
    ///
    /// Each registered fragment is compiled the first time a call reaches
    /// it; every later call of it copies the bytes from the output.
    pub fn compile_to_bytes(&self) -> (out: Vec<u8>)
        requires
            self.wf(),
        ensures
            out@ == self@.compiled(),
    {
        let ghost view = self@;
        let root: usize = self.subs.len();
        let mut out: Vec<u8> = Vec::with_capacity(self.body.size);
        let mut cache: Vec<Emitted> = Vec::new();
        let mut filled: usize = 0;
        while filled < root
            invariant
                filled <= root,
                cache@.len() == filled,
                forall|j: int| 0 <= j < filled ==> !(#[trigger] cache@[j]).known,
            decreases root - filled,
        {
            cache.push(Emitted { known: false, start: 0, end: 0 });
            filled += 1;
        }
        let mut frames: Vec<Frame> = Vec::new();
        let mut cur: Frame = Frame { sub: root, next: 0, start: 0 };
        let mut finished: bool = false;
        proof {
            lemma_walk_start(view, cache@, root);
            assert(out@ =~= Seq::<u8>::empty());
            assert(frames@ =~= Seq::<Frame>::empty());
        }
        while !finished
            invariant
                self.wf(),
                view == self@,
                root == view.subs.len(),
                cache@.len() == root,
                !finished ==> stack_ok(view, frames@, cur, out@),
                !finished ==> cache_ok(view, cache@, out@),
                finished ==> out@ == view.compiled(),
            decreases
                    if finished {
                        0
                    } else {
                        frames_cost(view, frames@) + frame_cost(view, cur)
                    },
        {
            let ghost old_frames = frames@;
            proof {
                lemma_stack_bounds(view, frames@, cur, out@);
            }
            let blocks: &Vec<Block> = self.blocks_of(cur.sub);
            if cur.next == blocks.len() {
                match frames.pop() {
                    None => {
                        proof {
                            assert(old_frames =~= Seq::<Frame>::empty());
                            lemma_walk_end(view, cur, out@);
                        }
                        finished = true;
                    },
                    Some(parent) => {
                        let end: usize = out.len();
                        proof {
                            lemma_step_back(view, old_frames, cur, out@);
                            lemma_cache_record(view, cache@, out@, cur.sub as int, cur.start, end);
                            assert(frames@ =~= old_frames.drop_last());
                        }
                        cache.set(cur.sub, Emitted { known: true, start: cur.start, end });
                        cur = parent;
                    },
                }
            } else {
                let stepped: Frame = Frame { sub: cur.sub, next: cur.next + 1, start: cur.start };
                assert(blocks_at(view, cur.sub as int)[cur.next as int]
                    == blocks@[cur.next as int]@);
                match &blocks[cur.next] {
                    Block::Script(bytes) => {
                        proof {
                            lemma_step_over(view, frames@, cur, out@, bytes@, stepped);
                            lemma_cache_grow(view, cache@, out@, bytes@);
                        }
                        extend_bytes(&mut out, bytes.as_slice());
                        cur = stepped;
                    },
                    Block::Call(id) => {
                        let target: usize = self.resolve(cur.sub, cur.next, *id);
                        proof {
                            lemma_call_meaning(view, cur.sub as int, *id, target as int);
                        }
                        let entry: Emitted = cache[target];
                        if entry.known {
                            proof {
                                lemma_cache_use(view, cache@, out@, target as int);
                                let copied = out@.subrange(entry.start as int, entry.end as int);
                                lemma_step_over(view, frames@, cur, out@, copied, stepped);
                                lemma_cache_grow(view, cache@, out@, copied);
                            }
                            repeat_range(&mut out, entry.start, entry.end);
                            cur = stepped;
                        } else {
                            let begun: Frame = Frame { sub: target, next: 0, start: out.len() };
                            proof {
                                lemma_step_into(
                                    view,
                                    frames@,
                                    cur,
                                    out@,
                                    *id,
                                    target,
                                    stepped,
                                    begun,
                                );
                            }
                            frames.push(stepped);
                            cur = begun;
                        }
                    },
                }
            }
        }
        out
    }

    /// Compiles the script and checks that every push in the result has the
    /// shortest form.
    pub fn compile(self) -> (out: Result<Vec<u8>, ScriptError>)
        requires
            self.wf(),
        ensures
            match out {
                Ok(bytes) => bytes@ == self@.compiled() && pushes_are_minimal(bytes@),
                Err(e) => e == ScriptError::NonMinimalPush && !pushes_are_minimal(
                    self@.compiled(),
                ),
            },
    {
        let bytes: Vec<u8> = self.compile_to_bytes();
        let minimal: bool = is_minimal(bytes.as_slice());
        checked_output(bytes, minimal)
    }

    /// The position at which `id` is registered.
    fn lookup(&self, id: u64) -> (out: Option<usize>)
        requires
            self.wf(),
        ensures
            match out {
                Some(p) => find(self@.subs, id) == Some(p as int) && p < self@.subs.len(),
                None => find(self@.subs, id) is None,
            },
    {
        proof {
            reveal(StructuredScript::wf);
            lemma_find(self@.subs, id);
        }
        match self.index.get(&id) {
            Some(position) => {
                assert(self.index@.contains_key(id));
                Some(*position)
            },
            None => {
                assert(!self.index@.contains_key(id));
                None
            },
        }
    }

    /// Whether `blocks` are the blocks of whatever is registered under `id`.
    fn fits_with(&self, id: u64, blocks: &Vec<Block>) -> (out: bool)
        requires
            self.wf(),
        ensures
            out == same_where_found(self@.subs, id, block_views(blocks@)),
    {
        match self.lookup(id) {
            Some(p) => {
                assert(self@.subs[p as int] == (self.subs@[p as int].id, self.subs@[p as int].fragment@));
                blocks_same(&self.subs[p].fragment.blocks, blocks)
            },
            None => true,
        }
    }

    /// Whether `data` can be registered under `id`, after its own registered
    /// fragments, without an identifier coming to stand for two lists of
    /// blocks.
    pub fn accepts(&self, data: &StructuredScript, id: u64) -> (out: bool)
        requires
            self.wf(),
            data.wf(),
        ensures
            out == compatible(self@.subs, data@.subs, id, data@.body.blocks),
    {
        let n: usize = data.subs.len();
        let mut q: usize = 0;
        while q < n
            invariant
                self.wf(),
                n == data@.subs.len(),
                n == data.subs@.len(),
                q <= n,
                forall|k: int|
                    0 <= k < q ==> same_where_found(
                        self@.subs,
                        (#[trigger] data@.subs[k]).0,
                        data@.subs[k].1.blocks,
                    ),
            decreases n - q,
        {
            assert(data@.subs[q as int] == (data.subs@[q as int].id, data.subs@[q as int].fragment@));
            if !self.fits_with(data.subs[q].id, &data.subs[q].fragment.blocks) {
                return false;
            }
            q += 1;
        }
        self.fits_with(id, &data.body.blocks) && data.fits_with(id, &data.body.blocks)
    }

    /// Takes the registered fragments of `guest` whose identifiers are not
    /// yet taken.
    fn absorb(&mut self, guest: &StructuredScript)
        requires
            old(self).wf(),
            guest.wf(),
            forall|q: int|
                0 <= q < guest@.subs.len() ==> same_where_found(
                    old(self)@.subs,
                    (#[trigger] guest@.subs[q]).0,
                    guest@.subs[q].1.blocks,
                ),
        ensures
            final(self).wf(),
            final(self)@.body == old(self)@.body,
            final(self)@.subs == merge_subs(old(self)@.subs, guest@.subs),
    {
        let ghost host = self@.subs;
        let ghost their = guest@.subs;
        let n: usize = guest.subs.len();
        let mut i: usize = 0;
        proof {
            self.lemma_wf_view();
            guest.lemma_wf_view();
            assert(their.take(0) =~= Seq::<(u64, FragmentView)>::empty());
        }
        while i < n
            invariant
                self.wf(),
                guest.wf(),
                subs_wf(host),
                subs_wf(their),
                their == guest@.subs,
                n == their.len(),
                n == guest.subs@.len(),
                i <= n,
                forall|q: int|
                    0 <= q < their.len() ==> same_where_found(
                        host,
                        (#[trigger] their[q]).0,
                        their[q].1.blocks,
                    ),
                self@.body == old(self)@.body,
                self@.subs == merge_subs(host, their.take(i as int)),
            decreases n - i,
        {
            let ghost acc = self@.subs;
            proof {
                lemma_merge(host, their, i as int);
                assert(their.take(i + 1).drop_last() =~= their.take(i as int));
                assert(their.take(i + 1).last() == their[i as int]);
                assert(their[i as int] == (guest.subs@[i as int].id, guest.subs@[i as int].fragment@));
            }
            let id: u64 = guest.subs[i].id;
            match self.lookup(id) {
                Some(_) => {},
                None => {
                    proof {
                        assert(entry_wf(their, i as int));
                        lemma_merge_entry(acc, their, i as int, their[i as int].1);
                    }
                    self.register(id, guest.subs[i].fragment.duplicate());
                },
            }
            i += 1;
        }
        assert(their.take(n as int) =~= their);
    }

    /// Adds `data` at the end.
    ///
    /// An empty `data` changes nothing, and to an empty script `data` is the
    /// result. Otherwise `data` is registered under the content hash of its
    /// blocks, after the fragments registered with it, and a call of it is
    /// added; what is already registered under an identifier stays.
    ///
    /// An identifier stands for one content: the two scripts must not hold
    /// different blocks under one identifier, which `try_push_env_script`
    /// tests.
    pub fn push_env_script(self, data: StructuredScript) -> (out: StructuredScript)
        requires
            self.wf(),
            data.wf(),
            self@.shares_with(data@),
            self@.body.size + data@.body.size <= usize::MAX,
        ensures
            out.wf(),
            out@ == self@.push_env_script(data@),
            out@.compiled() == self@.compiled() + data@.compiled(),
            out@.body.size == self@.body.size + data@.body.size,
            self@.body.size > 0 && data@.body.size > 0 ==> {
                let id = content_hash(data@.body.blocks);
                &&& out@.body.blocks == self@.body.blocks.push(BlockView::Call(id))
                &&& find(out@.subs, id) is Some
                &&& out@.subs[find(out@.subs, id).unwrap()].1.blocks == data@.body.blocks
                &&& out@.subs.take(self@.subs.len() as int) == self@.subs
            },
    {
        proof {
            self.lemma_wf_view();
            data.lemma_wf_view();
            lemma_push_env_script(self@, data@);
        }
        if data.is_empty() {
            return self;
        }
        if self.is_empty() {
            return data;
        }
        let id: u64 = calculate_hash(&data);
        let mut script = self;
        let summary: Fragment = data.body.outline();
        proof {
            lemma_share(self@, data@);
        }
        script.absorb(&data);
        match script.lookup(id) {
            Some(_) => {},
            None => {
                let mut label: String = script.body.debug_identifier.clone();
                label.append(" ");
                label.append(data.body.debug_identifier.as_str());
                let mut entry: Fragment = data.body;
                entry.debug_identifier = label;
                assert(entry@ == labelled(
                    data@.body,
                    joined_label(self@.body.debug_identifier, data@.body.debug_identifier),
                ));
                script.register(id, entry);
            },
        }
        script.body.splice(&summary, Block::Call(id));
        proof {
            reveal(StructuredScript::wf);
            assert(script@.body == self@.body.splice(data@.body, BlockView::Call(id)));
        }
        script
    }

    /// Adds `data` as `push_env_script` does where the two scripts hold no
    /// identifier that stands for different blocks in each and the size
    /// stays within the machine's limit, and hands both scripts back
    /// unchanged where not.
    pub fn try_push_env_script(self, data: StructuredScript) -> (out: Result<
        StructuredScript,
        (StructuredScript, StructuredScript),
    >)
        requires
            self.wf(),
            data.wf(),
        ensures
            match out {
                Ok(script) => {
                    &&& self@.shares_with(data@)
                    &&& self@.body.size + data@.body.size <= usize::MAX
                    &&& script.wf()
                    &&& script@ == self@.push_env_script(data@)
                    &&& script@.compiled() == self@.compiled() + data@.compiled()
                },
                Err(back) => {
                    &&& !(self@.shares_with(data@) && self@.body.size + data@.body.size
                        <= usize::MAX)
                    &&& back.0 == self
                    &&& back.1 == data
                },
            },
    {
        if data.len() > usize::MAX - self.len() {
            return Err((self, data));
        }
        if !data.is_empty() && !self.is_empty() {
            let id: u64 = calculate_hash(&data);
            if !self.accepts(&data, id) {
                return Err((self, data));
            }
        }
        Ok(self.push_env_script(data))
    }

    /// Registers `script` under `id`, after the fragments registered with
    /// it, where `id` is free, and tells whether it was. What is registered
    /// under an identifier stays: where `id` is taken, nothing changes.
    ///
    /// An identifier stands for one content: where `id` is free, the two
    /// scripts must not hold different blocks under one identifier, which
    /// `accepts` tests.
    pub fn add_structured_script(&mut self, id: u64, script: StructuredScript) -> (out: bool)
        requires
            old(self).wf(),
            script.wf(),
            find(old(self)@.subs, id) is Some || compatible(
                old(self)@.subs,
                script@.subs,
                id,
                script@.body.blocks,
            ),
        ensures
            final(self).wf(),
            final(self)@.body == old(self)@.body,
            out == (find(old(self)@.subs, id) is None),
            !out ==> final(self)@ == old(self)@,
            out ==> {
                &&& final(self)@.subs == old(self)@.registry_with(script@.subs, id, script@.body)
                &&& find(final(self)@.subs, id) is Some
                &&& final(self)@.subs[find(final(self)@.subs, id).unwrap()].1.blocks
                    == script@.body.blocks
                &&& final(self)@.subs.take(old(self)@.subs.len() as int) == old(self)@.subs
            },
    {
        if self.lookup(id).is_some() {
            return false;
        }
        let ghost before = self@;
        proof {
            self.lemma_wf_view();
            script.lemma_wf_view();
            lemma_registry(before, script@, id);
        }
        self.absorb(&script);
        match self.lookup(id) {
            Some(_) => {},
            None => {
                self.register(id, script.body);
            },
        }
        true
    }

    /// A copy of the script registered under `id`, with the fragments
    /// registered before it.
    pub fn get_structured_script(&self, id: &u64) -> (out: StructuredScript)
        requires
            self.wf(),
            find(self@.subs, *id) is Some,
        ensures
            out.wf(),
            out@.body == self@.subs[find(self@.subs, *id).unwrap()].1,
            out@.subs == self@.subs.take(find(self@.subs, *id).unwrap()),
    {
        let p: usize = match self.lookup(*id) {
            Some(p) => p,
            None => 0,
        };
        let ghost subs = self@.subs;
        proof {
            self.lemma_wf_view();
        }
        let mut out: StructuredScript = StructuredScript::new("");
        let mut j: usize = 0;
        assert(subs.take(0) =~= out@.subs);
        while j < p
            invariant
                self.wf(),
                subs == self@.subs,
                subs_wf(subs),
                p < subs.len(),
                subs.len() == self.subs@.len(),
                j <= p,
                out.wf(),
                out@.subs == subs.take(j as int),
                out@.body == FragmentView::empty(""@),
            decreases p - j,
        {
            proof {
                assert(entry_wf(subs, j as int));
                assert(subs[j as int] == (self.subs@[j as int].id, self.subs@[j as int].fragment@));
                assert(subs.take(j + 1) =~= subs.take(j as int).push(subs[j as int]));
            }
            out.register(self.subs[j].id, self.subs[j].fragment.duplicate());
            j += 1;
        }
        proof {
            assert(entry_wf(subs, p as int));
            assert(subs[p as int] == (self.subs@[p as int].id, self.subs@[p as int].fragment@));
            lemma_take_wf(subs, p as int);
            reveal(StructuredScript::wf);
        }
        out.body = self.subs[p].fragment.duplicate();
        out
    }

    /// Adds one element of data: a single byte as the shortest push of its
    /// number, anything else as a data push.
    pub fn push_element(self, data: &[u8]) -> (out: StructuredScript)
        requires
            self.wf(),
            data@.len() < 0x1_0000_0000,
            self@.body.size + element_push_bytes(data@).len() <= usize::MAX,
        ensures
            out.wf(),
            out@ == self@.with_body(self@.body.push_literal(element_push_bytes(data@))),
    {
        if data.len() == 1 {
            self.push_int(data[0] as i64)
        } else {
            self.push_slice(data)
        }
    }

    /// Adds the elements `items` one after the other, each as `push_element`
    /// adds it.
    pub fn push_elements(self, items: &Vec<Vec<u8>>) -> (out: StructuredScript)
        requires
            self.wf(),
            forall|i: int| 0 <= i < items@.len() ==> (#[trigger] items@[i])@.len() < 0x1_0000_0000,
            self@.body.size + elements_push_bytes(crate::instruction::byte_views(items@)).len()
                <= usize::MAX,
        ensures
            out.wf(),
            out@ == if items@.len() == 0 {
                self@
            } else {
                self@.with_body(
                    self@.body.push_literal(
                        elements_push_bytes(crate::instruction::byte_views(items@)),
                    ),
                )
            },
    {
        let n: usize = items.len();
        let ghost views = crate::instruction::byte_views(items@);
        let mut script = self;
        if n == 0 {
            return script;
        }
        let mut i: usize = 0;
        while i < n
            invariant
                n == items@.len(),
                n > 0,
                i <= n,
                views == crate::instruction::byte_views(items@),
                forall|k: int|
                    0 <= k < items@.len() ==> (#[trigger] items@[k])@.len() < 0x1_0000_0000,
                self@.body.size + elements_push_bytes(views).len() <= usize::MAX,
                script.wf(),
                i == 0 ==> script@ == self@,
                i > 0 ==> script@ == self@.with_body(
                    self@.body.push_literal(elements_push_bytes(views.take(i as int))),
                ),
            decreases n - i,
        {
            proof {
                lemma_elements_take(views, i as int);
                lemma_elements_take(views, i + 1);
                assert(views[i as int] == items@[i as int]@);
                if i == 0 {
                    assert(views.take(0) =~= Seq::<Seq<u8>>::empty());
                    assert(elements_push_bytes(views.take(1)) =~= element_push_bytes(
                        views[0],
                    ));
                } else {
                    lemma_push_literal_twice(
                        self@.body,
                        elements_push_bytes(views.take(i as int)),
                        element_push_bytes(views[i as int]),
                    );
                }
            }
            script = script.push_element(items[i].as_slice());
            i += 1;
        }
        assert(views.take(n as int) =~= views);
        script
    }

    /// The label of the fragment whose literal block holds the byte at
    /// `position`.
    pub fn debug_info(&self, position: usize) -> (out: String)
        requires
            self.wf(),
            position < self@.body.size,
        ensures
            out@ == label_at(self@.subs, self@.body, position as nat),
    {
        let ghost subs = self@.subs;
        let root: usize = self.subs.len();
        let mut sub: usize = root;
        let mut wanted: usize = position;
        proof {
            self.lemma_wf_view();
            assert(subs.take(root as int) =~= subs);
        }
        loop
            invariant
                self.wf(),
                subs == self@.subs,
                subs_wf(subs),
                fragment_wf(subs, self@.body),
                root == subs.len(),
                sub <= root,
                wanted < self@.fragment_at(sub as int).size,
                label_at(subs.take(sub as int), self@.fragment_at(sub as int), wanted as nat)
                    == label_at(subs, self@.body, position as nat),
            decreases sub,
        {
            let ghost ctx = subs.take(sub as int);
            let ghost f = self@.fragment_at(sub as int);
            proof {
                lemma_frame_resolves(self@, sub as int);
                if sub < root {
                    assert(entry_wf(subs, sub as int));
                } else {
                    assert(ctx =~= subs);
                }
                assert(f.blocks == blocks_at(self@, sub as int));
                assert(f.size == total_span(ctx, f.blocks));
            }
            let blocks: &Vec<Block> = self.blocks_of(sub);
            let n: usize = blocks.len();
            let mut i: usize = 0;
            let mut passed: usize = 0;
            let mut target: usize = root;
            let mut found: bool = false;
            let mut literal: bool = false;
            assert(f.blocks.take(0) =~= Seq::<BlockView>::empty());
            while i < n && !found
                invariant
                    self.wf(),
                    subs == self@.subs,
                    root == subs.len(),
                    sub <= root,
                    ctx == subs.take(sub as int),
                    f == self@.fragment_at(sub as int),
                    f.blocks == blocks_at(self@, sub as int),
                    f.blocks == block_views(blocks@),
                    calls_resolve(ctx, f.blocks),
                    f.size == total_span(ctx, f.blocks),
                    n == blocks@.len(),
                    i <= n,
                    wanted < f.size,
                    !found ==> passed == total_span(ctx, f.blocks.take(i as int)),
                    !found ==> passed <= wanted,
                    found ==> i < n && passed == total_span(ctx, f.blocks.take(i as int))
                        && passed <= wanted < total_span(ctx, f.blocks.take(i + 1)),
                    found && !literal ==> f.blocks[i as int] is Call && find(
                        ctx,
                        f.blocks[i as int]->Call_0,
                    ) == Some(target as int) && target < sub,
                    found && literal ==> f.blocks[i as int] is Script,
                decreases n - i, if found { 0nat } else { 1nat },
            {
                proof {
                    lemma_span_take(ctx, f.blocks, i as int);
                    lemma_span_take(ctx, f.blocks, i + 1);
                    assert(f.blocks[i as int] == blocks@[i as int]@);
                }
                let (width, called, is_literal): (usize, usize, bool) = match &blocks[i] {
                    Block::Script(bytes) => (bytes.len(), root, true),
                    Block::Call(id) => {
                        let p: usize = self.resolve(sub, i, *id);
                        proof {
                            lemma_call_meaning(self@, sub as int, *id, p as int);
                            lemma_find(ctx, *id);
                            assert(ctx[p as int] == subs[p as int]);
                        }
                        (self.size_of(p), p, false)
                    },
                };
                assert(width == span(ctx, f.blocks[i as int]));
                if wanted - passed < width {
                    found = true;
                    literal = is_literal;
                    target = called;
                } else {
                    passed = passed + width;
                    i += 1;
                }
            }
            proof {
                if !found {
                    assert(f.blocks.take(n as int) =~= f.blocks);
                }
                lemma_locate(ctx, f.blocks, wanted as nat, i as int);
            }
            if literal {
                return self.label_of(sub);
            }
            proof {
                lemma_find(ctx, f.blocks[i as int]->Call_0);
                lemma_span_take(ctx, f.blocks, i as int);
                assert(ctx.take(target as int) =~= subs.take(target as int));
                assert(ctx[target as int] == subs[target as int]);
                assert(span(ctx, f.blocks[i as int]) == subs[target as int].1.size);
            }
            wanted = wanted - passed;
            sub = target;
        }
    }

    /// The label of the registered fragment at `sub`, or the script's own.
    fn label_of(&self, sub: usize) -> (out: String)
        requires
            sub <= self@.subs.len(),
        ensures
            out@ == self@.fragment_at(sub as int).debug_identifier,
    {
        if sub < self.subs.len() {
            assert(self@.subs[sub as int] == (
                self.subs@[sub as int].id,
                self.subs@[sub as int].fragment@,
            ));
            self.subs[sub].fragment.debug_identifier.clone()
        } else {
            self.body.debug_identifier.clone()
        }
    }

    /// Registers `fragment` under `id`, which is not yet taken.
    fn register(&mut self, id: u64, fragment: Fragment)
        requires
            old(self).wf(),
            find(old(self)@.subs, id) is None,
            fragment_wf(old(self)@.subs, fragment@),
        ensures
            final(self).wf(),
            final(self)@.body == old(self)@.body,
            final(self)@.subs == old(self)@.subs.push((id, fragment@)),
    {
        proof {
            reveal(StructuredScript::wf);
        }
        let ghost before = self@.subs;
        let ghost entry = (id, fragment@);
        let position: usize = self.subs.len();
        self.subs.push(Registered { id, fragment });
        self.index.insert(id, position);
        proof {
            let after = before.push(entry);
            assert(self@.subs =~= after);
            assert(after.drop_last() =~= before);
            lemma_register_keeps(before, entry, self@.body.blocks);
            assert forall|j: int| 0 <= j < after.len() implies #[trigger] entry_wf(after, j) by {
                if j < before.len() {
                    assert(entry_wf(before, j));
                    assert(after.take(j) =~= before.take(j));
                    assert(after[j] == before[j]);
                } else {
                    assert(after.take(j) =~= before);
                }
            }
            assert forall|k: u64| #[trigger]
                self.index@.contains_key(k) <==> find(after, k) is Some by {}
            assert forall|k: u64| #[trigger] self.index@.contains_key(k) implies find(after, k)
                == Some(self.index@[k] as int) by {}
        }
    }
}

/// Why a script cannot be compiled.
#[derive(Debug, Clone, Copy, PartialEq, Eq, Structural)]
pub enum ScriptError {
    /// A push in the compiled bytes is longer than it needs to be, or the
    /// bytes are no sequence of instructions.
    NonMinimalPush,
}

/// Hands `bytes` on where they were found minimal, and the error where not.
pub fn checked_output(bytes: Vec<u8>, minimal: bool) -> (out: Result<Vec<u8>, ScriptError>)
    ensures
        out == if minimal {
            Ok::<Vec<u8>, ScriptError>(bytes)
        } else {
            Err::<Vec<u8>, ScriptError>(ScriptError::NonMinimalPush)
        },
{
    if minimal {
        Ok(bytes)
    } else {
        Err(ScriptError::NonMinimalPush)
    }
}

/// Adds a copy of the bytes from `start` to `end` of `out` to its end.
fn repeat_range(out: &mut Vec<u8>, start: usize, end: usize)
    requires
        start <= end <= old(out)@.len(),
    ensures
        final(out)@ == old(out)@ + old(out)@.subrange(start as int, end as int),
{
    let mut k: usize = start;
    while k < end
        invariant
            start <= k <= end,
            end <= old(out)@.len(),
            out@ == old(out)@ + old(out)@.subrange(start as int, k as int),
        decreases end - k,
    {
        let byte: u8 = out[k];
        out.push(byte);
        assert(old(out)@.subrange(start as int, k + 1) =~= old(out)@.subrange(
            start as int,
            k as int,
        ).push(old(out)@[k as int]));
        k += 1;
    }
}

/// The content hash of the blocks of `script`.
pub fn calculate_hash(script: &StructuredScript) -> (out: u64)
    ensures
        out == content_hash(script@.body.blocks),
{
    hash_blocks(&script.body.blocks)
}

fn hash_blocks(blocks: &Vec<Block>) -> (out: u64)
    ensures
        out == content_hash(block_views(blocks@)),
{
    let mut hasher = DefaultHasher::new();
    let n: usize = blocks.len();
    let ghost views = block_views(blocks@);
    let mut i: usize = 0;
    while i < n
        invariant
            n == blocks@.len(),
            i <= n,
            views == block_views(blocks@),
            hasher@ == hash_input(views.take(i as int)),
        decreases n - i,
    {
        assert(views.take(i + 1).drop_last() =~= views.take(i as int));
        assert(views.take(i + 1).last() == blocks@[i as int]@);
        match &blocks[i] {
            Block::Call(id) => {
                let tag: [u8; 1] = [0u8];
                assert(tag@ =~= seq![0u8]);
                hasher.write(tag.as_slice());
                let word: Vec<u8> = u64_to_le_bytes(*id);
                hasher.write(word.as_slice());
                assert(hasher@ =~= hash_input(views.take(i as int)) + block_hash_input(
                    blocks@[i as int]@,
                ));
            },
            Block::Script(bytes) => {
                let tag: [u8; 1] = [1u8];
                assert(tag@ =~= seq![1u8]);
                hasher.write(tag.as_slice());
                let word: Vec<u8> = u64_to_le_bytes(bytes.len() as u64);
                hasher.write(word.as_slice());
                hasher.write(bytes.as_slice());
                assert(hasher@ =~= hash_input(views.take(i as int)) + block_hash_input(
                    blocks@[i as int]@,
                ));
            },
        }
        i += 1;
    }
    assert(views.take(n as int) =~= views);
    hasher.finish()
}

} // verus!
