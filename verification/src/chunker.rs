//! Chunks: a structured script cut into pieces of bounded size, each with
//! its conditionals closed and with a stack that stays within a limit.

use vstd::prelude::*;
use crate::analyzer::{
    script_views, AnalysisError, AnalyzerState, StackAnalyzer, StackStatus,
};
use crate::sharing::lemma_compiled_len;
use crate::builder::{
    block_views, find, flat, lemma_find, lemma_take_next, meaning, Block, BlockView,
    FragmentView, ScriptView, StructuredScript,
};
use crate::instruction::{
    byte_views, decodable, instructions_of, joined, split_instructions,
};

verus! {

/// Why a script cannot be cut into chunks.
#[derive(Debug, Clone, Copy, PartialEq, Eq, Structural)]
pub enum ChunkError {
    /// The stack analysis of a script failed.
    Analysis(AnalysisError),
    /// A script closes more conditionals than are open.
    MoreEndifsThanIfs,
    /// A chunk takes more elements from a stack than there are.
    NegativeStack,
    /// No removal of scripts from the end of a chunk makes it valid.
    UndoFailed,
    /// Nothing fits into the next chunk.
    EmptyChunk,
    /// A literal block cannot be cut into instructions.
    MalformedScript,
    /// A count does not fit the machine integers that hold it.
    Overflow,
    /// The chunk is valid while scripts wait to be committed to it.
    UncommittedScripts,
}

/// The heights of the two stacks before and after a chunk.
#[derive(Debug, Clone, Copy, PartialEq, Eq, Structural)]
pub struct ChunkStats {
    pub stack_input_size: usize,
    pub stack_output_size: usize,
    pub altstack_input_size: usize,
    pub altstack_output_size: usize,
}

/// Whether every script of a sequence is well formed.
pub open spec fn all_wf(scripts: Seq<StructuredScript>) -> bool {
    forall|i: int| 0 <= i < scripts.len() ==> (#[trigger] scripts[i]).wf()
}

/// The bytes that scripts compile to, one after the other.
pub open spec fn bytes_of(scripts: Seq<StructuredScript>) -> Seq<u8>
    decreases scripts.len(),
{
    if scripts.len() == 0 {
        Seq::<u8>::empty()
    } else {
        bytes_of(scripts.drop_last()) + scripts.last()@.compiled()
    }
}

/// The bytes that a stack of scripts compiles to, the top of the stack, which
/// is the end of the sequence, first.
pub open spec fn pending_bytes(stack: Seq<StructuredScript>) -> Seq<u8>
    decreases stack.len(),
{
    if stack.len() == 0 {
        Seq::<u8>::empty()
    } else {
        stack.last()@.compiled() + pending_bytes(stack.drop_last())
    }
}

/// The sum over scripts of the conditionals each leaves open minus the
/// `OP_ENDIF`s in it that close nothing.
pub open spec fn balance_of(scripts: Seq<StructuredScript>) -> int
    decreases scripts.len(),
{
    if scripts.len() == 0 {
        0
    } else {
        balance_of(scripts.drop_last()) + scripts.last()@.body.num_unclosed_ifs()
    }
}

/// The number of instructions in a literal block, and zero where it is not
/// decodable.
pub open spec fn instruction_count(bytes: Seq<u8>) -> nat {
    if decodable(bytes) {
        instructions_of(bytes).len()
    } else {
        0
    }
}

/// The weight of a script for the filling of a chunk: one for a script that
/// is a single literal block, and otherwise one more than the weights of
/// the scripts its blocks stand for.
pub open spec fn fit_weight(subs: Seq<(u64, FragmentView)>, blocks: Seq<BlockView>) -> nat
    decreases subs.len(), blocks.len() + 2,
{
    if blocks.len() == 1 && blocks[0] is Script {
        1
    } else {
        1 + fit_cost(subs, blocks)
    }
}

/// The weights of the scripts that `blocks` stand for.
pub open spec fn fit_cost(subs: Seq<(u64, FragmentView)>, blocks: Seq<BlockView>) -> nat
    decreases subs.len(), blocks.len() + 1,
{
    if blocks.len() == 0 {
        0
    } else {
        fit_cost(subs, blocks.drop_last()) + fit_block_cost(subs, blocks.last())
    }
}

/// The weight of the script that one block stands for.
pub open spec fn fit_block_cost(subs: Seq<(u64, FragmentView)>, block: BlockView) -> nat
    decreases subs.len(), 0nat,
{
    match block {
        BlockView::Script(_) => 1,
        BlockView::Call(id) => match find(subs, id) {
            Some(p) => if 0 <= p < subs.len() {
                fit_weight(subs.take(p), subs[p].1.blocks)
            } else {
                1
            },
            None => 1,
        },
    }
}

/// The weight of a script for the undoing of a chunk: one for a script that
/// is a single instruction, and otherwise one more than the weights of the
/// scripts its blocks are cut into.
pub open spec fn undo_weight(subs: Seq<(u64, FragmentView)>, blocks: Seq<BlockView>) -> nat
    decreases subs.len(), blocks.len() + 2,
{
    if blocks.len() == 1 && blocks[0] is Script && single_instruction(blocks[0]->Script_0) {
        1
    } else {
        1 + undo_cost(subs, blocks)
    }
}

/// The weights of the scripts that `blocks` are cut into.
pub open spec fn undo_cost(subs: Seq<(u64, FragmentView)>, blocks: Seq<BlockView>) -> nat
    decreases subs.len(), blocks.len() + 1,
{
    if blocks.len() == 0 {
        0
    } else {
        undo_cost(subs, blocks.drop_last()) + undo_block_cost(subs, blocks.last())
    }
}

/// The weight of the scripts that one block is cut into: one for each
/// instruction of a literal block.
pub open spec fn undo_block_cost(subs: Seq<(u64, FragmentView)>, block: BlockView) -> nat
    decreases subs.len(), 0nat,
{
    match block {
        BlockView::Script(bytes) => instruction_count(bytes),
        BlockView::Call(id) => match find(subs, id) {
            Some(p) => if 0 <= p < subs.len() {
                undo_weight(subs.take(p), subs[p].1.blocks)
            } else {
                1
            },
            None => 1,
        },
    }
}

/// The sum of the filling weights of scripts.
pub open spec fn fit_total(scripts: Seq<StructuredScript>) -> nat
    decreases scripts.len(),
{
    if scripts.len() == 0 {
        0
    } else {
        fit_total(scripts.drop_last()) + fit_weight(
            scripts.last()@.subs,
            scripts.last()@.body.blocks,
        )
    }
}

/// The sum of the undoing weights of scripts.
pub open spec fn undo_total(scripts: Seq<StructuredScript>) -> nat
    decreases scripts.len(),
{
    if scripts.len() == 0 {
        0
    } else {
        undo_total(scripts.drop_last()) + undo_weight(
            scripts.last()@.subs,
            scripts.last()@.body.blocks,
        )
    }
}

/// Whether every literal block among `blocks` is decodable.
pub open spec fn literals_decodable(blocks: Seq<BlockView>) -> bool {
    forall|i: int|
        0 <= i < blocks.len() ==> match #[trigger] blocks[i] {
            BlockView::Script(bytes) => decodable(bytes),
            BlockView::Call(_) => true,
        }
}

/// Whether `bytes` are decodable and each piece between the positions of
/// two instructions is itself one decodable instruction.
pub open spec fn cuttable(bytes: Seq<u8>) -> bool {
    &&& decodable(bytes)
    &&& forall|i: int|
        0 <= i < instructions_of(bytes).len() ==> single_instruction(#[trigger] piece_at(bytes, i))
}

/// The bytes of the instruction at `i` of decodable `bytes`.
pub open spec fn piece_at(bytes: Seq<u8>, i: int) -> Seq<u8> {
    bytes.subrange(
        instructions_of(bytes)[i].0 as int,
        crate::instruction::end_of(instructions_of(bytes), bytes.len(), i) as int,
    )
}

/// Whether `bytes` are one decodable instruction.
pub open spec fn single_instruction(bytes: Seq<u8>) -> bool {
    decodable(bytes) && instructions_of(bytes).len() == 1
}

/// Whether every literal block among `blocks` is cuttable.
pub open spec fn literals_cuttable(blocks: Seq<BlockView>) -> bool {
    forall|i: int|
        0 <= i < blocks.len() ==> match #[trigger] blocks[i] {
            BlockView::Script(bytes) => cuttable(bytes),
            BlockView::Call(_) => true,
        }
}

/// Scripts added at the end of a sequence add their bytes, their balance
/// and their weights.
pub proof fn lemma_append(a: Seq<StructuredScript>, b: Seq<StructuredScript>)
    ensures
        bytes_of(a + b) == bytes_of(a) + bytes_of(b),
        balance_of(a + b) == balance_of(a) + balance_of(b),
        fit_total(a + b) == fit_total(a) + fit_total(b),
        undo_total(a + b) == undo_total(a) + undo_total(b),
        all_wf(a) && all_wf(b) ==> all_wf(a + b),
    decreases b.len(),
{
    if b.len() == 0 {
        assert(a + b =~= a);
        assert(bytes_of(a) + bytes_of(b) =~= bytes_of(a));
    } else {
        lemma_append(a, b.drop_last());
        assert((a + b).drop_last() =~= a + b.drop_last());
        assert((a + b).last() == b.last());
        assert(bytes_of(a + b) =~= bytes_of(a) + bytes_of(b));
    }
    if all_wf(a) && all_wf(b) {
        assert forall|i: int| 0 <= i < (a + b).len() implies (#[trigger] (a + b)[i]).wf() by {
            if i < a.len() {
                assert(a[i].wf());
            } else {
                assert(b[i - a.len()].wf());
            }
        }
    }
}

/// Scripts pushed onto a stack, the first of `b` first and the last of `b`
/// on top, compile to the bytes of `b` from top to bottom and then those of
/// the stack.
pub proof fn lemma_stack_append(a: Seq<StructuredScript>, b: Seq<StructuredScript>)
    ensures
        pending_bytes(a + b) == pending_bytes(b) + pending_bytes(a),
    decreases b.len(),
{
    if b.len() == 0 {
        assert(a + b =~= a);
        assert(pending_bytes(b) + pending_bytes(a) =~= pending_bytes(a));
    } else {
        lemma_stack_append(a, b.drop_last());
        assert((a + b).drop_last() =~= a + b.drop_last());
        assert((a + b).last() == b.last());
        assert(pending_bytes(a + b) =~= pending_bytes(b) + pending_bytes(a));
    }
}

/// What the first `n + 1` blocks weigh, from the first `n`.
pub proof fn lemma_cost_take_next(subs: Seq<(u64, FragmentView)>, blocks: Seq<BlockView>, n: int)
    requires
        0 <= n < blocks.len(),
    ensures
        fit_cost(subs, blocks.take(n + 1)) == fit_cost(subs, blocks.take(n)) + fit_block_cost(
            subs,
            blocks[n],
        ),
        undo_cost(subs, blocks.take(n + 1)) == undo_cost(subs, blocks.take(n)) + undo_block_cost(
            subs,
            blocks[n],
        ),
{
    assert(blocks.take(n + 1).drop_last() =~= blocks.take(n));
    assert(blocks.take(n + 1).last() == blocks[n]);
}

/// A script that is one literal block compiles to the bytes of the block.
pub proof fn lemma_literal_script(script: ScriptView, bytes: Seq<u8>)
    requires
        script.body.blocks == seq![BlockView::Script(bytes)],
    ensures
        script.compiled() == bytes,
{
    let blocks = script.body.blocks;
    assert(blocks.drop_last() =~= Seq::<BlockView>::empty());
    assert(blocks.last() == BlockView::Script(bytes));
    assert(flat(script.subs, blocks.drop_last()) =~= Seq::<u8>::empty());
    assert(meaning(script.subs, blocks.last()) == bytes);
    assert(flat(script.subs, blocks) =~= bytes);
}

/// The script with the literal block `bytes` alone and the label `label`.
pub open spec fn literal_view(label: Seq<char>, bytes: Seq<u8>) -> ScriptView {
    ScriptView::empty(label).with_body(FragmentView::empty(label).push_script(bytes))
}

/// The script that `script` has registered under `id`, with the fragments
/// registered before it.
pub open spec fn called_view(script: ScriptView, id: u64) -> ScriptView {
    ScriptView {
        body: script.subs[find(script.subs, id).unwrap()].1,
        subs: script.subs.take(find(script.subs, id).unwrap()),
    }
}

/// One script per instruction of the literal block `bytes`.
pub open spec fn instruction_views(label: Seq<char>, bytes: Seq<u8>) -> Seq<ScriptView> {
    Seq::new(instructions_of(bytes).len(), |i: int| literal_view(label, piece_at(bytes, i)))
}

/// The scripts that one block of `script` is cut into: the script called,
/// or one script per instruction.
pub open spec fn cut_block(script: ScriptView, block: BlockView) -> Seq<ScriptView> {
    match block {
        BlockView::Call(id) => seq![called_view(script, id)],
        BlockView::Script(bytes) => instruction_views(script.body.debug_identifier, bytes),
    }
}

/// The scripts that `blocks` of `script` are cut into, in order.
pub open spec fn cut_blocks(script: ScriptView, blocks: Seq<BlockView>) -> Seq<ScriptView>
    decreases blocks.len(),
{
    if blocks.len() == 0 {
        Seq::<ScriptView>::empty()
    } else {
        cut_blocks(script, blocks.drop_last()) + cut_block(script, blocks.last())
    }
}

/// The scripts that `script` is cut into: those its calls stand for and one
/// per instruction of its literal blocks.
pub open spec fn cut_up(script: ScriptView) -> Seq<ScriptView> {
    cut_blocks(script, script.body.blocks)
}

/// The sum of the recorded balances of conditionals of scripts.
pub open spec fn balance_sum_of(scripts: Seq<ScriptView>) -> int
    decreases scripts.len(),
{
    if scripts.len() == 0 {
        0
    } else {
        balance_sum_of(scripts.drop_last()) + scripts.last().body.num_unclosed_ifs()
    }
}

/// Whether the balances of scripts can be summed one after the other with
/// every sum before the last in range.
pub open spec fn balance_sum_fits(scripts: Seq<ScriptView>) -> bool
    decreases scripts.len(),
{
    scripts.len() == 0 || (balance_sum_fits(scripts.drop_last()) && count_in_range(
        balance_sum_of(scripts.drop_last()),
    ))
}

/// The balance of scripts is that of their views.
pub proof fn lemma_balance_views(scripts: Seq<StructuredScript>)
    ensures
        balance_of(scripts) == balance_sum_of(script_views(scripts)),
        balance_fits(scripts) == balance_sum_fits(script_views(scripts)),
    decreases scripts.len(),
{
    if scripts.len() > 0 {
        lemma_balance_views(scripts.drop_last());
        assert(script_views(scripts).drop_last() =~= script_views(scripts.drop_last()));
    }
}

/// The views of scripts one after the other.
pub proof fn lemma_views_append(a: Seq<StructuredScript>, b: Seq<StructuredScript>)
    ensures
        script_views(a + b) == script_views(a) + script_views(b),
{
    assert(script_views(a + b) =~= script_views(a) + script_views(b));
}

/// The script that one block of `script` stands for: the script called, or
/// a script with that literal block alone.
pub open spec fn block_view(script: ScriptView, block: BlockView) -> ScriptView {
    match block {
        BlockView::Call(id) => called_view(script, id),
        BlockView::Script(bytes) => literal_view(script.body.debug_identifier, bytes),
    }
}

/// One script per block of `script`, in order.
pub open spec fn block_views_of(script: ScriptView) -> Seq<ScriptView> {
    Seq::new(script.body.blocks.len(), |i: int| block_view(script, script.body.blocks[i]))
}

/// The scripts `scripts` in the opposite order.
pub open spec fn reversed(scripts: Seq<ScriptView>) -> Seq<ScriptView>
    decreases scripts.len(),
{
    if scripts.len() == 0 {
        Seq::<ScriptView>::empty()
    } else {
        seq![scripts.last()] + reversed(scripts.drop_last())
    }
}

/// The sum of the filling weights of scripts.
pub open spec fn fit_total_of(scripts: Seq<ScriptView>) -> nat
    decreases scripts.len(),
{
    if scripts.len() == 0 {
        0
    } else {
        fit_total_of(scripts.drop_last()) + fit_weight(
            scripts.last().subs,
            scripts.last().body.blocks,
        )
    }
}

/// The sum of the undoing weights of scripts.
pub open spec fn undo_total_of(scripts: Seq<ScriptView>) -> nat
    decreases scripts.len(),
{
    if scripts.len() == 0 {
        0
    } else {
        undo_total_of(scripts.drop_last()) + undo_weight(
            scripts.last().subs,
            scripts.last().body.blocks,
        )
    }
}

/// The weights of scripts are those of their views.
pub proof fn lemma_total_views(scripts: Seq<StructuredScript>)
    ensures
        fit_total(scripts) == fit_total_of(script_views(scripts)),
        undo_total(scripts) == undo_total_of(script_views(scripts)),
    decreases scripts.len(),
{
    if scripts.len() > 0 {
        lemma_total_views(scripts.drop_last());
        assert(script_views(scripts).drop_last() =~= script_views(scripts.drop_last()));
    }
}

/// A script with the literal block `bytes` alone, labelled as `builder` is.
fn literal_piece(builder: &StructuredScript, bytes: &[u8]) -> (out: Option<StructuredScript>)
    ensures
        match out {
            Some(piece) => {
                &&& decodable(bytes@)
                &&& piece.wf()
                &&& piece@.subs == Seq::<(u64, FragmentView)>::empty()
                &&& piece@.body.blocks == seq![BlockView::Script(bytes@)]
                &&& piece@.compiled() == bytes@
                &&& piece@ == literal_view(builder@.body.debug_identifier, bytes@)
            },
            None => !decodable(bytes@),
        },
{
    let empty: StructuredScript = StructuredScript::new(builder.debug_identifier());
    let len: usize = bytes.len();
    match empty.try_push_script(crate::builder::copy_bytes(bytes)) {
        Ok(piece) => {
            proof {
                let start = ScriptView::empty(builder@.body.debug_identifier);
                assert(piece@ == start.with_body(start.body.push_script(bytes@)));
                assert(piece@.subs == start.subs);
                assert(piece@.body.blocks =~= seq![BlockView::Script(bytes@)]);
                lemma_literal_script(piece@, bytes@);
            }
            Some(piece)
        },
        Err(_) => None,
    }
}

/// The script that a call in `builder` stands for.
fn called_piece(builder: &StructuredScript, id: u64) -> (out: StructuredScript)
    requires
        builder.wf(),
        find(builder@.subs, id) is Some,
    ensures
        out.wf(),
        out@ == called_view(builder@, id),
        out@.compiled() == meaning(builder@.subs, BlockView::Call(id)),
        fit_weight(out@.subs, out@.body.blocks) == fit_block_cost(
            builder@.subs,
            BlockView::Call(id),
        ),
        undo_weight(out@.subs, out@.body.blocks) == undo_block_cost(
            builder@.subs,
            BlockView::Call(id),
        ),
{
    proof {
        lemma_find(builder@.subs, id);
    }
    builder.get_structured_script(&id)
}

/// Cuts a script into one script per block: the script called, for a call,
/// and a script with that block alone, for a literal block.
pub fn split_blocks(builder: &StructuredScript) -> (out: Result<Vec<StructuredScript>, ChunkError>)
    requires
        builder.wf(),
    ensures
        match out {
            Ok(pieces) => {
                &&& literals_decodable(builder@.body.blocks)
                &&& all_wf(pieces@)
                &&& bytes_of(pieces@) == builder@.compiled()
                &&& fit_total(pieces@) == fit_cost(builder@.subs, builder@.body.blocks)
                &&& script_views(pieces@) == block_views_of(builder@)
            },
            Err(e) => e == ChunkError::MalformedScript && !literals_decodable(
                builder@.body.blocks,
            ),
        },
{
    let blocks: &Vec<Block> = builder.blocks();
    let n: usize = blocks.len();
    let ghost subs = builder@.subs;
    let ghost views = builder@.body.blocks;
    let mut pieces: Vec<StructuredScript> = Vec::new();
    let mut i: usize = 0;
    proof {
        builder.lemma_wf_view();
        assert(views.take(0) =~= Seq::<BlockView>::empty());
    }
    while i < n
        invariant
            builder.wf(),
            builder@.wf(),
            subs == builder@.subs,
            views == builder@.body.blocks,
            views == block_views(blocks@),
            n == blocks@.len(),
            i <= n,
            all_wf(pieces@),
            bytes_of(pieces@) == flat(subs, views.take(i as int)),
            fit_total(pieces@) == fit_cost(subs, views.take(i as int)),
            pieces@.len() == i,
            forall|k: int|
                0 <= k < i ==> (#[trigger] pieces@[k])@ == block_view(builder@, views[k]),
            forall|k: int|
                0 <= k < i ==> match #[trigger] views[k] {
                    BlockView::Script(bytes) => decodable(bytes),
                    BlockView::Call(_) => true,
                },
        decreases n - i,
    {
        let ghost before = pieces@;
        proof {
            lemma_take_next(subs, views, i as int);
            lemma_cost_take_next(subs, views, i as int);
            assert(views[i as int] == blocks@[i as int]@);
        }
        let piece: StructuredScript = match &blocks[i] {
            Block::Call(id) => called_piece(builder, *id),
            Block::Script(bytes) => match literal_piece(builder, bytes.as_slice()) {
                Some(piece) => piece,
                None => {
                    return Err(ChunkError::MalformedScript);
                },
            },
        };
        pieces.push(piece);
        proof {
            assert(pieces@.drop_last() =~= before);
            assert forall|k: int| 0 <= k < pieces@.len() implies (#[trigger] pieces@[k]).wf() by {
                if k < before.len() {
                    assert(before[k].wf());
                }
            }
        }
        i += 1;
    }
    assert(views.take(n as int) =~= views);
    assert(script_views(pieces@) =~= block_views_of(builder@));
    Ok(pieces)
}

/// One script per instruction of the literal block `bytes`, or `None` where
/// the block is not cuttable.
#[verifier::rlimit(50)]
fn instruction_pieces(builder: &StructuredScript, bytes: &[u8]) -> (out: Option<
    Vec<StructuredScript>,
>)
    ensures
        match out {
            Some(pieces) => {
                &&& cuttable(bytes@)
                &&& all_wf(pieces@)
                &&& bytes_of(pieces@) == bytes@
                &&& undo_total(pieces@) == instruction_count(bytes@)
                &&& script_views(pieces@) == instruction_views(
                    builder@.body.debug_identifier,
                    bytes@,
                )
            },
            None => !cuttable(bytes@),
        },
{
    let parts: Vec<Vec<u8>> = match split_instructions(bytes) {
        Some(parts) => parts,
        None => {
            return None;
        },
    };
    let count: usize = parts.len();
    let ghost part_views = byte_views(parts@);
    let mut pieces: Vec<StructuredScript> = Vec::new();
    let mut k: usize = 0;
    assert(part_views.take(0) =~= Seq::<Seq<u8>>::empty());
    while k < count
        invariant
            count == parts@.len(),
            k <= count,
            part_views == byte_views(parts@),
            decodable(bytes@),
            count == instructions_of(bytes@).len(),
            forall|j: int| 0 <= j < count ==> (#[trigger] parts@[j])@ == piece_at(bytes@, j),
            all_wf(pieces@),
            bytes_of(pieces@) == joined(part_views.take(k as int)),
            undo_total(pieces@) == k,
            forall|j: int| 0 <= j < k ==> single_instruction(#[trigger] piece_at(bytes@, j)),
            pieces@.len() == k,
            forall|j: int|
                0 <= j < k ==> (#[trigger] pieces@[j])@ == literal_view(
                    builder@.body.debug_identifier,
                    piece_at(bytes@, j),
                ),
        decreases count - k,
    {
        let ghost had = pieces@;
        assert(parts@[k as int]@ == piece_at(bytes@, k as int));
        let piece: StructuredScript = match literal_piece(builder, parts[k].as_slice()) {
            Some(piece) => piece,
            None => {
                assert(!single_instruction(piece_at(bytes@, k as int)));
                return None;
            },
        };
        if !piece.is_single_instruction() {
            assert(!single_instruction(piece_at(bytes@, k as int)));
            return None;
        }
        pieces.push(piece);
        proof {
            assert(pieces@.drop_last() =~= had);
            assert(part_views.take(k + 1).drop_last() =~= part_views.take(k as int));
            assert(part_views.take(k + 1).last() == parts@[k as int]@);
            assert forall|j: int| 0 <= j < pieces@.len() implies (#[trigger] pieces@[j]).wf() by {
                if j < had.len() {
                    assert(had[j].wf());
                }
            }
        }
        k += 1;
    }
    proof {
        assert(part_views.take(count as int) =~= part_views);
        assert(script_views(pieces@) =~= instruction_views(
            builder@.body.debug_identifier,
            bytes@,
        ));
    }
    Some(pieces)
}

/// Cuts a script into the scripts called by its calls and one script per
/// instruction of its literal blocks.
pub fn split_instructions_of(builder: &StructuredScript) -> (out: Result<
    Vec<StructuredScript>,
    ChunkError,
>)
    requires
        builder.wf(),
    ensures
        match out {
            Ok(pieces) => {
                &&& literals_cuttable(builder@.body.blocks)
                &&& all_wf(pieces@)
                &&& bytes_of(pieces@) == builder@.compiled()
                &&& undo_total(pieces@) == undo_cost(builder@.subs, builder@.body.blocks)
                &&& script_views(pieces@) == cut_up(builder@)
            },
            Err(e) => e == ChunkError::MalformedScript && !literals_cuttable(
                builder@.body.blocks,
            ),
        },
{
    let blocks: &Vec<Block> = builder.blocks();
    let n: usize = blocks.len();
    let ghost subs = builder@.subs;
    let ghost views = builder@.body.blocks;
    let mut pieces: Vec<StructuredScript> = Vec::new();
    let mut i: usize = 0;
    proof {
        builder.lemma_wf_view();
        assert(views.take(0) =~= Seq::<BlockView>::empty());
        assert(script_views(pieces@) =~= Seq::<ScriptView>::empty());
    }
    while i < n
        invariant
            builder.wf(),
            builder@.wf(),
            subs == builder@.subs,
            views == builder@.body.blocks,
            views == block_views(blocks@),
            n == blocks@.len(),
            i <= n,
            all_wf(pieces@),
            bytes_of(pieces@) == flat(subs, views.take(i as int)),
            undo_total(pieces@) == undo_cost(subs, views.take(i as int)),
            script_views(pieces@) == cut_blocks(builder@, views.take(i as int)),
            forall|k: int|
                0 <= k < i ==> match #[trigger] views[k] {
                    BlockView::Script(bytes) => cuttable(bytes),
                    BlockView::Call(_) => true,
                },
        decreases n - i,
    {
        let ghost before = pieces@;
        proof {
            lemma_take_next(subs, views, i as int);
            lemma_cost_take_next(subs, views, i as int);
            assert(views[i as int] == blocks@[i as int]@);
            assert(views.take(i + 1).drop_last() =~= views.take(i as int));
            assert(views.take(i + 1).last() == views[i as int]);
        }
        match &blocks[i] {
            Block::Call(id) => {
                let piece: StructuredScript = called_piece(builder, *id);
                pieces.push(piece);
                proof {
                    assert(pieces@.drop_last() =~= before);
                    assert(script_views(pieces@) =~= script_views(before) + seq![piece@]);
                    assert forall|k: int| 0 <= k < pieces@.len() implies (
                    #[trigger] pieces@[k]).wf() by {
                        if k < before.len() {
                            assert(before[k].wf());
                        }
                    }
                }
            },
            Block::Script(bytes) => {
                let mut parts: Vec<StructuredScript> = match instruction_pieces(
                    builder,
                    bytes.as_slice(),
                ) {
                    Some(parts) => parts,
                    None => {
                        return Err(ChunkError::MalformedScript);
                    },
                };
                proof {
                    lemma_append(before, parts@);
                    lemma_views_append(before, parts@);
                }
                pieces.append(&mut parts);
            },
        }
        i += 1;
    }
    assert(views.take(n as int) =~= views);
    Ok(pieces)
}

/// The sum of the two net changes of a status.
pub open spec fn total_of(status: StackStatus) -> int {
    status.stack_changed + status.altstack_changed
}

/// Whether the heights that a status leaves on the two stacks together are
/// not negative and within `limit`.
pub open spec fn within_limit(status: StackStatus, limit: usize) -> bool {
    0 <= total_of(status) <= limit
}

/// The bytes of every script on a stack are as many as its size says, so
/// that a well-formed script on top of a stack adds its size to the length
/// of what the stack compiles to.
pub proof fn lemma_script_len(script: StructuredScript)
    requires
        script.wf(),
    ensures
        script@.compiled().len() == script@.body.size,
{
    script.lemma_wf_view();
    lemma_compiled_len(script@);
}

/// Moves the scripts of `pieces` onto `stack`, the last first, so that the
/// first of them ends on top.
fn push_reversed(stack: &mut Vec<StructuredScript>, pieces: Vec<StructuredScript>)
    requires
        all_wf(old(stack)@),
        all_wf(pieces@),
    ensures
        all_wf(final(stack)@),
        pending_bytes(final(stack)@) == bytes_of(pieces@) + pending_bytes(old(stack)@),
        fit_total(final(stack)@) == fit_total(old(stack)@) + fit_total(pieces@),
        script_views(final(stack)@) == script_views(old(stack)@) + reversed(
            script_views(pieces@),
        ),
{
    let mut rest: Vec<StructuredScript> = pieces;
    assert(script_views(stack@) + reversed(script_views(rest@)) == script_views(old(stack)@)
        + reversed(script_views(pieces@)));
    assert(bytes_of(rest@) + pending_bytes(stack@) == bytes_of(pieces@) + pending_bytes(
        old(stack)@,
    ));
    while rest.len() > 0
        invariant
            all_wf(stack@),
            all_wf(rest@),
            bytes_of(rest@) + pending_bytes(stack@) == bytes_of(pieces@) + pending_bytes(
                old(stack)@,
            ),
            fit_total(stack@) + fit_total(rest@) == fit_total(old(stack)@) + fit_total(pieces@),
            script_views(stack@) + reversed(script_views(rest@)) == script_views(old(stack)@)
                + reversed(script_views(pieces@)),
        decreases rest@.len(),
    {
        let ghost had = rest@;
        let ghost below = stack@;
        match rest.pop() {
            Some(piece) => {
                assert(rest@ =~= had.drop_last());
                assert(piece == had.last());
                assert(had[had.len() - 1].wf());
                stack.push(piece);
                proof {
                    assert(script_views(had).drop_last() =~= script_views(rest@));
                    assert(script_views(had).last() == piece@);
                    assert(script_views(stack@) =~= script_views(below) + seq![piece@]);
                    assert(script_views(stack@) + reversed(script_views(rest@)) =~= script_views(
                        below,
                    ) + reversed(script_views(had)));
                    assert(stack@.drop_last() =~= below);
                    assert(bytes_of(rest@) + pending_bytes(stack@) =~= bytes_of(had)
                        + pending_bytes(below));
                    assert forall|k: int| 0 <= k < stack@.len() implies (#[trigger] stack@[k]).wf() by {
                        if k < below.len() {
                            assert(below[k].wf());
                        }
                    }
                    assert forall|k: int| 0 <= k < rest@.len() implies (#[trigger] rest@[k]).wf() by {
                        assert(had[k].wf());
                    }
                }
            },
            None => {},
        }
    }
    assert(bytes_of(rest@) =~= Seq::<u8>::empty());
    assert(bytes_of(rest@) + pending_bytes(stack@) =~= pending_bytes(stack@));
    assert(script_views(rest@) =~= Seq::<ScriptView>::empty());
    assert(script_views(stack@) + reversed(script_views(rest@)) =~= script_views(stack@));
}

/// Whether a count of open conditionals is so far from the ends of its
/// machine integer that the balance of one more script can be added to it.
pub open spec fn count_in_range(count: int) -> bool {
    -0x7fff_ffff_ffff_ffff_ffff_ffff <= count <= 0x7fff_ffff_ffff_ffff_ffff_ffff
}

/// Whether the balances of `scripts` can be summed one after the other with
/// every sum before the last in range.
pub open spec fn balance_fits(scripts: Seq<StructuredScript>) -> bool
    decreases scripts.len(),
{
    scripts.len() == 0 || (balance_fits(scripts.drop_last()) && count_in_range(
        balance_of(scripts.drop_last()),
    ))
}

/// Where the balances of scripts can be summed, those of the first of them
/// can.
proof fn lemma_balance_fits_take(scripts: Seq<StructuredScript>, n: int)
    requires
        0 <= n <= scripts.len(),
        balance_fits(scripts),
    ensures
        balance_fits(scripts.take(n)),
    decreases scripts.len(),
{
    if n < scripts.len() {
        lemma_balance_fits_take(scripts.drop_last(), n);
        assert(scripts.drop_last().take(n) =~= scripts.take(n));
    } else {
        assert(scripts.take(n) =~= scripts);
    }
}

/// Whether a count lies in the range in which more can be added to it.
fn in_count_range(count: i128) -> (out: bool)
    ensures
        out == count_in_range(count as int),
{
    -0x7fff_ffff_ffff_ffff_ffff_ffffi128 <= count && count <= 0x7fff_ffff_ffff_ffff_ffff_ffffi128
}

/// The sum of the recorded balances of conditionals of `scripts`, or `None`
/// where a sum on the way leaves the range.
fn balance_sum(scripts: &Vec<StructuredScript>) -> (out: Option<i128>)
    ensures
        match out {
            Some(sum) => balance_fits(scripts@) && sum == balance_of(scripts@),
            None => !balance_fits(scripts@),
        },
{
    let n: usize = scripts.len();
    let mut sum: i128 = 0;
    let mut i: usize = 0;
    assert(scripts@.take(0) =~= Seq::<StructuredScript>::empty());
    while i < n
        invariant
            n == scripts@.len(),
            i <= n,
            sum == balance_of(scripts@.take(i as int)),
            balance_fits(scripts@.take(i as int)),
        decreases n - i,
    {
        let term: i128 = scripts[i].flow_balance();
        assert(scripts@.take(i + 1).drop_last() =~= scripts@.take(i as int));
        assert(scripts@.take(i + 1).last() == scripts@[i as int]);
        if sum > 0x7fff_ffff_ffff_ffff_ffff_ffffi128 || sum < -0x7fff_ffff_ffff_ffff_ffff_ffffi128 {
            proof {
                if balance_fits(scripts@) {
                    lemma_balance_fits_take(scripts@, i + 1);
                }
            }
            return None;
        }
        sum = sum + term;
        i += 1;
    }
    assert(scripts@.take(n as int) =~= scripts@);
    Some(sum)
}

/// What is kept while a chunk is filled, so that scripts taken into it can
/// be taken out again: the scripts taken since the chunk was last valid,
/// the status at that point, and the analysis of all that was taken.
pub struct UndoInfo {
    pub call_stack: Vec<StructuredScript>,
    pub size: usize,
    pub num_unclosed_ifs: i128,
    pub valid_stack_status: StackStatus,
    pub last_constant: Option<i64>,
    pub analyzer: StackAnalyzer,
}

/// Whether what was taken into a chunk makes a valid chunk, with `count`
/// conditionals left open and the analysis in `state`: the conditionals
/// closed and the stacks within the limit, or why that cannot be told.
pub open spec fn validity_of(count: int, state: AnalyzerState, stack_limit: usize) -> Result<
    bool,
    ChunkError,
> {
    if count != 0 {
        Ok(false)
    } else {
        match state.outcome() {
            Err(e) => Err(ChunkError::Analysis(e)),
            Ok(status) => if total_of(status) < 0 {
                Err(ChunkError::NegativeStack)
            } else {
                Ok(total_of(status) <= stack_limit)
            },
        }
    }
}

impl UndoInfo {
    /// What `valid` and `is_done` find: whether the conditionals are closed
    /// and the stacks within the limit, or why that cannot be told.
    pub open spec fn validity(&self, stack_limit: usize) -> Result<bool, ChunkError> {
        validity_of(self.num_unclosed_ifs as int, self.analyzer@, stack_limit)
    }

    /// A record for a chunk that starts with the given heights on the two
    /// stacks and the given constant on top.
    pub fn new(
        input_stack_size: usize,
        input_altstack_size: usize,
        last_constant: Option<i64>,
    ) -> (out: UndoInfo)
        requires
            input_stack_size <= i32::MAX,
            input_altstack_size <= i32::MAX,
        ensures
            out.call_stack@.len() == 0,
            out.size == 0,
            out.num_unclosed_ifs == 0,
            out.valid_stack_status == (StackStatus {
                deepest_stack_accessed: 0,
                stack_changed: input_stack_size as i32,
                deepest_altstack_accessed: 0,
                altstack_changed: input_altstack_size as i32,
            }),
            out.last_constant == last_constant,
            out.analyzer@ == AnalyzerState::starting(out.valid_stack_status, last_constant),
    {
        UndoInfo {
            call_stack: Vec::new(),
            size: 0,
            num_unclosed_ifs: 0,
            valid_stack_status: StackStatus {
                deepest_stack_accessed: 0,
                stack_changed: input_stack_size as i32,
                deepest_altstack_accessed: 0,
                altstack_changed: input_altstack_size as i32,
            },
            last_constant,
            analyzer: StackAnalyzer::with(input_stack_size, input_altstack_size, last_constant),
        }
    }

    /// Commits the scripts taken so far: hands them out and records the
    /// status and the constant that the analysis has reached.
    pub fn reset(&mut self) -> (out: Result<Vec<StructuredScript>, ChunkError>)
        ensures
            match out {
                Ok(scripts) => {
                    &&& old(self).analyzer@.outcome() is Ok
                    &&& scripts@ == old(self).call_stack@
                    &&& final(self).call_stack@.len() == 0
                    &&& final(self).size == 0
                    &&& final(self).num_unclosed_ifs == 0
                    &&& final(self).last_constant == old(self).analyzer@.last_constant
                    &&& old(self).analyzer@.outcome() == Ok::<StackStatus, AnalysisError>(
                        final(self).valid_stack_status,
                    )
                    &&& final(self).analyzer == old(self).analyzer
                },
                Err(e) => {
                    &&& old(self).analyzer@.outcome() == Err::<StackStatus, AnalysisError>(
                        AnalysisError::UnclosedIf,
                    )
                    &&& e == ChunkError::Analysis(AnalysisError::UnclosedIf)
                    &&& *final(self) == *old(self)
                },
            },
    {
        let status: StackStatus = match self.analyzer.get_status() {
            Ok(status) => status,
            Err(e) => {
                return Err(ChunkError::Analysis(e));
            },
        };
        self.size = 0;
        self.num_unclosed_ifs = 0;
        self.last_constant = self.analyzer.last_constant;
        self.valid_stack_status = status;
        let mut scripts: Vec<StructuredScript> = Vec::new();
        scripts.append(&mut self.call_stack);
        assert(scripts@ =~= old(self).call_stack@);
        Ok(scripts)
    }

    /// Whether every conditional taken so far is closed.
    pub fn valid_if(&self) -> (out: bool)
        ensures
            out == (self.num_unclosed_ifs == 0),
    {
        self.num_unclosed_ifs == 0
    }

    /// Whether the scripts taken so far make a valid chunk: the
    /// conditionals closed and the two stacks together within the limit.
    pub fn valid(&self, stack_limit: usize) -> (out: Result<bool, ChunkError>)
        ensures
            out == self.validity(stack_limit),
    {
        if !self.valid_if() {
            return Ok(false);
        }
        match self.analyzer.get_status() {
            Err(e) => Err(ChunkError::Analysis(e)),
            Ok(status) => {
                let total: i64 = status.stack_changed as i64 + status.altstack_changed as i64;
                if total < 0 {
                    Err(ChunkError::NegativeStack)
                } else {
                    Ok(total as u64 <= stack_limit as u64)
                }
            },
        }
    }

    /// Takes `script` into the chunk and into the analysis.
    pub fn update(&mut self, script: StructuredScript) -> (out: Result<(), ChunkError>)
        requires
            script.wf(),
        ensures
            match out {
                Ok(()) => {
                    &&& count_in_range(old(self).num_unclosed_ifs as int)
                    &&& final(self).call_stack@ == old(self).call_stack@.push(script)
                    &&& final(self).size == old(self).size + script@.body.size
                    &&& final(self).num_unclosed_ifs == old(self).num_unclosed_ifs
                        + script@.body.num_unclosed_ifs()
                    &&& old(self).analyzer@.run_script(script@) == Ok::<
                        AnalyzerState,
                        AnalysisError,
                    >(final(self).analyzer@)
                    &&& final(self).valid_stack_status == old(self).valid_stack_status
                    &&& final(self).last_constant == old(self).last_constant
                },
                Err(e) => if old(self).size + script@.body.size > usize::MAX || !count_in_range(
                    old(self).num_unclosed_ifs as int,
                ) {
                    e == ChunkError::Overflow
                } else {
                    e is Analysis && old(self).analyzer@.run_script(script@) == Err::<
                        AnalyzerState,
                        AnalysisError,
                    >(e->Analysis_0)
                },
            },
    {
        let len: usize = script.len();
        if len > usize::MAX - self.size {
            return Err(ChunkError::Overflow);
        }
        let balance: i128 = script.flow_balance();
        if self.num_unclosed_ifs > 0x7fff_ffff_ffff_ffff_ffff_ffffi128 || self.num_unclosed_ifs
            < -0x7fff_ffff_ffff_ffff_ffff_ffffi128 {
            return Err(ChunkError::Overflow);
        }
        match self.analyzer.analyze(&script) {
            Ok(()) => {},
            Err(e) => {
                return Err(ChunkError::Analysis(e));
            },
        }
        self.size = self.size + len;
        self.num_unclosed_ifs = self.num_unclosed_ifs + balance;
        self.call_stack.push(script);
        Ok(())
    }

    /// Takes `script`, which has left the scripts taken so far, out of the
    /// count of open conditionals, and analyses the scripts that are left
    /// anew from the last valid status.
    pub fn remove(&mut self, script: &StructuredScript) -> (out: Result<(), ChunkError>)
        requires
            all_wf(old(self).call_stack@),
        ensures
            final(self).call_stack == old(self).call_stack,
            final(self).size == old(self).size,
            final(self).valid_stack_status == old(self).valid_stack_status,
            final(self).last_constant == old(self).last_constant,
            match out {
                Ok(()) => {
                    &&& count_in_range(old(self).num_unclosed_ifs as int)
                    &&& final(self).num_unclosed_ifs == old(self).num_unclosed_ifs
                        - script@.body.num_unclosed_ifs()
                    &&& AnalyzerState::starting(
                        StackStatus {
                            deepest_stack_accessed: 0,
                            stack_changed: old(self).valid_stack_status.stack_changed,
                            deepest_altstack_accessed: 0,
                            altstack_changed: old(self).valid_stack_status.altstack_changed,
                        },
                        old(self).last_constant,
                    ).run_scripts(script_views(old(self).call_stack@)) == Ok::<
                        AnalyzerState,
                        AnalysisError,
                    >(final(self).analyzer@)
                },
                Err(e) => if !count_in_range(old(self).num_unclosed_ifs as int) {
                    e == ChunkError::Overflow
                } else {
                    e is Analysis && AnalyzerState::starting(
                        StackStatus {
                            deepest_stack_accessed: 0,
                            stack_changed: old(self).valid_stack_status.stack_changed,
                            deepest_altstack_accessed: 0,
                            altstack_changed: old(self).valid_stack_status.altstack_changed,
                        },
                        old(self).last_constant,
                    ).run_scripts(script_views(old(self).call_stack@)) == Err::<
                        AnalyzerState,
                        AnalysisError,
                    >(e->Analysis_0)
                },
            },
    {
        let balance: i128 = script.flow_balance();
        if self.num_unclosed_ifs > 0x7fff_ffff_ffff_ffff_ffff_ffffi128 || self.num_unclosed_ifs
            < -0x7fff_ffff_ffff_ffff_ffff_ffffi128 {
            return Err(ChunkError::Overflow);
        }
        self.num_unclosed_ifs = self.num_unclosed_ifs - balance;
        self.analyzer = StackAnalyzer::from_heights(
            self.valid_stack_status.stack_changed,
            self.valid_stack_status.altstack_changed,
            self.last_constant,
        );
        match self.analyzer.analyze_blocks(&self.call_stack) {
            Ok(()) => Ok(()),
            Err(e) => Err(ChunkError::Analysis(e)),
        }
    }

    /// Whether the chunk is valid as it stands, with nothing waiting to be
    /// committed.
    pub fn is_done(&self, stack_limit: usize) -> (out: Result<bool, ChunkError>)
        ensures
            out == match self.validity(stack_limit) {
                Ok(true) => if self.call_stack@.len() == 0 {
                    Ok(true)
                } else {
                    Err(ChunkError::UncommittedScripts)
                },
                Ok(false) => Ok(false),
                Err(e) => Err(e),
            },
    {
        match self.valid(stack_limit) {
            Ok(true) => {
                if self.call_stack.len() == 0 {
                    Ok(true)
                } else {
                    Err(ChunkError::UncommittedScripts)
                }
            },
            Ok(false) => Ok(false),
            Err(e) => Err(e),
        }
    }
}

/// One chunk: its scripts in order, the number of bytes they compile to, the
/// heights of the stacks around it, and the constant known to lie on top
/// after it.
#[derive(Debug, Clone)]
pub struct Chunk {
    pub scripts: Vec<StructuredScript>,
    pub size: usize,
    pub stats: ChunkStats,
    pub last_constant: Option<i64>,
}

impl Chunk {
    /// A chunk of the given parts.
    pub fn new(
        scripts: Vec<StructuredScript>,
        size: usize,
        stats: ChunkStats,
        last_constant: Option<i64>,
    ) -> (out: Chunk)
        ensures
            out.scripts == scripts,
            out.size == size,
            out.stats == stats,
            out.last_constant == last_constant,
    {
        Chunk { scripts, size, stats, last_constant }
    }

    /// The height of the main stack after the chunk.
    pub fn total_stack_size(&self) -> (out: usize)
        ensures
            out == self.stats.stack_output_size,
    {
        self.stats.stack_output_size
    }

    /// Whether the chunk is sound for a target size and a stack limit: its
    /// scripts are well formed, its size is the number of bytes they
    /// compile to, which is more than none and no more than the target, no
    /// conditional is left open, and the two stacks together hold no more
    /// than the limit after it.
    pub open spec fn sound(&self, target: usize, stack_limit: usize) -> bool {
        &&& all_wf(self.scripts@)
        &&& self.size == bytes_of(self.scripts@).len()
        &&& 0 < self.size <= target
        &&& balance_of(self.scripts@) == 0
        &&& self.stats.stack_output_size + self.stats.altstack_output_size <= stack_limit
    }
}

/// Whether the heights after `chunk` and the constant it records are what
/// the analysis of its scripts gives, begun with the heights that `before`
/// leave and the constant `known`, with one checkpoint on the way.
pub open spec fn analysed(before: Seq<Chunk>, known: Option<i64>, chunk: Chunk) -> bool {
    exists|k: int| #[trigger]
        analysis_in_two(
            chunk_start(before, known),
            chunk.scripts@,
            k,
            StackStatus {
                deepest_stack_accessed: 0,
                stack_changed: chunk.stats.stack_output_size as i32,
                deepest_altstack_accessed: 0,
                altstack_changed: chunk.stats.altstack_output_size as i32,
            },
            chunk.last_constant,
        )
}

/// The constant known before the chunk at `i` of a run that added the
/// chunks from `from` on: none before the first, and what the chunk before
/// records otherwise.
pub open spec fn constant_before(chunks: Seq<Chunk>, from: int, i: int) -> Option<i64> {
    if i <= from {
        None
    } else {
        chunks[i - 1].last_constant
    }
}

/// The bytes that the scripts of chunks compile to, chunk after chunk.
pub open spec fn chunks_bytes(chunks: Seq<Chunk>) -> Seq<u8>
    decreases chunks.len(),
{
    if chunks.len() == 0 {
        Seq::<u8>::empty()
    } else {
        chunks_bytes(chunks.drop_last()) + bytes_of(chunks.last().scripts@)
    }
}

/// What an undoing comes to: the scripts kept for the chunk, the scripts
/// taken out in the order in which they were taken out, and the status and
/// the constant after what is kept.
pub struct UndoOutcome {
    pub kept: Seq<ScriptView>,
    pub removed: Seq<ScriptView>,
    pub status: StackStatus,
    pub constant: Option<i64>,
}

/// Whether the fragment records an opcode that opens or closes a
/// conditional.
pub open spec fn records_flow(f: FragmentView) -> bool {
    !(f.unclosed_ifs.len() == 0 && f.extra_endifs.len() == 0 && f.max_if_interval == (
        0usize,
        0usize,
    ))
}

/// Whether the script is one literal block that holds one instruction.
pub open spec fn one_instruction(script: ScriptView) -> bool {
    script.body.blocks.len() == 1 && match script.body.blocks[0] {
        BlockView::Script(bytes) => single_instruction(bytes),
        BlockView::Call(_) => false,
    }
}

/// Whether the undoing takes `script` out whole rather than cutting it up:
/// it carries a hint, or it records no conditional while one is open, or it
/// is a single instruction.
pub open spec fn taken_out_whole(script: ScriptView, count: int) -> bool {
    script.body.stack_hint is Some || (!records_flow(script.body) && count != 0)
        || one_instruction(script)
}

/// The undoing, step by step, of what was taken into a chunk since the
/// status `from` and the constant `known` were valid: `taken` are the
/// scripts taken in order, `removed` those taken out so far, `count` the
/// conditionals left open. `steps` bounds the number of steps.
///
/// The last script taken is taken out whole or cut up into scripts that
/// take its place. After a script is taken out, what is left is analysed
/// anew; where it is valid, the undoing ends with it. Where no script is
/// left, the undoing fails.
pub open spec fn undo_steps(
    steps: nat,
    stack_limit: usize,
    from: StackStatus,
    known: Option<i64>,
    taken: Seq<ScriptView>,
    removed: Seq<ScriptView>,
    count: int,
) -> Result<UndoOutcome, ChunkError>
    decreases steps,
{
    if taken.len() == 0 || steps == 0 {
        Err(ChunkError::UndoFailed)
    } else if taken_out_whole(taken.last(), count) {
        if !count_in_range(count) {
            Err(ChunkError::Overflow)
        } else {
            match resumed(from, known).run_scripts(taken.drop_last()) {
                Err(cause) => Err(ChunkError::Analysis(cause)),
                Ok(state) => match validity_of(
                    count - taken.last().body.num_unclosed_ifs(),
                    state,
                    stack_limit,
                ) {
                    Err(e) => Err(e),
                    Ok(valid) => if valid {
                        Ok(
                            UndoOutcome {
                                kept: taken.drop_last(),
                                removed: removed.push(taken.last()),
                                status: state.status,
                                constant: state.last_constant,
                            },
                        )
                    } else {
                        undo_steps(
                            (steps - 1) as nat,
                            stack_limit,
                            from,
                            known,
                            taken.drop_last(),
                            removed.push(taken.last()),
                            count - taken.last().body.num_unclosed_ifs(),
                        )
                    },
                },
            }
        }
    } else if !literals_cuttable(taken.last().body.blocks) {
        Err(ChunkError::MalformedScript)
    } else if !balance_sum_fits(cut_up(taken.last())) || !count_in_range(
        balance_sum_of(cut_up(taken.last())),
    ) || !count_in_range(count) {
        Err(ChunkError::Overflow)
    } else {
        undo_steps(
            (steps - 1) as nat,
            stack_limit,
            from,
            known,
            taken.drop_last() + cut_up(taken.last()),
            removed,
            count + balance_sum_of(cut_up(taken.last())) - taken.last().body.num_unclosed_ifs(),
        )
    }
}

/// One step of the undoing that takes the last script out whole.
pub proof fn lemma_undo_takes_out(
    steps: nat,
    stack_limit: usize,
    from: StackStatus,
    known: Option<i64>,
    taken: Seq<ScriptView>,
    removed: Seq<ScriptView>,
    count: int,
)
    requires
        taken.len() > 0,
        steps > 0,
        taken_out_whole(taken.last(), count),
    ensures
        undo_steps(steps, stack_limit, from, known, taken, removed, count) == if !count_in_range(
            count,
        ) {
            Err::<UndoOutcome, ChunkError>(ChunkError::Overflow)
        } else {
            match resumed(from, known).run_scripts(taken.drop_last()) {
                Err(cause) => Err(ChunkError::Analysis(cause)),
                Ok(state) => match validity_of(
                    count - taken.last().body.num_unclosed_ifs(),
                    state,
                    stack_limit,
                ) {
                    Err(e) => Err(e),
                    Ok(valid) => if valid {
                        Ok(
                            UndoOutcome {
                                kept: taken.drop_last(),
                                removed: removed.push(taken.last()),
                                status: state.status,
                                constant: state.last_constant,
                            },
                        )
                    } else {
                        undo_steps(
                            (steps - 1) as nat,
                            stack_limit,
                            from,
                            known,
                            taken.drop_last(),
                            removed.push(taken.last()),
                            count - taken.last().body.num_unclosed_ifs(),
                        )
                    },
                },
            }
        },
{
}

/// One step of the undoing that cuts the last script up.
pub proof fn lemma_undo_cuts_up(
    steps: nat,
    stack_limit: usize,
    from: StackStatus,
    known: Option<i64>,
    taken: Seq<ScriptView>,
    removed: Seq<ScriptView>,
    count: int,
)
    requires
        taken.len() > 0,
        steps > 0,
        !taken_out_whole(taken.last(), count),
    ensures
        undo_steps(steps, stack_limit, from, known, taken, removed, count) == if !literals_cuttable(
            taken.last().body.blocks,
        ) {
            Err::<UndoOutcome, ChunkError>(ChunkError::MalformedScript)
        } else if !balance_sum_fits(cut_up(taken.last())) || !count_in_range(
            balance_sum_of(cut_up(taken.last())),
        ) || !count_in_range(count) {
            Err(ChunkError::Overflow)
        } else {
            undo_steps(
                (steps - 1) as nat,
                stack_limit,
                from,
                known,
                taken.drop_last() + cut_up(taken.last()),
                removed,
                count + balance_sum_of(cut_up(taken.last()))
                    - taken.last().body.num_unclosed_ifs(),
            )
        },
{
}

/// What the undoing comes to for the scripts `taken` since the status
/// `from` and the constant `known` were valid, with `count` conditionals
/// left open and the analysis in `state`: nothing is taken out where that
/// is valid as it stands, and the scripts are undone step by step where
/// not.
pub open spec fn undo_from(
    stack_limit: usize,
    count: int,
    state: AnalyzerState,
    from: StackStatus,
    known: Option<i64>,
    taken: Seq<ScriptView>,
) -> Result<UndoOutcome, ChunkError> {
    match validity_of(count, state, stack_limit) {
        Err(e) => Err(e),
        Ok(valid) => if !valid {
            undo_steps(
                undo_total_of(taken),
                stack_limit,
                from,
                known,
                taken,
                Seq::<ScriptView>::empty(),
                count,
            )
        } else if taken.len() == 0 {
            Ok(
                UndoOutcome {
                    kept: Seq::<ScriptView>::empty(),
                    removed: Seq::<ScriptView>::empty(),
                    status: from,
                    constant: known,
                },
            )
        } else {
            Err(ChunkError::UncommittedScripts)
        },
    }
}

/// What `undo` comes to for a record of what was taken into a chunk.
pub open spec fn undo_outcome(stack_limit: usize, info: UndoInfo) -> Result<
    UndoOutcome,
    ChunkError,
> {
    undo_from(
        stack_limit,
        info.num_unclosed_ifs as int,
        info.analyzer@,
        info.valid_stack_status,
        info.last_constant,
        script_views(info.call_stack@),
    )
}

/// The state of the filling of a chunk: the scripts that remain, the next
/// one last; the scripts committed to the chunk; the scripts taken since;
/// the number of bytes of both; the conditionals left open by what was
/// taken since; the analysis of all that was taken; the status and the
/// constant at the last commit; and the number of cuts since a script was
/// last taken.
pub struct FillState {
    pub pending: Seq<ScriptView>,
    pub kept: Seq<ScriptView>,
    pub taken: Seq<ScriptView>,
    pub length: nat,
    pub count: int,
    pub analysis: AnalyzerState,
    pub valid_status: StackStatus,
    pub constant: Option<i64>,
    pub depth: nat,
}

/// Whether the script is one literal block.
pub open spec fn one_literal(script: ScriptView) -> bool {
    script.body.blocks.len() == 1 && script.body.blocks[0] is Script
}

/// The state after the next script has been taken into the chunk and
/// analysed to `next`: committed with all taken before it where that is
/// valid, and taken otherwise.
pub open spec fn after_taking(st: FillState, next: AnalyzerState, valid: bool) -> FillState {
    let top = st.pending.last();
    if valid {
        FillState {
            pending: st.pending.drop_last(),
            kept: st.kept + st.taken.push(top),
            taken: Seq::<ScriptView>::empty(),
            length: st.length + top.body.size,
            count: 0,
            analysis: next,
            valid_status: next.status,
            constant: next.last_constant,
            depth: 0,
        }
    } else {
        FillState {
            pending: st.pending.drop_last(),
            kept: st.kept,
            taken: st.taken.push(top),
            length: st.length + top.body.size,
            count: st.count + top.body.num_unclosed_ifs(),
            analysis: next,
            valid_status: st.valid_status,
            constant: st.constant,
            depth: 0,
        }
    }
}

/// One step of the filling of a chunk from a state in which a script
/// remains.
///
/// The next script is taken where it fits the target size with what the
/// chunk holds. Where it does not fit, the chunk is not yet full and fewer
/// than nine cuts were made in a row, a script of several blocks without a
/// hint is cut into the scripts of its blocks, which take its place. In
/// every other case the filling ends.
pub open spec fn fill_step(steps: nat, target: usize, stack_limit: usize, st: FillState) -> Result<
    FillState,
    ChunkError,
>
    recommends
        st.pending.len() > 0,
        steps > 0,
    decreases steps, 0nat,
{
    let top = st.pending.last();
    if steps == 0 {
        Ok(st)
    } else if !count_in_range(st.count) {
        Err(ChunkError::Overflow)
    } else if st.count + top.body.num_unclosed_ifs() < 0 {
        Err(ChunkError::MoreEndifsThanIfs)
    } else if top.body.size + st.length <= target {
        match st.analysis.run_script(top) {
            Err(cause) => Err(ChunkError::Analysis(cause)),
            Ok(next) => match validity_of(
                st.count + top.body.num_unclosed_ifs(),
                next,
                stack_limit,
            ) {
                Err(e) => Err(e),
                Ok(valid) => fill_steps(
                    (steps - 1) as nat,
                    target,
                    stack_limit,
                    after_taking(st, next, valid),
                ),
            },
        }
    } else if st.length < target && st.depth <= 8 {
        if one_literal(top) || top.body.stack_hint is Some {
            Ok(st)
        } else if !literals_decodable(top.body.blocks) {
            Err(ChunkError::MalformedScript)
        } else {
            fill_steps(
                (steps - 1) as nat,
                target,
                stack_limit,
                FillState {
                    pending: st.pending.drop_last() + reversed(block_views_of(top)),
                    depth: st.depth + 1,
                    ..st
                },
            )
        }
    } else {
        Ok(st)
    }
}

/// The filling of a chunk, step by step, until no script remains or a
/// script ends it. `steps` bounds the number of steps.
pub open spec fn fill_steps(steps: nat, target: usize, stack_limit: usize, st: FillState) -> Result<
    FillState,
    ChunkError,
>
    decreases steps, 1nat,
{
    if st.pending.len() == 0 || steps == 0 {
        Ok(st)
    } else {
        fill_step(steps, target, stack_limit, st)
    }
}

/// One step of the filling of a chunk, case by case.
pub proof fn lemma_fill_step(steps: nat, target: usize, stack_limit: usize, st: FillState)
    requires
        st.pending.len() > 0,
        steps > 0,
    ensures
        fill_steps(steps, target, stack_limit, st) == fill_step(steps, target, stack_limit, st),
        !count_in_range(st.count) ==> fill_step(steps, target, stack_limit, st) == Err::<
            FillState,
            ChunkError,
        >(ChunkError::Overflow),
        count_in_range(st.count) && st.count + st.pending.last().body.num_unclosed_ifs() < 0
            ==> fill_step(steps, target, stack_limit, st) == Err::<FillState, ChunkError>(
            ChunkError::MoreEndifsThanIfs,
        ),
        count_in_range(st.count) && st.count + st.pending.last().body.num_unclosed_ifs() >= 0
            && st.pending.last().body.size + st.length <= target ==> fill_step(
            steps,
            target,
            stack_limit,
            st,
        ) == match st.analysis.run_script(st.pending.last()) {
            Err(cause) => Err(ChunkError::Analysis(cause)),
            Ok(next) => match validity_of(
                st.count + st.pending.last().body.num_unclosed_ifs(),
                next,
                stack_limit,
            ) {
                Err(e) => Err(e),
                Ok(valid) => fill_steps(
                    (steps - 1) as nat,
                    target,
                    stack_limit,
                    after_taking(st, next, valid),
                ),
            },
        },
        count_in_range(st.count) && st.count + st.pending.last().body.num_unclosed_ifs() >= 0
            && st.pending.last().body.size + st.length > target ==> fill_step(
            steps,
            target,
            stack_limit,
            st,
        ) == if st.length < target && st.depth <= 8 {
            if one_literal(st.pending.last()) || st.pending.last().body.stack_hint is Some {
                Ok(st)
            } else if !literals_decodable(st.pending.last().body.blocks) {
                Err(ChunkError::MalformedScript)
            } else {
                fill_steps(
                    (steps - 1) as nat,
                    target,
                    stack_limit,
                    FillState {
                        pending: st.pending.drop_last() + reversed(
                            block_views_of(st.pending.last()),
                        ),
                        depth: st.depth + 1,
                        ..st
                    },
                )
            }
        } else {
            Ok(st)
        },
{
}

/// What the finding of the next chunk comes to: its scripts, the scripts
/// that remain after it, the heights around it and the constant after it.
pub struct ChunkEnd {
    pub scripts: Seq<ScriptView>,
    pub pending: Seq<ScriptView>,
    pub stats: ChunkStats,
    pub constant: Option<i64>,
}

/// The state in which the filling of a chunk begins.
pub open spec fn fill_start(
    heights: (usize, usize),
    pending: Seq<ScriptView>,
    known: Option<i64>,
) -> FillState {
    FillState {
        pending,
        kept: Seq::<ScriptView>::empty(),
        taken: Seq::<ScriptView>::empty(),
        length: 0,
        count: 0,
        analysis: AnalyzerState::starting(
            StackStatus {
                deepest_stack_accessed: 0,
                stack_changed: heights.0 as i32,
                deepest_altstack_accessed: 0,
                altstack_changed: heights.1 as i32,
            },
            known,
        ),
        valid_status: StackStatus {
            deepest_stack_accessed: 0,
            stack_changed: heights.0 as i32,
            deepest_altstack_accessed: 0,
            altstack_changed: heights.1 as i32,
        },
        constant: known,
        depth: 0,
    }
}

/// The next chunk of the scripts `pending`, the next one last, after chunks
/// that leave the heights `heights` on the stacks and the constant `known`:
/// the chunk is filled, what was taken after the last valid point is
/// undone, and what is kept is the chunk.
pub open spec fn next_chunk(
    target: usize,
    stack_limit: usize,
    heights: (usize, usize),
    pending: Seq<ScriptView>,
    known: Option<i64>,
) -> Result<ChunkEnd, ChunkError> {
    if heights.0 > i32::MAX || heights.1 > i32::MAX {
        Err(ChunkError::Overflow)
    } else {
        match fill_steps(
            fit_total_of(pending),
            target,
            stack_limit,
            fill_start(heights, pending, known),
        ) {
            Err(e) => Err(e),
            Ok(end) => match undo_from(
                stack_limit,
                end.count,
                end.analysis,
                end.valid_status,
                end.constant,
                end.taken,
            ) {
                Err(e) => Err(e),
                Ok(found) => if found.status.stack_changed < 0 || found.status.altstack_changed
                    < 0 {
                    Err(ChunkError::NegativeStack)
                } else {
                    Ok(
                        ChunkEnd {
                            scripts: end.kept + found.kept,
                            pending: end.pending + found.removed,
                            stats: ChunkStats {
                                stack_input_size: heights.0,
                                stack_output_size: found.status.stack_changed as usize,
                                altstack_input_size: heights.1,
                                altstack_output_size: found.status.altstack_changed as usize,
                            },
                            constant: found.constant,
                        },
                    )
                },
            },
        }
    }
}

/// The bytes that scripts compile to, one after the other.
pub open spec fn compiled_of(scripts: Seq<ScriptView>) -> Seq<u8>
    decreases scripts.len(),
{
    if scripts.len() == 0 {
        Seq::<u8>::empty()
    } else {
        compiled_of(scripts.drop_last()) + scripts.last().compiled()
    }
}

/// The number of bytes that scripts compile to together.
pub open spec fn compiled_len(scripts: Seq<ScriptView>) -> nat {
    compiled_of(scripts).len()
}

/// The bytes of scripts are those of their views.
pub proof fn lemma_compiled_views(scripts: Seq<StructuredScript>)
    ensures
        bytes_of(scripts) == compiled_of(script_views(scripts)),
        bytes_of(scripts).len() == compiled_len(script_views(scripts)),
    decreases scripts.len(),
{
    if scripts.len() > 0 {
        lemma_compiled_views(scripts.drop_last());
        assert(script_views(scripts).drop_last() =~= script_views(scripts.drop_last()));
    }
}

/// The chunks that the scripts `pending`, the next one last, are cut into,
/// after chunks that leave the heights `heights` and the constant `known`:
/// chunk after chunk until no script remains. A chunk without bytes ends
/// the cutting with an error. `steps` bounds the number of chunks.
pub open spec fn cut_steps(
    steps: nat,
    target: usize,
    stack_limit: usize,
    heights: (usize, usize),
    pending: Seq<ScriptView>,
    known: Option<i64>,
) -> Result<Seq<ChunkEnd>, ChunkError>
    decreases steps,
{
    if pending.len() == 0 {
        Ok(Seq::<ChunkEnd>::empty())
    } else if steps == 0 {
        Err(ChunkError::EmptyChunk)
    } else {
        match next_chunk(target, stack_limit, heights, pending, known) {
            Err(e) => Err(e),
            Ok(found) => if compiled_len(found.scripts) == 0 {
                Err(ChunkError::EmptyChunk)
            } else {
                match cut_steps(
                    (steps - 1) as nat,
                    target,
                    stack_limit,
                    (found.stats.stack_output_size, found.stats.altstack_output_size),
                    found.pending,
                    found.constant,
                ) {
                    Err(e) => Err(e),
                    Ok(rest) => Ok(seq![found] + rest),
                }
            },
        }
    }
}

/// One chunk of the cutting.
pub proof fn lemma_cut_step(
    steps: nat,
    target: usize,
    stack_limit: usize,
    heights: (usize, usize),
    pending: Seq<ScriptView>,
    known: Option<i64>,
)
    requires
        pending.len() > 0,
        steps > 0,
    ensures
        cut_steps(steps, target, stack_limit, heights, pending, known) == match next_chunk(
            target,
            stack_limit,
            heights,
            pending,
            known,
        ) {
            Err(e) => Err::<Seq<ChunkEnd>, ChunkError>(e),
            Ok(found) => if compiled_len(found.scripts) == 0 {
                Err(ChunkError::EmptyChunk)
            } else {
                match cut_steps(
                    (steps - 1) as nat,
                    target,
                    stack_limit,
                    (found.stats.stack_output_size, found.stats.altstack_output_size),
                    found.pending,
                    found.constant,
                ) {
                    Err(e) => Err(e),
                    Ok(rest) => Ok(seq![found] + rest),
                }
            },
        },
{
}

/// The chunks found so far, followed by what the rest of the cutting comes
/// to.
pub open spec fn cut_on(done: Seq<ChunkEnd>, rest: Result<Seq<ChunkEnd>, ChunkError>) -> Result<
    Seq<ChunkEnd>,
    ChunkError,
> {
    match rest {
        Ok(more) => Ok(done + more),
        Err(e) => Err(e),
    }
}

/// Whether `chunk` is what the cutting found.
pub open spec fn chunk_is(chunk: Chunk, found: ChunkEnd) -> bool {
    &&& script_views(chunk.scripts@) == found.scripts
    &&& chunk.stats == found.stats
    &&& chunk.last_constant == found.constant
}

/// The state of the filling that the variables of `find_next_chunk` stand
/// for.
pub open spec fn fill_state_of(
    pending: Seq<StructuredScript>,
    kept: Seq<StructuredScript>,
    info: UndoInfo,
    length: usize,
    depth: usize,
) -> FillState {
    FillState {
        pending: script_views(pending),
        kept: script_views(kept),
        taken: script_views(info.call_stack@),
        length: length as nat,
        count: info.num_unclosed_ifs as int,
        analysis: info.analyzer@,
        valid_status: info.valid_stack_status,
        constant: info.last_constant,
        depth: depth as nat,
    }
}

/// Cuts a structured script into chunks.
#[derive(Debug)]
pub struct Chunker {
    pub target_chunk_size: usize,
    pub stack_limit: usize,
    /// The chunks found so far.
    pub chunks: Vec<Chunk>,
    /// The scripts that remain, the next one last.
    pub call_stack: Vec<StructuredScript>,
}

/// The heights of the two stacks before the next chunk: those after the
/// last chunk, or none.
pub open spec fn input_heights(chunks: Seq<Chunk>) -> (usize, usize) {
    if chunks.len() == 0 {
        (0usize, 0usize)
    } else {
        (chunks.last().stats.stack_output_size, chunks.last().stats.altstack_output_size)
    }
}

/// The state in which an analysis is taken up again after a checkpoint: the
/// heights reached, nothing accessed below them, and the constant known.
pub open spec fn resumed(status: StackStatus, known: Option<i64>) -> AnalyzerState {
    AnalyzerState::starting(
        StackStatus {
            deepest_stack_accessed: 0,
            stack_changed: status.stack_changed,
            deepest_altstack_accessed: 0,
            altstack_changed: status.altstack_changed,
        },
        known,
    )
}

/// Whether the analysis of `scripts`, taken up at a checkpoint with the
/// status `from` and the constant `known`, ends outside all conditionals
/// with the heights of `status` and the constant `constant`.
pub open spec fn analysis_ends(
    from: StackStatus,
    known: Option<i64>,
    scripts: Seq<StructuredScript>,
    status: StackStatus,
    constant: Option<i64>,
) -> bool {
    match resumed(from, known).run_scripts(script_views(scripts)) {
        Ok(end) => {
            &&& end.branches.len() == 0
            &&& end.status.stack_changed == status.stack_changed
            &&& end.status.altstack_changed == status.altstack_changed
            &&& end.last_constant == constant
        },
        Err(_) => false,
    }
}

/// Whether the analysis of `scripts` from `begin`, with one checkpoint after
/// the first `k` of them, ends with the heights of `status` and the constant
/// `constant`. At the checkpoint the analysis is outside all conditionals,
/// and it goes on from the heights reached with nothing accessed below
/// them.
pub open spec fn analysis_in_two(
    begin: AnalyzerState,
    scripts: Seq<StructuredScript>,
    k: int,
    status: StackStatus,
    constant: Option<i64>,
) -> bool {
    &&& 0 <= k <= scripts.len()
    &&& match begin.run_scripts(script_views(scripts.take(k))) {
        Ok(mid) => mid.branches.len() == 0 && analysis_ends(
            mid.status,
            mid.last_constant,
            scripts.skip(k),
            status,
            constant,
        ),
        Err(_) => false,
    }
}

/// The state in which the analysis of a chunk begins: the heights that the
/// chunks before it leave, nothing accessed, and the constant known.
pub open spec fn chunk_start(chunks: Seq<Chunk>, known: Option<i64>) -> AnalyzerState {
    AnalyzerState::starting(
        StackStatus {
            deepest_stack_accessed: 0,
            stack_changed: input_heights(chunks).0 as i32,
            deepest_altstack_accessed: 0,
            altstack_changed: input_heights(chunks).1 as i32,
        },
        known,
    )
}

/// Whether the one script that remains makes the next chunk as it is: it
/// fits the target size, it leaves no conditional open, its analysis from
/// the start of the chunk succeeds, and it leaves on each stack no less
/// than nothing and on both together no more than the limit.
pub open spec fn fits_whole(
    target: usize,
    stack_limit: usize,
    chunks: Seq<Chunk>,
    stack: Seq<StructuredScript>,
    known: Option<i64>,
) -> bool {
    &&& stack.len() == 1
    &&& input_heights(chunks).0 <= i32::MAX
    &&& input_heights(chunks).1 <= i32::MAX
    &&& stack[0]@.body.size <= target
    &&& stack[0]@.body.num_unclosed_ifs() == 0
    &&& match chunk_start(chunks, known).run_script(stack[0]@) {
        Ok(state) => {
            &&& state.branches.len() == 0
            &&& state.status.stack_changed >= 0
            &&& state.status.altstack_changed >= 0
            &&& total_of(state.status) <= stack_limit
        },
        Err(_) => false,
    }
}

/// The error with which the filling of a chunk ends at the first script it
/// takes, `top`, where it ends there: the heights that the chunks before
/// leave do not fit a status; the script closes more conditionals than it
/// opens; or the script fits the target size, and its analysis from the
/// start of the chunk fails, or it leaves no conditional open and its
/// analysis ends inside a conditional or with less than nothing on the two
/// stacks together. `None` where the filling goes on after the first script.
pub open spec fn first_step(
    target: usize,
    chunks: Seq<Chunk>,
    top: ScriptView,
    known: Option<i64>,
) -> Option<ChunkError> {
    if input_heights(chunks).0 > i32::MAX || input_heights(chunks).1 > i32::MAX {
        Some(ChunkError::Overflow)
    } else if top.body.num_unclosed_ifs() < 0 {
        Some(ChunkError::MoreEndifsThanIfs)
    } else if top.body.size > target {
        None
    } else {
        match chunk_start(chunks, known).run_script(top) {
            Err(cause) => Some(ChunkError::Analysis(cause)),
            Ok(state) => if top.body.num_unclosed_ifs() != 0 {
                None
            } else {
                match state.outcome() {
                    Err(cause) => Some(ChunkError::Analysis(cause)),
                    Ok(status) => if total_of(status) < 0 {
                        Some(ChunkError::NegativeStack)
                    } else {
                        None
                    },
                }
            },
        }
    }
}

impl Chunker {
    /// A chunker for `top_level_script`, with the number of bytes that a
    /// chunk may have and the height that the two stacks together may have
    /// after a chunk.
    pub fn new(top_level_script: StructuredScript, target_chunk_size: usize, stack_limit: usize) -> (out:
        Chunker)
        ensures
            out.target_chunk_size == target_chunk_size,
            out.stack_limit == stack_limit,
            out.chunks@.len() == 0,
            out.call_stack@ == seq![top_level_script],
            pending_bytes(out.call_stack@) == top_level_script@.compiled(),
            top_level_script.wf() ==> all_wf(out.call_stack@),
    {
        let mut call_stack: Vec<StructuredScript> = Vec::new();
        call_stack.push(top_level_script);
        proof {
            assert(call_stack@ =~= seq![top_level_script]);
            assert(call_stack@.drop_last() =~= Seq::<StructuredScript>::empty());
            assert(pending_bytes(call_stack@.drop_last()) =~= Seq::<u8>::empty());
            assert(pending_bytes(call_stack@) =~= top_level_script@.compiled());
        }
        Chunker { target_chunk_size, stack_limit, chunks: Vec::new(), call_stack }
    }

    /// Takes scripts from the end of what was taken into a chunk, cutting
    /// them up where that helps, until what is left is valid, and puts what
    /// was taken out back on top of the scripts that remain. Where a script is
    /// cut up, the count of open conditionals goes by the records of its
    /// pieces from then on. Returns the
    /// scripts that are left for the chunk, the number of bytes taken out,
    /// and the status and the constant after the chunk.
    pub fn undo(&mut self, undo_info: UndoInfo) -> (out: Result<
        (Vec<StructuredScript>, usize, StackStatus, Option<i64>),
        ChunkError,
    >)
        requires
            all_wf(old(self).call_stack@),
            all_wf(undo_info.call_stack@),
            bytes_of(undo_info.call_stack@).len() <= usize::MAX,
        ensures
            final(self).target_chunk_size == old(self).target_chunk_size,
            final(self).stack_limit == old(self).stack_limit,
            final(self).chunks == old(self).chunks,
            undo_info.validity(old(self).stack_limit) == Ok::<bool, ChunkError>(true)
                && undo_info.call_stack@.len() == 0 ==> out is Ok && out.unwrap().0@.len() == 0
                && out.unwrap().1 == 0 && out.unwrap().2 == undo_info.valid_stack_status
                && out.unwrap().3 == undo_info.last_constant && final(self).call_stack
                == old(self).call_stack,
            match out {
                Ok((scripts, removed_len, status, last_constant)) => {
                    &&& all_wf(scripts@)
                    &&& all_wf(final(self).call_stack@)
                    &&& bytes_of(scripts@) + pending_bytes(final(self).call_stack@) == bytes_of(
                        undo_info.call_stack@,
                    ) + pending_bytes(old(self).call_stack@)
                    &&& removed_len + bytes_of(scripts@).len() == bytes_of(
                        undo_info.call_stack@,
                    ).len()
                    &&& (within_limit(status, old(self).stack_limit) || (scripts@.len() == 0
                        && status == undo_info.valid_stack_status))
                    &&& analysis_ends(
                        undo_info.valid_stack_status,
                        undo_info.last_constant,
                        scripts@,
                        status,
                        last_constant,
                    )
                    &&& undo_info.num_unclosed_ifs == balance_of(undo_info.call_stack@)
                        ==> balance_of(scripts@) == 0
                    &&& old(self).call_stack@.len() <= final(self).call_stack@.len()
                    &&& final(self).call_stack@.take(old(self).call_stack@.len() as int) == old(
                        self,
                    ).call_stack@
                },
                Err(e) => true,
            },
            match undo_outcome(old(self).stack_limit, undo_info) {
                Ok(found) => {
                    &&& out is Ok
                    &&& script_views(out.unwrap().0@) == found.kept
                    &&& out.unwrap().2 == found.status
                    &&& out.unwrap().3 == found.constant
                    &&& script_views(final(self).call_stack@) == script_views(
                        old(self).call_stack@,
                    ) + found.removed
                },
                Err(e) => out == Err::<
                    (Vec<StructuredScript>, usize, StackStatus, Option<i64>),
                    ChunkError,
                >(e),
            },
    {
        let mut info: UndoInfo = undo_info;
        let ghost taken = undo_info.call_stack@;
        let ghost target = undo_outcome(self.stack_limit, undo_info);
        match info.is_done(self.stack_limit) {
            Err(e) => {
                return Err(e);
            },
            Ok(true) => {
                let scripts: Vec<StructuredScript> = Vec::new();
                proof {
                    assert(bytes_of(taken) =~= Seq::<u8>::empty());
                    assert(bytes_of(scripts@) =~= Seq::<u8>::empty());
                    assert(script_views(scripts@) =~= Seq::<ScriptView>::empty());
                }
                proof {
                    assert(self.call_stack@.take(self.call_stack@.len() as int)
                        =~= self.call_stack@);
                    assert(script_views(self.call_stack@) + Seq::<ScriptView>::empty()
                        =~= script_views(self.call_stack@));
                }
                return Ok((scripts, 0, info.valid_stack_status, info.last_constant));
            },
            Ok(false) => {},
        }
        let mut removed: Vec<StructuredScript> = Vec::new();
        let mut removed_len: usize = 0;
        let ghost mut steps: nat = undo_total(taken);
        proof {
            lemma_total_views(taken);
            assert(pending_bytes(removed@) =~= Seq::<u8>::empty());
            assert(bytes_of(info.call_stack@) + pending_bytes(removed@) =~= bytes_of(taken));
            assert(script_views(removed@) =~= Seq::<ScriptView>::empty());
        }
        loop
            invariant
                target == undo_outcome(old(self).stack_limit, undo_info),
                steps >= undo_total(info.call_stack@),
                target == undo_steps(
                    steps,
                    self.stack_limit,
                    undo_info.valid_stack_status,
                    undo_info.last_constant,
                    script_views(info.call_stack@),
                    script_views(removed@),
                    info.num_unclosed_ifs as int,
                ),
                self.target_chunk_size == old(self).target_chunk_size,
                self.stack_limit == old(self).stack_limit,
                self.chunks == old(self).chunks,
                self.call_stack == old(self).call_stack,
                all_wf(self.call_stack@),
                all_wf(info.call_stack@),
                all_wf(removed@),
                taken == undo_info.call_stack@,
                info.valid_stack_status == undo_info.valid_stack_status,
                info.last_constant == undo_info.last_constant,
                undo_info.num_unclosed_ifs == balance_of(undo_info.call_stack@)
                    ==> info.num_unclosed_ifs == balance_of(info.call_stack@),
                !(undo_info.validity(old(self).stack_limit) == Ok::<bool, ChunkError>(true)
                    && undo_info.call_stack@.len() == 0),
                bytes_of(taken).len() <= usize::MAX,
                bytes_of(info.call_stack@) + pending_bytes(removed@) == bytes_of(taken),
                removed_len == pending_bytes(removed@).len(),
            decreases undo_total(info.call_stack@),
        {
            let ghost had = info.call_stack@;
            let ghost gone = removed@;
            let builder: StructuredScript = match info.call_stack.pop() {
                Some(builder) => builder,
                None => {
                    return Err(ChunkError::UndoFailed);
                },
            };
            proof {
                assert(info.call_stack@ =~= had.drop_last());
                assert(builder == had.last());
                assert(had[had.len() - 1].wf());
                assert forall|k: int| 0 <= k < info.call_stack@.len() implies (
                #[trigger] info.call_stack@[k]).wf() by {
                    assert(had[k].wf());
                }
                lemma_script_len(builder);
                assert(script_views(had).drop_last() =~= script_views(info.call_stack@));
                assert(script_views(had).last() == builder@);
                assert(undo_total(had) >= 1);
            }
            let ghost count = info.num_unclosed_ifs as int;
            let ghost steps_before = steps;
            let ghost from = undo_info.valid_stack_status;
            let ghost known = undo_info.last_constant;
            assert(target == undo_steps(
                steps_before,
                self.stack_limit,
                from,
                known,
                script_views(had),
                script_views(gone),
                count,
            ));
            if builder.has_stack_hint() || (!builder.contains_flow_op() && info.num_unclosed_ifs
                != 0) || builder.is_single_instruction() {
                assert(taken_out_whole(builder@, count));
                proof {
                    lemma_undo_takes_out(
                        steps_before,
                        self.stack_limit,
                        from,
                        known,
                        script_views(had),
                        script_views(gone),
                        count,
                    );
                }
                match info.remove(&builder) {
                    Ok(()) => {},
                    Err(e) => {
                        return Err(e);
                    },
                }
                assert(resumed(from, known).run_scripts(script_views(had).drop_last()) == Ok::<
                    AnalyzerState,
                    AnalysisError,
                >(info.analyzer@));
                assert(info.validity(self.stack_limit) == validity_of(
                    count - builder@.body.num_unclosed_ifs(),
                    info.analyzer@,
                    self.stack_limit,
                ));
                assert(bytes_of(had) == bytes_of(had.drop_last()) + builder@.compiled());
                assert(bytes_of(taken).len() == bytes_of(had.drop_last()).len()
                    + builder@.compiled().len() + pending_bytes(gone).len());
                removed_len = removed_len + builder.len();
                removed.push(builder);
                let ghost out_now = removed@;
                proof {
                    assert(script_views(removed@) =~= script_views(gone).push(builder@));
                    steps = (steps - 1) as nat;
                    assert(removed@.drop_last() =~= gone);
                    assert(pending_bytes(removed@) == builder@.compiled() + pending_bytes(gone));
                    assert(removed_len == pending_bytes(removed@).len());
                    assert(bytes_of(info.call_stack@) + pending_bytes(removed@) =~= bytes_of(had)
                        + pending_bytes(gone));
                    assert forall|k: int| 0 <= k < removed@.len() implies (
                    #[trigger] removed@[k]).wf() by {
                        if k < gone.len() {
                            assert(gone[k].wf());
                        }
                    }
                }
                match info.valid(self.stack_limit) {
                    Err(e) => {
                        return Err(e);
                    },
                    Ok(true) => {
                        let ghost below = self.call_stack@;
                        proof {
                            lemma_stack_append(below, removed@);
                            lemma_append(below, removed@);
                        }
                        self.call_stack.append(&mut removed);
                        let scripts: Vec<StructuredScript> = match info.reset() {
                            Ok(scripts) => scripts,
                            Err(e) => {
                                return Err(e);
                            },
                        };
                        proof {
                            lemma_views_append(below, out_now);
                            assert(self.call_stack@.take(below.len() as int) =~= below);
                            assert(pending_bytes(self.call_stack@) == pending_bytes(out_now)
                                + pending_bytes(below));
                            assert(bytes_of(scripts@) + pending_bytes(out_now) == bytes_of(taken));
                            assert(bytes_of(scripts@) + pending_bytes(self.call_stack@)
                                =~= bytes_of(taken) + pending_bytes(below));
                            assert(removed_len + bytes_of(scripts@).len() == bytes_of(
                                taken,
                            ).len());
                            assert(all_wf(scripts@));
                            assert(all_wf(self.call_stack@));
                            assert(within_limit(info.valid_stack_status, self.stack_limit));
                        }
                        return Ok(
                            (scripts, removed_len, info.valid_stack_status, info.last_constant),
                        );
                    },
                    Ok(false) => {},
                }
            } else {
                proof {
                    assert(!taken_out_whole(builder@, count));
                    lemma_undo_cuts_up(
                        steps_before,
                        self.stack_limit,
                        from,
                        known,
                        script_views(had),
                        script_views(gone),
                        count,
                    );
                }
                let mut pieces: Vec<StructuredScript> = match split_instructions_of(&builder) {
                    Ok(pieces) => pieces,
                    Err(e) => {
                        return Err(e);
                    },
                };
                proof {
                    lemma_balance_views(pieces@);
                }
                let cut: i128 = match balance_sum(&pieces) {
                    Some(cut) => cut,
                    None => {
                        return Err(ChunkError::Overflow);
                    },
                };
                let whole: i128 = builder.flow_balance();
                if !in_count_range(cut) || !in_count_range(info.num_unclosed_ifs) {
                    return Err(ChunkError::Overflow);
                }
                info.num_unclosed_ifs = info.num_unclosed_ifs + (cut - whole);
                proof {
                    lemma_append(info.call_stack@, pieces@);
                    lemma_views_append(info.call_stack@, pieces@);
                    assert(bytes_of(info.call_stack@ + pieces@) =~= bytes_of(had));
                    steps = (steps - 1) as nat;
                }
                info.call_stack.append(&mut pieces);
            }
        }
    }

    /// Fills the next chunk: takes scripts in order while they fit, cuts a
    /// script that does not fit into the scripts of its blocks, commits
    /// what was taken whenever it is valid, and at the end takes out again
    /// what was taken after the last valid point. An error that shows at the
    /// first script taken is returned as `first_step` names it.
    #[verifier::rlimit(80)]
    pub fn find_next_chunk(&mut self, last_constant: Option<i64>) -> (out: Result<
        Chunk,
        ChunkError,
    >)
        requires
            all_wf(old(self).call_stack@),
        ensures
            final(self).target_chunk_size == old(self).target_chunk_size,
            final(self).stack_limit == old(self).stack_limit,
            final(self).chunks == old(self).chunks,
            fits_whole(
                old(self).target_chunk_size,
                old(self).stack_limit,
                old(self).chunks@,
                old(self).call_stack@,
                last_constant,
            ) ==> out is Ok && out.unwrap().size == old(self).call_stack@[0]@.body.size
                && final(self).call_stack@.len() == 0,
            old(self).call_stack@.len() > 0 ==> match first_step(
                old(self).target_chunk_size,
                old(self).chunks@,
                old(self).call_stack@.last()@,
                last_constant,
            ) {
                Some(e) => out == Err::<Chunk, ChunkError>(e),
                None => true,
            },
            match next_chunk(
                old(self).target_chunk_size,
                old(self).stack_limit,
                input_heights(old(self).chunks@),
                script_views(old(self).call_stack@),
                last_constant,
            ) {
                Ok(found) => {
                    &&& out is Ok
                    &&& script_views(out.unwrap().scripts@) == found.scripts
                    &&& script_views(final(self).call_stack@) == found.pending
                    &&& out.unwrap().stats == found.stats
                    &&& out.unwrap().last_constant == found.constant
                },
                Err(e) => out == Err::<Chunk, ChunkError>(e),
            },
            match out {
                Ok(chunk) => {
                    &&& all_wf(final(self).call_stack@)
                    &&& all_wf(chunk.scripts@)
                    &&& bytes_of(chunk.scripts@) + pending_bytes(final(self).call_stack@)
                        == pending_bytes(old(self).call_stack@)
                    &&& chunk.size == bytes_of(chunk.scripts@).len()
                    &&& chunk.size <= old(self).target_chunk_size
                    &&& balance_of(chunk.scripts@) == 0
                    &&& chunk.size > 0 ==> chunk.stats.stack_output_size
                        + chunk.stats.altstack_output_size <= old(self).stack_limit
                    &&& chunk.stats.stack_input_size == input_heights(old(self).chunks@).0
                    &&& chunk.stats.altstack_input_size == input_heights(old(self).chunks@).1
                    &&& analysed(old(self).chunks@, last_constant, chunk)
                },
                Err(e) => true,
            },
    {
        let ghost whole = pending_bytes(self.call_stack@);
        let mut chunk_scripts: Vec<StructuredScript> = Vec::new();
        let mut chunk_len: usize = 0;
        let (input_stack_size, input_altstack_size): (usize, usize) = if self.chunks.len() == 0 {
            (0, 0)
        } else {
            let last: &Chunk = &self.chunks[self.chunks.len() - 1];
            (last.stats.stack_output_size, last.stats.altstack_output_size)
        };
        if input_stack_size > 0x7fff_ffff || input_altstack_size > 0x7fff_ffff {
            return Err(ChunkError::Overflow);
        }
        let mut undo_info: UndoInfo = UndoInfo::new(
            input_stack_size,
            input_altstack_size,
            last_constant,
        );
        let max_depth: usize = 8;
        let mut depth: usize = 0;
        let mut stop: bool = false;
        let ghost whole_case = fits_whole(
            self.target_chunk_size,
            self.stack_limit,
            self.chunks@,
            self.call_stack@,
            last_constant,
        );
        let ghost begin = chunk_start(self.chunks@, last_constant);
        let ghost first = if self.call_stack@.len() > 0 {
            self.call_stack@[0]
        } else {
            arbitrary()
        };
        let ghost mut mid: AnalyzerState = begin;
        let ghost mut untouched: bool = true;
        let ghost mut steps: nat = fit_total(self.call_stack@);
        let ghost goal = fill_steps(
            fit_total_of(script_views(self.call_stack@)),
            self.target_chunk_size,
            self.stack_limit,
            fill_start(
                input_heights(self.chunks@),
                script_views(self.call_stack@),
                last_constant,
            ),
        );
        proof {
            lemma_total_views(self.call_stack@);
            assert(script_views(undo_info.call_stack@) =~= Seq::<ScriptView>::empty());
            assert(script_views(chunk_scripts@) =~= Seq::<ScriptView>::empty());
            assert(fill_state_of(self.call_stack@, chunk_scripts@, undo_info, chunk_len, depth)
                == fill_start(
                input_heights(self.chunks@),
                script_views(self.call_stack@),
                last_constant,
            ));
        }
        let ghost ends_at_first = if self.call_stack@.len() > 0 {
            first_step(
                self.target_chunk_size,
                self.chunks@,
                self.call_stack@.last()@,
                last_constant,
            )
        } else {
            None
        };
        proof {
            assert(script_views(chunk_scripts@) =~= Seq::<ScriptView>::empty());
            assert(script_views(chunk_scripts@ + undo_info.call_stack@) =~= Seq::<
                ScriptView,
            >::empty());
            assert(bytes_of(chunk_scripts@) =~= Seq::<u8>::empty());
            assert(bytes_of(undo_info.call_stack@) =~= Seq::<u8>::empty());
            assert(bytes_of(chunk_scripts@) + bytes_of(undo_info.call_stack@) + pending_bytes(
                self.call_stack@,
            ) =~= whole);
        }
        while !stop
            invariant
                self.target_chunk_size == old(self).target_chunk_size,
                self.stack_limit == old(self).stack_limit,
                self.chunks == old(self).chunks,
                all_wf(self.call_stack@),
                all_wf(chunk_scripts@),
                all_wf(undo_info.call_stack@),
                bytes_of(chunk_scripts@) + bytes_of(undo_info.call_stack@) + pending_bytes(
                    self.call_stack@,
                ) == whole,
                chunk_len == bytes_of(chunk_scripts@).len() + bytes_of(
                    undo_info.call_stack@,
                ).len(),
                chunk_len <= self.target_chunk_size,
                chunk_scripts@.len() > 0 ==> within_limit(
                    undo_info.valid_stack_status,
                    self.stack_limit,
                ),
                depth <= 9,
                max_depth == 8,
                !stop ==> steps >= fit_total(self.call_stack@),
                undo_info.size <= chunk_len,
                goal == fill_steps(
                    fit_total_of(script_views(old(self).call_stack@)),
                    old(self).target_chunk_size,
                    old(self).stack_limit,
                    fill_start(
                        input_heights(old(self).chunks@),
                        script_views(old(self).call_stack@),
                        last_constant,
                    ),
                ),
                goal == if stop {
                    Ok::<FillState, ChunkError>(
                        fill_state_of(
                            self.call_stack@,
                            chunk_scripts@,
                            undo_info,
                            chunk_len,
                            depth,
                        ),
                    )
                } else {
                    fill_steps(
                        steps,
                        self.target_chunk_size,
                        self.stack_limit,
                        fill_state_of(
                            self.call_stack@,
                            chunk_scripts@,
                            undo_info,
                            chunk_len,
                            depth,
                        ),
                    )
                },
                balance_of(chunk_scripts@) == 0,
                undo_info.num_unclosed_ifs == balance_of(undo_info.call_stack@),
                input_heights(old(self).chunks@).0 <= i32::MAX,
                input_heights(old(self).chunks@).1 <= i32::MAX,
                ends_at_first == (if old(self).call_stack@.len() > 0 {
                    first_step(
                        old(self).target_chunk_size,
                        old(self).chunks@,
                        old(self).call_stack@.last()@,
                        last_constant,
                    )
                } else {
                    None
                }),
                untouched ==> {
                    &&& !stop
                    &&& self.call_stack@ == old(self).call_stack@
                    &&& chunk_len == 0
                    &&& undo_info.call_stack@.len() == 0
                    &&& undo_info.num_unclosed_ifs == 0
                    &&& undo_info.size == 0
                    &&& undo_info.analyzer@ == begin
                },
                !untouched ==> ends_at_first is None,
                begin == chunk_start(old(self).chunks@, last_constant),
                begin.run_scripts(script_views(chunk_scripts@)) == Ok::<
                    AnalyzerState,
                    AnalysisError,
                >(mid),
                mid.branches.len() == 0,
                mid.status.stack_changed == undo_info.valid_stack_status.stack_changed,
                mid.status.altstack_changed == undo_info.valid_stack_status.altstack_changed,
                mid.last_constant == undo_info.last_constant,
                begin.run_scripts(script_views(chunk_scripts@ + undo_info.call_stack@)) == Ok::<
                    AnalyzerState,
                    AnalysisError,
                >(undo_info.analyzer@),
                whole_case == fits_whole(
                    old(self).target_chunk_size,
                    old(self).stack_limit,
                    old(self).chunks@,
                    old(self).call_stack@,
                    last_constant,
                ),
                whole_case ==> first == old(self).call_stack@[0],
                whole_case ==> begin.run_script(first@) is Ok,
                whole_case ==> first@.body.size <= self.target_chunk_size
                    && first@.body.num_unclosed_ifs() == 0 && within_limit(
                    begin.run_script(first@).unwrap().status,
                    self.stack_limit,
                ) && begin.run_script(first@).unwrap().branches.len() == 0,
                whole_case ==> {
                    ||| {
                        &&& !stop
                        &&& self.call_stack@ == seq![first]
                        &&& chunk_scripts@.len() == 0
                        &&& chunk_len == 0
                        &&& undo_info.call_stack@.len() == 0
                        &&& undo_info.num_unclosed_ifs == 0
                        &&& undo_info.size == 0
                        &&& undo_info.analyzer@ == begin
                    }
                    ||| {
                        &&& self.call_stack@.len() == 0
                        &&& chunk_scripts@ == seq![first]
                        &&& chunk_len == first@.body.size
                        &&& undo_info.call_stack@.len() == 0
                        &&& undo_info.num_unclosed_ifs == 0
                        &&& undo_info.analyzer@ == begin.run_script(first@).unwrap()
                        &&& undo_info.valid_stack_status == begin.run_script(
                            first@,
                        ).unwrap().status
                    }
                },
            decreases
                    if stop {
                        0
                    } else {
                        fit_total(self.call_stack@) + 1
                    },
        {
            let ghost stack = self.call_stack@;
            let ghost kept = chunk_scripts@;
            let ghost taken = undo_info.call_stack@;
            let ghost here = fill_state_of(
                self.call_stack@,
                chunk_scripts@,
                undo_info,
                chunk_len,
                depth,
            );
            let ghost steps_before = steps;
            match self.call_stack.pop() {
                None => {
                    stop = true;
                },
                Some(builder) => {
                    proof {
                        assert(fit_total(stack) >= 1);
                        lemma_fill_step(
                            steps_before,
                            self.target_chunk_size,
                            self.stack_limit,
                            here,
                        );
                        assert(here.pending.last() == builder@);
                        assert(here.pending.drop_last() =~= script_views(stack.drop_last()));
                        steps = (steps - 1) as nat;
                        assert(self.call_stack@ =~= stack.drop_last());
                        assert(builder == stack.last());
                        assert(stack[stack.len() - 1].wf());
                        assert forall|k: int| 0 <= k < self.call_stack@.len() implies (
                        #[trigger] self.call_stack@[k]).wf() by {
                            assert(stack[k].wf());
                        }
                        lemma_script_len(builder);
                    }
                    let balance: i128 = builder.flow_balance();
                    if undo_info.num_unclosed_ifs > 0x7fff_ffff_ffff_ffff_ffff_ffffi128
                        || undo_info.num_unclosed_ifs < -0x7fff_ffff_ffff_ffff_ffff_ffffi128 {
                        return Err(ChunkError::Overflow);
                    }
                    if undo_info.num_unclosed_ifs + balance < 0 {
                        return Err(ChunkError::MoreEndifsThanIfs);
                    }
                    let block_len: usize = builder.len();
                    if block_len <= self.target_chunk_size - chunk_len {
                        chunk_len = chunk_len + block_len;
                        match undo_info.update(builder) {
                            Ok(()) => {},
                            Err(e) => {
                                return Err(e);
                            },
                        }
                        proof {
                            assert(script_views(undo_info.call_stack@) =~= here.taken.push(
                                builder@,
                            ));
                            assert(undo_info.call_stack@.drop_last() =~= taken);
                            assert(script_views(kept + undo_info.call_stack@).drop_last()
                                =~= script_views(kept + taken));
                            assert(script_views(kept + undo_info.call_stack@).last()
                                == builder@);
                            assert(bytes_of(kept) + bytes_of(undo_info.call_stack@)
                                + pending_bytes(self.call_stack@) =~= whole);
                            assert forall|k: int| 0 <= k < undo_info.call_stack@.len() implies (
                            #[trigger] undo_info.call_stack@[k]).wf() by {
                                if k < taken.len() {
                                    assert(taken[k].wf());
                                }
                            }
                        }
                        match undo_info.valid(self.stack_limit) {
                            Err(e) => {
                                return Err(e);
                            },
                            Ok(true) => {
                                let ghost fresh = undo_info.call_stack@;
                                let mut scripts: Vec<StructuredScript> = match undo_info.reset() {
                                    Ok(scripts) => scripts,
                                    Err(e) => {
                                        return Err(e);
                                    },
                                };
                                proof {
                                    lemma_append(kept, scripts@);
                                    lemma_views_append(kept, scripts@);
                                    assert(script_views(undo_info.call_stack@) =~= Seq::<
                                        ScriptView,
                                    >::empty());
                                    mid = undo_info.analyzer@;
                                    assert(kept + scripts@ + undo_info.call_stack@ =~= kept
                                        + fresh);
                                    if whole_case {
                                        assert(kept + scripts@ =~= seq![first]);
                                    }
                                    assert(bytes_of(undo_info.call_stack@) =~= Seq::<u8>::empty());
                                    assert(bytes_of(kept + scripts@) + bytes_of(
                                        undo_info.call_stack@,
                                    ) + pending_bytes(self.call_stack@) =~= whole);
                                }
                                chunk_scripts.append(&mut scripts);
                            },
                            Ok(false) => {},
                        }
                        depth = 0;
                    } else if chunk_len < self.target_chunk_size && depth <= max_depth {
                        if builder.is_script_buf() || builder.has_stack_hint() {
                            self.call_stack.push(builder);
                            assert(self.call_stack@ =~= stack);
                            stop = true;
                        } else {
                            let pieces: Vec<StructuredScript> = match split_blocks(&builder) {
                                Ok(pieces) => pieces,
                                Err(e) => {
                                    return Err(e);
                                },
                            };
                            let ghost below = self.call_stack@;
                            push_reversed(&mut self.call_stack, pieces);
                            proof {
                                assert(one_literal(builder@) == (builder@.body.blocks.len() == 1
                                    && builder@.body.blocks[0] is Script));
                                assert(bytes_of(kept) + bytes_of(taken) + pending_bytes(
                                    self.call_stack@,
                                ) =~= whole);
                            }
                            depth = depth + 1;
                        }
                    } else {
                        self.call_stack.push(builder);
                        assert(self.call_stack@ =~= stack);
                        stop = true;
                    }
                },
            }
            proof {
                untouched = false;
            }
        }
        let ghost kept = chunk_scripts@;
        let ghost taken = undo_info.call_stack@;
        let ghost stack = self.call_stack@;
        let ghost valid_status = undo_info.valid_stack_status;
        let ghost valid_constant = undo_info.last_constant;
        let (mut scripts, removed_len, status, known): (
            Vec<StructuredScript>,
            usize,
            StackStatus,
            Option<i64>,
        ) = match self.undo(undo_info) {
            Ok(found) => found,
            Err(e) => {
                return Err(e);
            },
        };
        proof {
            lemma_append(kept, scripts@);
            assert((kept + scripts@).take(kept.len() as int) =~= kept);
            assert((kept + scripts@).skip(kept.len() as int) =~= scripts@);
            assert(resumed(mid.status, mid.last_constant) == resumed(
                valid_status,
                valid_constant,
            ));
            assert(bytes_of(scripts@) + pending_bytes(self.call_stack@) == bytes_of(taken)
                + pending_bytes(stack));
            assert(bytes_of(kept) + bytes_of(taken) + pending_bytes(stack) == whole);
            assert(bytes_of(kept) + bytes_of(scripts@) + pending_bytes(self.call_stack@)
                =~= bytes_of(kept) + (bytes_of(scripts@) + pending_bytes(self.call_stack@)));
            assert(bytes_of(kept) + bytes_of(taken) + pending_bytes(stack) =~= bytes_of(kept) + (
            bytes_of(taken) + pending_bytes(stack)));
            assert(bytes_of(kept + scripts@) + pending_bytes(self.call_stack@) == whole);
        }
        chunk_scripts.append(&mut scripts);
        chunk_len = chunk_len - removed_len;
        if status.stack_changed < 0 || status.altstack_changed < 0 {
            return Err(ChunkError::NegativeStack);
        }
        let chunk_stats: ChunkStats = ChunkStats {
            stack_input_size: input_stack_size,
            stack_output_size: status.stack_changed as usize,
            altstack_input_size: input_altstack_size,
            altstack_output_size: status.altstack_changed as usize,
        };
        proof {
            if chunk_len > 0 {
                assert(chunk_scripts@.len() > 0) by {
                    if chunk_scripts@.len() == 0 {
                        assert(bytes_of(chunk_scripts@) =~= Seq::<u8>::empty());
                    }
                }
            }
        }
        proof {
            assert(analysis_in_two(
                begin,
                chunk_scripts@,
                kept.len() as int,
                StackStatus {
                    deepest_stack_accessed: 0,
                    stack_changed: chunk_stats.stack_output_size as i32,
                    deepest_altstack_accessed: 0,
                    altstack_changed: chunk_stats.altstack_output_size as i32,
                },
                known,
            ));
        }
        Ok(Chunk::new(chunk_scripts, chunk_len, chunk_stats, known))
    }

    /// Cuts all that remains into chunks and returns their sizes in order.
    ///
    /// The chunks are added to `chunks`. Together they compile to the bytes
    /// that the remaining scripts compiled to, in order; each is sound for
    /// the target size and the stack limit, and each begins with the
    /// heights on the stacks that the one before it leaves. Where the
    /// cutting fails, `chunks` holds the sound chunks found until then.
    ///
    /// Nothing that remains gives no chunks. Scripts that remain but compile
    /// to no bytes cannot be cut. An error that shows at the first script
    /// taken is returned as `first_step` names it.
    pub fn find_chunks(&mut self) -> (out: Result<Vec<usize>, ChunkError>)
        requires
            all_wf(old(self).call_stack@),
        ensures
            final(self).target_chunk_size == old(self).target_chunk_size,
            final(self).stack_limit == old(self).stack_limit,
            old(self).call_stack@.len() == 0 ==> out is Ok,
            fits_whole(
                old(self).target_chunk_size,
                old(self).stack_limit,
                old(self).chunks@,
                old(self).call_stack@,
                None,
            ) && old(self).call_stack@[0]@.body.size > 0 ==> out is Ok && out.unwrap()@ == seq![
                old(self).call_stack@[0]@.body.size as usize,
            ],
            old(self).call_stack@.len() > 0 ==> match first_step(
                old(self).target_chunk_size,
                old(self).chunks@,
                old(self).call_stack@.last()@,
                None,
            ) {
                Some(e) => out == Err::<Vec<usize>, ChunkError>(e),
                None => true,
            },
            old(self).call_stack@.len() > 0 && pending_bytes(old(self).call_stack@).len() == 0
                ==> out is Err,
            old(self).call_stack@.len() > 0 && out is Ok ==> out.unwrap()@.len() > 0,
            match cut_steps(
                pending_bytes(old(self).call_stack@).len() + 1,
                old(self).target_chunk_size,
                old(self).stack_limit,
                input_heights(old(self).chunks@),
                script_views(old(self).call_stack@),
                None,
            ) {
                Ok(found) => {
                    &&& out is Ok
                    &&& out.unwrap()@.len() == found.len()
                    &&& forall|i: int|
                        0 <= i < found.len() ==> chunk_is(
                            final(self).chunks@[old(self).chunks@.len() + i],
                            #[trigger] found[i],
                        )
                },
                Err(e) => out == Err::<Vec<usize>, ChunkError>(e),
            },
            match out {
                Ok(sizes) => {
                    &&& final(self).call_stack@.len() == 0
                    &&& final(self).chunks@.len() == old(self).chunks@.len() + sizes@.len()
                    &&& final(self).chunks@.take(old(self).chunks@.len() as int) == old(self).chunks@
                    &&& chunks_bytes(final(self).chunks@) == chunks_bytes(old(self).chunks@)
                        + pending_bytes(old(self).call_stack@)
                    &&& forall|i: int|
                        0 <= i < sizes@.len() ==> {
                            let chunk = #[trigger] final(self).chunks@[old(self).chunks@.len()
                                + i];
                            &&& chunk.sound(old(self).target_chunk_size, old(self).stack_limit)
                            &&& sizes@[i] == chunk.size
                            &&& (chunk.stats.stack_input_size, chunk.stats.altstack_input_size)
                                == input_heights(
                                final(self).chunks@.take(old(self).chunks@.len() + i),
                            )
                            &&& analysed(
                                final(self).chunks@.take(old(self).chunks@.len() + i),
                                constant_before(
                                    final(self).chunks@,
                                    old(self).chunks@.len() as int,
                                    old(self).chunks@.len() + i,
                                ),
                                chunk,
                            )
                        }
                },
                Err(e) => {
                    &&& old(self).chunks@.len() <= final(self).chunks@.len()
                    &&& final(self).chunks@.take(old(self).chunks@.len() as int) == old(self).chunks@
                    &&& forall|i: int|
                        old(self).chunks@.len() <= i < final(self).chunks@.len() ==> (
                        #[trigger] final(self).chunks@[i]).sound(
                            old(self).target_chunk_size,
                            old(self).stack_limit,
                        )
                },
            },
    {
        let mut result: Vec<usize> = Vec::new();
        let mut last_constant: Option<i64> = None;
        let ghost before = self.chunks@;
        let ghost whole = chunks_bytes(self.chunks@) + pending_bytes(self.call_stack@);
        let ghost whole_case = fits_whole(
            self.target_chunk_size,
            self.stack_limit,
            self.chunks@,
            self.call_stack@,
            None,
        ) && self.call_stack@[0]@.body.size > 0;
        let ghost first = if self.call_stack@.len() > 0 {
            self.call_stack@[0]
        } else {
            arbitrary()
        };
        let ghost goal = cut_steps(
            pending_bytes(self.call_stack@).len() + 1,
            self.target_chunk_size,
            self.stack_limit,
            input_heights(self.chunks@),
            script_views(self.call_stack@),
            None,
        );
        let ghost mut steps: nat = pending_bytes(self.call_stack@).len() + 1;
        let ghost mut done: Seq<ChunkEnd> = Seq::empty();
        proof {
            assert(self.chunks@.take(before.len() as int) =~= before);
            assert(forall|r: Seq<ChunkEnd>| Seq::<ChunkEnd>::empty() + r =~= r);
        }
        while self.call_stack.len() > 0
            invariant
                goal == cut_steps(
                    pending_bytes(old(self).call_stack@).len() + 1,
                    old(self).target_chunk_size,
                    old(self).stack_limit,
                    input_heights(old(self).chunks@),
                    script_views(old(self).call_stack@),
                    None,
                ),
                steps >= pending_bytes(self.call_stack@).len() + 1,
                goal == cut_on(
                    done,
                    cut_steps(
                        steps,
                        self.target_chunk_size,
                        self.stack_limit,
                        input_heights(self.chunks@),
                        script_views(self.call_stack@),
                        last_constant,
                    ),
                ),
                done.len() == result@.len(),
                forall|i: int|
                    0 <= i < done.len() ==> chunk_is(
                        self.chunks@[before.len() + i],
                        #[trigger] done[i],
                    ),
                result@.len() == 0 ==> self.call_stack@ == old(self).call_stack@ && self.chunks@
                    == before && last_constant is None,
                result@.len() > 0 ==> old(self).call_stack@.len() > 0 && pending_bytes(
                    old(self).call_stack@,
                ).len() > 0 && first_step(
                    old(self).target_chunk_size,
                    old(self).chunks@,
                    old(self).call_stack@.last()@,
                    None,
                ) is None,
                whole_case ==> fits_whole(
                    self.target_chunk_size,
                    self.stack_limit,
                    before,
                    seq![first],
                    None,
                ) && first@.body.size > 0,
                whole_case ==> {
                    ||| (self.call_stack@ == seq![first] && self.chunks@ == before
                        && result@.len() == 0 && last_constant is None)
                    ||| (self.call_stack@.len() == 0 && result@ == seq![
                        first@.body.size as usize,
                    ])
                },
                whole_case == (fits_whole(
                    old(self).target_chunk_size,
                    old(self).stack_limit,
                    old(self).chunks@,
                    old(self).call_stack@,
                    None,
                ) && old(self).call_stack@[0]@.body.size > 0),
                whole_case ==> first == old(self).call_stack@[0],
                self.target_chunk_size == old(self).target_chunk_size,
                self.stack_limit == old(self).stack_limit,
                before == old(self).chunks@,
                old(self).call_stack@.len() == 0 ==> self.call_stack@.len() == 0,
                all_wf(self.call_stack@),
                self.chunks@.len() == before.len() + result@.len(),
                self.chunks@.take(before.len() as int) == before,
                chunks_bytes(self.chunks@) + pending_bytes(self.call_stack@) == whole,
                forall|i: int|
                    0 <= i < result@.len() ==> {
                        let chunk = #[trigger] self.chunks@[before.len() + i];
                        &&& chunk.sound(self.target_chunk_size, self.stack_limit)
                        &&& result@[i] == chunk.size
                        &&& (chunk.stats.stack_input_size, chunk.stats.altstack_input_size)
                            == input_heights(self.chunks@.take(before.len() + i))
                        &&& analysed(
                            self.chunks@.take(before.len() + i),
                            constant_before(
                                self.chunks@,
                                before.len() as int,
                                before.len() + i,
                            ),
                            chunk,
                        )
                    },
                last_constant == constant_before(
                    self.chunks@,
                    before.len() as int,
                    self.chunks@.len() as int,
                ),
            decreases pending_bytes(self.call_stack@).len(),
        {
            let ghost found = self.chunks@;
            let ghost sizes = result@;
            let ghost known = last_constant;
            let ghost waiting = self.call_stack@;
            proof {
                assert(script_views(waiting).len() > 0);
                lemma_cut_step(
                    steps,
                    self.target_chunk_size,
                    self.stack_limit,
                    input_heights(found),
                    script_views(waiting),
                    known,
                );
            }
            let chunk: Chunk = match self.find_next_chunk(last_constant) {
                Ok(chunk) => chunk,
                Err(e) => {
                    proof {
                        assert forall|i: int| before.len() <= i < self.chunks@.len() implies (
                        #[trigger] self.chunks@[i]).sound(
                            self.target_chunk_size,
                            self.stack_limit,
                        ) by {
                            assert(self.chunks@[before.len() + (i - before.len())].sound(
                                self.target_chunk_size,
                                self.stack_limit,
                            ));
                        }
                    }
                    return Err(e);
                },
            };
            last_constant = chunk.last_constant;
            let ghost next = next_chunk(
                self.target_chunk_size,
                self.stack_limit,
                input_heights(found),
                script_views(waiting),
                known,
            ).unwrap();
            proof {
                lemma_compiled_views(chunk.scripts@);
            }
            if chunk.size == 0 {
                proof {
                    assert forall|i: int| before.len() <= i < self.chunks@.len() implies (
                    #[trigger] self.chunks@[i]).sound(
                        self.target_chunk_size,
                        self.stack_limit,
                    ) by {
                        assert(self.chunks@[before.len() + (i - before.len())].sound(
                            self.target_chunk_size,
                            self.stack_limit,
                        ));
                    }
                }
                return Err(ChunkError::EmptyChunk);
            }
            result.push(chunk.size);
            self.chunks.push(chunk);
            proof {
                let old_done = done;
                done = done.push(next);
                steps = (steps - 1) as nat;
                assert(forall|r: Seq<ChunkEnd>| old_done + (seq![next] + r) =~= done + r);
                assert(input_heights(self.chunks@) == (
                    next.stats.stack_output_size,
                    next.stats.altstack_output_size,
                ));
                assert forall|i: int| 0 <= i < done.len() implies chunk_is(
                    self.chunks@[before.len() + i],
                    #[trigger] done[i],
                ) by {
                    if i < old_done.len() {
                        assert(self.chunks@[before.len() + i] == found[before.len() + i]);
                        assert(done[i] == old_done[i]);
                    }
                }
                if whole_case {
                    assert(result@ =~= seq![first@.body.size as usize]);
                }
                assert(self.chunks@.drop_last() =~= found);
                assert(chunks_bytes(self.chunks@) + pending_bytes(self.call_stack@) =~= whole);
                assert(self.chunks@.take(before.len() as int) =~= found.take(
                    before.len() as int,
                ));
                assert(found.take(found.len() as int) =~= found);
                assert forall|i: int| 0 <= i < result@.len() implies {
                    let c = #[trigger] self.chunks@[before.len() + i];
                    &&& c.sound(self.target_chunk_size, self.stack_limit)
                    &&& result@[i] == c.size
                    &&& (c.stats.stack_input_size, c.stats.altstack_input_size) == input_heights(
                        self.chunks@.take(before.len() + i),
                    )
                    &&& analysed(
                        self.chunks@.take(before.len() + i),
                        constant_before(self.chunks@, before.len() as int, before.len() + i),
                        c,
                    )
                } by {
                    if i < sizes.len() {
                        assert(self.chunks@[before.len() + i] == found[before.len() + i]);
                        assert(self.chunks@.take(before.len() + i) =~= found.take(
                            before.len() + i,
                        ));
                    } else {
                        assert(self.chunks@.take(before.len() + i) =~= found);
                    }
                }
            }
        }
        proof {
            assert(pending_bytes(self.call_stack@) =~= Seq::<u8>::empty());
            assert(chunks_bytes(self.chunks@) =~= whole);
            assert(script_views(self.call_stack@).len() == 0);
            assert(done + Seq::<ChunkEnd>::empty() =~= done);
        }
        Ok(result)
    }
}

/// Compiles scripts one after the other into one byte vector.
pub fn compile_scripts(scripts: &Vec<StructuredScript>) -> (out: Vec<u8>)
    requires
        all_wf(scripts@),
    ensures
        out@ == bytes_of(scripts@),
{
    let n: usize = scripts.len();
    let mut out: Vec<u8> = Vec::new();
    let mut i: usize = 0;
    assert(scripts@.take(0) =~= Seq::<StructuredScript>::empty());
    assert(out@ =~= bytes_of(scripts@.take(0)));
    while i < n
        invariant
            n == scripts@.len(),
            i <= n,
            all_wf(scripts@),
            out@ == bytes_of(scripts@.take(i as int)),
        decreases n - i,
    {
        assert(scripts@[i as int].wf());
        let bytes: Vec<u8> = scripts[i].compile_to_bytes();
        crate::builder::extend_bytes(&mut out, bytes.as_slice());
        proof {
            assert(scripts@.take(i + 1).drop_last() =~= scripts@.take(i as int));
            assert(scripts@.take(i + 1).last() == scripts@[i as int]);
        }
        i += 1;
    }
    assert(scripts@.take(n as int) =~= scripts@);
    out
}

/// Compiles each chunk into a byte vector of its own.
fn compile_chunks(found: &Vec<Chunk>, target: usize, stack_limit: usize) -> (out: Vec<Vec<u8>>)
    requires
        forall|k: int| 0 <= k < found@.len() ==> (#[trigger] found@[k]).sound(target, stack_limit),
    ensures
        out@.len() == found@.len(),
        joined(byte_views(out@)) == chunks_bytes(found@),
        forall|k: int| 0 <= k < out@.len() ==> (#[trigger] out@[k])@.len() == found@[k].size,
        forall|k: int| 0 <= k < out@.len() ==> (#[trigger] out@[k])@ == bytes_of(found@[k].scripts@),
{
    let n: usize = found.len();
    let mut chunks: Vec<Vec<u8>> = Vec::new();
    let mut i: usize = 0;
    proof {
        assert(found@.take(0) =~= Seq::<Chunk>::empty());
        assert(byte_views(chunks@) =~= Seq::<Seq<u8>>::empty());
    }
    while i < n
        invariant
            n == found@.len(),
            i <= n,
            chunks@.len() == i,
            forall|k: int|
                0 <= k < found@.len() ==> (#[trigger] found@[k]).sound(target, stack_limit),
            joined(byte_views(chunks@)) == chunks_bytes(found@.take(i as int)),
            forall|k: int| 0 <= k < i ==> (#[trigger] chunks@[k])@.len() == found@[k].size,
            forall|k: int|
                0 <= k < i ==> (#[trigger] chunks@[k])@ == bytes_of(found@[k].scripts@),
        decreases n - i,
    {
        let ghost had = chunks@;
        assert(found@[i as int].sound(target, stack_limit));
        let bytes: Vec<u8> = compile_scripts(&found[i].scripts);
        chunks.push(bytes);
        proof {
            assert(found@.take(i + 1).drop_last() =~= found@.take(i as int));
            assert(found@.take(i + 1).last() == found@[i as int]);
            assert(byte_views(chunks@).drop_last() =~= byte_views(had));
            assert(byte_views(chunks@).last() == bytes@);
        }
        i += 1;
    }
    assert(found@.take(n as int) =~= found@);
    chunks
}

impl StructuredScript {
    /// The stack status of the script, found by `analyzer`.
    pub fn get_stack(&self, analyzer: &mut StackAnalyzer) -> (out: Result<
        StackStatus,
        AnalysisError,
    >)
        requires
            self.wf(),
        ensures
            out == match old(analyzer)@.run_script(self@) {
                Ok(state) => state.outcome(),
                Err(e) => Err(e),
            },
    {
        analyzer.analyze_status(self)
    }

    /// Cuts the script into chunks and compiles each. Returns the sizes of
    /// the chunks and their bytes, which one after the other are the bytes
    /// that the script compiles to.
    ///
    /// A script that fits the target size, leaves no conditional open and
    /// whose analysis ends with no less than nothing on each stack and no
    /// more than the limit on both is one chunk. A script that compiles to
    /// no bytes cannot be cut, and the errors that show at the script as a
    /// whole are returned as `first_step` names them.
    pub fn compile_to_chunks(self, chunk_size: usize, stack_limit: usize) -> (out: Result<
        (Vec<usize>, Vec<Vec<u8>>),
        ChunkError,
    >)
        requires
            self.wf(),
        ensures
            match first_step(chunk_size, Seq::<Chunk>::empty(), self@, None) {
                Some(e) => out == Err::<(Vec<usize>, Vec<Vec<u8>>), ChunkError>(e),
                None => true,
            },
            match cut_steps(
                self@.body.size + 1,
                chunk_size,
                stack_limit,
                (0usize, 0usize),
                seq![self@],
                None,
            ) {
                Ok(found) => {
                    &&& out is Ok
                    &&& out.unwrap().0@.len() == found.len()
                    &&& out.unwrap().1@.len() == found.len()
                    &&& forall|i: int|
                        0 <= i < found.len() ==> out.unwrap().1@[i]@ == compiled_of(
                            (#[trigger] found[i]).scripts,
                        ) && out.unwrap().0@[i] == compiled_len(found[i].scripts)
                },
                Err(e) => out == Err::<(Vec<usize>, Vec<Vec<u8>>), ChunkError>(e),
            },
            self@.body.size == 0 ==> out is Err,
            fits_whole(chunk_size, stack_limit, Seq::<Chunk>::empty(), seq![self], None)
                && self@.body.size > 0 ==> out is Ok && out.unwrap().0@ == seq![
                self@.body.size as usize,
            ] && out.unwrap().1@.len() == 1 && out.unwrap().1@[0]@ == self@.compiled(),
            match out {
                Ok((sizes, chunks)) => {
                    &&& sizes@.len() == chunks@.len()
                    &&& sizes@.len() > 0
                    &&& joined(byte_views(chunks@)) == self@.compiled()
                    &&& forall|i: int|
                        0 <= i < chunks@.len() ==> (#[trigger] chunks@[i])@.len() == sizes@[i]
                            && 0 < sizes@[i] <= chunk_size
                },
                Err(e) => true,
            },
    {
        let mut chunker: Chunker = Chunker::new(self, chunk_size, stack_limit);
        let ghost goal = cut_steps(
            self@.body.size + 1,
            chunk_size,
            stack_limit,
            (0usize, 0usize),
            seq![self@],
            None,
        );
        proof {
            lemma_script_len(self);
            assert(chunker.chunks@ =~= Seq::<Chunk>::empty());
            assert(chunker.call_stack@.last() == self);
            assert(chunker.call_stack@[0] == self);
            assert(script_views(chunker.call_stack@) =~= seq![self@]);
            assert(input_heights(chunker.chunks@) == (0usize, 0usize));
        }
        let sizes: Vec<usize> = match chunker.find_chunks() {
            Ok(sizes) => sizes,
            Err(e) => {
                return Err(e);
            },
        };
        proof {
            assert(chunks_bytes(Seq::<Chunk>::empty()) =~= Seq::<u8>::empty());
            assert(chunks_bytes(chunker.chunks@) =~= self@.compiled());
            assert forall|k: int| 0 <= k < chunker.chunks@.len() implies (
            #[trigger] chunker.chunks@[k]).sound(chunk_size, stack_limit) && sizes@[k]
                == chunker.chunks@[k].size by {
                assert(chunker.chunks@[0 + k].sound(chunk_size, stack_limit));
            }
        }
        let chunks: Vec<Vec<u8>> = compile_chunks(&chunker.chunks, chunk_size, stack_limit);
        proof {
            let found = goal.unwrap();
            assert forall|i: int| 0 <= i < found.len() implies chunks@[i]@ == compiled_of(
                (#[trigger] found[i]).scripts,
            ) && sizes@[i] == compiled_len(found[i].scripts) by {
                assert(chunk_is(chunker.chunks@[0 + i], found[i]));
                assert(chunker.chunks@[0 + i].sound(chunk_size, stack_limit));
                lemma_compiled_views(chunker.chunks@[i].scripts@);
            }
            if chunks@.len() == 1 {
                assert(byte_views(chunks@).drop_last() =~= Seq::<Seq<u8>>::empty());
                assert(byte_views(chunks@).last() == chunks@[0]@);
                assert(joined(byte_views(chunks@)) =~= chunks@[0]@);
            }
        }
        Ok((sizes, chunks))
    }
}

} // verus!
