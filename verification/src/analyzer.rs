//! Static stack analysis: how deep a script reaches into the two stacks and
//! by how much it changes their heights, found without running the script.

use vstd::prelude::*;
use crate::opcodes::{
    OP_0NOTEQUAL, OP_1ADD, OP_1SUB, OP_2DROP, OP_2DUP, OP_2OVER, OP_2ROT, OP_2SWAP, OP_3DUP,
    OP_ADD, OP_BOOLAND, OP_BOOLOR, OP_CHECKSIG, OP_CHECKSIGVERIFY, OP_CLTV, OP_CSV,
    OP_DEPTH, OP_DROP, OP_DUP, OP_ELSE, OP_ENDIF, OP_EQUAL, OP_EQUALVERIFY, OP_FROMALTSTACK,
    OP_HASH256, OP_IF, OP_IFDUP, OP_MAX, OP_NEGATE, OP_NIP, OP_NOP, OP_NOP1, OP_NOP10,
    OP_NOP4, OP_NOTIF, OP_NUMEQUAL, OP_NUMEQUALVERIFY, OP_OVER, OP_PICK, OP_PUSHBYTES_0,
    OP_PUSHDATA4, OP_PUSHNUM_1, OP_PUSHNUM_16, OP_PUSHNUM_NEG1, OP_RESERVED, OP_RIPEMD160,
    OP_ROLL, OP_ROT, OP_SIZE, OP_SUB, OP_SWAP, OP_TOALTSTACK, OP_TUCK, OP_VERIFY, OP_WITHIN,
};
use crate::encoding::{lemma_scriptint_value_range, read_scriptint, scriptint_value};
use crate::builder::{
    block_views, find, label_at, lemma_find, lemma_span_take, total_span, Block, BlockView,
    FragmentView, ScriptView, StructuredScript,
};
use crate::instruction::{
    decodable, instructions, instructions_of, located_views, Instruction, InstructionView,
    Located,
};
use crate::walk::{
    blocks_at, frame_cost, frames_cost, lemma_trace_back, lemma_trace_bounds, lemma_trace_end,
    lemma_trace_fails, lemma_trace_into, lemma_trace_over, lemma_trace_start, trace_ok, Frame,
};

verus! {

/// A stack effect over the mathematical integers.
pub struct Effect {
    pub deepest: int,
    pub changed: int,
    pub alt_deepest: int,
    pub alt_changed: int,
}

/// The stack effect of a script fragment.
///
/// `deepest_*_accessed` is the lowest position, relative to the height at the
/// start, that the fragment touches; `*_changed` is the net change in height.
#[derive(Debug, Clone, Copy, PartialEq, Eq, Structural)]
pub struct StackStatus {
    pub deepest_stack_accessed: i32,
    pub stack_changed: i32,
    pub deepest_altstack_accessed: i32,
    pub altstack_changed: i32,
}

/// Why a script cannot be analysed.
#[derive(Debug, Clone, Copy, PartialEq, Eq, Structural)]
pub enum AnalysisError {
    /// The script holds the reserved opcode that marks debug scaffolding.
    DebugMarker,
    /// `OP_ELSE` outside any conditional.
    ElseWithoutIf,
    /// A second `OP_ELSE` in one conditional.
    RepeatedElse,
    /// `OP_ENDIF` outside any conditional.
    EndifWithoutIf,
    /// A conditional without an else branch changes the height of a stack.
    UnbalancedIf,
    /// The two branches of a conditional change a stack by different amounts.
    BranchMismatch,
    /// `OP_PICK` or `OP_ROLL` without a known constant pushed just before.
    UnknownDepth,
    /// An opcode whose effect depends on the data on the stack.
    DataDependent,
    /// An opcode that the effect table does not cover.
    UnsupportedOpcode,
    /// The running status has lost more elements than it has accessed.
    NegativeIntermediateStack,
    /// A status does not fit the machine integers that hold it.
    Overflow,
    /// A literal block is not a sequence of instructions.
    MalformedScript,
    /// A call names a script that is not registered.
    MissingScript,
    /// The analysis ended inside a conditional.
    UnclosedIf,
}

/// One open conditional: the effect of its if branch so far, or the finished
/// if branch and the else branch so far.
#[derive(Debug, Clone, Copy)]
pub enum IfStackEle {
    IfFlow(StackStatus),
    ElseFlow(StackStatus, StackStatus),
}

impl View for StackStatus {
    type V = Effect;

    open spec fn view(&self) -> Effect {
        Effect {
            deepest: self.deepest_stack_accessed as int,
            changed: self.stack_changed as int,
            alt_deepest: self.deepest_altstack_accessed as int,
            alt_changed: self.altstack_changed as int,
        }
    }
}

pub open spec fn min_int(a: int, b: int) -> int {
    if a <= b {
        a
    } else {
        b
    }
}

/// The effect of running `next` after `first`: `next` reaches below the
/// starting height only as far as `first` has not made up for it.
pub open spec fn combine(first: Effect, next: Effect) -> Effect {
    Effect {
        deepest: min_int(first.deepest, first.changed + next.deepest),
        changed: first.changed + next.changed,
        alt_deepest: min_int(first.alt_deepest, first.alt_changed + next.alt_deepest),
        alt_changed: first.alt_changed + next.alt_changed,
    }
}

pub open spec fn fits_i32(v: int) -> bool {
    i32::MIN <= v <= i32::MAX
}

/// Whether `e` can be held in a `StackStatus`.
pub open spec fn representable(e: Effect) -> bool {
    fits_i32(e.deepest) && fits_i32(e.changed) && fits_i32(e.alt_deepest) && fits_i32(
        e.alt_changed,
    )
}

/// The `StackStatus` that holds a representable effect.
pub open spec fn status_of(e: Effect) -> StackStatus {
    StackStatus {
        deepest_stack_accessed: e.deepest as i32,
        stack_changed: e.changed as i32,
        deepest_altstack_accessed: e.alt_deepest as i32,
        altstack_changed: e.alt_changed as i32,
    }
}

/// The status with all four fields zero.
pub open spec fn zero_status() -> StackStatus {
    StackStatus {
        deepest_stack_accessed: 0,
        stack_changed: 0,
        deepest_altstack_accessed: 0,
        altstack_changed: 0,
    }
}

/// A status that touches the main stack only.
pub open spec fn plain_status(access: i32, changed: i32) -> StackStatus {
    StackStatus {
        deepest_stack_accessed: access,
        stack_changed: changed,
        deepest_altstack_accessed: 0,
        altstack_changed: 0,
    }
}

/// What adding `next` to the running status `running` gives.
pub open spec fn accumulate(running: StackStatus, next: StackStatus) -> Result<
    StackStatus,
    AnalysisError,
> {
    if running.stack_changed - running.deepest_stack_accessed < 0 {
        Err(AnalysisError::NegativeIntermediateStack)
    } else if !representable(combine(running@, next@)) {
        Err(AnalysisError::Overflow)
    } else {
        Ok(status_of(combine(running@, next@)))
    }
}

/// The merged effect of the two branches of a conditional: the deeper access
/// of the two, and the change of the first.
pub open spec fn merge_branches(a: StackStatus, b: StackStatus) -> StackStatus {
    StackStatus {
        deepest_stack_accessed: if a.deepest_stack_accessed <= b.deepest_stack_accessed {
            a.deepest_stack_accessed
        } else {
            b.deepest_stack_accessed
        },
        stack_changed: a.stack_changed,
        deepest_altstack_accessed: if a.deepest_altstack_accessed
            <= b.deepest_altstack_accessed {
            a.deepest_altstack_accessed
        } else {
            b.deepest_altstack_accessed
        },
        altstack_changed: a.altstack_changed,
    }
}

/// The main-stack columns of the opcode effect table: deepest access and net
/// change, for the opcodes whose effect does not depend on the data.
pub open spec fn main_stack_effect(op: u8) -> Result<(i32, i32), AnalysisError> {
    if op <= OP_PUSHDATA4 || op == OP_PUSHNUM_NEG1 || (OP_PUSHNUM_1 <= op <= OP_PUSHNUM_16) {
        Ok((0i32, 1i32))
    } else if op == OP_NOP || op == OP_NOP1 || (OP_NOP4 <= op <= OP_NOP10) {
        Ok((0i32, 0i32))
    } else if op == OP_IF || op == OP_NOTIF || op == OP_VERIFY || op == OP_TOALTSTACK || op
        == OP_DROP {
        Ok((-1i32, -1i32))
    } else if op == OP_ELSE || op == OP_ENDIF || op == OP_IFDUP || op == OP_PICK || op
        == OP_ROLL {
        Err(AnalysisError::DataDependent)
    } else if op == OP_FROMALTSTACK || op == OP_DEPTH {
        Ok((0i32, 1i32))
    } else if op == OP_2DROP || op == OP_EQUALVERIFY || op == OP_NUMEQUALVERIFY || op
        == OP_CHECKSIGVERIFY {
        Ok((-2i32, -2i32))
    } else if op == OP_2DUP {
        Ok((-2i32, 2i32))
    } else if op == OP_3DUP {
        Ok((-3i32, 3i32))
    } else if op == OP_2OVER {
        Ok((-4i32, 2i32))
    } else if op == OP_2ROT || op == OP_ROT {
        Ok((-3i32, 0i32))
    } else if op == OP_2SWAP {
        Ok((-4i32, 0i32))
    } else if op == OP_DUP || op == OP_SIZE {
        Ok((-1i32, 1i32))
    } else if op == OP_NIP || op == OP_EQUAL || op == OP_ADD || op == OP_SUB || op == OP_BOOLAND
        || op == OP_BOOLOR || (OP_NUMEQUAL <= op <= OP_MAX && op != OP_NUMEQUALVERIFY) || op
        == OP_CHECKSIG {
        Ok((-2i32, -1i32))
    } else if op == OP_OVER || op == OP_TUCK {
        Ok((-2i32, 1i32))
    } else if op == OP_SWAP {
        Ok((-2i32, 0i32))
    } else if op == OP_1ADD || op == OP_1SUB || (OP_NEGATE <= op <= OP_0NOTEQUAL) || (
    OP_RIPEMD160 <= op <= OP_HASH256) {
        Ok((-1i32, 0i32))
    } else if op == OP_WITHIN {
        Ok((-3i32, -2i32))
    } else if op == OP_CLTV || op == OP_CSV {
        Ok((1i32, 1i32))
    } else {
        Err(AnalysisError::UnsupportedOpcode)
    }
}

/// The alt-stack columns of the opcode effect table.
pub open spec fn alt_stack_effect(op: u8) -> (i32, i32) {
    if op == OP_FROMALTSTACK {
        (-1i32, -1i32)
    } else if op == OP_TOALTSTACK {
        (0i32, 1i32)
    } else {
        (0i32, 0i32)
    }
}

/// The opcode effect table.
pub open spec fn opcode_effect(op: u8) -> Result<StackStatus, AnalysisError> {
    match main_stack_effect(op) {
        Ok(main) => Ok(
            StackStatus {
                deepest_stack_accessed: main.0,
                stack_changed: main.1,
                deepest_altstack_accessed: alt_stack_effect(op).0,
                altstack_changed: alt_stack_effect(op).1,
            },
        ),
        Err(e) => Err(e),
    }
}

/// The constant that is known to lie on top of the stack after `op`, given
/// the one known before it.
pub open spec fn constant_after_opcode(before: Option<i64>, op: u8) -> Option<i64> {
    if OP_PUSHNUM_1 <= op <= OP_PUSHNUM_16 {
        Some((op - 0x50) as i64)
    } else if op == OP_DUP {
        before
    } else if op == OP_PUSHBYTES_0 {
        Some(0i64)
    } else {
        None
    }
}

/// The constant that is known to lie on top of the stack after a push of
/// `data`: its value as a script number where that lies in `0..=1000`, and
/// none otherwise, whatever was known before.
pub open spec fn constant_after_push(data: Seq<u8>) -> Option<i64> {
    match scriptint_value(data) {
        Some(v) => if 0 <= v <= 1000 {
            Some(v as i64)
        } else {
            None
        },
        None => None,
    }
}

/// The state of an analysis: the status outside all conditionals, the open
/// conditionals from the outermost to the innermost, and the constant last
/// pushed, if it is known.
pub struct AnalyzerState {
    pub status: StackStatus,
    pub branches: Seq<IfStackEle>,
    pub last_constant: Option<i64>,
}

impl AnalyzerState {
    /// The state before any instruction, with the given heights already on
    /// the two stacks.
    pub open spec fn starting(status: StackStatus, last_constant: Option<i64>) -> AnalyzerState {
        AnalyzerState { status, branches: Seq::empty(), last_constant }
    }

    /// The status that the next instruction adds to.
    pub open spec fn current(self) -> StackStatus {
        if self.branches.len() == 0 {
            self.status
        } else {
            match self.branches.last() {
                IfStackEle::IfFlow(s) => s,
                IfStackEle::ElseFlow(_, s) => s,
            }
        }
    }

    /// This state with `s` in place of the current status.
    pub open spec fn with_current(self, s: StackStatus) -> AnalyzerState {
        if self.branches.len() == 0 {
            AnalyzerState { status: s, ..self }
        } else {
            AnalyzerState {
                branches: self.branches.drop_last().push(
                    match self.branches.last() {
                        IfStackEle::IfFlow(_) => IfStackEle::IfFlow(s),
                        IfStackEle::ElseFlow(a, _) => IfStackEle::ElseFlow(a, s),
                    },
                ),
                ..self
            }
        }
    }

    /// This state after an effect has been added to the current status.
    pub open spec fn apply(self, effect: StackStatus) -> Result<AnalyzerState, AnalysisError> {
        match accumulate(self.current(), effect) {
            Ok(s) => Ok(self.with_current(s)),
            Err(e) => Err(e),
        }
    }

    /// This state without its innermost conditional.
    pub open spec fn leave(self) -> AnalyzerState {
        AnalyzerState { branches: self.branches.drop_last(), ..self }
    }

    /// This state inside one more conditional.
    pub open spec fn enter(self) -> AnalyzerState {
        AnalyzerState { branches: self.branches.push(IfStackEle::IfFlow(zero_status())), ..self }
    }

    /// The effect of `OP_PICK` (`drop` 0) or `OP_ROLL` (`drop` -1) on the
    /// stacks when the constant `depth` lies on top.
    pub open spec fn reach_effect(depth: i64, drop: i32) -> Result<StackStatus, AnalysisError> {
        if fits_i32(-(depth + 2)) {
            Ok(plain_status((-(depth + 2)) as i32, drop))
        } else {
            Err(AnalysisError::Overflow)
        }
    }

    /// What `op` does to the statuses and the open conditionals.
    pub open spec fn flow_step(self, op: u8) -> Result<AnalyzerState, AnalysisError> {
        if op == OP_IF || op == OP_NOTIF {
            match self.apply(plain_status(-1i32, -1i32)) {
                Ok(s) => Ok(s.enter()),
                Err(e) => Err(e),
            }
        } else if op == OP_RESERVED {
            Err(AnalysisError::DebugMarker)
        } else if op == OP_ELSE {
            if self.branches.len() == 0 {
                Err(AnalysisError::ElseWithoutIf)
            } else {
                match self.branches.last() {
                    IfStackEle::IfFlow(s) => Ok(
                        AnalyzerState {
                            branches: self.branches.drop_last().push(
                                IfStackEle::ElseFlow(s, zero_status()),
                            ),
                            ..self
                        },
                    ),
                    IfStackEle::ElseFlow(_, _) => Err(AnalysisError::RepeatedElse),
                }
            }
        } else if op == OP_ENDIF {
            if self.branches.len() == 0 {
                Err(AnalysisError::EndifWithoutIf)
            } else {
                match self.branches.last() {
                    IfStackEle::IfFlow(s) => if s.stack_changed != 0 || s.altstack_changed != 0 {
                        Err(AnalysisError::UnbalancedIf)
                    } else {
                        self.leave().apply(s)
                    },
                    IfStackEle::ElseFlow(a, b) => if a.stack_changed != b.stack_changed
                        || a.altstack_changed != b.altstack_changed {
                        Err(AnalysisError::BranchMismatch)
                    } else {
                        self.leave().apply(merge_branches(a, b))
                    },
                }
            }
        } else if op == OP_PICK || op == OP_ROLL {
            match self.last_constant {
                Some(depth) => match Self::reach_effect(
                    depth,
                    if op == OP_PICK {
                        0i32
                    } else {
                        -1i32
                    },
                ) {
                    Ok(effect) => self.apply(effect),
                    Err(e) => Err(e),
                },
                None => Err(AnalysisError::UnknownDepth),
            }
        } else {
            match opcode_effect(op) {
                Ok(effect) => self.apply(effect),
                Err(e) => Err(e),
            }
        }
    }

    /// The state after the opcode `op`.
    pub open spec fn after_opcode(self, op: u8) -> Result<AnalyzerState, AnalysisError> {
        match self.flow_step(op) {
            Ok(s) => Ok(
                AnalyzerState { last_constant: constant_after_opcode(s.last_constant, op), ..s },
            ),
            Err(e) => Err(e),
        }
    }

    /// The state after a push of `data`.
    pub open spec fn after_push(self, data: Seq<u8>) -> Result<AnalyzerState, AnalysisError> {
        AnalyzerState {
            last_constant: constant_after_push(data),
            ..self
        }.apply(plain_status(0i32, 1i32))
    }

    /// The status that the analysis has reached, which exists only outside
    /// all conditionals.
    pub open spec fn outcome(self) -> Result<StackStatus, AnalysisError> {
        if self.branches.len() == 0 {
            Ok(self.status)
        } else {
            Err(AnalysisError::UnclosedIf)
        }
    }
}

impl AnalyzerState {
    /// The state after the instructions `items`, or the first error among
    /// them.
    pub open spec fn run_instructions(self, items: Seq<(nat, InstructionView)>) -> Result<
        AnalyzerState,
        AnalysisError,
    >
        decreases items.len(),
    {
        if items.len() == 0 {
            Ok(self)
        } else {
            match self.run_instructions(items.drop_last()) {
                Ok(state) => match items.last().1 {
                    InstructionView::Op(op) => state.after_opcode(op),
                    InstructionView::PushBytes(data) => state.after_push(data),
                },
                Err(e) => Err(e),
            }
        }
    }

    /// The state after one block. A literal block is taken instruction by
    /// instruction. For a call, the hint of the fragment called is added
    /// where it has one, and its blocks are taken where it has none.
    pub open spec fn run_block(self, subs: Seq<(u64, FragmentView)>, block: BlockView) -> Result<
        AnalyzerState,
        AnalysisError,
    >
        decreases subs.len(), 0nat,
    {
        match block {
            BlockView::Script(bytes) => if decodable(bytes) {
                self.run_instructions(instructions_of(bytes))
            } else {
                Err(AnalysisError::MalformedScript)
            },
            BlockView::Call(id) => match find(subs, id) {
                Some(p) => if 0 <= p < subs.len() {
                    match subs[p].1.stack_hint {
                        Some(hint) => self.apply(hint),
                        None => self.run_blocks(subs.take(p), subs[p].1.blocks),
                    }
                } else {
                    Err(AnalysisError::MissingScript)
                },
                None => Err(AnalysisError::MissingScript),
            },
        }
    }

    /// The state after the blocks `blocks`, or the first error among them.
    pub open spec fn run_blocks(
        self,
        subs: Seq<(u64, FragmentView)>,
        blocks: Seq<BlockView>,
    ) -> Result<AnalyzerState, AnalysisError>
        decreases subs.len(), blocks.len() + 1,
    {
        if blocks.len() == 0 {
            Ok(self)
        } else {
            match self.run_blocks(subs, blocks.drop_last()) {
                Ok(state) => state.run_block(subs, blocks.last()),
                Err(e) => Err(e),
            }
        }
    }

    /// The state after a whole script: its hint is added where it has one,
    /// and its blocks are taken where it has none.
    pub open spec fn run_script(self, script: ScriptView) -> Result<AnalyzerState, AnalysisError> {
        match script.body.stack_hint {
            Some(hint) => self.apply(hint),
            None => self.run_blocks(script.subs, script.body.blocks),
        }
    }

    /// The state after the scripts `scripts`, one after the other.
    pub open spec fn run_scripts(self, scripts: Seq<ScriptView>) -> Result<
        AnalyzerState,
        AnalysisError,
    >
        decreases scripts.len(),
    {
        if scripts.len() == 0 {
            Ok(self)
        } else {
            match self.run_scripts(scripts.drop_last()) {
                Ok(state) => state.run_script(scripts.last()),
                Err(e) => Err(e),
            }
        }
    }
}

/// The views of a sequence of scripts.
pub open spec fn script_views(scripts: Seq<StructuredScript>) -> Seq<ScriptView> {
    scripts.map_values(|s: StructuredScript| s@)
}

impl Default for StackStatus {
    fn default() -> (out: StackStatus)
        ensures
            out == zero_status(),
    {
        StackStatus {
            deepest_stack_accessed: 0,
            stack_changed: 0,
            deepest_altstack_accessed: 0,
            altstack_changed: 0,
        }
    }
}

impl StackStatus {
    /// The sum of the two net changes.
    pub fn total_stack(&self) -> (out: i32)
        requires
            fits_i32(self.stack_changed + self.altstack_changed),
        ensures
            out == self.stack_changed + self.altstack_changed,
    {
        self.stack_changed + self.altstack_changed
    }

    /// Whether a script with this status leaves exactly one element and
    /// needs nothing on either stack.
    pub fn is_valid_final_state_without_inputs(&self) -> (out: bool)
        ensures
            out == (self.stack_changed == 1 && self.altstack_changed == 0
                && self.deepest_altstack_accessed == 0 && self.deepest_stack_accessed == 0),
    {
        self.stack_changed == 1 && self.altstack_changed == 0 && self.deepest_altstack_accessed
            == 0 && self.deepest_stack_accessed == 0
    }

    /// Whether a script with this status leaves exactly one element and
    /// leaves the alt stack alone; it may take inputs from the main stack.
    pub fn is_valid_final_state_with_inputs(&self) -> (out: bool)
        ensures
            out == (self.stack_changed == 1 && self.altstack_changed == 0
                && self.deepest_altstack_accessed == 0),
    {
        self.stack_changed == 1 && self.altstack_changed == 0 && self.deepest_altstack_accessed
            == 0
    }

    /// Adds the effect `next` to this running status.
    pub fn accumulate(&self, next: &StackStatus) -> (out: Result<StackStatus, AnalysisError>)
        ensures
            out == accumulate(*self, *next),
    {
        let have: i64 = self.stack_changed as i64 - self.deepest_stack_accessed as i64;
        if have < 0 {
            return Err(AnalysisError::NegativeIntermediateStack);
        }
        let reach: i64 = self.stack_changed as i64 + next.deepest_stack_accessed as i64;
        let deepest: i64 = if (self.deepest_stack_accessed as i64) <= reach {
            self.deepest_stack_accessed as i64
        } else {
            reach
        };
        let changed: i64 = self.stack_changed as i64 + next.stack_changed as i64;
        let alt_reach: i64 = self.altstack_changed as i64 + next.deepest_altstack_accessed as i64;
        let alt_deepest: i64 = if (self.deepest_altstack_accessed as i64) <= alt_reach {
            self.deepest_altstack_accessed as i64
        } else {
            alt_reach
        };
        let alt_changed: i64 = self.altstack_changed as i64 + next.altstack_changed as i64;
        if in_i32(deepest) && in_i32(changed) && in_i32(alt_deepest) && in_i32(alt_changed) {
            Ok(
                StackStatus {
                    deepest_stack_accessed: deepest as i32,
                    stack_changed: changed as i32,
                    deepest_altstack_accessed: alt_deepest as i32,
                    altstack_changed: alt_changed as i32,
                },
            )
        } else {
            Err(AnalysisError::Overflow)
        }
    }
}

fn in_i32(v: i64) -> (out: bool)
    ensures
        out == fits_i32(v as int),
{
    -0x8000_0000i64 <= v && v <= 0x7fff_ffffi64
}

/// An error among the first instructions is the error of the whole run.
pub proof fn lemma_run_instructions_fails(
    start: AnalyzerState,
    items: Seq<(nat, InstructionView)>,
    n: int,
)
    requires
        0 <= n <= items.len(),
    ensures
        start.run_instructions(items.take(n)) is Err ==> start.run_instructions(items)
            == start.run_instructions(items.take(n)),
    decreases items.len() - n,
{
    if n < items.len() {
        lemma_run_instructions_fails(start, items, n + 1);
        assert(items.take(n + 1).drop_last() =~= items.take(n));
    } else {
        assert(items.take(n) =~= items);
    }
}

/// An error among the first blocks is the error of the whole run.
pub proof fn lemma_run_blocks_fails(
    start: AnalyzerState,
    subs: Seq<(u64, FragmentView)>,
    blocks: Seq<BlockView>,
    n: int,
)
    requires
        0 <= n <= blocks.len(),
    ensures
        start.run_blocks(subs, blocks.take(n)) is Err ==> start.run_blocks(subs, blocks)
            == start.run_blocks(subs, blocks.take(n)),
    decreases blocks.len() - n,
{
    if n < blocks.len() {
        lemma_run_blocks_fails(start, subs, blocks, n + 1);
        assert(blocks.take(n + 1).drop_last() =~= blocks.take(n));
    } else {
        assert(blocks.take(n) =~= blocks);
    }
}

/// An error among the first scripts is the error of the whole run.
pub proof fn lemma_run_scripts_fails(start: AnalyzerState, scripts: Seq<ScriptView>, n: int)
    requires
        0 <= n <= scripts.len(),
    ensures
        start.run_scripts(scripts.take(n)) is Err ==> start.run_scripts(scripts)
            == start.run_scripts(scripts.take(n)),
    decreases scripts.len() - n,
{
    if n < scripts.len() {
        lemma_run_scripts_fails(start, scripts, n + 1);
        assert(scripts.take(n + 1).drop_last() =~= scripts.take(n));
    } else {
        assert(scripts.take(n) =~= scripts);
    }
}

/// Adding effects one after the other is associative: a run of fragments
/// has the same effect however it is cut into parts.
pub proof fn lemma_combine_associative(a: Effect, b: Effect, c: Effect)
    ensures
        combine(combine(a, b), c) == combine(a, combine(b, c)),
{
}

/// An effect that reaches no higher than the starting height, added to
/// the status of empty stacks, is that effect.
pub proof fn lemma_combine_neutral(a: Effect)
    ensures
        a.deepest <= 0 && a.alt_deepest <= 0 ==> combine(zero_status()@, a) == a,
{
}

/// Analysing two runs of instructions one after the other is analysing
/// them as one run.
pub proof fn lemma_run_instructions_concat(
    start: AnalyzerState,
    first: Seq<(nat, InstructionView)>,
    second: Seq<(nat, InstructionView)>,
)
    ensures
        start.run_instructions(first + second) == match start.run_instructions(first) {
            Ok(state) => state.run_instructions(second),
            Err(e) => Err(e),
        },
    decreases second.len(),
{
    if second.len() == 0 {
        assert(first + second =~= first);
    } else {
        lemma_run_instructions_concat(start, first, second.drop_last());
        assert((first + second).drop_last() =~= first + second.drop_last());
        assert((first + second).last() == second.last());
    }
}

/// Analysing two lists of blocks one after the other is analysing them as
/// one list.
pub proof fn lemma_run_blocks_concat(
    start: AnalyzerState,
    subs: Seq<(u64, FragmentView)>,
    first: Seq<BlockView>,
    second: Seq<BlockView>,
)
    ensures
        start.run_blocks(subs, first + second) == match start.run_blocks(subs, first) {
            Ok(state) => state.run_blocks(subs, second),
            Err(e) => Err(e),
        },
    decreases second.len(),
{
    if second.len() == 0 {
        assert(first + second =~= first);
    } else {
        lemma_run_blocks_concat(start, subs, first, second.drop_last());
        assert((first + second).drop_last() =~= first + second.drop_last());
        assert((first + second).last() == second.last());
    }
}

/// Analysing two lists of scripts one after the other is analysing them as
/// one list.
pub proof fn lemma_run_scripts_concat(
    start: AnalyzerState,
    first: Seq<ScriptView>,
    second: Seq<ScriptView>,
)
    ensures
        start.run_scripts(first + second) == match start.run_scripts(first) {
            Ok(state) => state.run_scripts(second),
            Err(e) => Err(e),
        },
    decreases second.len(),
{
    if second.len() == 0 {
        assert(first + second =~= first);
    } else {
        lemma_run_scripts_concat(start, first, second.drop_last());
        assert((first + second).drop_last() =~= first + second.drop_last());
        assert((first + second).last() == second.last());
    }
}

/// Whether a status reaches no higher than the starting height on either
/// stack.
pub open spec fn reaches_down(status: StackStatus) -> bool {
    status.deepest_stack_accessed <= 0 && status.deepest_altstack_accessed <= 0
}

/// Whether the statuses of one open conditional reach no higher than the
/// starting height.
pub open spec fn branch_reaches_down(entry: IfStackEle) -> bool {
    match entry {
        IfStackEle::IfFlow(s) => reaches_down(s),
        IfStackEle::ElseFlow(a, b) => reaches_down(a) && reaches_down(b),
    }
}

/// Whether all statuses of a state reach no higher than the starting
/// height.
pub open spec fn state_reaches_down(state: AnalyzerState) -> bool {
    &&& reaches_down(state.status)
    &&& forall|i: int|
        0 <= i < state.branches.len() ==> branch_reaches_down(#[trigger] state.branches[i])
}

/// An effect added to a state whose statuses reach no higher than the
/// starting height leaves such a state.
pub proof fn lemma_apply_reaches_down(state: AnalyzerState, effect: StackStatus)
    requires
        state_reaches_down(state),
    ensures
        state.apply(effect) is Ok ==> state_reaches_down(state.apply(effect).unwrap()),
{
    if state.apply(effect) is Ok {
        let next = state.apply(effect).unwrap();
        if state.branches.len() > 0 {
            assert(branch_reaches_down(state.branches[state.branches.len() - 1]));
            assert forall|i: int| 0 <= i < next.branches.len() implies branch_reaches_down(
                #[trigger] next.branches[i],
            ) by {
                if i < next.branches.len() - 1 {
                    assert(next.branches[i] == state.branches[i]);
                    assert(branch_reaches_down(state.branches[i]));
                }
            }
        }
    }
}

/// An opcode taken into a state whose statuses reach no higher than the
/// starting height leaves such a state.
pub proof fn lemma_opcode_reaches_down(state: AnalyzerState, op: u8)
    requires
        state_reaches_down(state),
    ensures
        state.after_opcode(op) is Ok ==> state_reaches_down(state.after_opcode(op).unwrap()),
{
    if state.after_opcode(op) is Ok {
        let n = state.branches.len() as int;
        if op == OP_IF || op == OP_NOTIF {
            lemma_apply_reaches_down(state, plain_status(-1i32, -1i32));
            let applied = state.apply(plain_status(-1i32, -1i32)).unwrap();
            let next = applied.enter();
            assert forall|i: int| 0 <= i < next.branches.len() implies branch_reaches_down(
                #[trigger] next.branches[i],
            ) by {
                if i < applied.branches.len() {
                    assert(next.branches[i] == applied.branches[i]);
                    assert(branch_reaches_down(applied.branches[i]));
                }
            }
        } else if op == OP_ELSE {
            let next = state.flow_step(op).unwrap();
            assert(branch_reaches_down(state.branches[n - 1]));
            assert forall|i: int| 0 <= i < next.branches.len() implies branch_reaches_down(
                #[trigger] next.branches[i],
            ) by {
                if i < n - 1 {
                    assert(next.branches[i] == state.branches[i]);
                    assert(branch_reaches_down(state.branches[i]));
                }
            }
        } else if op == OP_ENDIF {
            let left = state.leave();
            assert(branch_reaches_down(state.branches[n - 1]));
            assert forall|i: int| 0 <= i < left.branches.len() implies branch_reaches_down(
                #[trigger] left.branches[i],
            ) by {
                assert(left.branches[i] == state.branches[i]);
                assert(branch_reaches_down(state.branches[i]));
            }
            match state.branches[n - 1] {
                IfStackEle::IfFlow(s) => {
                    lemma_apply_reaches_down(left, s);
                },
                IfStackEle::ElseFlow(a, b) => {
                    lemma_apply_reaches_down(left, merge_branches(a, b));
                },
            }
        } else if op == OP_PICK || op == OP_ROLL {
            let depth = state.last_constant.unwrap();
            let effect = AnalyzerState::reach_effect(
                depth,
                if op == OP_PICK {
                    0i32
                } else {
                    -1i32
                },
            ).unwrap();
            lemma_apply_reaches_down(state, effect);
        } else {
            lemma_apply_reaches_down(state, opcode_effect(op).unwrap());
        }
    }
}

/// Instructions taken into a state whose statuses reach no higher than the
/// starting height leave such a state.
pub proof fn lemma_instructions_reach_down(
    state: AnalyzerState,
    items: Seq<(nat, InstructionView)>,
)
    requires
        state_reaches_down(state),
    ensures
        state.run_instructions(items) is Ok ==> state_reaches_down(
            state.run_instructions(items).unwrap(),
        ),
    decreases items.len(),
{
    if items.len() > 0 && state.run_instructions(items) is Ok {
        lemma_instructions_reach_down(state, items.drop_last());
        let before = state.run_instructions(items.drop_last()).unwrap();
        match items.last().1 {
            InstructionView::Op(op) => {
                lemma_opcode_reaches_down(before, op);
            },
            InstructionView::PushBytes(data) => {
                lemma_apply_reaches_down(
                    AnalyzerState {
                        last_constant: constant_after_push(data),
                        ..before
                    },
                    plain_status(0i32, 1i32),
                );
            },
        }
    }
}

/// Blocks taken into a state whose statuses reach no higher than the
/// starting height leave such a state, whatever hints the fragments called
/// carry.
pub proof fn lemma_blocks_reach_down(
    state: AnalyzerState,
    subs: Seq<(u64, FragmentView)>,
    blocks: Seq<BlockView>,
)
    requires
        state_reaches_down(state),
    ensures
        state.run_blocks(subs, blocks) is Ok ==> state_reaches_down(
            state.run_blocks(subs, blocks).unwrap(),
        ),
    decreases subs.len(), blocks.len(),
{
    if blocks.len() > 0 && state.run_blocks(subs, blocks) is Ok {
        lemma_blocks_reach_down(state, subs, blocks.drop_last());
        let before = state.run_blocks(subs, blocks.drop_last()).unwrap();
        assert(state.run_blocks(subs, blocks) == before.run_block(subs, blocks.last()));
        match blocks.last() {
            BlockView::Script(bytes) => {
                assert(before.run_block(subs, blocks.last()) == if decodable(bytes) {
                    before.run_instructions(instructions_of(bytes))
                } else {
                    Err(AnalysisError::MalformedScript)
                });
                lemma_instructions_reach_down(before, instructions_of(bytes));
            },
            BlockView::Call(id) => {
                crate::builder::lemma_find(subs, id);
                assert(find(subs, id) is Some);
                let p = find(subs, id).unwrap();
                assert(0 <= p < subs.len());
                match subs[p].1.stack_hint {
                    Some(hint) => {
                        lemma_apply_reaches_down(before, hint);
                    },
                    None => {
                        lemma_blocks_reach_down(before, subs.take(p), subs[p].1.blocks);
                    },
                }
            },
        }
    }
}

/// A hint that is accurate changes nothing: where the analysis of the
/// blocks of a script, begun on empty stacks, ends with a status, the
/// analysis of the same script with that status attached as its hint ends
/// with the same status. A hint that is not accurate is taken as it is.
pub proof fn lemma_accurate_hint(script: ScriptView, known: Option<i64>)
    requires
        AnalyzerState::starting(zero_status(), known).run_blocks(
            script.subs,
            script.body.blocks,
        ) is Ok,
        AnalyzerState::starting(zero_status(), known).run_blocks(
            script.subs,
            script.body.blocks,
        ).unwrap().outcome() is Ok,
    ensures
        ({
            let start = AnalyzerState::starting(zero_status(), known);
            let found = start.run_blocks(script.subs, script.body.blocks).unwrap().outcome();
            let hinted = ScriptView {
                body: FragmentView { stack_hint: Some(found.unwrap()), ..script.body },
                ..script
            };
            &&& start.run_script(hinted) is Ok
            &&& start.run_script(hinted).unwrap().outcome() == found
        }),
{
    let start = AnalyzerState::starting(zero_status(), known);
    lemma_blocks_reach_down(start, script.subs, script.body.blocks);
    let end = start.run_blocks(script.subs, script.body.blocks).unwrap();
    let found = end.outcome().unwrap();
    assert(end.branches.len() == 0);
    assert(reaches_down(found));
    lemma_combine_neutral(found@);
    assert(status_of(found@) == found);
}

/// Where the analysis of a script fails and why: the error, the position in
/// the compiled script of the block at which it shows, and the label of the
/// fragment that holds that position.
#[derive(Debug, Clone, PartialEq, Eq)]
pub struct AnalysisFailure {
    pub error: AnalysisError,
    pub position: usize,
    pub debug_identifier: String,
}

/// Whether the analysis of the blocks of `script` from `start` succeeds on
/// the first `i` blocks and fails with `e` at the next.
pub open spec fn fails_at(start: AnalyzerState, script: ScriptView, i: int, e: AnalysisError) -> bool {
    &&& 0 <= i < script.body.blocks.len()
    &&& start.run_blocks(script.subs, script.body.blocks.take(i)) is Ok
    &&& start.run_blocks(script.subs, script.body.blocks.take(i + 1)) == Err::<
        AnalyzerState,
        AnalysisError,
    >(e)
}

/// Whether `failure` tells where and why the analysis of the blocks of
/// `script` from `start` fails: at the block at `i`, which begins at the
/// position given, with the label of the fragment that holds that position,
/// or that of the script where the position is its end.
pub open spec fn failure_at(
    start: AnalyzerState,
    script: ScriptView,
    failure: AnalysisFailure,
    i: int,
) -> bool {
    &&& fails_at(start, script, i, failure.error)
    &&& failure.position == total_span(script.subs, script.body.blocks.take(i))
    &&& failure.debug_identifier@ == if failure.position < script.body.size {
        label_at(script.subs, script.body, failure.position as nat)
    } else {
        script.body.debug_identifier
    }
}

/// A stack analyzer: the running state of one analysis.
#[derive(Debug, Clone)]
pub struct StackAnalyzer {
    pub stack_status: StackStatus,
    pub if_stack: Vec<IfStackEle>,
    pub last_constant: Option<i64>,
}

impl View for StackAnalyzer {
    type V = AnalyzerState;

    open spec fn view(&self) -> AnalyzerState {
        AnalyzerState {
            status: self.stack_status,
            branches: self.if_stack@,
            last_constant: self.last_constant,
        }
    }
}

impl Default for StackAnalyzer {
    fn default() -> (out: StackAnalyzer)
        ensures
            out@ == AnalyzerState::starting(zero_status(), None),
    {
        StackAnalyzer::new()
    }
}

impl StackAnalyzer {
    /// An analyzer at the start of a script, with both stacks empty.
    pub fn new() -> (out: StackAnalyzer)
        ensures
            out@ == AnalyzerState::starting(zero_status(), None),
    {
        StackAnalyzer {
            stack_status: StackStatus::default(),
            if_stack: Vec::new(),
            last_constant: None,
        }
    }

    /// An analyzer that resumes with the given heights on the two stacks and
    /// the given constant known to lie on top.
    pub fn with(start_stack: usize, start_altstack: usize, last_constant: Option<i64>) -> (out:
        StackAnalyzer)
        requires
            start_stack <= i32::MAX,
            start_altstack <= i32::MAX,
        ensures
            out@ == AnalyzerState::starting(
                StackStatus {
                    deepest_stack_accessed: 0,
                    stack_changed: start_stack as i32,
                    deepest_altstack_accessed: 0,
                    altstack_changed: start_altstack as i32,
                },
                last_constant,
            ),
    {
        StackAnalyzer {
            stack_status: StackStatus {
                deepest_stack_accessed: 0,
                stack_changed: start_stack as i32,
                deepest_altstack_accessed: 0,
                altstack_changed: start_altstack as i32,
            },
            if_stack: Vec::new(),
            last_constant,
        }
    }

    /// An analyzer that resumes with the given net changes of the two stacks
    /// and nothing accessed below them.
    pub fn from_heights(stack: i32, altstack: i32, last_constant: Option<i64>) -> (out:
        StackAnalyzer)
        ensures
            out@ == AnalyzerState::starting(
                StackStatus {
                    deepest_stack_accessed: 0,
                    stack_changed: stack,
                    deepest_altstack_accessed: 0,
                    altstack_changed: altstack,
                },
                last_constant,
            ),
    {
        StackAnalyzer {
            stack_status: StackStatus {
                deepest_stack_accessed: 0,
                stack_changed: stack,
                deepest_altstack_accessed: 0,
                altstack_changed: altstack,
            },
            if_stack: Vec::new(),
            last_constant,
        }
    }

    /// The sum of the two net changes outside all conditionals.
    pub fn total_stack_change(&self) -> (out: i32)
        requires
            fits_i32(self@.status.altstack_changed + self@.status.stack_changed),
        ensures
            out == self@.status.altstack_changed + self@.status.stack_changed,
    {
        self.stack_status.altstack_changed + self.stack_status.stack_changed
    }

    /// Forgets the statuses and the open conditionals; the known constant
    /// stays.
    pub fn reset(&mut self)
        ensures
            final(self)@ == AnalyzerState::starting(zero_status(), old(self)@.last_constant),
    {
        self.if_stack = Vec::new();
        self.stack_status = StackStatus::default();
    }

    /// A status that touches the main stack only.
    pub fn plain_stack_status(x: i32, y: i32) -> (out: StackStatus)
        ensures
            out == plain_status(x, y),
    {
        StackStatus {
            deepest_stack_accessed: x,
            stack_changed: y,
            deepest_altstack_accessed: 0,
            altstack_changed: 0,
        }
    }

    /// A status that touches the alt stack only.
    pub fn plain_altstack_status(x: i32, y: i32) -> (out: StackStatus)
        ensures
            out == (StackStatus {
                deepest_stack_accessed: 0,
                stack_changed: 0,
                deepest_altstack_accessed: x,
                altstack_changed: y,
            }),
    {
        StackStatus {
            deepest_stack_accessed: 0,
            stack_changed: 0,
            deepest_altstack_accessed: x,
            altstack_changed: y,
        }
    }

    fn min_status(x: StackStatus, y: StackStatus) -> (out: StackStatus)
        ensures
            out == merge_branches(x, y),
    {
        StackStatus {
            deepest_stack_accessed: if x.deepest_stack_accessed <= y.deepest_stack_accessed {
                x.deepest_stack_accessed
            } else {
                y.deepest_stack_accessed
            },
            stack_changed: x.stack_changed,
            deepest_altstack_accessed: if x.deepest_altstack_accessed
                <= y.deepest_altstack_accessed {
                x.deepest_altstack_accessed
            } else {
                y.deepest_altstack_accessed
            },
            altstack_changed: x.altstack_changed,
        }
    }

    /// Looks `op` up in the opcode effect table.
    pub fn opcode_stack_table(op: u8) -> (out: Result<StackStatus, AnalysisError>)
        ensures
            out == opcode_effect(op),
    {
        let main: (i32, i32) = if op <= OP_PUSHDATA4 || op == OP_PUSHNUM_NEG1 || (OP_PUSHNUM_1
            <= op && op <= OP_PUSHNUM_16) {
            (0, 1)
        } else if op == OP_NOP || op == OP_NOP1 || (OP_NOP4 <= op && op <= OP_NOP10) {
            (0, 0)
        } else if op == OP_IF || op == OP_NOTIF || op == OP_VERIFY || op == OP_TOALTSTACK || op
            == OP_DROP {
            (-1, -1)
        } else if op == OP_ELSE || op == OP_ENDIF || op == OP_IFDUP || op == OP_PICK || op
            == OP_ROLL {
            return Err(AnalysisError::DataDependent);
        } else if op == OP_FROMALTSTACK || op == OP_DEPTH {
            (0, 1)
        } else if op == OP_2DROP || op == OP_EQUALVERIFY || op == OP_NUMEQUALVERIFY || op
            == OP_CHECKSIGVERIFY {
            (-2, -2)
        } else if op == OP_2DUP {
            (-2, 2)
        } else if op == OP_3DUP {
            (-3, 3)
        } else if op == OP_2OVER {
            (-4, 2)
        } else if op == OP_2ROT || op == OP_ROT {
            (-3, 0)
        } else if op == OP_2SWAP {
            (-4, 0)
        } else if op == OP_DUP || op == OP_SIZE {
            (-1, 1)
        } else if op == OP_NIP || op == OP_EQUAL || op == OP_ADD || op == OP_SUB || op
            == OP_BOOLAND || op == OP_BOOLOR || (OP_NUMEQUAL <= op && op <= OP_MAX && op
            != OP_NUMEQUALVERIFY) || op == OP_CHECKSIG {
            (-2, -1)
        } else if op == OP_OVER || op == OP_TUCK {
            (-2, 1)
        } else if op == OP_SWAP {
            (-2, 0)
        } else if op == OP_1ADD || op == OP_1SUB || (OP_NEGATE <= op && op <= OP_0NOTEQUAL) || (
        OP_RIPEMD160 <= op && op <= OP_HASH256) {
            (-1, 0)
        } else if op == OP_WITHIN {
            (-3, -2)
        } else if op == OP_CLTV || op == OP_CSV {
            (1, 1)
        } else {
            return Err(AnalysisError::UnsupportedOpcode);
        };
        let alt: (i32, i32) = if op == OP_FROMALTSTACK {
            (-1, -1)
        } else if op == OP_TOALTSTACK {
            (0, 1)
        } else {
            (0, 0)
        };
        Ok(
            StackStatus {
                deepest_stack_accessed: main.0,
                stack_changed: main.1,
                deepest_altstack_accessed: alt.0,
                altstack_changed: alt.1,
            },
        )
    }

    /// Adds `effect` to the status of the innermost open branch, or to the
    /// outer status where no conditional is open.
    pub fn stack_change(&mut self, effect: StackStatus) -> (out: Result<(), AnalysisError>)
        ensures
            match out {
                Ok(()) => old(self)@.apply(effect) == Ok::<AnalyzerState, AnalysisError>(
                    final(self)@,
                ),
                Err(e) => old(self)@.apply(effect) == Err::<AnalyzerState, AnalysisError>(e)
                    && final(self)@ == old(self)@,
            },
    {
        let n: usize = self.if_stack.len();
        if n == 0 {
            match self.stack_status.accumulate(&effect) {
                Ok(s) => {
                    self.stack_status = s;
                    Ok(())
                },
                Err(e) => Err(e),
            }
        } else {
            let top: IfStackEle = self.if_stack[n - 1];
            let (running, renewed): (StackStatus, Result<StackStatus, AnalysisError>) = match top {
                IfStackEle::IfFlow(s) => (s, s.accumulate(&effect)),
                IfStackEle::ElseFlow(_, s) => (s, s.accumulate(&effect)),
            };
            match renewed {
                Ok(s) => {
                    let entry: IfStackEle = match top {
                        IfStackEle::IfFlow(_) => IfStackEle::IfFlow(s),
                        IfStackEle::ElseFlow(a, _) => IfStackEle::ElseFlow(a, s),
                    };
                    self.if_stack.set(n - 1, entry);
                    assert(self.if_stack@ =~= old(self).if_stack@.drop_last().push(entry));
                    Ok(())
                },
                Err(e) => Err(e),
            }
        }
    }

    /// Takes one opcode into account.
    pub fn handle_opcode(&mut self, opcode: u8) -> (out: Result<(), AnalysisError>)
        ensures
            match out {
                Ok(()) => old(self)@.after_opcode(opcode) == Ok::<AnalyzerState, AnalysisError>(
                    final(self)@,
                ),
                Err(e) => old(self)@.after_opcode(opcode) == Err::<AnalyzerState, AnalysisError>(
                    e,
                ),
            },
    {
        if opcode == OP_IF || opcode == OP_NOTIF {
            self.stack_change(Self::plain_stack_status(-1, -1))?;
            self.if_stack.push(IfStackEle::IfFlow(StackStatus::default()));
        } else if opcode == OP_RESERVED {
            return Err(AnalysisError::DebugMarker);
        } else if opcode == OP_ELSE {
            match self.if_stack.pop() {
                None => {
                    return Err(AnalysisError::ElseWithoutIf);
                },
                Some(IfStackEle::IfFlow(s)) => {
                    self.if_stack.push(IfStackEle::ElseFlow(s, StackStatus::default()));
                },
                Some(IfStackEle::ElseFlow(_, _)) => {
                    return Err(AnalysisError::RepeatedElse);
                },
            }
        } else if opcode == OP_ENDIF {
            match self.if_stack.pop() {
                None => {
                    return Err(AnalysisError::EndifWithoutIf);
                },
                Some(IfStackEle::IfFlow(s)) => {
                    if s.stack_changed != 0 || s.altstack_changed != 0 {
                        return Err(AnalysisError::UnbalancedIf);
                    }
                    self.stack_change(s)?;
                },
                Some(IfStackEle::ElseFlow(a, b)) => {
                    if a.stack_changed != b.stack_changed || a.altstack_changed
                        != b.altstack_changed {
                        return Err(AnalysisError::BranchMismatch);
                    }
                    self.stack_change(Self::min_status(a, b))?;
                },
            }
        } else if opcode == OP_PICK || opcode == OP_ROLL {
            match self.last_constant {
                Some(depth) => {
                    if depth < -0x7fff_fffei64 - 3 || depth > 0x7fff_fffei64 {
                        return Err(AnalysisError::Overflow);
                    }
                    let reach: i32 = (-(depth + 2)) as i32;
                    let drop: i32 = if opcode == OP_PICK {
                        0
                    } else {
                        -1
                    };
                    self.stack_change(Self::plain_stack_status(reach, drop))?;
                },
                None => {
                    return Err(AnalysisError::UnknownDepth);
                },
            }
        } else {
            let effect: StackStatus = Self::opcode_stack_table(opcode)?;
            self.stack_change(effect)?;
        }
        if OP_PUSHNUM_1 <= opcode && opcode <= OP_PUSHNUM_16 {
            self.last_constant = Some((opcode - 0x50) as i64);
        } else if opcode == OP_DUP {
        } else if opcode == OP_PUSHBYTES_0 {
            self.last_constant = Some(0);
        } else {
            self.last_constant = None;
        }
        Ok(())
    }

    /// Takes one data push into account.
    pub fn handle_push_slice(&mut self, bytes: &[u8]) -> (out: Result<(), AnalysisError>)
        ensures
            match out {
                Ok(()) => old(self)@.after_push(bytes@) == Ok::<AnalyzerState, AnalysisError>(
                    final(self)@,
                ),
                Err(e) => old(self)@.after_push(bytes@) == Err::<AnalyzerState, AnalysisError>(
                    e,
                ),
            },
    {
        proof {
            lemma_scriptint_value_range(bytes@);
        }
        match read_scriptint(bytes) {
            Some(x) => {
                if 0 <= x && x <= 1000 {
                    self.last_constant = Some(x);
                } else {
                    self.last_constant = None;
                }
            },
            None => {
                self.last_constant = None;
            },
        }
        self.stack_change(Self::plain_stack_status(0, 1))
    }

    /// Takes decoded instructions into account, one after the other.
    pub fn analyze_instructions(&mut self, items: &Vec<Located>) -> (out: Result<
        (),
        AnalysisError,
    >)
        ensures
            match out {
                Ok(()) => old(self)@.run_instructions(located_views(items@)) == Ok::<
                    AnalyzerState,
                    AnalysisError,
                >(final(self)@),
                Err(e) => old(self)@.run_instructions(located_views(items@)) == Err::<
                    AnalyzerState,
                    AnalysisError,
                >(e),
            },
    {
        let n: usize = items.len();
        let ghost views = located_views(items@);
        let ghost start = self@;
        let mut i: usize = 0;
        assert(views.take(0) =~= Seq::<(nat, InstructionView)>::empty());
        while i < n
            invariant
                n == items@.len(),
                i <= n,
                views == located_views(items@),
                start == old(self)@,
                start.run_instructions(views.take(i as int)) == Ok::<
                    AnalyzerState,
                    AnalysisError,
                >(self@),
            decreases n - i,
        {
            proof {
                assert(views.take(i + 1).drop_last() =~= views.take(i as int));
                assert(views.take(i + 1).last() == items@[i as int]@);
                lemma_run_instructions_fails(start, views, i + 1);
            }
            let step: Result<(), AnalysisError> = match &items[i].instruction {
                Instruction::Op(op) => self.handle_opcode(*op),
                Instruction::PushBytes(data) => self.handle_push_slice(data.as_slice()),
            };
            match step {
                Ok(()) => {},
                Err(e) => {
                    return Err(e);
                },
            }
            i += 1;
        }
        assert(views.take(n as int) =~= views);
        Ok(())
    }

    /// Takes the blocks of `builder` into account, whatever hint the script
    /// itself carries. A call of a fragment with a hint adds the hint; a
    /// call of one without is followed into the blocks of the fragment.
    pub fn merge_script(&mut self, builder: &StructuredScript) -> (out: Result<
        (),
        AnalysisError,
    >)
        requires
            builder.wf(),
        ensures
            match out {
                Ok(()) => old(self)@.run_blocks(builder@.subs, builder@.body.blocks) == Ok::<
                    AnalyzerState,
                    AnalysisError,
                >(final(self)@),
                Err(e) => old(self)@.run_blocks(builder@.subs, builder@.body.blocks) == Err::<
                    AnalyzerState,
                    AnalysisError,
                >(e),
            },
    {
        let ghost view = builder@;
        let ghost start = self@;
        let root: usize = builder.registered();
        let mut frames: Vec<Frame> = Vec::new();
        let mut cur: Frame = Frame { sub: root, next: 0, start: 0 };
        let ghost mut entries: Seq<AnalyzerState> = Seq::empty();
        let ghost mut cur_entry: AnalyzerState = start;
        proof {
            lemma_trace_start(view, start, root);
            assert(frames@ =~= Seq::<Frame>::empty());
        }
        loop
            invariant
                builder.wf(),
                view == builder@,
                start == old(self)@,
                root == view.subs.len(),
                trace_ok(view, frames@, entries, cur, cur_entry, self@, start),
            decreases frames_cost(view, frames@) + frame_cost(view, cur),
        {
            let ghost before = self@;
            let ghost old_frames = frames@;
            proof {
                lemma_trace_bounds(view, frames@, entries, cur, cur_entry, before, start);
            }
            let blocks: &Vec<Block> = builder.blocks_of(cur.sub);
            if cur.next == blocks.len() {
                match frames.pop() {
                    None => {
                        proof {
                            assert(old_frames =~= Seq::<Frame>::empty());
                            assert(entries =~= Seq::<AnalyzerState>::empty());
                            lemma_trace_end(view, cur, cur_entry, before, start);
                        }
                        return Ok(());
                    },
                    Some(parent) => {
                        proof {
                            lemma_trace_back(
                                view,
                                old_frames,
                                entries,
                                cur,
                                cur_entry,
                                before,
                                start,
                            );
                            assert(frames@ =~= old_frames.drop_last());
                            cur_entry = entries.last();
                            entries = entries.drop_last();
                        }
                        cur = parent;
                    },
                }
            } else {
                let ghost ctx = view.subs.take(cur.sub as int);
                let stepped: Frame = Frame { sub: cur.sub, next: cur.next + 1, start: 0 };
                assert(blocks_at(view, cur.sub as int)[cur.next as int]
                    == blocks@[cur.next as int]@);
                match &blocks[cur.next] {
                    Block::Script(bytes) => {
                        assert(before.run_block(ctx, blocks@[cur.next as int]@) == if decodable(
                            bytes@,
                        ) {
                            before.run_instructions(instructions_of(bytes@))
                        } else {
                            Err(AnalysisError::MalformedScript)
                        });
                        let step: Result<(), AnalysisError> = match instructions(
                            bytes.as_slice(),
                        ) {
                            Some(items) => self.analyze_instructions(&items),
                            None => Err(AnalysisError::MalformedScript),
                        };
                        match step {
                            Ok(()) => {
                                proof {
                                    lemma_trace_over(
                                        view,
                                        frames@,
                                        entries,
                                        cur,
                                        cur_entry,
                                        before,
                                        start,
                                        self@,
                                        stepped,
                                    );
                                }
                                cur = stepped;
                            },
                            Err(e) => {
                                proof {
                                    lemma_trace_fails(
                                        view,
                                        frames@,
                                        entries,
                                        cur,
                                        cur_entry,
                                        before,
                                        start,
                                        e,
                                    );
                                }
                                return Err(e);
                            },
                        }
                    },
                    Block::Call(id) => {
                        let p: usize = builder.resolve(cur.sub, cur.next, *id);
                        proof {
                            crate::builder::lemma_find(ctx, *id);
                            assert(ctx.take(p as int) =~= view.subs.take(p as int));
                            assert(ctx[p as int] == view.subs[p as int]);
                            assert(before.run_block(ctx, blocks@[cur.next as int]@)
                                == match view.subs[p as int].1.stack_hint {
                                Some(hint) => before.apply(hint),
                                None => before.run_blocks(
                                    view.subs.take(p as int),
                                    view.subs[p as int].1.blocks,
                                ),
                            });
                        }
                        match builder.hint_of(p) {
                            Some(hint) => {
                                match self.stack_change(hint) {
                                    Ok(()) => {
                                        proof {
                                            lemma_trace_over(
                                                view,
                                                frames@,
                                                entries,
                                                cur,
                                                cur_entry,
                                                before,
                                                start,
                                                self@,
                                                stepped,
                                            );
                                        }
                                        cur = stepped;
                                    },
                                    Err(e) => {
                                        proof {
                                            lemma_trace_fails(
                                                view,
                                                frames@,
                                                entries,
                                                cur,
                                                cur_entry,
                                                before,
                                                start,
                                                e,
                                            );
                                        }
                                        return Err(e);
                                    },
                                }
                            },
                            None => {
                                let begun: Frame = Frame { sub: p, next: 0, start: 0 };
                                proof {
                                    lemma_trace_into(
                                        view,
                                        frames@,
                                        entries,
                                        cur,
                                        cur_entry,
                                        before,
                                        start,
                                        *id,
                                        stepped,
                                        begun,
                                    );
                                    entries = entries.push(cur_entry);
                                    cur_entry = before;
                                }
                                frames.push(stepped);
                                cur = begun;
                            },
                        }
                    },
                }
            }
        }
    }

    /// Takes a script into account: its hint where it has one, its blocks
    /// where it has none.
    pub fn analyze(&mut self, script: &StructuredScript) -> (out: Result<(), AnalysisError>)
        requires
            script.wf(),
        ensures
            match out {
                Ok(()) => old(self)@.run_script(script@) == Ok::<AnalyzerState, AnalysisError>(
                    final(self)@,
                ),
                Err(e) => old(self)@.run_script(script@) == Err::<AnalyzerState, AnalysisError>(
                    e,
                ),
            },
    {
        match script.stack_hint() {
            Some(hint) => self.stack_change(hint),
            None => self.merge_script(script),
        }
    }

    /// Takes a script into account and returns the status reached.
    pub fn analyze_status(&mut self, script: &StructuredScript) -> (out: Result<
        StackStatus,
        AnalysisError,
    >)
        requires
            script.wf(),
        ensures
            out == match old(self)@.run_script(script@) {
                Ok(state) => state.outcome(),
                Err(e) => Err(e),
            },
            out is Ok ==> old(self)@.run_script(script@) == Ok::<AnalyzerState, AnalysisError>(
                final(self)@,
            ),
    {
        match self.analyze(script) {
            Ok(()) => self.get_status(),
            Err(e) => Err(e),
        }
    }

    /// Takes scripts into account, one after the other.
    pub fn analyze_blocks(&mut self, scripts: &Vec<StructuredScript>) -> (out: Result<
        (),
        AnalysisError,
    >)
        requires
            forall|i: int| 0 <= i < scripts@.len() ==> (#[trigger] scripts@[i]).wf(),
        ensures
            match out {
                Ok(()) => old(self)@.run_scripts(script_views(scripts@)) == Ok::<
                    AnalyzerState,
                    AnalysisError,
                >(final(self)@),
                Err(e) => old(self)@.run_scripts(script_views(scripts@)) == Err::<
                    AnalyzerState,
                    AnalysisError,
                >(e),
            },
    {
        let n: usize = scripts.len();
        let ghost start = self@;
        let ghost views = script_views(scripts@);
        let mut i: usize = 0;
        assert(views.take(0) =~= Seq::<ScriptView>::empty());
        while i < n
            invariant
                n == scripts@.len(),
                i <= n,
                views == script_views(scripts@),
                forall|k: int| 0 <= k < scripts@.len() ==> (#[trigger] scripts@[k]).wf(),
                start == old(self)@,
                start.run_scripts(views.take(i as int)) == Ok::<AnalyzerState, AnalysisError>(
                    self@,
                ),
            decreases n - i,
        {
            proof {
                assert(views.take(i + 1).drop_last() =~= views.take(i as int));
                assert(views.take(i + 1).last() == scripts@[i as int]@);
                lemma_run_scripts_fails(start, views, i + 1);
            }
            match self.analyze(&scripts[i]) {
                Ok(()) => {},
                Err(e) => {
                    return Err(e);
                },
            }
            i += 1;
        }
        assert(views.take(n as int) =~= views);
        Ok(())
    }

    /// Takes scripts into account, one after the other, and returns the
    /// status reached.
    pub fn analyze_blocks_status(&mut self, scripts: &Vec<StructuredScript>) -> (out: Result<
        StackStatus,
        AnalysisError,
    >)
        requires
            forall|i: int| 0 <= i < scripts@.len() ==> (#[trigger] scripts@[i]).wf(),
        ensures
            out == match old(self)@.run_scripts(script_views(scripts@)) {
                Ok(state) => state.outcome(),
                Err(e) => Err(e),
            },
            out is Ok ==> old(self)@.run_scripts(script_views(scripts@)) == Ok::<
                AnalyzerState,
                AnalysisError,
            >(final(self)@),
    {
        match self.analyze_blocks(scripts) {
            Ok(()) => self.get_status(),
            Err(e) => Err(e),
        }
    }

    /// A copy of this analyzer.
    pub fn duplicate(&self) -> (out: StackAnalyzer)
        ensures
            out@ == self@,
    {
        let n: usize = self.if_stack.len();
        let mut if_stack: Vec<IfStackEle> = Vec::new();
        let mut i: usize = 0;
        while i < n
            invariant
                n == self.if_stack@.len(),
                i <= n,
                if_stack@ == self.if_stack@.take(i as int),
            decreases n - i,
        {
            if_stack.push(self.if_stack[i]);
            assert(self.if_stack@.take(i + 1) =~= self.if_stack@.take(i as int).push(
                self.if_stack@[i as int],
            ));
            i += 1;
        }
        assert(self.if_stack@.take(n as int) =~= self.if_stack@);
        StackAnalyzer {
            stack_status: self.stack_status,
            if_stack,
            last_constant: self.last_constant,
        }
    }

    /// Tells where the analysis of the blocks of `script`, begun in the
    /// state of this analyzer, fails: the error, the position at which the
    /// failing block begins in the compiled script, and the label of the
    /// fragment that holds that position. `None` where the analysis
    /// succeeds. The analyzer itself stays as it is.
    pub fn locate_failure(&self, script: &StructuredScript) -> (out: Option<AnalysisFailure>)
        requires
            script.wf(),
        ensures
            match out {
                None => self@.run_blocks(script@.subs, script@.body.blocks) is Ok,
                Some(failure) => exists|i: int| #[trigger] failure_at(self@, script@, failure, i),
            },
    {
        let mut probe: StackAnalyzer = self.duplicate();
        let blocks: &Vec<Block> = script.blocks();
        let n: usize = blocks.len();
        let ghost subs = script@.subs;
        let ghost views = script@.body.blocks;
        let mut offset: usize = 0;
        let mut i: usize = 0;
        proof {
            script.lemma_wf_view();
            assert(views.take(0) =~= Seq::<BlockView>::empty());
        }
        while i < n
            invariant
                script.wf(),
                script@.wf(),
                subs == script@.subs,
                views == script@.body.blocks,
                views == block_views(blocks@),
                n == blocks@.len(),
                i <= n,
                self@.run_blocks(subs, views.take(i as int)) == Ok::<AnalyzerState, AnalysisError>(
                    probe@,
                ),
                offset == total_span(subs, views.take(i as int)),
            decreases n - i,
        {
            let ghost before = probe@;
            proof {
                assert(views.take(i + 1).drop_last() =~= views.take(i as int));
                assert(views.take(i + 1).last() == views[i as int]);
                assert(views[i as int] == blocks@[i as int]@);
                lemma_span_take(subs, views, i as int);
                lemma_span_take(subs, views, i + 1);
            }
            let (step, width): (Result<(), AnalysisError>, usize) = match &blocks[i] {
                Block::Script(bytes) => {
                    assert(before.run_block(subs, blocks@[i as int]@) == if decodable(bytes@) {
                        before.run_instructions(instructions_of(bytes@))
                    } else {
                        Err(AnalysisError::MalformedScript)
                    });
                    match instructions(bytes.as_slice()) {
                        Some(items) => (probe.analyze_instructions(&items), bytes.len()),
                        None => (Err(AnalysisError::MalformedScript), bytes.len()),
                    }
                },
                Block::Call(id) => {
                    proof {
                        lemma_find(subs, *id);
                    }
                    let piece: StructuredScript = script.get_structured_script(id);
                    assert(before.run_block(subs, blocks@[i as int]@) == before.run_script(
                        piece@,
                    ));
                    (probe.analyze(&piece), piece.len())
                },
            };
            match step {
                Ok(()) => {},
                Err(e) => {
                    let label: String = if offset < script.len() {
                        script.debug_info(offset)
                    } else {
                        script.debug_identifier().to_owned()
                    };
                    let failure = AnalysisFailure {
                        error: e,
                        position: offset,
                        debug_identifier: label,
                    };
                    assert(failure_at(self@, script@, failure, i as int));
                    return Some(failure);
                },
            }
            let size: usize = script.len();
            assert(width == crate::builder::span(subs, views[i as int]));
            assert(total_span(subs, views.take(i + 1)) <= total_span(subs, views));
            assert(size == total_span(subs, views));
            offset = offset + width;
            i += 1;
        }
        assert(views.take(n as int) =~= views);
        None
    }

    /// The status reached, which exists only outside all conditionals.
    pub fn get_status(&self) -> (out: Result<StackStatus, AnalysisError>)
        ensures
            out == self@.outcome(),
    {
        if self.if_stack.len() == 0 {
            Ok(self.stack_status)
        } else {
            Err(AnalysisError::UnclosedIf)
        }
    }
}

} // verus!
