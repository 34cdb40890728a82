//! Script bytes as a sequence of instructions.
//!
//! Decoding is the work of the `bitcoin` crate. What it returns is given a
//! name here, and the functions of this module say what they do in terms of
//! that name.

use vstd::prelude::*;
use bitcoin::script::Script;

verus! {

/// One decoded instruction: an opcode that pushes no data, or a data push
/// with the bytes it pushes.
#[derive(Debug, Clone, PartialEq, Eq)]
pub enum Instruction {
    Op(u8),
    PushBytes(Vec<u8>),
}

/// An instruction as a mathematical value.
pub enum InstructionView {
    Op(u8),
    PushBytes(Seq<u8>),
}

impl View for Instruction {
    type V = InstructionView;

    open spec fn view(&self) -> InstructionView {
        match self {
            Instruction::Op(op) => InstructionView::Op(*op),
            Instruction::PushBytes(data) => InstructionView::PushBytes(data@),
        }
    }
}

/// An instruction and the index of its first byte in the script.
#[derive(Debug, Clone, PartialEq, Eq)]
pub struct Located {
    pub at: usize,
    pub instruction: Instruction,
}

impl View for Located {
    type V = (nat, InstructionView);

    open spec fn view(&self) -> (nat, InstructionView) {
        (self.at as nat, self.instruction@)
    }
}

/// The instructions that `bitcoin`'s decoder reads from `bytes`, each with
/// the index of its first byte, or `None` where the decoder reports an
/// error.
pub uninterp spec fn script_instructions(bytes: Seq<u8>) -> Option<Seq<(nat, InstructionView)>>;

/// Whether `bitcoin`'s decoder, told to insist on minimal pushes, reads
/// `bytes` to the end without an error.
pub uninterp spec fn pushes_are_minimal(bytes: Seq<u8>) -> bool;

/// The views of a sequence of located instructions.
pub open spec fn located_views(items: Seq<Located>) -> Seq<(nat, InstructionView)> {
    items.map_values(|l: Located| l@)
}

/// Whether the positions in `items` start at zero, grow strictly and stay
/// below `len`, and there are no instructions only where there are no
/// bytes: whether the positions cut a script of `len` bytes into one
/// non-empty piece per instruction.
pub open spec fn orderly(items: Seq<(nat, InstructionView)>, len: nat) -> bool {
    &&& items.len() == 0 ==> len == 0
    &&& items.len() > 0 ==> items[0].0 == 0
    &&& forall|i: int| 0 <= i < items.len() ==> (#[trigger] items[i]).0 < len
    &&& forall|i: int|
        0 <= i < items.len() - 1 ==> (#[trigger] items[i]).0 < items[i + 1].0
}

/// Whether `bytes` decode into instructions whose positions are orderly.
pub open spec fn decodable(bytes: Seq<u8>) -> bool {
    match script_instructions(bytes) {
        Some(items) => orderly(items, bytes.len()),
        None => false,
    }
}

/// The instructions of decodable bytes.
pub open spec fn instructions_of(bytes: Seq<u8>) -> Seq<(nat, InstructionView)> {
    script_instructions(bytes).unwrap()
}

/// Runs `bitcoin::script::Script::instruction_indices` over `bytes` and
/// copies what it yields. Trusted: only that the result is what the name
/// `script_instructions` stands for.
#[verifier::external_body]
fn decode_script(bytes: &[u8]) -> (out: Option<Vec<Located>>)
    ensures
        match out {
            Some(items) => script_instructions(bytes@) == Some(located_views(items@)),
            None => script_instructions(bytes@) is None,
        },
{
    let mut items = Vec::new();
    for step in Script::from_bytes(bytes).instruction_indices() {
        match step {
            Ok((at, bitcoin::script::Instruction::Op(op))) => {
                items.push(Located { at, instruction: Instruction::Op(op.to_u8()) })
            },
            Ok((at, bitcoin::script::Instruction::PushBytes(data))) => {
                items.push(Located { at, instruction: Instruction::PushBytes(data.as_bytes().to_vec()) })
            },
            Err(_) => return None,
        }
    }
    Some(items)
}

/// Runs `bitcoin::script::Script::instructions_minimal` over `bytes`.
/// Trusted: only that the result is what the name `pushes_are_minimal`
/// stands for.
#[verifier::external_body]
fn decode_minimal(bytes: &[u8]) -> (out: bool)
    ensures
        out == pushes_are_minimal(bytes@),
{
    Script::from_bytes(bytes).instructions_minimal().all(|step| step.is_ok())
}

/// Whether the positions of `items` are orderly for a script of `len` bytes.
pub fn positions_are_orderly(items: &Vec<Located>, len: usize) -> (out: bool)
    ensures
        out == orderly(located_views(items@), len as nat),
{
    let n: usize = items.len();
    if n == 0 {
        return len == 0;
    }
    if items[0].at != 0 {
        assert(located_views(items@)[0].0 != 0);
        return false;
    }
    let mut i: usize = 0;
    while i < n
        invariant
            n == items.len(),
            i <= n,
            forall|k: int| 0 <= k < i ==> (#[trigger] located_views(items@)[k]).0 < len,
            forall|k: int|
                0 <= k < i && k < n - 1 ==> (#[trigger] located_views(items@)[k]).0
                    < located_views(items@)[k + 1].0,
        decreases n - i,
    {
        if items[i].at >= len {
            assert(!(located_views(items@)[i as int].0 < len));
            return false;
        }
        if i + 1 < n && items[i].at >= items[i + 1].at {
            assert(!(located_views(items@)[i as int].0 < located_views(items@)[i + 1].0));
            return false;
        }
        i += 1;
    }
    true
}

/// Decodes `bytes`. Returns the instructions with their positions where the
/// bytes are decodable, and `None` where they are not.
pub fn instructions(bytes: &[u8]) -> (out: Option<Vec<Located>>)
    ensures
        match out {
            Some(items) => decodable(bytes@) && located_views(items@) == instructions_of(bytes@),
            None => !decodable(bytes@),
        },
{
    match decode_script(bytes) {
        Some(items) => {
            if positions_are_orderly(&items, bytes.len()) {
                Some(items)
            } else {
                None
            }
        },
        None => None,
    }
}

/// Whether every push in `bytes` has the shortest form there is for it.
pub fn is_minimal(bytes: &[u8]) -> (out: bool)
    ensures
        out == pushes_are_minimal(bytes@),
{
    decode_minimal(bytes)
}

/// The byte sequences `pieces` one after the other.
pub open spec fn joined(pieces: Seq<Seq<u8>>) -> Seq<u8>
    decreases pieces.len(),
{
    if pieces.len() == 0 {
        Seq::<u8>::empty()
    } else {
        joined(pieces.drop_last()) + pieces.last()
    }
}

/// The views of a sequence of byte vectors.
pub open spec fn byte_views(pieces: Seq<Vec<u8>>) -> Seq<Seq<u8>> {
    pieces.map_values(|p: Vec<u8>| p@)
}

/// The end of the instruction at `i`: the position of the next one, or the
/// length of the script.
pub open spec fn end_of(items: Seq<(nat, InstructionView)>, len: nat, i: int) -> nat {
    if i + 1 < items.len() {
        items[i + 1].0
    } else {
        len
    }
}

/// Cuts `bytes` at the positions of `items`: one piece per instruction, from
/// its position to the position of the next.
pub fn cut_at(bytes: &[u8], items: &Vec<Located>) -> (out: Vec<Vec<u8>>)
    requires
        orderly(located_views(items@), bytes@.len()),
    ensures
        out@.len() == items@.len(),
        forall|i: int|
            0 <= i < out@.len() ==> (#[trigger] out@[i])@ == bytes@.subrange(
                located_views(items@)[i].0 as int,
                end_of(located_views(items@), bytes@.len(), i) as int,
            ),
        forall|i: int| 0 <= i < out@.len() ==> (#[trigger] out@[i])@.len() > 0,
        joined(byte_views(out@)) == bytes@,
{
    let n: usize = items.len();
    let len: usize = bytes.len();
    let ghost views = located_views(items@);
    let mut out: Vec<Vec<u8>> = Vec::new();
    let mut i: usize = 0;
    assert(byte_views(out@) =~= Seq::<Seq<u8>>::empty());
    assert(bytes@.take(0) =~= Seq::<u8>::empty());
    while i < n
        invariant
            n == items@.len(),
            len == bytes@.len(),
            i <= n,
            views == located_views(items@),
            orderly(views, len as nat),
            out@.len() == i,
            forall|k: int|
                0 <= k < i ==> (#[trigger] out@[k])@ == bytes@.subrange(
                    views[k].0 as int,
                    end_of(views, len as nat, k) as int,
                ),
            forall|k: int| 0 <= k < i ==> (#[trigger] out@[k])@.len() > 0,
            joined(byte_views(out@)) == bytes@.take(
                if i < n {
                    views[i as int].0 as int
                } else {
                    len as int
                },
            ),
        decreases n - i,
    {
        let ghost before = out@;
        assert(views[i as int] == items@[i as int]@);
        let start: usize = items[i].at;
        let end: usize = if i + 1 < n {
            assert(views[i + 1] == items@[i + 1]@);
            items[i + 1].at
        } else {
            len
        };
        assert(views[i as int].0 < len);
        assert(start < end <= len) by {
            if i + 1 < n {
                assert(views[i as int].0 < views[i + 1].0);
                assert(views[i + 1].0 < len);
            }
        }
        let mut piece: Vec<u8> = Vec::new();
        let mut k: usize = start;
        while k < end
            invariant
                start <= k <= end,
                end <= len,
                len == bytes@.len(),
                piece@ == bytes@.subrange(start as int, k as int),
            decreases end - k,
        {
            piece.push(bytes[k]);
            assert(bytes@.subrange(start as int, k + 1) =~= bytes@.subrange(
                start as int,
                k as int,
            ).push(bytes@[k as int]));
            k += 1;
        }
        out.push(piece);
        proof {
            assert(byte_views(out@).drop_last() =~= byte_views(before));
            assert(byte_views(out@).last() == bytes@.subrange(start as int, end as int));
            assert(bytes@.take(start as int) + bytes@.subrange(start as int, end as int)
                =~= bytes@.take(end as int));
        }
        i += 1;
    }
    assert(bytes@.take(len as int) =~= bytes@);
    out
}

/// Cuts `bytes` into one piece per instruction. Returns `None` where the
/// bytes are not decodable.
pub fn split_instructions(bytes: &[u8]) -> (out: Option<Vec<Vec<u8>>>)
    ensures
        match out {
            Some(pieces) => {
                &&& decodable(bytes@)
                &&& pieces@.len() == instructions_of(bytes@).len()
                &&& joined(byte_views(pieces@)) == bytes@
                &&& forall|i: int|
                    0 <= i < pieces@.len() ==> (#[trigger] pieces@[i])@ == bytes@.subrange(
                        instructions_of(bytes@)[i].0 as int,
                        end_of(instructions_of(bytes@), bytes@.len(), i) as int,
                    )
            },
            None => !decodable(bytes@),
        },
{
    match instructions(bytes) {
        Some(items) => Some(cut_at(bytes, &items)),
        None => None,
    }
}

} // verus!
