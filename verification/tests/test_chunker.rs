use bitcoin::opcodes::all::{
    OP_ADD, OP_DROP, OP_ENDIF, OP_FROMALTSTACK, OP_IF, OP_NOP, OP_PUSHDATA1, OP_PUSHNUM_1,
    OP_ROLL, OP_TOALTSTACK,
};
use bitcoin_script::analyzer::AnalysisError;
use bitcoin_script::chunker::{Chunk, ChunkError, ChunkStats, UndoInfo};
use bitcoin_script::{Chunker, Script};

fn ops(script: Script, opcodes: &[bitcoin::Opcode]) -> Script {
    let mut script = script;
    for opcode in opcodes {
        script = script.push_opcode(opcode.to_u8());
    }
    script
}

fn ones(count: usize) -> Script {
    let mut script = Script::new("ones");
    for _ in 0..count {
        script = script.push_opcode(OP_PUSHNUM_1.to_u8());
    }
    script
}

#[test]
fn test_chunker_simple() {
    let sub_script = ones(2);

    let script = Script::new("test_chunker_simple")
        .push_env_script(sub_script.clone())
        .push_env_script(sub_script.clone())
        .push_env_script(sub_script.clone())
        .push_env_script(sub_script.clone());

    println!("{:?}", sub_script);

    let mut chunker = Chunker::new(script, 2, 1000);
    let chunk_borders = chunker.find_chunks().unwrap();

    assert_eq!(chunk_borders, vec![2, 2, 2, 2]);
}

#[test]
fn test_chunker_ignores_stack_hint_script() {
    let unsplittable_script = Script::new("unsplittable")
        .push_env_script(ops(Script::new("a"), &[OP_ADD, OP_ADD]))
        .push_env_script(ops(Script::new("b"), &[OP_ADD, OP_ADD]))
        .add_stack_hint(0, 0);

    let script = ops(
        Script::new("test_chunker_ignores_stack_hint_script"),
        &[OP_PUSHNUM_1, OP_PUSHNUM_1],
    )
    .push_env_script(unsplittable_script.clone());

    let mut chunker = Chunker::new(script, 4, 1000);
    let chunk_borders = chunker.find_chunks().unwrap();
    println!("Chunker: {:?}", chunker);

    assert_eq!(chunk_borders, vec![2, 4]);
}

#[test]
fn test_chunker_stack_limit() {
    let script = Script::new("test_chunker_stack_limit")
        .push_env_script(ops(
            Script::new("a"),
            &[OP_PUSHNUM_1, OP_PUSHNUM_1, OP_DROP, OP_PUSHNUM_1],
        ))
        .push_env_script(ops(Script::new("b"), &[OP_PUSHNUM_1, OP_ADD, OP_DROP]));

    let mut chunker = Chunker::new(script, 4, 1);
    let chunk_borders = chunker.find_chunks().unwrap();
    println!("Chunker: {:?}", chunker);

    assert_eq!(chunk_borders, vec![3, 4]);
}

#[test]
fn test_chunker_analysis() {
    let script = ops(
        Script::new("test_chunker_analysis"),
        &[
            OP_PUSHNUM_1,
            OP_PUSHNUM_1,
            OP_ADD,
            OP_PUSHNUM_1,
            OP_ROLL,
            OP_TOALTSTACK,
            OP_FROMALTSTACK,
        ],
    );

    let mut chunker = Chunker::new(script, 400, 1000);
    let chunk_borders = chunker.find_chunks().unwrap();
    println!("Chunker: {:?}", chunker);

    assert_eq!(chunk_borders, vec![7]);
}

fn guarded(body: Script) -> Script {
    ones(2)
        .push_opcode(OP_IF.to_u8())
        .push_env_script(body)
        .push_opcode(OP_ENDIF.to_u8())
}

#[test]
fn a_conditional_is_never_cut() {
    let script = guarded(ops(Script::new("body"), &[OP_NOP, OP_NOP]));
    assert_eq!(script.len(), 6);
    let mut chunker = Chunker::new(script.clone(), 5, 1000);
    let chunk_borders = chunker.find_chunks().unwrap();
    assert_eq!(chunk_borders, vec![2, 4]);
    for chunk in &chunker.chunks {
        let open: i128 = chunk.scripts.iter().map(|s| s.flow_balance()).sum();
        assert_eq!(open, 0);
    }
    assert_eq!(
        chunker.chunks[0].stats,
        ChunkStats {
            stack_input_size: 0,
            stack_output_size: 2,
            altstack_input_size: 0,
            altstack_output_size: 0,
        }
    );
    assert_eq!(
        chunker.chunks[1].stats,
        ChunkStats {
            stack_input_size: 2,
            stack_output_size: 1,
            altstack_input_size: 0,
            altstack_output_size: 0,
        }
    );
    assert_eq!(chunker.chunks[1].total_stack_size(), 1);
}

// A conditional without an else branch that changes the height of the stack
// has no one stack effect, so the analysis stops with an error.
#[test]
fn test_chunker_ifs_1() {
    let sub_script = ones(2);

    let script = Script::new("test_chunker_ifs_1")
        .push_env_script(sub_script.clone())
        .push_opcode(OP_IF.to_u8())
        .push_env_script(sub_script.clone())
        .push_opcode(OP_ENDIF.to_u8());

    println!("{:?}", sub_script);

    let mut chunker = Chunker::new(script, 5, 1000);
    let chunk_borders = chunker.find_chunks();
    println!("Chunker: {:?}", chunker);

    assert_eq!(
        chunk_borders,
        Err(ChunkError::Analysis(AnalysisError::UnbalancedIf))
    );
    assert_eq!(chunker.chunks.len(), 1);
    assert_eq!(chunker.chunks[0].size, 2);
}

#[test]
fn test_chunker_ifs_2() {
    let sub_script = ones(5);

    let script = Script::new("test_chunker_ifs_2")
        .push_opcode(OP_IF.to_u8())
        .push_env_script(sub_script.clone())
        .push_opcode(OP_ENDIF.to_u8())
        .push_env_script(sub_script.clone())
        .push_opcode(OP_IF.to_u8())
        .push_env_script(sub_script.clone())
        .push_opcode(OP_ENDIF.to_u8())
        .push_env_script(sub_script.clone());

    println!("{:?}", sub_script);

    let mut chunker = Chunker::new(script, 10, 1000);
    let chunk_borders = chunker.find_chunks();

    assert_eq!(
        chunk_borders,
        Err(ChunkError::Analysis(AnalysisError::UnbalancedIf))
    );
}

// `OP_ROLL` with no constant pushed before it cannot be analysed.
#[test]
fn test_compile_to_chunks() {
    let sub_script = ops(Script::new("sub"), &[OP_ADD, OP_ADD]);

    let script = Script::new("test_compile_to_chunks")
        .push_env_script(sub_script.clone())
        .push_opcode(OP_IF.to_u8())
        .push_opcode(OP_ROLL.to_u8())
        .push_env_script(sub_script.clone())
        .push_opcode(OP_ENDIF.to_u8());
    assert_eq!(
        script.clone().compile_to_chunks(5, 1000),
        Err(ChunkError::Analysis(AnalysisError::UnknownDepth))
    );

    let analysable = Script::new("test_compile_to_chunks")
        .push_env_script(ones(3))
        .push_opcode(OP_IF.to_u8())
        .push_opcode(OP_NOP.to_u8())
        .push_env_script(ops(Script::new("sub"), &[OP_NOP, OP_NOP]))
        .push_opcode(OP_ENDIF.to_u8());
    let (chunk_borders, chunks) = analysable.clone().compile_to_chunks(5, 1000).unwrap();
    println!("Chunk borders: {:?}", chunk_borders);
    let compiled_total_script = analysable.compile().unwrap();
    let mut compiled_chunk_script = vec![];
    for chunk in chunks {
        compiled_chunk_script.extend(chunk);
    }

    assert_eq!(compiled_chunk_script, compiled_total_script);
}

#[test]
fn chunks_put_together_are_the_script() {
    let body = ops(Script::new("body"), &[OP_NOP, OP_PUSHNUM_1, OP_DROP]);
    let piece = ones(3)
        .push_opcode(OP_IF.to_u8())
        .push_env_script(body.clone())
        .push_opcode(OP_ENDIF.to_u8())
        .push_env_script(body)
        .push_int(1234)
        .push_opcode(OP_DROP.to_u8())
        .push_opcode(OP_DROP.to_u8());
    let mut script = Script::new("whole");
    for _ in 0..7 {
        script = script.push_env_script(piece.clone());
    }
    let whole = script.clone().compile().unwrap();
    for target in [8usize, 9, 13, 20, 50, 1000] {
        let (sizes, chunks) = script.clone().compile_to_chunks(target, 1000).unwrap();
        assert_eq!(sizes.len(), chunks.len());
        let mut joined: Vec<u8> = Vec::new();
        for (size, chunk) in sizes.iter().zip(chunks.iter()) {
            assert_eq!(*size, chunk.len());
            assert!(*size > 0 && *size <= target);
            joined.extend(chunk);
        }
        assert_eq!(joined, whole, "target {}", target);
    }
}

#[test]
fn each_chunk_error_has_its_script() {
    let mut empty = Chunker::new(Script::new("empty"), 10, 10);
    assert_eq!(empty.find_chunks(), Err(ChunkError::EmptyChunk));
    let mut too_small = Chunker::new(ones(1).push_slice(&[1, 2, 3, 4, 5]), 3, 10);
    assert_eq!(too_small.find_chunks(), Err(ChunkError::EmptyChunk));
    let mut closes_first = Chunker::new(ops(ones(1), &[OP_ENDIF]), 10, 10);
    assert_eq!(closes_first.find_chunks(), Err(ChunkError::MoreEndifsThanIfs));
    let mut never_closed = Chunker::new(ops(ones(1), &[OP_IF, OP_NOP]), 10, 10);
    assert_eq!(never_closed.find_chunks(), Err(ChunkError::EmptyChunk));
    assert_eq!(never_closed.chunks.len(), 1);
    let mut takes = Chunker::new(ops(Script::new("t"), &[OP_DROP]), 10, 10);
    assert_eq!(takes.find_chunks(), Err(ChunkError::NegativeStack));
    let mut too_high = Chunker::new(ones(3), 10, 2);
    assert_eq!(too_high.find_chunks(), Err(ChunkError::EmptyChunk));
    assert_eq!(too_high.chunks.len(), 1);
    assert_eq!(too_high.chunks[0].size, 2);
    let cut_short = ones(2)
        .push_env_script(ones(2))
        .push_opcode(OP_PUSHDATA1.to_u8());
    let mut malformed = Chunker::new(cut_short, 2, 10);
    assert_eq!(malformed.find_chunks(), Err(ChunkError::MalformedScript));
    let mut open = UndoInfo::new(0, 0, None);
    open.num_unclosed_ifs = 1;
    let mut chunker = Chunker::new(Script::new("t"), 10, 10);
    assert!(matches!(chunker.undo(open), Err(ChunkError::UndoFailed)));
    let mut waiting = UndoInfo::new(0, 0, None);
    waiting.update(ones(1)).unwrap();
    assert_eq!(waiting.valid(10), Ok(true));
    assert_eq!(waiting.is_done(10), Err(ChunkError::UncommittedScripts));
    assert_eq!(waiting.valid(0), Ok(false));
    let mut nothing_left = Chunker::new(Script::new("t"), 10, 10);
    nothing_left.call_stack.clear();
    assert_eq!(nothing_left.find_chunks(), Ok(vec![]));
}

#[test]
fn heights_beyond_the_status_range_are_refused() {
    let mut chunker = Chunker::new(ones(1), 10, 10);
    chunker.chunks.push(Chunk::new(
        Vec::new(),
        1,
        ChunkStats {
            stack_input_size: 0,
            stack_output_size: usize::MAX,
            altstack_input_size: 0,
            altstack_output_size: 0,
        },
        None,
    ));
    assert_eq!(chunker.find_chunks(), Err(ChunkError::Overflow));
}

#[test]
fn a_chunk_never_leaves_a_recorded_conditional_open() {
    // The byte after a push opcode is data, whatever opcode it was pushed as.
    let closing = ops(Script::new("closing"), &[OP_ENDIF]).add_stack_hint(0, 0);
    let script = ops(Script::new("t"), &[OP_NOP])
        .push_env_script(closing)
        .push_opcode(0x01)
        .push_opcode(OP_IF.to_u8());
    assert_eq!(script.num_unclosed_ifs(), 0);
    let mut chunker = Chunker::new(script, 10, 0);
    assert_eq!(chunker.find_chunks(), Err(ChunkError::MoreEndifsThanIfs));
    assert_eq!(chunker.chunks.len(), 1);
    assert_eq!(chunker.chunks[0].size, 1);
    let open: i128 = chunker.chunks[0].scripts.iter().map(|s| s.flow_balance()).sum();
    assert_eq!(open, 0);
}

#[test]
fn a_script_that_fits_is_one_chunk() {
    let script = ops(ones(2), &[OP_ADD, OP_IF, OP_NOP, OP_ENDIF]).push_int(7);
    let whole = script.clone().compile().unwrap();
    let (sizes, chunks) = script.clone().compile_to_chunks(whole.len(), 1).unwrap();
    assert_eq!(sizes, vec![whole.len()]);
    assert_eq!(chunks, vec![whole.clone()]);
    let (sizes, chunks) = script.compile_to_chunks(1000, 1000).unwrap();
    assert_eq!(sizes, vec![7]);
    assert_eq!(chunks, vec![whole]);
}

#[test]
fn errors_of_the_whole_script_come_first() {
    assert_eq!(
        Script::new("empty").compile_to_chunks(10, 10),
        Err(ChunkError::EmptyChunk)
    );
    assert_eq!(
        ops(ones(1), &[OP_ENDIF]).compile_to_chunks(10, 10),
        Err(ChunkError::MoreEndifsThanIfs)
    );
    assert_eq!(
        ops(Script::new("t"), &[OP_ADD, OP_ROLL]).compile_to_chunks(10, 10),
        Err(ChunkError::Analysis(AnalysisError::UnknownDepth))
    );
    assert_eq!(
        ops(ones(1), &[OP_DROP, OP_DROP]).compile_to_chunks(10, 10),
        Err(ChunkError::NegativeStack)
    );
    let takes_one = ops(Script::new("inner"), &[OP_IF, OP_ENDIF]);
    let leaves_open = ops(ones(1), &[OP_IF])
        .push_env_script(ops(Script::new("closing"), &[OP_ENDIF]).add_stack_hint(0, 0));
    assert_eq!(leaves_open.num_unclosed_ifs(), 0);
    assert_eq!(
        leaves_open.compile_to_chunks(10, 10),
        Err(ChunkError::Analysis(AnalysisError::UnclosedIf))
    );
    assert_eq!(
        takes_one.compile_to_chunks(10, 10),
        Err(ChunkError::NegativeStack)
    );
}

#[test]
fn an_instruction_larger_than_the_target_cannot_be_cut() {
    let mut chunker = Chunker::new(Script::new("t").push_int(1234), 2, 1000);
    assert_eq!(chunker.find_chunks(), Err(ChunkError::EmptyChunk));
    assert!(chunker.chunks.is_empty());
}

#[test]
fn undo_puts_what_it_takes_out_on_top() {
    let mut info = UndoInfo::new(0, 0, None);
    info.update(ones(1)).unwrap();
    info.update(ops(Script::new("open"), &[OP_IF, OP_NOP])).unwrap();
    let mut chunker = Chunker::new(ops(Script::new("waiting"), &[OP_ADD]), 10, 10);
    let (kept, removed_len, status, constant) = chunker.undo(info).unwrap();
    let kept_bytes: Vec<u8> = kept
        .iter()
        .flat_map(|s| s.clone().compile().unwrap())
        .collect();
    assert_eq!(kept_bytes, vec![OP_PUSHNUM_1.to_u8()]);
    assert_eq!(removed_len, 2);
    assert_eq!(status.stack_changed, 1);
    assert_eq!(constant, Some(1));
    let open: i128 = kept.iter().map(|s| s.flow_balance()).sum();
    assert_eq!(open, 0);
    let waiting: Vec<Vec<u8>> = chunker
        .call_stack
        .iter()
        .map(|s| s.clone().compile().unwrap())
        .collect();
    assert_eq!(
        waiting,
        vec![
            vec![OP_ADD.to_u8()],
            vec![OP_NOP.to_u8()],
            vec![OP_IF.to_u8()]
        ]
    );
}
