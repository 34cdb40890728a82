use bitcoin::opcodes::all::{
    OP_ADD, OP_CAT, OP_DROP, OP_DUP, OP_ELSE, OP_ENDIF, OP_FROMALTSTACK, OP_GREATERTHAN, OP_IF,
    OP_IFDUP, OP_NOP, OP_PICK, OP_PUSHDATA1, OP_RESERVED, OP_ROLL, OP_SUB, OP_TOALTSTACK,
};
use bitcoin_script::analyzer::{AnalysisError, AnalysisFailure, StackStatus};
use bitcoin_script::Script;
use bitcoin_script::StackAnalyzer;

fn ops(script: Script, opcodes: &[bitcoin::Opcode]) -> Script {
    let mut script = script;
    for opcode in opcodes {
        script = script.push_opcode(opcode.to_u8());
    }
    script
}

#[test]
fn test_plain() {
    let script = ops(Script::new("test_plain"), &[OP_ADD, OP_ADD]).push_int(1);
    let mut analyzer = StackAnalyzer::new();
    let status = analyzer.analyze_status(&script).unwrap();
    assert_eq!(status.deepest_stack_accessed, -3);
    assert_eq!(status.stack_changed, -1);
}

#[test]
fn test_two_scripts() {
    let script = Script::new("test_two_scripts")
        .push_env_script(ops(Script::new("a"), &[OP_ADD]))
        .push_env_script(ops(Script::new("b"), &[OP_ADD]));
    let mut analyzer = StackAnalyzer::new();
    let status = analyzer.analyze_status(&script).unwrap();
    assert_eq!(status.deepest_stack_accessed, -3);
    assert_eq!(status.stack_changed, -2);
}

fn inner_fn1() -> Script {
    let script = Script::new("inner_fn1").push_int(10);
    let script = ops(script, &[OP_ROLL]).push_int(2);
    ops(script, &[OP_ROLL, OP_ADD])
}

fn inner_fn2() -> Script {
    let script = Script::new("inner_fn2").push_int(1);
    let script = ops(script, &[OP_DUP, OP_TOALTSTACK]).push_int(2);
    ops(
        script,
        &[
            OP_DUP,
            OP_TOALTSTACK,
            OP_GREATERTHAN,
            OP_IF,
            OP_FROMALTSTACK,
            OP_FROMALTSTACK,
            OP_ADD,
            OP_ELSE,
            OP_FROMALTSTACK,
            OP_FROMALTSTACK,
            OP_SUB,
            OP_ENDIF,
        ],
    )
}

#[test]
fn test_inner1() {
    let script = inner_fn1();
    let mut analyzer = StackAnalyzer::new();
    let status = script.get_stack(&mut analyzer).unwrap();
    assert_eq!(
        [status.deepest_stack_accessed, status.stack_changed],
        [-11, -1]
    );
}

#[test]
fn test_deepthest() {
    let script = Script::new("test_deepthest")
        .push_env_script(inner_fn1())
        .push_env_script(inner_fn1())
        .push_opcode(OP_ADD.to_u8());
    let mut analyzer = StackAnalyzer::new();
    let status = script.get_stack(&mut analyzer).unwrap();
    assert_eq!(
        [status.deepest_stack_accessed, status.stack_changed],
        [-12, -3]
    );

    let script = Script::new("test_deepthest")
        .push_env_script(inner_fn2())
        .push_env_script(inner_fn2())
        .push_opcode(OP_ADD.to_u8());
    let mut analyzer = StackAnalyzer::new();
    let status = script.get_stack(&mut analyzer).unwrap();
    assert_eq!(
        [status.deepest_stack_accessed, status.stack_changed],
        [0, 1]
    );
}

#[test]
fn test_deepthest2() {
    let script = Script::new("test_deepthest2").push_int(1);
    let script = ops(script, &[OP_IF]).push_int(120);
    let script = ops(script, &[OP_ADD, OP_ENDIF]);
    let mut analyzer = StackAnalyzer::new();
    let status = script.get_stack(&mut analyzer).unwrap();
    assert_eq!(
        [status.deepest_stack_accessed, status.stack_changed],
        [-1, 0]
    );
}

#[test]
fn test_altstack() {
    let script = ops(
        Script::new("test_altstack"),
        &[OP_FROMALTSTACK, OP_FROMALTSTACK, OP_FROMALTSTACK],
    );
    let mut analyzer = StackAnalyzer::new();
    let status = script.get_stack(&mut analyzer).unwrap();
    assert_eq!(
        status,
        StackStatus {
            deepest_stack_accessed: 0,
            stack_changed: 3,
            deepest_altstack_accessed: -3,
            altstack_changed: -3,
        }
    );

    let script = ops(
        Script::new("test_altstack"),
        &[OP_TOALTSTACK, OP_TOALTSTACK, OP_TOALTSTACK],
    );
    let mut analyzer = StackAnalyzer::new();
    let status = script.get_stack(&mut analyzer).unwrap();
    assert_eq!(
        status,
        StackStatus {
            deepest_stack_accessed: -3,
            stack_changed: -3,
            deepest_altstack_accessed: 0,
            altstack_changed: 3,
        }
    );
}

#[test]
fn test_altstack_and_opif() {
    let script = ops(
        Script::new("test_altstack_and_opif"),
        &[
            OP_IF,
            OP_FROMALTSTACK,
            OP_SUB,
            OP_ELSE,
            OP_FROMALTSTACK,
            OP_FROMALTSTACK,
            OP_ADD,
            OP_TOALTSTACK,
            OP_ENDIF,
        ],
    );
    let mut analyzer = StackAnalyzer::new();
    let status = script.get_stack(&mut analyzer).unwrap();
    assert_eq!(
        status,
        StackStatus {
            deepest_stack_accessed: -2,
            stack_changed: -1,
            deepest_altstack_accessed: -2,
            altstack_changed: -1,
        }
    );
}

fn analyze(script: &Script) -> Result<StackStatus, AnalysisError> {
    StackAnalyzer::new().analyze_status(script)
}

#[test]
fn three_adds_reach_four_deep() {
    let script = ops(Script::new("t"), &[OP_ADD, OP_ADD, OP_ADD]);
    let status = analyze(&script).unwrap();
    assert_eq!(status.deepest_stack_accessed, -4);
    assert_eq!(status.stack_changed, -3);
    assert_eq!(status.deepest_altstack_accessed, 0);
    assert_eq!(status.altstack_changed, 0);
}

#[test]
fn one_by_one_is_the_same_as_all_at_once() {
    let first = ops(Script::new("a"), &[OP_ADD, OP_DUP, OP_TOALTSTACK]);
    let second = ops(Script::new("b"), &[OP_ADD, OP_FROMALTSTACK, OP_ADD, OP_ADD]);
    let whole = ops(
        Script::new("c"),
        &[
            OP_ADD,
            OP_DUP,
            OP_TOALTSTACK,
            OP_ADD,
            OP_FROMALTSTACK,
            OP_ADD,
            OP_ADD,
        ],
    );
    let mut analyzer = StackAnalyzer::new();
    analyzer.analyze(&first).unwrap();
    analyzer.analyze(&second).unwrap();
    assert_eq!(analyzer.get_status().unwrap(), analyze(&whole).unwrap());
    let mut analyzer = StackAnalyzer::new();
    let listed = analyzer
        .analyze_blocks_status(&vec![first, second])
        .unwrap();
    assert_eq!(listed, analyze(&whole).unwrap());
}

#[test]
fn mismatched_branches_are_an_error() {
    let script = ops(
        Script::new("t"),
        &[OP_IF, OP_DUP, OP_ELSE, OP_DROP, OP_ENDIF],
    );
    assert_eq!(analyze(&script), Err(AnalysisError::BranchMismatch));
    let script = ops(
        Script::new("t"),
        &[OP_IF, OP_TOALTSTACK, OP_ELSE, OP_DROP, OP_ENDIF],
    );
    assert_eq!(analyze(&script), Err(AnalysisError::BranchMismatch));
    let script = ops(
        Script::new("t"),
        &[OP_IF, OP_DROP, OP_ELSE, OP_DROP, OP_ENDIF],
    );
    assert_eq!(
        analyze(&script),
        Ok(StackStatus {
            deepest_stack_accessed: -2,
            stack_changed: -2,
            deepest_altstack_accessed: 0,
            altstack_changed: 0,
        })
    );
}

#[test]
fn each_error_has_its_script() {
    let debug = ops(Script::new("t"), &[OP_RESERVED]);
    assert_eq!(analyze(&debug), Err(AnalysisError::DebugMarker));
    let lone_else = ops(Script::new("t"), &[OP_ELSE]);
    assert_eq!(analyze(&lone_else), Err(AnalysisError::ElseWithoutIf));
    let two_elses = ops(Script::new("t"), &[OP_IF, OP_ELSE, OP_ELSE]);
    assert_eq!(analyze(&two_elses), Err(AnalysisError::RepeatedElse));
    let lone_endif = ops(Script::new("t"), &[OP_ENDIF]);
    assert_eq!(analyze(&lone_endif), Err(AnalysisError::EndifWithoutIf));
    let growing_if = ops(Script::new("t"), &[OP_IF, OP_DUP, OP_ENDIF]);
    assert_eq!(analyze(&growing_if), Err(AnalysisError::UnbalancedIf));
    let blind_roll = ops(Script::new("t"), &[OP_ADD, OP_ROLL]);
    assert_eq!(analyze(&blind_roll), Err(AnalysisError::UnknownDepth));
    let blind_pick = ops(Script::new("t"), &[OP_PICK]);
    assert_eq!(analyze(&blind_pick), Err(AnalysisError::UnknownDepth));
    let ifdup = ops(Script::new("t"), &[OP_IFDUP]);
    assert_eq!(analyze(&ifdup), Err(AnalysisError::DataDependent));
    let cat = ops(Script::new("t"), &[OP_CAT]);
    assert_eq!(analyze(&cat), Err(AnalysisError::UnsupportedOpcode));
    let open = ops(Script::new("t"), &[OP_IF]);
    assert_eq!(analyze(&open), Err(AnalysisError::UnclosedIf));
    let cut_short = ops(Script::new("t"), &[OP_PUSHDATA1]);
    assert_eq!(analyze(&cut_short), Err(AnalysisError::MalformedScript));
    let takes_too_much = Script::new("t")
        .push_opcode(OP_NOP.to_u8())
        .push_env_script(ops(Script::new("hinted"), &[OP_ADD]).add_stack_hint(0, -5))
        .push_opcode(OP_ADD.to_u8());
    assert_eq!(
        analyze(&takes_too_much),
        Err(AnalysisError::NegativeIntermediateStack)
    );
    let huge = ops(Script::new("hinted"), &[OP_DUP]).add_stack_hint(0, i32::MAX);
    let too_high = Script::new("t")
        .push_opcode(OP_DUP.to_u8())
        .push_env_script(huge.clone())
        .push_env_script(huge);
    assert_eq!(analyze(&too_high), Err(AnalysisError::Overflow));
}

#[test]
fn pick_and_roll_use_the_constant_before_them() {
    let pick = ops(Script::new("t").push_int(3), &[OP_PICK]);
    assert_eq!(
        analyze(&pick).unwrap(),
        StackStatus {
            deepest_stack_accessed: -4,
            stack_changed: 1,
            deepest_altstack_accessed: 0,
            altstack_changed: 0,
        }
    );
    let roll = ops(Script::new("t").push_int(0), &[OP_ROLL]);
    assert_eq!(
        analyze(&roll).unwrap(),
        StackStatus {
            deepest_stack_accessed: -1,
            stack_changed: 0,
            deepest_altstack_accessed: 0,
            altstack_changed: 0,
        }
    );
    let far = ops(Script::new("t").push_int(1000), &[OP_PICK]);
    assert_eq!(analyze(&far).unwrap().deepest_stack_accessed, -1001);
    let too_far = ops(Script::new("t").push_int(1001), &[OP_PICK]);
    assert_eq!(analyze(&too_far), Err(AnalysisError::UnknownDepth));
    let through_dup = ops(Script::new("t").push_int(2), &[OP_DUP, OP_PICK]);
    assert_eq!(analyze(&through_dup).unwrap().deepest_stack_accessed, -2);
    let resumed = StackAnalyzer::with(5, 0, Some(2))
        .analyze_status(&ops(Script::new("t"), &[OP_ROLL]))
        .unwrap();
    assert_eq!(
        [resumed.deepest_stack_accessed, resumed.stack_changed],
        [0, 4]
    );
}

#[test]
fn an_accurate_hint_changes_nothing() {
    let plain = ops(
        Script::new("t"),
        &[OP_ADD, OP_DUP, OP_TOALTSTACK, OP_FROMALTSTACK, OP_FROMALTSTACK],
    );
    let found = analyze(&plain).unwrap();
    let hinted = plain
        .clone()
        .add_stack_hint(found.deepest_stack_accessed, found.stack_changed)
        .add_altstack_hint(found.deepest_altstack_accessed, found.altstack_changed);
    assert_eq!(analyze(&hinted).unwrap(), found);
    let outer_plain = Script::new("o")
        .push_opcode(OP_DUP.to_u8())
        .push_env_script(plain);
    let outer_hinted = Script::new("o")
        .push_opcode(OP_DUP.to_u8())
        .push_env_script(hinted);
    assert_eq!(analyze(&outer_hinted), analyze(&outer_plain));
}

#[test]
fn a_hint_replaces_analysis() {
    let unanalyzable = ops(Script::new("t"), &[OP_ROLL, OP_IFDUP]);
    assert!(analyze(&unanalyzable).is_err());
    let hinted = unanalyzable.add_stack_hint(-7, 3);
    assert_eq!(
        analyze(&hinted).unwrap(),
        StackStatus {
            deepest_stack_accessed: -7,
            stack_changed: 3,
            deepest_altstack_accessed: 0,
            altstack_changed: 0,
        }
    );
    let wrong = ops(Script::new("t"), &[OP_ADD]).add_stack_hint(0, 10);
    assert_eq!(analyze(&wrong).unwrap().stack_changed, 10);
}

#[test]
fn final_states() {
    let good = StackStatus {
        deepest_stack_accessed: 0,
        stack_changed: 1,
        deepest_altstack_accessed: 0,
        altstack_changed: 0,
    };
    assert!(good.is_valid_final_state_without_inputs());
    assert!(good.is_valid_final_state_with_inputs());
    assert_eq!(good.total_stack(), 1);
    let with_inputs = StackStatus {
        deepest_stack_accessed: -2,
        ..good
    };
    assert!(!with_inputs.is_valid_final_state_without_inputs());
    assert!(with_inputs.is_valid_final_state_with_inputs());
    let leaks = StackStatus {
        altstack_changed: 1,
        ..good
    };
    assert!(!leaks.is_valid_final_state_without_inputs());
    assert!(!leaks.is_valid_final_state_with_inputs());
    let reads_alt = StackStatus {
        deepest_altstack_accessed: -1,
        ..good
    };
    assert!(!reads_alt.is_valid_final_state_with_inputs());
    assert_eq!(StackStatus::default().total_stack(), 0);
}

#[test]
fn a_push_of_no_number_forgets_the_constant() {
    let long = ops(Script::new("t").push_int(3).push_slice(&[7u8; 20]), &[OP_PICK]);
    assert_eq!(analyze(&long), Err(AnalysisError::UnknownDepth));
    let not_minimal = ops(Script::new("t").push_int(3).push_slice(&[5, 0]), &[OP_PICK]);
    assert_eq!(analyze(&not_minimal), Err(AnalysisError::UnknownDepth));
    let five_bytes = ops(
        Script::new("t").push_int(3).push_int(0x1_0000_0000),
        &[OP_ROLL],
    );
    assert_eq!(analyze(&five_bytes), Err(AnalysisError::UnknownDepth));
    let number = ops(Script::new("t").push_int(3).push_int(700), &[OP_PICK]);
    assert_eq!(analyze(&number).unwrap().deepest_stack_accessed, -700);
}

#[test]
fn a_failure_is_located() {
    let deep = ops(Script::new("deep"), &[OP_DUP, OP_ROLL]);
    let script = ops(Script::new("outer"), &[OP_ADD, OP_ADD])
        .push_env_script(ops(Script::new("fine"), &[OP_DUP]))
        .push_env_script(deep)
        .push_opcode(OP_ADD.to_u8());
    let analyzer = StackAnalyzer::new();
    assert_eq!(
        analyzer.locate_failure(&script),
        Some(AnalysisFailure {
            error: AnalysisError::UnknownDepth,
            position: 3,
            debug_identifier: "outer deep".to_string(),
        })
    );
    assert_eq!(analyze(&script), Err(AnalysisError::UnknownDepth));
    let fine = ops(Script::new("fine"), &[OP_ADD, OP_DUP]);
    assert_eq!(analyzer.locate_failure(&fine), None);
    let first = ops(Script::new("first"), &[OP_RESERVED]);
    assert_eq!(
        analyzer.locate_failure(&first),
        Some(AnalysisFailure {
            error: AnalysisError::DebugMarker,
            position: 0,
            debug_identifier: "first".to_string(),
        })
    );
    let resumed = StackAnalyzer::with(0, 0, Some(1));
    assert_eq!(resumed.locate_failure(&ops(Script::new("t"), &[OP_PICK])), None);
}
