use bitcoin::opcodes::all::{
    OP_ADD, OP_DROP, OP_DUP, OP_ELSE, OP_ENDIF, OP_IF, OP_NOP, OP_NOTIF, OP_PUSHNUM_5,
};
use bitcoin_script::builder::{calculate_hash, Block, ScriptError};
use bitcoin_script::instruction::{instructions, is_minimal, split_instructions, Instruction};
use bitcoin_script::Script;
use std::str::FromStr;

fn ops(script: Script, opcodes: &[bitcoin::Opcode]) -> Script {
    let mut script = script;
    for opcode in opcodes {
        script = script.push_opcode(opcode.to_u8());
    }
    script
}

#[test]
fn a_lone_if_is_left_open() {
    let script = ops(Script::new("t"), &[OP_IF]);
    assert_eq!(script.num_unclosed_ifs(), 1);
    assert_eq!(script.unclosed_if_positions(), vec![0]);
    assert_eq!(script.extra_endif_positions(), Vec::<usize>::new());
    assert!(script.contains_flow_op());
    let script = ops(Script::new("t"), &[OP_NOTIF]);
    assert_eq!(script.num_unclosed_ifs(), 1);
    assert_eq!(script.unclosed_if_positions(), vec![0]);
}

#[test]
fn a_lone_endif_closes_nothing() {
    let script = ops(Script::new("t"), &[OP_ENDIF]);
    assert_eq!(script.num_unclosed_ifs(), -1);
    assert_eq!(script.extra_endif_positions(), vec![0]);
    assert_eq!(script.unclosed_if_positions(), Vec::<usize>::new());
    assert_eq!(script.flow_balance(), -1);
    assert!(script.contains_flow_op());
}

#[test]
fn conditionals_are_kept_track_of() {
    let script = ops(
        Script::new("t"),
        &[OP_NOP, OP_IF, OP_NOP, OP_IF, OP_NOP, OP_ENDIF, OP_ELSE, OP_NOP, OP_ENDIF, OP_IF],
    );
    assert_eq!(script.len(), 10);
    assert_eq!(script.num_unclosed_ifs(), 1);
    assert_eq!(script.unclosed_if_positions(), vec![9]);
    assert_eq!(script.max_op_if_interval(), (1, 8));
    let plain = ops(Script::new("t"), &[OP_NOP, OP_ADD]);
    assert!(!plain.contains_flow_op());
    assert_eq!(plain.max_op_if_interval(), (0, 0));
}

#[test]
fn a_pushed_script_closes_open_conditionals() {
    let opener = ops(Script::new("opener"), &[OP_NOP, OP_IF, OP_IF]);
    let closer = ops(
        Script::new("closer"),
        &[OP_NOP, OP_ENDIF, OP_NOP, OP_NOP, OP_ENDIF, OP_ENDIF, OP_IF],
    );
    assert_eq!(closer.num_unclosed_ifs(), -2);
    assert_eq!(closer.extra_endif_positions(), vec![1, 4, 5]);
    assert_eq!(closer.unclosed_if_positions(), vec![6]);
    let joined = opener.push_env_script(closer);
    assert_eq!(joined.len(), 10);
    assert_eq!(joined.num_unclosed_ifs(), 0);
    assert_eq!(joined.unclosed_if_positions(), vec![9]);
    assert_eq!(joined.extra_endif_positions(), vec![8]);
    assert_eq!(joined.max_op_if_interval(), (1, 7));
    assert_eq!(
        joined.compile().unwrap(),
        vec![0x61, 0x63, 0x63, 0x61, 0x68, 0x61, 0x61, 0x68, 0x68, 0x63]
    );
}

#[test]
fn pushed_bytes_are_decoded_for_the_bookkeeping() {
    let script = Script::new("t")
        .push_opcode(OP_NOP.to_u8())
        .push_script(vec![0x02, 0x63, 0x68, 0x63, 0x61, 0x68, 0x63]);
    assert_eq!(script.len(), 8);
    assert_eq!(script.unclosed_if_positions(), vec![7]);
    assert_eq!(script.max_op_if_interval(), (4, 6));
    assert_eq!(script.blocks().len(), 2);
    assert_eq!(
        script.compile().unwrap(),
        vec![0x61, 0x02, 0x63, 0x68, 0x63, 0x61, 0x68, 0x63]
    );
}

#[test]
fn malformed_bytes_are_not_taken() {
    let script = ops(Script::new("t"), &[OP_NOP]);
    let refused = script.clone().try_push_script(vec![0x05, 0x01, 0x02]);
    match refused {
        Err(back) => assert_eq!(back.compile().unwrap(), vec![0x61]),
        Ok(_) => panic!("malformed bytes were taken"),
    }
    let taken = script.try_push_script(vec![0x02, 0x01, 0x02]);
    assert_eq!(
        taken.ok().unwrap().compile().unwrap(),
        vec![0x61, 0x02, 0x01, 0x02]
    );
    assert!(instructions(&[0x4c]).is_none());
    assert!(instructions(&[0x4d, 0x01]).is_none());
    assert!(split_instructions(&[0x01]).is_none());
}

#[test]
fn instructions_come_with_their_positions() {
    let decoded = instructions(&[0x00, 0x02, 0xaa, 0xbb, 0x93, 0x4c, 0x01, 0x07]).unwrap();
    let found: Vec<(usize, Instruction)> = decoded
        .into_iter()
        .map(|located| (located.at, located.instruction))
        .collect();
    assert_eq!(
        found,
        vec![
            (0, Instruction::PushBytes(vec![])),
            (1, Instruction::PushBytes(vec![0xaa, 0xbb])),
            (4, Instruction::Op(0x93)),
            (5, Instruction::PushBytes(vec![0x07])),
        ]
    );
    assert_eq!(
        split_instructions(&[0x00, 0x02, 0xaa, 0xbb, 0x93, 0x4c, 0x01, 0x07]).unwrap(),
        vec![
            vec![0x00],
            vec![0x02, 0xaa, 0xbb],
            vec![0x93],
            vec![0x4c, 0x01, 0x07]
        ]
    );
    assert_eq!(instructions(&[]).unwrap().len(), 0);
}

#[test]
fn a_push_that_is_longer_than_needed_does_not_compile() {
    let five_as_data = Script::new("t").push_script(vec![0x01, 0x05]);
    assert_eq!(five_as_data.compile(), Err(ScriptError::NonMinimalPush));
    let long_header = Script::new("t").push_script(vec![0x4c, 0x02, 0xaa, 0xbb]);
    assert_eq!(long_header.compile(), Err(ScriptError::NonMinimalPush));
    let fine = Script::new("t").push_script(vec![0x02, 0xaa, 0xbb]);
    assert_eq!(fine.compile(), Ok(vec![0x02, 0xaa, 0xbb]));
    assert!(is_minimal(&[0x55, 0x01, 0x11]));
    assert!(!is_minimal(&[0x01, 0x05]));
    assert!(!is_minimal(&[0x01, 0x81]));
    assert!(!is_minimal(&[0x02, 0x05]));
    assert_eq!(
        Script::new("t").push_slice(&[5]).compile(),
        Err(ScriptError::NonMinimalPush)
    );
    assert_eq!(
        Script::new("t").push_element(&[5]).compile(),
        Ok(vec![OP_PUSHNUM_5.to_u8()])
    );
}

#[test]
fn an_empty_script_is_left_out() {
    let some = ops(Script::new("some"), &[OP_DUP]);
    let with_nothing = some.clone().push_env_script(Script::new("nothing"));
    assert_eq!(with_nothing.blocks(), some.blocks());
    assert_eq!(with_nothing.debug_identifier(), "some");
    let onto_nothing = Script::new("nothing").push_env_script(some.clone());
    assert_eq!(onto_nothing.blocks(), some.blocks());
    assert_eq!(onto_nothing.debug_identifier(), "some");
    assert!(Script::new("nothing").is_empty());
    assert_eq!(Script::new("nothing").compile().unwrap(), Vec::<u8>::new());
}

#[test]
fn a_shared_script_is_registered_once() {
    let shared = ops(Script::new("shared"), &[OP_DUP, OP_ADD]);
    let id = calculate_hash(&shared);
    let same_blocks = ops(Script::new("other label"), &[OP_DUP, OP_ADD]);
    assert_eq!(calculate_hash(&same_blocks), id);
    assert_ne!(calculate_hash(&ops(Script::new("shared"), &[OP_DUP])), id);

    let mut script = ops(Script::new("outer"), &[OP_NOP]);
    let mut expected = vec![OP_NOP.to_u8()];
    for _ in 0..1000 {
        script = script.push_env_script(shared.clone());
        expected.extend([OP_DUP.to_u8(), OP_ADD.to_u8()]);
    }
    assert_eq!(script.blocks().len(), 1001);
    assert_eq!(script.blocks()[1], Block::Call(id));
    assert_eq!(script.blocks()[1000], Block::Call(id));
    let registered = script.get_structured_script(&id);
    assert_eq!(registered.debug_identifier(), "outer shared");
    assert_eq!(registered.compile().unwrap(), shared.clone().compile().unwrap());
    assert_eq!(script.clone().compile().unwrap(), expected);

    let twice = ops(Script::new("twice"), &[OP_DROP])
        .push_env_script(script.clone())
        .push_opcode(OP_DROP.to_u8())
        .push_env_script(script.clone());
    let mut both = vec![OP_DROP.to_u8()];
    both.extend(&expected);
    both.push(OP_DROP.to_u8());
    both.extend(&expected);
    assert_eq!(twice.compile().unwrap(), both);
}

#[test]
fn scripts_are_registered_by_hand() {
    let mut script = ops(Script::new("outer"), &[OP_NOP]);
    let inner = ops(Script::new("inner"), &[OP_DUP]);
    assert!(script.add_structured_script(7, inner.clone()));
    assert!(!script.add_structured_script(7, ops(Script::new("late"), &[OP_ADD])));
    let found = script.get_structured_script(&7);
    assert_eq!(found.debug_identifier(), "inner");
    assert_eq!(found.compile().unwrap(), vec![OP_DUP.to_u8()]);
    assert_eq!(script.compile().unwrap(), vec![OP_NOP.to_u8()]);
}

#[test]
fn every_byte_has_its_label() {
    let deep = ops(Script::new("deep"), &[OP_DUP, OP_DUP]);
    let middle = ops(Script::new("middle"), &[OP_ADD])
        .push_env_script(deep)
        .push_opcode(OP_ADD.to_u8());
    let script = ops(Script::new("outer"), &[OP_NOP])
        .push_env_script(middle)
        .push_opcode(OP_NOP.to_u8());
    assert_eq!(script.len(), 6);
    assert_eq!(script.debug_info(0), "outer");
    assert_eq!(script.debug_info(1), "outer middle");
    assert_eq!(script.debug_info(2), "middle deep");
    assert_eq!(script.debug_info(3), "middle deep");
    assert_eq!(script.debug_info(4), "outer middle");
    assert_eq!(script.debug_info(5), "outer");
}

#[test]
fn keys_are_pushed_as_data() {
    let compressed = bitcoin::PublicKey::from_str(
        "0279be667ef9dcbbac55a06295ce870b07029bfcdb2dce28d959f2815b16f81798",
    )
    .unwrap();
    let bytes = Script::new("t").push_key(&compressed).compile().unwrap();
    assert_eq!(bytes.len(), 34);
    assert_eq!(bytes[0], 33);
    assert_eq!(&bytes[1..], &compressed.to_bytes()[..]);

    let uncompressed = bitcoin::PublicKey::from_str(
        "0479be667ef9dcbbac55a06295ce870b07029bfcdb2dce28d959f2815b16f81798483ada7726a3c4655da4fbfc0e1108a8fd17b448a68554199c47d08ffb10d4b8",
    )
    .unwrap();
    let bytes = Script::new("t").push_key(&uncompressed).compile().unwrap();
    assert_eq!(bytes.len(), 66);
    assert_eq!(bytes[0], 65);
    assert_eq!(bytes[1], 0x04);

    let x_only = bitcoin::XOnlyPublicKey::from_str(
        "79be667ef9dcbbac55a06295ce870b07029bfcdb2dce28d959f2815b16f81798",
    )
    .unwrap();
    let bytes = Script::new("t").push_x_only_key(&x_only).compile().unwrap();
    assert_eq!(bytes.len(), 33);
    assert_eq!(bytes[0], 32);
    assert_eq!(&bytes[1..], &x_only.serialize()[..]);
}

#[test]
fn hints_are_kept() {
    let script = ops(Script::new("t"), &[OP_ADD]);
    assert!(!script.has_stack_hint());
    assert_eq!(script.stack_hint(), None);
    let hinted = script.add_stack_hint(-2, -1);
    assert!(hinted.has_stack_hint());
    let hint = hinted.stack_hint().unwrap();
    assert_eq!(
        [
            hint.deepest_stack_accessed,
            hint.stack_changed,
            hint.deepest_altstack_accessed,
            hint.altstack_changed
        ],
        [-2, -1, 0, 0]
    );
    let hint = hinted.add_altstack_hint(-1, 2).stack_hint().unwrap();
    assert_eq!(
        [
            hint.deepest_stack_accessed,
            hint.stack_changed,
            hint.deepest_altstack_accessed,
            hint.altstack_changed
        ],
        [-2, -1, -1, 2]
    );
}

#[test]
fn single_instructions_are_told_apart() {
    assert!(ops(Script::new("t"), &[OP_ADD]).is_single_instruction());
    assert!(Script::new("t").push_int(1234).is_single_instruction());
    assert!(!ops(Script::new("t"), &[OP_ADD, OP_ADD]).is_single_instruction());
    assert!(ops(Script::new("t"), &[OP_ADD, OP_ADD]).is_script_buf());
    assert!(!Script::new("t").is_script_buf());
    let calling = ops(Script::new("t"), &[OP_ADD]).push_env_script(ops(Script::new("u"), &[OP_ADD]));
    assert!(!calling.is_script_buf());
    assert!(!calling.is_single_instruction());
}

#[test]
fn a_clash_of_identifiers_is_refused() {
    let mut host = ops(Script::new("host"), &[OP_NOP]);
    assert!(host.add_structured_script(7, ops(Script::new("x"), &[OP_DUP])));
    let mut guest = ops(Script::new("guest"), &[OP_ADD]);
    assert!(guest.add_structured_script(7, ops(Script::new("y"), &[OP_DROP])));
    let guest_id = calculate_hash(&guest);
    assert!(!host.accepts(&guest, guest_id));

    match host.clone().try_push_env_script(guest.clone()) {
        Err((first, second)) => {
            assert_eq!(first.blocks(), host.blocks());
            assert_eq!(second.blocks(), guest.blocks());
            assert_eq!(
                first.get_structured_script(&7).compile().unwrap(),
                vec![OP_DUP.to_u8()]
            );
        }
        Ok(_) => panic!("a clash of identifiers was taken"),
    }

    let mut agreeing = ops(Script::new("agreeing"), &[OP_ADD]);
    assert!(agreeing.add_structured_script(7, ops(Script::new("z"), &[OP_DUP])));
    assert!(host.accepts(&agreeing, guest_id));
    let shared = host.try_push_env_script(agreeing).ok().unwrap();
    assert_eq!(shared.blocks()[1], Block::Call(guest_id));
    assert_eq!(
        shared.get_structured_script(&guest_id).blocks(),
        &vec![Block::Script(vec![OP_ADD.to_u8()])]
    );
    assert_eq!(
        shared.compile().unwrap(),
        vec![OP_NOP.to_u8(), OP_ADD.to_u8()]
    );
}

#[test]
fn a_registered_script_keeps_its_own_registry() {
    let inner = ops(Script::new("inner"), &[OP_DUP]);
    let inner_id = calculate_hash(&inner);
    let middle = ops(Script::new("middle"), &[OP_ADD]).push_env_script(inner);
    let mut outer = ops(Script::new("outer"), &[OP_NOP]);
    assert!(outer.add_structured_script(9, middle.clone()));
    assert!(!outer.add_structured_script(9, ops(Script::new("late"), &[OP_DROP])));
    let found = outer.get_structured_script(&9);
    assert_eq!(found.blocks(), middle.blocks());
    assert_eq!(
        found.get_structured_script(&inner_id).compile().unwrap(),
        vec![OP_DUP.to_u8()]
    );
    assert_eq!(
        found.compile().unwrap(),
        vec![OP_ADD.to_u8(), OP_DUP.to_u8()]
    );
    assert_eq!(outer.len(), 1);
    assert_eq!(outer.blocks().len(), 1);
}
