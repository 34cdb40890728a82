use bitcoin::consensus::{encode, Encodable};
use bitcoin::opcodes::all::{OP_ADD, OP_HASH160, OP_PUSHNUM_1, OP_ROLL};
use bitcoin::opcodes::{OP_FALSE, OP_TRUE};
use bitcoin::Witness;
use bitcoin_script::Script;

fn ints(script: Script, values: &[i64]) -> Script {
    let mut script = script;
    for value in values {
        script = script.push_int(*value);
    }
    script
}

fn add_script() -> Script {
    Script::new("add").push_opcode(OP_ADD.to_u8())
}

#[test]
fn test_generic() {
    let foo = vec![1, 2, 3, 4];
    let script = Script::new("test_generic")
        .push_opcode(OP_HASH160.to_u8())
        .push_int(1234)
        .push_int(255)
        .push_int(-1)
        .push_int(-255)
        .push_int(0xabcd)
        .push_int(1 + 1);
    let script = ints(script, &foo);

    assert_eq!(
        script.compile().unwrap(),
        vec![169, 2, 210, 4, 2, 255, 0, 79, 2, 255, 128, 3, 205, 171, 0, 82, 81, 82, 83, 84]
    );
}

#[test]
fn test_pushable_vectors() {
    let byte_vec = vec![vec![1, 2, 3, 4], vec![5, 6, 7, 8]];
    let script_vec = vec![
        Script::new("first").push_opcode(OP_ADD.to_u8()),
        Script::new("second")
            .push_opcode(OP_TRUE.to_u8())
            .push_opcode(OP_FALSE.to_u8()),
    ];

    let mut script = Script::new("test_pushable_vectors");
    for values in &byte_vec {
        script = ints(script, values);
    }
    for sub in script_vec {
        script = script.push_env_script(sub);
    }

    assert_eq!(
        script.compile().unwrap(),
        vec![81, 82, 83, 84, 85, 86, 87, 88, 147, 81, 0]
    );
}

#[test]
fn test_minimal_byte_opcode() {
    let script = ints(
        Script::new("test_minimal_byte_opcode"),
        &[
            0x00, 0x0, 0x1, 0x02, 0x3, 0x04, 0x5, 0x06, 0x7, 0x08, 0x9, 0x10, 0x11, 0xd2, 0xd2,
        ],
    );

    assert_eq!(
        script.compile().unwrap(),
        vec![0, 0, 81, 82, 83, 84, 85, 86, 87, 88, 89, 96, 1, 17, 2, 210, 0, 2, 210, 0]
    );
}

#[test]
fn test_simple_loop() {
    let mut script = Script::new("for");
    for _ in 0..3 {
        script = script.push_env_script(add_script());
    }

    assert_eq!(script.compile().unwrap(), vec![147, 147, 147])
}

#[test]
fn test_if() {
    let mut outer = Script::new("if");
    if true {
        let mut inner = Script::new("if");
        if false {
            inner = inner.push_env_script(Script::new("a").push_int(1).push_int(2));
        } else {
            inner = inner.push_env_script(Script::new("b").push_int(3));
        }
        outer = outer.push_env_script(Script::new("c").push_env_script(inner));
    } else {
        outer = outer.push_env_script(Script::new("d").push_int(4));
    }

    let mut second = Script::new("if");
    if true {
        second = second.push_env_script(Script::new("e").push_int(5));
    } else if false {
        second = second.push_env_script(Script::new("f").push_int(6));
    } else {
        second = second.push_env_script(Script::new("g").push_int(7));
    }

    let script = Script::new("test_if")
        .push_env_script(outer)
        .push_env_script(second);

    assert_eq!(script.compile().unwrap(), vec![83, 85]);
}

#[test]
fn test_performance_loop() {
    let mut nested_script = add_script();

    for _ in 0..20 {
        nested_script = Script::new("nested")
            .push_env_script(nested_script.clone())
            .push_env_script(nested_script.clone());
    }
    println!("Subscript size: {}", nested_script.len());

    let mut script_var = Script::new("for");
    for _ in 0..10 {
        script_var = script_var.push_env_script(nested_script.clone());
    }
    let script = Script::new("test_performance_loop").push_env_script(script_var);

    println!("Expected size: {}", script.len());
    let compiled_script = script.compile().unwrap();
    println!("Compiled size {}", compiled_script.len());

    assert_eq!(compiled_script[5_000_000 - 1], 147)
}

#[test]
fn test_performance_if() {
    let mut script_var = Script::new("for");
    for _ in 0..5_000_000 {
        let mut branch = Script::new("if");
        if true {
            branch = branch.push_env_script(
                Script::new("then")
                    .push_opcode(OP_ADD.to_u8())
                    .push_opcode(OP_ADD.to_u8()),
            );
        } else {
            branch = branch.push_env_script(Script::new("else").push_opcode(OP_ADD.to_u8()));
        }
        script_var = script_var.push_env_script(branch);
    }
    let script = Script::new("test_performance_if").push_env_script(script_var);

    assert_eq!(script.compile().unwrap()[5_000_000 - 1], 147)
}

#[test]
fn test_simple() {
    let mut script_var = Script::new("for");
    for i in 0..6 {
        script_var = script_var.push_env_script(
            Script::new("body")
                .push_int(6)
                .push_opcode(OP_ROLL.to_u8())
                .push_int(10 + i + 1)
                .push_opcode(OP_ROLL.to_u8()),
        );
    }
    let script = Script::new("test_simple").push_env_script(script_var);

    assert_eq!(
        script.compile().unwrap(),
        vec![
            86, 122, 91, 122, 86, 122, 92, 122, 86, 122, 93, 122, 86, 122, 94, 122, 86, 122, 95,
            122, 86, 122, 96, 122
        ]
    );
}

fn elements_of(witness: &Witness) -> Vec<Vec<u8>> {
    witness.iter().map(|element| element.to_vec()).collect()
}

#[test]
fn test_push_witness() {
    for i in 0..512 {
        let mut witness = Witness::new();
        let vec = vec![129u8; i];
        witness.push(vec.clone());
        let script = Script::new("witness").push_elements(&elements_of(&witness));
        let reference_script = Script::new("reference").push_element(&vec);
        assert_eq!(
            script.compile().unwrap(),
            reference_script.compile().unwrap(),
            "here"
        );
    }

    let mut witness = Witness::new();
    for i in 0..16 {
        let mut varint = Vec::new();
        encode::VarInt(i).consensus_encode(&mut varint).unwrap();
        witness.push(varint);
    }

    let mut forty_two_varint = Vec::new();
    encode::VarInt(42u64)
        .consensus_encode(&mut forty_two_varint)
        .unwrap();
    witness.push(forty_two_varint);
    let script = Script::new("witness").push_elements(&elements_of(&witness));

    let mut reference_script = Script::new("for");
    for i in 0..16 {
        reference_script = reference_script.push_env_script(Script::new("i").push_int(i));
    }
    let reference_script = Script::new("reference")
        .push_env_script(reference_script)
        .push_int(42);
    assert_eq!(
        script.compile().unwrap(),
        reference_script.compile().unwrap()
    );
}

#[test]
fn push_int_small_numbers_take_one_byte() {
    assert_eq!(Script::new("t").push_int(-1).compile().unwrap(), vec![0x4f]);
    assert_eq!(Script::new("t").push_int(0).compile().unwrap(), vec![0x00]);
    for n in 1..=16i64 {
        let bytes = Script::new("t").push_int(n).compile().unwrap();
        assert_eq!(bytes, vec![OP_PUSHNUM_1.to_u8() + (n as u8) - 1]);
    }
}

#[test]
fn push_int_sign_and_magnitude() {
    assert_eq!(
        Script::new("t").push_int(1234).compile().unwrap(),
        vec![2, 210, 4]
    );
    assert_eq!(
        Script::new("t").push_int(-1234).compile().unwrap(),
        vec![2, 210, 132]
    );
    assert_eq!(Script::new("t").push_int(17).compile().unwrap(), vec![1, 17]);
    assert_eq!(
        Script::new("t").push_int(128).compile().unwrap(),
        vec![2, 128, 0]
    );
    assert_eq!(
        Script::new("t").push_int(-128).compile().unwrap(),
        vec![2, 128, 128]
    );
    assert_eq!(
        Script::new("t").push_int(i64::MAX).compile().unwrap(),
        vec![8, 255, 255, 255, 255, 255, 255, 255, 127]
    );
}

#[test]
fn push_int_round_trips_through_the_decoder() {
    let samples: Vec<i64> = vec![
        -0x7fff_ffff,
        -70000,
        -256,
        -255,
        -129,
        -128,
        -127,
        -17,
        -2,
        -1,
        0,
        1,
        16,
        17,
        127,
        128,
        255,
        256,
        32767,
        32768,
        65535,
        65536,
        8388607,
        8388608,
        0x7fff_ffff,
    ];
    for n in samples {
        let bytes = Script::new("t").push_int(n).compile().unwrap();
        let script = bitcoin::Script::from_bytes(&bytes);
        let mut instructions = script.instructions();
        let first = instructions.next().unwrap().unwrap();
        assert!(instructions.next().is_none());
        assert_eq!(first.script_num(), Some(n), "for {}", n);
    }
}

#[test]
fn push_slice_uses_the_shortest_header() {
    let short = Script::new("t").push_slice(&[7u8; 75]).compile().unwrap();
    assert_eq!(short[0], 75);
    assert_eq!(short.len(), 76);
    let one = Script::new("t").push_slice(&[7u8; 76]).compile().unwrap();
    assert_eq!(&one[..2], &[0x4c, 76]);
    assert_eq!(one.len(), 78);
    let two = Script::new("t").push_slice(&[7u8; 256]).compile().unwrap();
    assert_eq!(&two[..3], &[0x4d, 0, 1]);
    assert_eq!(two.len(), 259);
    let four = Script::new("t")
        .push_slice(&vec![7u8; 65536])
        .compile()
        .unwrap();
    assert_eq!(&four[..5], &[0x4e, 0, 0, 1, 0]);
    assert_eq!(four.len(), 65541);
    let mut reference = bitcoin::ScriptBuf::new();
    reference.push_slice(&[7u8; 76]);
    assert_eq!(one, reference.into_bytes());
}
