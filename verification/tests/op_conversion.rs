//! Function bodies written as WebAssembly text, run instruction by instruction.
use pow5_chip::op_conversion::{
    i32_wrap_i64, i64_extend_i32_s, i64_extend_i32_u, run, ExecError, Instr,
};

/// Reads an integer literal as a bit pattern of 64 bits.
fn literal(text: &str) -> u64 {
    match text.strip_prefix('-') {
        Some(magnitude) => literal(magnitude).wrapping_neg(),
        None => match text.strip_prefix("0x") {
            Some(hex) => u64::from_str_radix(hex, 16).unwrap(),
            None => text.parse().unwrap(),
        },
    }
}

/// Runs the exported function `test` of a module that holds nothing else.
fn test_circuit_noexternal(textual_repr: &str) -> Result<(), ExecError> {
    let spaced = textual_repr.replace('(', " ").replace(')', " ");
    let mut tokens = spaced.split_whitespace();
    for expected in ["module", "func", "export", "\"test\""] {
        assert_eq!(tokens.next(), Some(expected));
    }
    let mut body = Vec::new();
    while let Some(token) = tokens.next() {
        body.push(match token {
            "i32.const" => Instr::I32Const(literal(tokens.next().unwrap()) as u32),
            "i64.const" => Instr::I64Const(literal(tokens.next().unwrap())),
            "i32.wrap_i64" => Instr::I32WrapI64,
            "i64.extend_i32_u" => Instr::I64ExtendI32U,
            "i64.extend_i32_s" => Instr::I64ExtendI32S,
            "drop" => Instr::Drop,
            other => panic!("unknown instruction {}", other),
        });
    }
    run(&body)
}

#[test]
fn test_i32_wrap_i64_ok() {
    let textual_repr = r#"
        (module
            (func (export "test")
                (i64.const 0)
                (i32.wrap_i64)
                (drop)
                (i64.const 0xffffffff00000000)
                (i32.wrap_i64)
                (drop)
                (i64.const 0xfffffffff0f0f0f0)
                (i32.wrap_i64)
                (drop)
                )
            )
        "#;

    test_circuit_noexternal(textual_repr).unwrap()
}

#[test]
fn test_i64_extend_i32_u_ok() {
    let textual_repr = r#"
        (module
            (func (export "test")
                (i32.const 0)
                (i64.extend_i32_u)
                (drop)
                (i32.const -1)
                (i64.extend_i32_u)
                (drop)
            )
        )
        "#;

    test_circuit_noexternal(textual_repr).unwrap()
}

#[test]
fn test_i64_extend_i32_s_ok() {
    let textual_repr = r#"
        (module
            (func (export "test")
                (i32.const 0)
                (i64.extend_i32_s)
                (drop)

                (i32.const 0x7fffffff)
                (i64.extend_i32_s)
                (drop)

                (i32.const -1)
                (i64.extend_i32_s)
                (drop)

                (i32.const 0xffffffff)
                (i64.extend_i32_s)
                (drop)
            )
        )
        "#;

    test_circuit_noexternal(textual_repr).unwrap()
}

#[test]
fn conversions_give_the_expected_bits() {
    assert_eq!(i32_wrap_i64(0), 0);
    assert_eq!(i32_wrap_i64(0xffff_ffff_0000_0000), 0);
    assert_eq!(i32_wrap_i64(0xffff_ffff_f0f0_f0f0), 0xf0f0_f0f0);
    assert_eq!(i64_extend_i32_u(0xffff_ffff), 0xffff_ffff);
    assert_eq!(i64_extend_i32_s(0), 0);
    assert_eq!(i64_extend_i32_s(0x7fff_ffff), 0x7fff_ffff);
    assert_eq!(i64_extend_i32_s(0x8000_0000), 0xffff_ffff_8000_0000);
    assert_eq!(i64_extend_i32_s(0xffff_ffff), u64::MAX);
}

#[test]
fn wrapping_undoes_extension() {
    for x in [0u32, 1, 0x7fff_ffff, 0x8000_0000, 0xdead_beef, u32::MAX] {
        assert_eq!(i32_wrap_i64(i64_extend_i32_u(x)), x);
        assert_eq!(i32_wrap_i64(i64_extend_i32_s(x)), x);
    }
}

#[test]
fn rejected_bodies() {
    assert_eq!(run(&[]), Ok(()));
    assert_eq!(run(&[Instr::Drop]), Err(ExecError::StackUnderflow));
    assert_eq!(run(&[Instr::I32WrapI64]), Err(ExecError::StackUnderflow));
    assert_eq!(
        run(&[Instr::I32Const(1), Instr::I32WrapI64, Instr::Drop]),
        Err(ExecError::TypeMismatch)
    );
    assert_eq!(
        run(&[Instr::I64Const(1), Instr::I64ExtendI32S, Instr::Drop]),
        Err(ExecError::TypeMismatch)
    );
    assert_eq!(run(&[Instr::I64Const(1)]), Err(ExecError::LeftoverValues));
}
