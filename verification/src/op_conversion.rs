//! The WebAssembly instructions that convert between the two integer widths, and the
//! straight-line function bodies built from them.
use vstd::prelude::*;

verus! {

/// A value on the operand stack, tagged with its width.
#[derive(Clone, Copy, Debug, PartialEq, Eq, Structural)]
pub enum Value {
    I32(u32),
    I64(u64),
}

/// An instruction of a straight-line function body.
#[derive(Clone, Copy, Debug, PartialEq, Eq, Structural)]
pub enum Instr {
    I32Const(u32),
    I64Const(u64),
    I32WrapI64,
    I64ExtendI32U,
    I64ExtendI32S,
    Drop,
}

/// Why a function body is rejected.
#[derive(Clone, Copy, Debug, PartialEq, Eq, Structural)]
pub enum ExecError {
    /// An instruction found no operand on the stack.
    StackUnderflow,
    /// An instruction found an operand of the wrong width.
    TypeMismatch,
    /// The body left values behind although the function returns none.
    LeftoverValues,
}

/// The lower 32 bits of a 64-bit integer.
pub open spec fn wrapped(x: u64) -> int {
    x as int % 0x1_0000_0000
}

/// A 32-bit pattern read as a signed integer.
pub open spec fn signed32(x: u32) -> int {
    if x < 0x8000_0000 {
        x as int
    } else {
        x - 0x1_0000_0000
    }
}

/// A 64-bit pattern read as a signed integer.
pub open spec fn signed64(x: u64) -> int {
    if x < 0x8000_0000_0000_0000 {
        x as int
    } else {
        x - 0x1_0000_0000_0000_0000
    }
}

/// `i32.wrap_i64`: keeps the lower 32 bits.
pub fn i32_wrap_i64(x: u64) -> (r: u32)
    ensures
        r == wrapped(x),
        r as int == x as int % 0x1_0000_0000,
        r as u64 == x & 0xffff_ffff,
{
    assert(x & 0xffff_ffff == x % 0x1_0000_0000) by (bit_vector);
    (x % 0x1_0000_0000) as u32
}

/// `i64.extend_i32_u`: the same unsigned integer in 64 bits.
pub fn i64_extend_i32_u(x: u32) -> (r: u64)
    ensures
        r == x,
{
    x as u64
}

/// `i64.extend_i32_s`: the same signed integer in 64 bits.
pub fn i64_extend_i32_s(x: u32) -> (r: u64)
    ensures
        signed64(r) == signed32(x),
        r as int % 0x1_0000_0000 == x,
        r as int / 0x1_0000_0000 == if x as int / 0x8000_0000 == 0 {
            0int
        } else {
            0xffff_ffff
        },
{
    if x < 0x8000_0000 {
        x as u64
    } else {
        0xffff_ffff_0000_0000 + x as u64
    }
}

/// The stack after one instruction.
pub open spec fn stepped(stack: Seq<Value>, instr: Instr) -> Result<Seq<Value>, ExecError> {
    match instr {
        Instr::I32Const(x) => Ok(stack.push(Value::I32(x))),
        Instr::I64Const(x) => Ok(stack.push(Value::I64(x))),
        _ => if stack.len() == 0 {
            Err(ExecError::StackUnderflow)
        } else {
            let rest = stack.drop_last();
            match (instr, stack.last()) {
                (Instr::Drop, _) => Ok(rest),
                (Instr::I32WrapI64, Value::I64(x)) => Ok(rest.push(Value::I32(wrapped(x) as u32))),
                (Instr::I64ExtendI32U, Value::I32(x)) => Ok(rest.push(Value::I64(x as u64))),
                (Instr::I64ExtendI32S, Value::I32(x)) => Ok(
                    rest.push(
                        Value::I64(
                            (if signed32(x) < 0 {
                                signed32(x) + 0x1_0000_0000_0000_0000
                            } else {
                                signed32(x)
                            }) as u64,
                        ),
                    ),
                ),
                _ => Err(ExecError::TypeMismatch),
            }
        },
    }
}

/// The stack after the first `n` instructions of `body`, starting from an empty one.
pub open spec fn stack_after(body: Seq<Instr>, n: nat) -> Result<Seq<Value>, ExecError>
    decreases n,
{
    if n == 0 {
        Ok(Seq::empty())
    } else {
        match stack_after(body, (n - 1) as nat) {
            Ok(stack) => stepped(stack, body[n - 1]),
            Err(e) => Err(e),
        }
    }
}

/// What running `body` as a function without results amounts to.
pub open spec fn outcome(body: Seq<Instr>) -> Result<(), ExecError> {
    match stack_after(body, body.len()) {
        Ok(stack) => if stack.len() == 0 {
            Ok(())
        } else {
            Err(ExecError::LeftoverValues)
        },
        Err(e) => Err(e),
    }
}

/// Applies one instruction to the operand stack; a failing instruction leaves it unspecified.
fn step(stack: &mut Vec<Value>, instr: Instr) -> (r: Result<(), ExecError>)
    ensures
        match stepped(old(stack)@, instr) {
            Ok(after) => r is Ok && final(stack)@ == after,
            Err(e) => r == Err::<(), ExecError>(e),
        },
        instr matches Instr::I32Const(x) ==> r is Ok && final(stack)@ == old(stack)@.push(
            Value::I32(x),
        ),
        instr matches Instr::I64Const(x) ==> r is Ok && final(stack)@ == old(stack)@.push(
            Value::I64(x),
        ),
        !(instr is I32Const || instr is I64Const) && old(stack)@.len() == 0 ==> r == Err::<
            (),
            ExecError,
        >(ExecError::StackUnderflow),
        instr is Drop && old(stack)@.len() > 0 ==> r is Ok && final(stack)@
            == old(stack)@.drop_last(),
        instr is I32WrapI64 && old(stack)@.len() > 0 ==> match old(stack)@.last() {
            Value::I64(x) => {
                &&& r is Ok
                &&& final(stack)@ == old(stack)@.drop_last().push(
                    Value::I32((x as int % 0x1_0000_0000) as u32),
                )
            },
            Value::I32(_) => r == Err::<(), ExecError>(ExecError::TypeMismatch),
        },
        instr is I64ExtendI32U && old(stack)@.len() > 0 ==> match old(stack)@.last() {
            Value::I32(x) => {
                &&& r is Ok
                &&& final(stack)@ == old(stack)@.drop_last().push(Value::I64(x as u64))
            },
            Value::I64(_) => r == Err::<(), ExecError>(ExecError::TypeMismatch),
        },
        instr is I64ExtendI32S && old(stack)@.len() > 0 ==> match old(stack)@.last() {
            Value::I32(x) => {
                &&& r is Ok
                &&& final(stack)@ == old(stack)@.drop_last().push(
                    Value::I64(
                        (if x < 0x8000_0000 {
                            x as int
                        } else {
                            x + 0xffff_ffff_0000_0000
                        }) as u64,
                    ),
                )
            },
            Value::I64(_) => r == Err::<(), ExecError>(ExecError::TypeMismatch),
        },
{
    let ghost before = stack@;
    let next: Value = match instr {
        Instr::I32Const(x) => Value::I32(x),
        Instr::I64Const(x) => Value::I64(x),
        _ => match stack.pop() {
            None => return Err(ExecError::StackUnderflow),
            Some(top) => {
                assert(stack@ == before.drop_last() && top == before.last());
                match (instr, top) {
                    (Instr::Drop, _) => return Ok(()),
                    (Instr::I32WrapI64, Value::I64(x)) => Value::I32(i32_wrap_i64(x)),
                    (Instr::I64ExtendI32U, Value::I32(x)) => Value::I64(i64_extend_i32_u(x)),
                    (Instr::I64ExtendI32S, Value::I32(x)) => Value::I64(i64_extend_i32_s(x)),
                    _ => return Err(ExecError::TypeMismatch),
                }
            },
        },
    };
    stack.push(next);
    Ok(())
}

/// Runs a function body that takes no arguments and returns nothing.
pub fn run(body: &[Instr]) -> (r: Result<(), ExecError>)
    ensures
        r == outcome(body@),
{
    let mut stack: Vec<Value> = Vec::new();
    let mut i: usize = 0;
    while i < body.len()
        invariant
            i <= body@.len(),
            stack_after(body@, i as nat) == Ok::<Seq<Value>, ExecError>(stack@),
        decreases body.len() - i,
    {
        match step(&mut stack, body[i]) {
            Ok(()) => {},
            Err(e) => {
                proof {
                    lemma_failure_persists(body@, (i + 1) as nat, body@.len());
                }
                return Err(e);
            },
        }
        i = i + 1;
    }
    if stack.len() == 0 {
        Ok(())
    } else {
        Err(ExecError::LeftoverValues)
    }
}

proof fn lemma_failure_persists(body: Seq<Instr>, m: nat, n: nat)
    requires
        m <= n,
        stack_after(body, m) is Err,
    ensures
        stack_after(body, n) == stack_after(body, m),
    decreases n,
{
    if m < n {
        lemma_failure_persists(body, m, (n - 1) as nat);
    }
}

/// Wrapping undoes either extension: a 32-bit value that is widened and narrowed again comes
/// back unchanged.
pub proof fn law_wrap_undoes_extension(x: u32, widened: u64)
    requires
        widened == x || signed64(widened) == signed32(x),
    ensures
        wrapped(widened) == x,
{
}

/// Wrapping keeps the remainder of the division by 2^32, which is the lower 32 bits: what is left
/// over is a multiple of 2^32.
pub proof fn law_wrapping_keeps_the_lower_half(x: u64)
    ensures
        0 <= wrapped(x) < 0x1_0000_0000,
        exists|q: int| 0 <= q < 0x1_0000_0000 && x == #[trigger] (q * 0x1_0000_0000) + wrapped(x),
        wrapped(x) == x & 0xffff_ffff,
{
    assert(x & 0xffff_ffff == x % 0x1_0000_0000) by (bit_vector);
    let q = x as int / 0x1_0000_0000;
    assert(x == q * 0x1_0000_0000 + wrapped(x));
}

/// Values that differ by a multiple of 2^32 wrap to the same value, and no others do.
pub proof fn law_wrapping_forgets_the_upper_half(x: u64, y: u64)
    ensures
        wrapped(x) == wrapped(y) <==> (x - y) % 0x1_0000_0000 == 0,
{
}

/// Patterns read as signed integers: the same integer modulo the number of patterns, in the range
/// around zero.
pub proof fn law_signed_readings(x: u32, y: u64)
    ensures
        -0x8000_0000 <= signed32(x) < 0x8000_0000,
        signed32(x) % 0x1_0000_0000 == x,
        -0x8000_0000_0000_0000 <= signed64(y) < 0x8000_0000_0000_0000,
        signed64(y) % 0x1_0000_0000_0000_0000 == y,
{
}

/// What a body does, instruction by instruction. A sequence of stacks that starts from the empty
/// one, each of which an instruction leads to from the one before, is what the body goes through:
/// - a constant comes to lie on top of the stack as it was;
/// - a conversion takes an operand of the width it asks for and leaves a value of the other width in
///   its place: the operand modulo 2^32, the same unsigned integer, or the same signed integer;
/// - `drop` takes the topmost value away.
/// Where the stacks come to an end before the body does, for want of an operand or because of one of
/// the wrong width, the body is rejected for that; and where they go through to its end, it is
/// accepted if and only if nothing is left.
pub proof fn law_a_body_runs_step_by_step(body: Seq<Instr>, stacks: Seq<Seq<Value>>)
    requires
        0 < stacks.len() <= body.len() + 1,
        stacks[0].len() == 0,
        forall|k: int|
            #![trigger stacks[k + 1]]
            0 <= k < stacks.len() - 1 ==> match body[k] {
                Instr::I32Const(x) => stacks[k + 1] == stacks[k].push(Value::I32(x)),
                Instr::I64Const(x) => stacks[k + 1] == stacks[k].push(Value::I64(x)),
                Instr::Drop => stacks[k].len() > 0 && stacks[k + 1] == stacks[k].drop_last(),
                Instr::I32WrapI64 => {
                    &&& stacks[k].len() == stacks[k + 1].len() > 0
                    &&& stacks[k + 1].drop_last() == stacks[k].drop_last()
                    &&& stacks[k].last() matches Value::I64(x) && stacks[k + 1].last()
                        matches Value::I32(y) && y as int == x as int % 0x1_0000_0000
                },
                Instr::I64ExtendI32U => {
                    &&& stacks[k].len() == stacks[k + 1].len() > 0
                    &&& stacks[k + 1].drop_last() == stacks[k].drop_last()
                    &&& stacks[k].last() matches Value::I32(x) && stacks[k + 1].last()
                        matches Value::I64(y) && y as int == x as int
                },
                Instr::I64ExtendI32S => {
                    &&& stacks[k].len() == stacks[k + 1].len() > 0
                    &&& stacks[k + 1].drop_last() == stacks[k].drop_last()
                    &&& stacks[k].last() matches Value::I32(x) && stacks[k + 1].last()
                        matches Value::I64(y) && y as int == if x < 0x8000_0000 {
                        x as int
                    } else {
                        x + 0xffff_ffff_0000_0000
                    }
                },
            },
    ensures
        stack_after(body, (stacks.len() - 1) as nat) == Ok::<Seq<Value>, ExecError>(stacks.last()),
        stacks.len() == body.len() + 1 ==> outcome(body) == if stacks.last().len() == 0 {
            Ok::<(), ExecError>(())
        } else {
            Err(ExecError::LeftoverValues)
        },
        stacks.len() <= body.len() ==> {
            let next = body[stacks.len() - 1];
            let stack = stacks.last();
            &&& !(next is I32Const || next is I64Const) && stack.len() == 0 ==> outcome(body)
                == Err::<(), ExecError>(ExecError::StackUnderflow)
            &&& next is I32WrapI64 && stack.len() > 0 && stack.last() is I32 ==> outcome(body)
                == Err::<(), ExecError>(ExecError::TypeMismatch)
            &&& (next is I64ExtendI32U || next is I64ExtendI32S) && stack.len() > 0
                && stack.last() is I64 ==> outcome(body) == Err::<(), ExecError>(
                ExecError::TypeMismatch,
            )
        },
    decreases stacks.len(),
{
    let n = stacks.len();
    if n > 1 {
        let fewer = stacks.drop_last();
        assert forall|k: int|
            #![trigger fewer[k + 1]]
            0 <= k < fewer.len() - 1 implies fewer[k + 1] == stacks[k + 1] && fewer[k]
            == stacks[k] by {}
        law_a_body_runs_step_by_step(body, fewer);
        let stack = stacks[n - 2];
        let after = stacks[n - 2 + 1];
        assert(fewer.last() == stack);
        if after.len() > 0 {
            assert(after =~= after.drop_last().push(after.last()));
        }
    } else {
        assert(stacks.last() =~= Seq::<Value>::empty());
    }
    if n <= body.len() {
        if stack_after(body, n) is Err {
            lemma_failure_persists(body, n, body.len());
        }
    }
}

/// A 32-bit constant that is extended in either way, wrapped and dropped leaves the stack as it was,
/// and wrapping it gives the constant back.
pub proof fn law_extension_and_wrapping_cancel(stack: Seq<Value>, x: u32, extend: Instr)
    requires
        extend is I64ExtendI32U || extend is I64ExtendI32S,
    ensures
        ({
            let pushed = stack.push(Value::I32(x));
            let extended = stepped(pushed, extend);
            &&& stepped(stack, Instr::I32Const(x)) == Ok::<Seq<Value>, ExecError>(pushed)
            &&& extended is Ok
            &&& extended->Ok_0.len() == stack.len() + 1
            &&& extended->Ok_0.drop_last() == stack
            &&& extended->Ok_0.last() is I64
            &&& stepped(extended->Ok_0, Instr::I32WrapI64) == Ok::<Seq<Value>, ExecError>(pushed)
            &&& stepped(pushed, Instr::Drop) == Ok::<Seq<Value>, ExecError>(stack)
        }),
{
    let pushed = stack.push(Value::I32(x));
    assert(pushed.drop_last() =~= stack);
    let extended = stepped(pushed, extend)->Ok_0;
    assert(extended.drop_last() =~= stack);
}

/// Whatever runs before it, a constant that is converted and dropped leaves the rest of the
/// stack as it was.
pub proof fn law_conversion_touches_only_the_top(stack: Seq<Value>, push: Instr, convert: Instr)
    requires
        (push is I64Const && convert is I32WrapI64) || (push is I32Const && (convert
            is I64ExtendI32U || convert is I64ExtendI32S)),
    ensures
        stepped(stack, push) is Ok,
        stepped(stepped(stack, push)->Ok_0, convert) is Ok,
        stepped(stepped(stepped(stack, push)->Ok_0, convert)->Ok_0, Instr::Drop) == Ok::<
            Seq<Value>,
            ExecError,
        >(stack),
{
    let pushed = stepped(stack, push)->Ok_0;
    assert(pushed.drop_last() == stack);
    let converted = stepped(pushed, convert)->Ok_0;
    assert(converted.drop_last() == stack);
}

} // verus!
