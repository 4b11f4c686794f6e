use vstd::prelude::*;

use crate::heap::{
    all_unmarked, lemma_first_free_in_range, lemma_mark_pass_covers, lemma_reachable_congruent,
    lemma_reachable_occ, marked, marked_closed, obj_at, occ, reachable, swept, Heap, Object, Slot,
    HEAP_THRESHOLD,
};
use crate::opcode::OpCode;
use crate::value::{value_ref, ObjectPtr, Value};

verus! {

/// Fixed capacity of one frame's operand stack: a push past it fails with
/// `StackOverflow` rather than growing without bound.
pub const STACK_LIMIT: usize = 256;

/// An instruction byte stream.
pub type Chunk = Vec<u8>;

/// Every way one dispatch step can fail. All of these are recoverable at
/// the interpreter-instance boundary: the dispatch loop returns the first
/// error and never panics.
#[derive(Debug, Clone, Copy, PartialEq, Eq, Structural)]
pub enum RuntimeError {
    /// Malformed opcode operand, such as a function index outside the table.
    ArgumentError,
    /// Constant-pool index out of range.
    ConstIndexError,
    /// Integer division with a zero divisor.
    DivideByZero,
    /// Jump target outside `[0, stream length]`.
    IllegalGoto,
    /// Pop or operand fetch from an empty operand stack.
    StackEmpty,
    /// Push onto an operand stack already at `STACK_LIMIT`.
    StackOverflow,
    /// Operand of the wrong value kind, such as comparing a word as an integer.
    TypeError,
    /// Slot index neither populated nor the next appendable one.
    UnboundVariable,
    /// Multi-byte operand truncated by the end of the stream.
    UnexpectedEOF,
    /// Opcode byte outside the defined enumeration.
    UnknownOpCode,
}

/// A callable body in the function table: its arity and its instruction
/// stream.
#[derive(Debug, Clone, PartialEq)]
pub struct Function {
    pub arity: usize,
    pub chunk: Chunk,
}

/// Mathematical model of a function-table entry.
#[verifier::ext_equal]
pub struct FunView {
    pub arity: int,
    pub chunk: Seq<u8>,
}

impl View for Function {
    type V = FunView;

    open spec fn view(&self) -> FunView {
        FunView { arity: self.arity as int, chunk: self.chunk@ }
    }
}

/// One call frame: an instruction stream (immutable for the frame's life),
/// the instruction pointer into it, an operand stack, the local slots, and
/// the captured/global slots (a read-only snapshot of the caller's locals).
#[derive(Debug, Clone, PartialEq)]
pub struct Frame {
    pub chunk: Chunk,
    pub ip: usize,
    pub stack: Vec<Value>,
    pub locals: Vec<Value>,
    pub globals: Vec<Value>,
}

/// Mathematical model of a call frame.
#[verifier::ext_equal]
pub struct FrameView {
    pub chunk: Seq<u8>,
    pub ip: int,
    pub stack: Seq<Value>,
    pub locals: Seq<Value>,
    pub globals: Seq<Value>,
}

impl View for Frame {
    type V = FrameView;

    open spec fn view(&self) -> FrameView {
        FrameView {
            chunk: self.chunk@,
            ip: self.ip as int,
            stack: self.stack@,
            locals: self.locals@,
            globals: self.globals@,
        }
    }
}

/// Mathematical model of the whole interpreter state the dispatch loop
/// works on: the call-frame stack plus the shared, read-only constant pool
/// and function table. The heap is modelled separately: no opcode touches
/// it.
#[verifier::ext_equal]
pub struct VmView {
    pub frames: Seq<FrameView>,
    pub consts: Seq<Value>,
    pub funs: Seq<FunView>,
}

/// The frame the dispatch loop currently works on.
pub open spec fn top(v: VmView) -> FrameView {
    v.frames.last()
}

/// The same state with the working frame replaced.
pub open spec fn with_top(v: VmView, f: FrameView) -> VmView {
    VmView { frames: v.frames.update(v.frames.len() - 1, f), ..v }
}

/// The frame has run off the end of its stream (naturally or by an
/// explicit return, which forces the pointer there).
pub open spec fn frame_halted(f: FrameView) -> bool {
    f.ip >= f.chunk.len()
}

/// The whole interpreter is halted: only the root frame is left and it has
/// reached end-of-stream. The interpreter has exactly two externally
/// visible states, running and halted.
pub open spec fn vm_halted(v: VmView) -> bool {
    v.frames.len() == 1 && frame_halted(top(v))
}

/// Big-endian value of two operand bytes.
pub open spec fn be16(b0: u8, b1: u8) -> int {
    b0 * 256 + b1
}

/// Big-endian value of four operand bytes.
pub open spec fn be32(b0: u8, b1: u8, b2: u8, b3: u8) -> int {
    ((b0 * 256 + b1) * 256 + b2) * 256 + b3
}

/// Big-endian value of eight operand bytes.
pub open spec fn be64(b0: u8, b1: u8, b2: u8, b3: u8, b4: u8, b5: u8, b6: u8, b7: u8) -> int {
    ((((((b0 * 256 + b1) * 256 + b2) * 256 + b3) * 256 + b4) * 256 + b5) * 256 + b6) * 256 + b7
}

/// A one-byte literal read as a sign-extended two's-complement integer.
pub open spec fn sx8(b: u8) -> int {
    if b < 128 {
        b as int
    } else {
        b - 256
    }
}

/// A two-byte big-endian literal read as a sign-extended two's-complement
/// integer (`w` is the unsigned byte value).
pub open spec fn sx16(w: int) -> int {
    if w < 32768 {
        w
    } else {
        w - 65536
    }
}

/// The signed 64-bit integer whose two's-complement bit pattern is the
/// unsigned word `w`.
pub open spec fn i64_of_bits(w: int) -> int {
    if w <= i64::MAX {
        w
    } else {
        w - 0x1_0000_0000_0000_0000
    }
}

/// Truncating two's-complement division: quotient toward zero, with the
/// single wrapping case `i64::MIN / -1 == i64::MIN`. Stated through
/// `checked_div`, whose specification spells the truncating quotient out;
/// `None` arises exactly for `i64::MIN / -1` once the divisor is nonzero.
pub open spec fn div_wrap(x: i64, y: i64) -> i64
    recommends
        y != 0,
{
    match x.checked_div(y) {
        Some(q) => q,
        None => i64::MIN,
    }
}

/// Two's-complement negation: `-x`, wrapping on `i64::MIN`.
pub open spec fn neg_wrap(x: i64) -> i64 {
    if x == i64::MIN {
        i64::MIN
    } else {
        (-(x as int)) as i64
    }
}

/// The word standing for a comparison result: 1 for true, 0 for false.
pub open spec fn word_of(b: bool) -> Value {
    if b {
        Value::Word(1)
    } else {
        Value::Word(0)
    }
}

/// What a binary integer opcode pushes for left operand `x` (popped first,
/// from the top) and right operand `y`: two's-complement wrapping
/// arithmetic, truncating division, or a comparison word.
pub open spec fn bin_result(op: OpCode, x: i64, y: i64) -> Value {
    match op {
        OpCode::AddI => Value::Integer(x.wrapping_add(y)),
        OpCode::SubI => Value::Integer(x.wrapping_sub(y)),
        OpCode::MulI => Value::Integer(x.wrapping_mul(y)),
        OpCode::DivI => Value::Integer(div_wrap(x, y)),
        OpCode::CmpEqI => word_of(x == y),
        OpCode::CmpGtI => word_of(x > y),
        OpCode::CmpGeI => word_of(x >= y),
        OpCode::CmpLtI => word_of(x < y),
        OpCode::CmpLeI => word_of(x <= y),
        _ => Value::Word(0),
    }
}

/// A successful step that replaces the working frame.
pub open spec fn ok_to(pre: VmView, post: VmView, r: Result<(), RuntimeError>, nf: FrameView) -> bool {
    r == Ok::<(), RuntimeError>(()) && post == with_top(pre, nf)
}

/// A failing step: the error is reported and the state left exactly as it
/// was before the opcode started executing.
pub open spec fn fails(pre: VmView, post: VmView, r: Result<(), RuntimeError>, e: RuntimeError) -> bool {
    r == Err::<(), RuntimeError>(e) && post == pre
}

/// The eight-byte big-endian operand following the opcode byte.
pub open spec fn op_word(f: FrameView) -> int {
    be64(
        f.chunk[f.ip + 1],
        f.chunk[f.ip + 2],
        f.chunk[f.ip + 3],
        f.chunk[f.ip + 4],
        f.chunk[f.ip + 5],
        f.chunk[f.ip + 6],
        f.chunk[f.ip + 7],
        f.chunk[f.ip + 8],
    )
}

/// One step of a binary integer opcode: both operands must be integers,
/// a zero divisor is reported, and the operands are replaced by the
/// result.
pub open spec fn step_bin(
    pre: VmView,
    post: VmView,
    r: Result<(), RuntimeError>,
    f: FrameView,
    op: OpCode,
) -> bool {
    if f.stack.len() < 2 {
        fails(pre, post, r, RuntimeError::StackEmpty)
    } else {
        match (f.stack[f.stack.len() - 1], f.stack[f.stack.len() - 2]) {
            (Value::Integer(x), Value::Integer(y)) => if op is DivI && y == 0 {
                fails(pre, post, r, RuntimeError::DivideByZero)
            } else {
                ok_to(
                    pre,
                    post,
                    r,
                    (FrameView {
                        ip: f.ip + 1,
                        stack: f.stack.take(f.stack.len() - 2).push(bin_result(op, x, y)),
                        ..f
                    }),
                )
            },
            _ => fails(pre, post, r, RuntimeError::TypeError),
        }
    }
}

/// One step of an eight-byte immediate load.
pub open spec fn step_imm8(
    pre: VmView,
    post: VmView,
    r: Result<(), RuntimeError>,
    f: FrameView,
    v: Value,
) -> bool {
    if f.ip + 9 > f.chunk.len() {
        fails(pre, post, r, RuntimeError::UnexpectedEOF)
    } else if f.stack.len() >= STACK_LIMIT {
        fails(pre, post, r, RuntimeError::StackOverflow)
    } else {
        ok_to(pre, post, r, (FrameView { ip: f.ip + 9, stack: f.stack.push(v), ..f }))
    }
}

/// What one decoded opcode does to the interpreter state, case by case.
pub open spec fn step_op(
    pre: VmView,
    post: VmView,
    r: Result<(), RuntimeError>,
    f: FrameView,
    op: OpCode,
) -> bool {
    match op {
        OpCode::Return => ok_to(pre, post, r, (FrameView { ip: f.chunk.len() as int, ..f })),
        OpCode::Goto => if f.ip + 3 > f.chunk.len() {
            fails(pre, post, r, RuntimeError::UnexpectedEOF)
        } else {
            let t = be16(f.chunk[f.ip + 1], f.chunk[f.ip + 2]);
            if t > f.chunk.len() {
                fails(pre, post, r, RuntimeError::IllegalGoto)
            } else {
                ok_to(pre, post, r, (FrameView { ip: t, ..f }))
            }
        },
        OpCode::GotoIf => if f.ip + 3 > f.chunk.len() {
            fails(pre, post, r, RuntimeError::UnexpectedEOF)
        } else {
            let t = be16(f.chunk[f.ip + 1], f.chunk[f.ip + 2]);
            if t > f.chunk.len() {
                fails(pre, post, r, RuntimeError::IllegalGoto)
            } else if f.stack.len() == 0 {
                fails(pre, post, r, RuntimeError::StackEmpty)
            } else {
                match f.stack.last() {
                    Value::Word(w) => ok_to(
                        pre,
                        post,
                        r,
                        (FrameView {
                            ip: if w != 0 {
                                t
                            } else {
                                f.ip + 3
                            },
                            stack: f.stack.drop_last(),
                            ..f
                        }),
                    ),
                    _ => fails(pre, post, r, RuntimeError::TypeError),
                }
            }
        },
        OpCode::Load => if f.ip + 3 > f.chunk.len() {
            fails(pre, post, r, RuntimeError::UnexpectedEOF)
        } else {
            let i = be16(f.chunk[f.ip + 1], f.chunk[f.ip + 2]);
            if i >= f.locals.len() {
                fails(pre, post, r, RuntimeError::UnboundVariable)
            } else if f.stack.len() >= STACK_LIMIT {
                fails(pre, post, r, RuntimeError::StackOverflow)
            } else {
                ok_to(
                    pre,
                    post,
                    r,
                    (FrameView { ip: f.ip + 3, stack: f.stack.push(f.locals[i]), ..f }),
                )
            }
        },
        OpCode::Store => if f.ip + 3 > f.chunk.len() {
            fails(pre, post, r, RuntimeError::UnexpectedEOF)
        } else {
            let i = be16(f.chunk[f.ip + 1], f.chunk[f.ip + 2]);
            if f.stack.len() == 0 {
                fails(pre, post, r, RuntimeError::StackEmpty)
            } else if i < f.locals.len() {
                ok_to(
                    pre,
                    post,
                    r,
                    (FrameView {
                        ip: f.ip + 3,
                        stack: f.stack.drop_last(),
                        locals: f.locals.update(i, f.stack.last()),
                        ..f
                    }),
                )
            } else if i == f.locals.len() {
                ok_to(
                    pre,
                    post,
                    r,
                    (FrameView {
                        ip: f.ip + 3,
                        stack: f.stack.drop_last(),
                        locals: f.locals.push(f.stack.last()),
                        ..f
                    }),
                )
            } else {
                fails(pre, post, r, RuntimeError::UnboundVariable)
            }
        },
        OpCode::ImmI => step_imm8(
            pre,
            post,
            r,
            f,
            Value::Integer(i64_of_bits(op_word(f)) as i64),
        ),
        OpCode::ImmF => step_imm8(pre, post, r, f, Value::Float(op_word(f) as u64)),
        OpCode::ImmW => step_imm8(pre, post, r, f, Value::Word(op_word(f) as u64)),
        OpCode::ImmIByte => if f.ip + 2 > f.chunk.len() {
            fails(pre, post, r, RuntimeError::UnexpectedEOF)
        } else if f.stack.len() >= STACK_LIMIT {
            fails(pre, post, r, RuntimeError::StackOverflow)
        } else {
            ok_to(
                pre,
                post,
                r,
                (FrameView {
                    ip: f.ip + 2,
                    stack: f.stack.push(Value::Integer(sx8(f.chunk[f.ip + 1]) as i64)),
                    ..f
                }),
            )
        },
        OpCode::ImmIShort => if f.ip + 3 > f.chunk.len() {
            fails(pre, post, r, RuntimeError::UnexpectedEOF)
        } else if f.stack.len() >= STACK_LIMIT {
            fails(pre, post, r, RuntimeError::StackOverflow)
        } else {
            ok_to(
                pre,
                post,
                r,
                (FrameView {
                    ip: f.ip + 3,
                    stack: f.stack.push(
                        Value::Integer(sx16(be16(f.chunk[f.ip + 1], f.chunk[f.ip + 2])) as i64),
                    ),
                    ..f
                }),
            )
        },
        OpCode::LoadConst => if f.ip + 2 > f.chunk.len() {
            fails(pre, post, r, RuntimeError::UnexpectedEOF)
        } else {
            let c = f.chunk[f.ip + 1] as int;
            if c >= pre.consts.len() {
                fails(pre, post, r, RuntimeError::ConstIndexError)
            } else if f.stack.len() >= STACK_LIMIT {
                fails(pre, post, r, RuntimeError::StackOverflow)
            } else {
                ok_to(
                    pre,
                    post,
                    r,
                    (FrameView { ip: f.ip + 2, stack: f.stack.push(pre.consts[c]), ..f }),
                )
            }
        },
        OpCode::LoadGlobal => if f.ip + 3 > f.chunk.len() {
            fails(pre, post, r, RuntimeError::UnexpectedEOF)
        } else {
            let i = be16(f.chunk[f.ip + 1], f.chunk[f.ip + 2]);
            if i >= f.globals.len() {
                fails(pre, post, r, RuntimeError::UnboundVariable)
            } else if f.stack.len() >= STACK_LIMIT {
                fails(pre, post, r, RuntimeError::StackOverflow)
            } else {
                ok_to(
                    pre,
                    post,
                    r,
                    (FrameView { ip: f.ip + 3, stack: f.stack.push(f.globals[i]), ..f }),
                )
            }
        },
        OpCode::Call => if f.ip + 2 > f.chunk.len() {
            fails(pre, post, r, RuntimeError::UnexpectedEOF)
        } else {
            let fi = f.chunk[f.ip + 1] as int;
            if fi >= pre.funs.len() {
                fails(pre, post, r, RuntimeError::ArgumentError)
            } else {
                let fun = pre.funs[fi];
                if f.stack.len() < fun.arity {
                    fails(pre, post, r, RuntimeError::StackEmpty)
                } else {
                    r == Ok::<(), RuntimeError>(()) && post == (VmView {
                        frames: pre.frames.update(
                            pre.frames.len() - 1,
                            (FrameView {
                                ip: f.ip + 2,
                                stack: f.stack.take(f.stack.len() - fun.arity),
                                ..f
                            }),
                        ).push(
                            (FrameView {
                                chunk: fun.chunk,
                                ip: 0,
                                stack: Seq::<Value>::empty(),
                                locals: f.stack.subrange(
                                    f.stack.len() - fun.arity,
                                    f.stack.len() as int,
                                ),
                                globals: f.locals,
                            }),
                        ),
                        ..pre
                    })
                }
            }
        },
        OpCode::NegI => if f.stack.len() == 0 {
            fails(pre, post, r, RuntimeError::StackEmpty)
        } else {
            match f.stack.last() {
                Value::Integer(x) => ok_to(
                    pre,
                    post,
                    r,
                    (FrameView {
                        ip: f.ip + 1,
                        stack: f.stack.drop_last().push(Value::Integer(neg_wrap(x))),
                        ..f
                    }),
                ),
                _ => fails(pre, post, r, RuntimeError::TypeError),
            }
        },
        _ => step_bin(pre, post, r, f, op),
    }
}

/// The binary integer opcodes.
pub open spec fn is_bin(op: OpCode) -> bool {
    match op {
        OpCode::AddI | OpCode::SubI | OpCode::MulI | OpCode::DivI | OpCode::CmpEqI
            | OpCode::CmpGtI | OpCode::CmpGeI | OpCode::CmpLtI | OpCode::CmpLeI => true,
        _ => false,
    }
}

/// The working frame is about to execute `op`.
pub open spec fn at_op(v: VmView, op: OpCode) -> bool {
    v.frames.len() >= 1 && !frame_halted(top(v)) && OpCode::spec_decode(top(v).chunk[top(v).ip])
        == Some(op)
}

/// One step of the dispatch loop: a halted interpreter stays put; a
/// finished inner frame hands its result (the top of its stack) to its
/// caller and is discarded; otherwise the opcode at the instruction
/// pointer is decoded and executed. Every error leaves the state exactly
/// as it was.
pub open spec fn step_post(pre: VmView, post: VmView, r: Result<(), RuntimeError>) -> bool {
    if vm_halted(pre) {
        r == Ok::<(), RuntimeError>(()) && post == pre
    } else if frame_halted(top(pre)) {
        let child = top(pre);
        let caller = pre.frames[pre.frames.len() - 2];
        if child.stack.len() == 0 {
            fails(pre, post, r, RuntimeError::StackEmpty)
        } else if caller.stack.len() >= STACK_LIMIT {
            fails(pre, post, r, RuntimeError::StackOverflow)
        } else {
            r == Ok::<(), RuntimeError>(()) && post == (VmView {
                frames: pre.frames.drop_last().update(
                    pre.frames.len() - 2,
                    (FrameView { stack: caller.stack.push(child.stack.last()), ..caller }),
                ),
                ..pre
            })
        }
    } else {
        let f = top(pre);
        match OpCode::spec_decode(f.chunk[f.ip]) {
            Option::None => fails(pre, post, r, RuntimeError::UnknownOpCode),
            Option::Some(op) => step_op(pre, post, r, f, op),
        }
    }
}

/// Some operand-stack entry, local slot or captured/global slot of the
/// frame is a reference to heap slot `t`.
pub open spec fn frame_has_ref(f: FrameView, t: int) -> bool {
    (exists|k: int| 0 <= k < f.stack.len() && value_ref(#[trigger] f.stack[k]) == Some(t))
        || (exists|k: int| 0 <= k < f.locals.len() && value_ref(#[trigger] f.locals[k]) == Some(t))
        || (exists|k: int|
        0 <= k < f.globals.len() && value_ref(#[trigger] f.globals[k]) == Some(t))
}

/// Heap slot `t` is in the interpreter's root set: directly referenced
/// from some frame's operand stack, locals or globals.
pub open spec fn is_root(v: VmView, t: int) -> bool {
    exists|fi: int| 0 <= fi < v.frames.len() && frame_has_ref(#[trigger] v.frames[fi], t)
}

/// Jump legality, for both jump forms: with the two-byte operand in the
/// stream, a target anywhere in `[0, stream length]` succeeds and the
/// instruction pointer lands exactly on it (the length itself is legal
/// and halts the frame); any larger target fails with `IllegalGoto` and
/// leaves the whole state — the operand stack included — unchanged from
/// just before the jump opcode executed. The conditional form pops its
/// word only once the target has been validated, and branches exactly
/// when the word is nonzero, falling through past the operand otherwise.
pub proof fn lemma_jump_legality(pre: VmView, post: VmView, r: Result<(), RuntimeError>, t: int)
    requires
        at_op(pre, OpCode::Goto) || at_op(pre, OpCode::GotoIf),
        top(pre).ip + 3 <= top(pre).chunk.len(),
        t == be16(top(pre).chunk[top(pre).ip + 1], top(pre).chunk[top(pre).ip + 2]),
        step_post(pre, post, r),
    ensures
        t > top(pre).chunk.len() ==> r == Err::<(), RuntimeError>(RuntimeError::IllegalGoto)
            && post == pre,
        at_op(pre, OpCode::Goto) && t <= top(pre).chunk.len() ==> r == Ok::<(), RuntimeError>(())
            && post == with_top(pre, (FrameView { ip: t, ..top(pre) })),
        at_op(pre, OpCode::GotoIf) && t <= top(pre).chunk.len() && top(pre).stack.len() > 0 ==> (
        top(pre).stack.last() matches Value::Word(w) ==> r == Ok::<(), RuntimeError>(()) && post
            == with_top(
            pre,
            (FrameView {
                ip: if w != 0 {
                    t
                } else {
                    top(pre).ip + 3
                },
                stack: top(pre).stack.drop_last(),
                ..top(pre)
            }),
        )),
{
}

/// Local-slot store: with the two-byte index in the stream and a value
/// on the operand stack, an index equal to the current slot count
/// appends the popped value, a smaller index overwrites exactly that
/// slot, and a larger one fails with `UnboundVariable`, changing
/// nothing; an empty operand stack reports `StackEmpty` first.
pub proof fn lemma_store_semantics(pre: VmView, post: VmView, r: Result<(), RuntimeError>, i: int)
    requires
        at_op(pre, OpCode::Store),
        top(pre).ip + 3 <= top(pre).chunk.len(),
        i == be16(top(pre).chunk[top(pre).ip + 1], top(pre).chunk[top(pre).ip + 2]),
        step_post(pre, post, r),
    ensures
        top(pre).stack.len() == 0 ==> r == Err::<(), RuntimeError>(RuntimeError::StackEmpty)
            && post == pre,
        top(pre).stack.len() > 0 && i < top(pre).locals.len() ==> r == Ok::<(), RuntimeError>(())
            && post == with_top(
            pre,
            (FrameView {
                ip: top(pre).ip + 3,
                stack: top(pre).stack.drop_last(),
                locals: top(pre).locals.update(i, top(pre).stack.last()),
                ..top(pre)
            }),
        ),
        top(pre).stack.len() > 0 && i == top(pre).locals.len() ==> r == Ok::<(), RuntimeError>(())
            && post == with_top(
            pre,
            (FrameView {
                ip: top(pre).ip + 3,
                stack: top(pre).stack.drop_last(),
                locals: top(pre).locals.push(top(pre).stack.last()),
                ..top(pre)
            }),
        ),
        top(pre).stack.len() > 0 && i > top(pre).locals.len() ==> r == Err::<(), RuntimeError>(
            RuntimeError::UnboundVariable,
        ) && post == pre,
{
}

/// Arithmetic and comparison: over a valid integer operand pair the
/// result follows native two's-complement 64-bit semantics — wrapping
/// addition, subtraction and multiplication, division truncating toward
/// zero with `i64::MIN / -1` wrapping, comparisons yielding the word 1
/// or 0 — with the left operand taken from the top of the stack.
/// Dividing by zero is a reported error, never a silent wrap; an operand
/// of another kind is a `TypeError` and a short stack `StackEmpty`, in
/// every failing case with the state unchanged.
pub proof fn lemma_binary_arith_semantics(
    pre: VmView,
    post: VmView,
    r: Result<(), RuntimeError>,
    op: OpCode,
)
    requires
        is_bin(op),
        at_op(pre, op),
        step_post(pre, post, r),
    ensures
        top(pre).stack.len() < 2 ==> r == Err::<(), RuntimeError>(RuntimeError::StackEmpty)
            && post == pre,
        ({
            let st = top(pre).stack;
            st.len() >= 2 ==> match (st[st.len() - 1], st[st.len() - 2]) {
                (Value::Integer(x), Value::Integer(y)) => if op is DivI && y == 0 {
                    r == Err::<(), RuntimeError>(RuntimeError::DivideByZero) && post == pre
                } else {
                    r == Ok::<(), RuntimeError>(()) && post == with_top(
                        pre,
                        (FrameView {
                            ip: top(pre).ip + 1,
                            stack: st.take(st.len() - 2).push(bin_result(op, x, y)),
                            ..top(pre)
                        }),
                    )
                },
                _ => r == Err::<(), RuntimeError>(RuntimeError::TypeError) && post == pre,
            }
        }),
{
}

/// The value's heap reference, if it is one, names a live slot.
pub open spec fn val_ok(s: Seq<Slot>, v: Value) -> bool {
    match value_ref(v) {
        Some(t) => occ(s, t),
        None => true,
    }
}

/// Every heap reference in the frame's operand stack, locals and globals
/// names a live slot.
pub open spec fn frame_ok(s: Seq<Slot>, f: FrameView) -> bool {
    (forall|k: int| 0 <= k < f.stack.len() ==> val_ok(s, #[trigger] f.stack[k])) && (forall|k: int|
        0 <= k < f.locals.len() ==> val_ok(s, #[trigger] f.locals[k])) && (forall|k: int|
        0 <= k < f.globals.len() ==> val_ok(s, #[trigger] f.globals[k]))
}

/// Every heap reference anywhere in interpreter-owned storage — all
/// frames and the constant pool — names a live slot of the arena `s`.
pub open spec fn vm_refs_ok(s: Seq<Slot>, v: VmView) -> bool {
    (forall|fi: int| 0 <= fi < v.frames.len() ==> frame_ok(s, #[trigger] v.frames[fi])) && (forall|
        k: int,
    |
        0 <= k < v.consts.len() ==> val_ok(s, #[trigger] v.consts[k]))
}

proof fn lemma_with_top_ok(s: Seq<Slot>, pre: VmView, nf: FrameView)
    requires
        vm_refs_ok(s, pre),
        pre.frames.len() >= 1,
        forall|k: int| 0 <= k < nf.stack.len() ==> val_ok(s, #[trigger] nf.stack[k]),
        forall|k: int| 0 <= k < nf.locals.len() ==> val_ok(s, #[trigger] nf.locals[k]),
        forall|k: int| 0 <= k < nf.globals.len() ==> val_ok(s, #[trigger] nf.globals[k]),
    ensures
        vm_refs_ok(s, with_top(pre, nf)),
{
    let post = with_top(pre, nf);
    assert forall|fi: int| 0 <= fi < post.frames.len() implies frame_ok(
        s,
        post.frames[fi],
    ) by {
        if fi == pre.frames.len() - 1 {
            assert(post.frames[fi] == nf);
        } else {
            assert(post.frames[fi] == pre.frames[fi]);
        }
    }
}

/// A dispatch step invents no heap reference: every value it moves comes
/// from existing interpreter storage or the constant pool, or is a fresh
/// non-reference immediate. So if every reference in storage named a
/// live slot before the step, every reference still does after it — the
/// dispatch loop alone can never make a reference dangle; only the
/// collector's contracts govern that.
pub proof fn lemma_step_keeps_refs(s: Seq<Slot>, pre: VmView, post: VmView)
    requires
        vm_refs_ok(s, pre),
        pre.frames.len() >= 1,
        forall|i: int| 0 <= i < pre.funs.len() ==> (#[trigger] pre.funs[i]).arity >= 0,
        step_post(pre, post, Ok::<(), RuntimeError>(())),
    ensures
        vm_refs_ok(s, post),
{
    let n = pre.frames.len();
    let f = top(pre);
    if vm_halted(pre) {
    } else if frame_halted(f) {
        let caller = pre.frames[n - 2];
        let child = pre.frames[n - 1];
        let nf = FrameView { stack: caller.stack.push(child.stack.last()), ..caller };
        assert(val_ok(s, child.stack.last()));
        assert forall|k: int| 0 <= k < nf.stack.len() implies val_ok(s, #[trigger] nf.stack[k]) by {
            if k < caller.stack.len() {
                assert(nf.stack[k] == caller.stack[k]);
            }
        }
        assert forall|fi: int| 0 <= fi < post.frames.len() implies frame_ok(
            s,
            post.frames[fi],
        ) by {
            if fi == n - 2 {
                assert(post.frames[fi] == nf);
            } else {
                assert(post.frames[fi] == pre.frames[fi]);
            }
        }
    } else {
        match OpCode::spec_decode(f.chunk[f.ip]) {
            Option::None => {},
            Option::Some(op) => {
                lemma_step_op_keeps_refs(s, pre, post, f, op);
            },
        }
    }
}

/// A dispatch step keeps the frame stack populated and never touches the
/// constant pool or the function table.
pub proof fn lemma_step_keeps_shape(pre: VmView, post: VmView)
    requires
        pre.frames.len() >= 1,
        step_post(pre, post, Ok::<(), RuntimeError>(())),
    ensures
        post.frames.len() >= 1,
        post.consts == pre.consts,
        post.funs == pre.funs,
{
}

/// Reference validity holds across a whole run: however many dispatch
/// steps execute, no heap reference in interpreter storage starts
/// dangling, because no step invents one.
pub proof fn lemma_run_keeps_refs(s: Seq<Slot>, a: VmView, b: VmView, n: nat)
    requires
        vm_refs_ok(s, a),
        a.frames.len() >= 1,
        forall|i: int| 0 <= i < a.funs.len() ==> (#[trigger] a.funs[i]).arity >= 0,
        steps_to(a, b, n),
    ensures
        vm_refs_ok(s, b),
        b.frames.len() >= 1,
    decreases n,
{
    if n > 0 {
        let m = choose|m: VmView|
            steps_to(a, m, (n - 1) as nat) && #[trigger] step_post(
                m,
                b,
                Ok::<(), RuntimeError>(()),
            );
        lemma_run_keeps_refs(s, a, m, (n - 1) as nat);
        lemma_steps_keep_funs(a, m, (n - 1) as nat);
        lemma_step_keeps_refs(s, m, b);
        lemma_step_keeps_shape(m, b);
    }
}

proof fn lemma_steps_keep_funs(a: VmView, b: VmView, n: nat)
    requires
        a.frames.len() >= 1,
        steps_to(a, b, n),
    ensures
        b.frames.len() >= 1,
        b.funs == a.funs,
        b.consts == a.consts,
    decreases n,
{
    if n > 0 {
        let m = choose|m: VmView|
            steps_to(a, m, (n - 1) as nat) && #[trigger] step_post(
                m,
                b,
                Ok::<(), RuntimeError>(()),
            );
        lemma_steps_keep_funs(a, m, (n - 1) as nat);
        lemma_step_keeps_shape(m, b);
    }
}

proof fn lemma_stack_edit_ok(s: Seq<Slot>, f: FrameView, kept: int, pushed: Value)
    requires
        frame_ok(s, f),
        0 <= kept <= f.stack.len(),
        val_ok(s, pushed),
    ensures
        forall|k: int|
            0 <= k < f.stack.take(kept).push(pushed).len() ==> val_ok(
                s,
                #[trigger] f.stack.take(kept).push(pushed)[k],
            ),
{
    let ns = f.stack.take(kept).push(pushed);
    assert forall|k: int| 0 <= k < ns.len() implies val_ok(s, #[trigger] ns[k]) by {
        if k < kept {
            assert(ns[k] == f.stack[k]);
        } else {
            assert(ns[k] == pushed);
        }
    }
}

proof fn lemma_step_op_keeps_refs(
    s: Seq<Slot>,
    pre: VmView,
    post: VmView,
    f: FrameView,
    op: OpCode,
)
    requires
        vm_refs_ok(s, pre),
        pre.frames.len() >= 1,
        forall|i: int| 0 <= i < pre.funs.len() ==> (#[trigger] pre.funs[i]).arity >= 0,
        f == top(pre),
        step_op(pre, post, Ok::<(), RuntimeError>(()), f, op),
    ensures
        vm_refs_ok(s, post),
{
    assert(frame_ok(s, f));
    match op {
        OpCode::Return => {
            lemma_with_top_ok(s, pre, (FrameView { ip: f.chunk.len() as int, ..f }));
        },
        OpCode::Goto => {
            let t = be16(f.chunk[f.ip + 1], f.chunk[f.ip + 2]);
            lemma_with_top_ok(s, pre, (FrameView { ip: t, ..f }));
        },
        OpCode::GotoIf => {
            assert forall|k: int| 0 <= k < f.stack.drop_last().len() implies val_ok(
                s,
                #[trigger] f.stack.drop_last()[k],
            ) by {
                assert(f.stack.drop_last()[k] == f.stack[k]);
            }
            let t = be16(f.chunk[f.ip + 1], f.chunk[f.ip + 2]);
            match f.stack.last() {
                Value::Word(w) => {
                    lemma_with_top_ok(
                        s,
                        pre,
                        (FrameView {
                            ip: if w != 0 {
                                t
                            } else {
                                f.ip + 3
                            },
                            stack: f.stack.drop_last(),
                            ..f
                        }),
                    );
                },
                _ => {},
            }
        },
        OpCode::Load => {
            let i = be16(f.chunk[f.ip + 1], f.chunk[f.ip + 2]);
            lemma_stack_edit_ok(s, f, f.stack.len() as int, f.locals[i]);
            assert(f.stack.take(f.stack.len() as int) =~= f.stack);
            lemma_with_top_ok(
                s,
                pre,
                (FrameView { ip: f.ip + 3, stack: f.stack.push(f.locals[i]), ..f }),
            );
        },
        OpCode::Store => {
            let i = be16(f.chunk[f.ip + 1], f.chunk[f.ip + 2]);
            assert forall|k: int| 0 <= k < f.stack.drop_last().len() implies val_ok(
                s,
                #[trigger] f.stack.drop_last()[k],
            ) by {
                assert(f.stack.drop_last()[k] == f.stack[k]);
            }
            assert(val_ok(s, f.stack.last()));
            if i < f.locals.len() {
                let nl = f.locals.update(i, f.stack.last());
                assert forall|k: int| 0 <= k < nl.len() implies val_ok(s, #[trigger] nl[k]) by {
                    if k != i {
                        assert(nl[k] == f.locals[k]);
                    }
                }
                lemma_with_top_ok(
                    s,
                    pre,
                    (FrameView { ip: f.ip + 3, stack: f.stack.drop_last(), locals: nl, ..f }),
                );
            } else if i == f.locals.len() {
                let nl = f.locals.push(f.stack.last());
                assert forall|k: int| 0 <= k < nl.len() implies val_ok(s, #[trigger] nl[k]) by {
                    if k < f.locals.len() {
                        assert(nl[k] == f.locals[k]);
                    }
                }
                lemma_with_top_ok(
                    s,
                    pre,
                    (FrameView { ip: f.ip + 3, stack: f.stack.drop_last(), locals: nl, ..f }),
                );
            }
        },
        OpCode::ImmI => {
            lemma_imm_ok(s, pre, f, 9, Value::Integer(i64_of_bits(op_word(f)) as i64));
        },
        OpCode::ImmF => {
            lemma_imm_ok(s, pre, f, 9, Value::Float(op_word(f) as u64));
        },
        OpCode::ImmW => {
            lemma_imm_ok(s, pre, f, 9, Value::Word(op_word(f) as u64));
        },
        OpCode::ImmIByte => {
            lemma_imm_ok(s, pre, f, 2, Value::Integer(sx8(f.chunk[f.ip + 1]) as i64));
        },
        OpCode::ImmIShort => {
            lemma_imm_ok(
                s,
                pre,
                f,
                3,
                Value::Integer(sx16(be16(f.chunk[f.ip + 1], f.chunk[f.ip + 2])) as i64),
            );
        },
        OpCode::LoadConst => {
            let c = f.chunk[f.ip + 1] as int;
            assert(val_ok(s, pre.consts[c]));
            lemma_imm_ok(s, pre, f, 2, pre.consts[c]);
        },
        OpCode::LoadGlobal => {
            let i = be16(f.chunk[f.ip + 1], f.chunk[f.ip + 2]);
            assert(val_ok(s, f.globals[i]));
            lemma_imm_ok(s, pre, f, 3, f.globals[i]);
        },
        OpCode::Call => {
            let fi = f.chunk[f.ip + 1] as int;
            let fun = pre.funs[fi];
            let caller = FrameView {
                ip: f.ip + 2,
                stack: f.stack.take(f.stack.len() - fun.arity),
                ..f
            };
            let child = FrameView {
                chunk: fun.chunk,
                ip: 0,
                stack: Seq::<Value>::empty(),
                locals: f.stack.subrange(f.stack.len() - fun.arity, f.stack.len() as int),
                globals: f.locals,
            };
            assert forall|k: int| 0 <= k < caller.stack.len() implies val_ok(
                s,
                #[trigger] caller.stack[k],
            ) by {
                assert(caller.stack[k] == f.stack[k]);
            }
            assert forall|k: int| 0 <= k < child.locals.len() implies val_ok(
                s,
                #[trigger] child.locals[k],
            ) by {
                assert(child.locals[k] == f.stack[f.stack.len() - fun.arity + k]);
            }
            assert forall|fj: int| 0 <= fj < post.frames.len() implies frame_ok(
                s,
                post.frames[fj],
            ) by {
                if fj == pre.frames.len() - 1 {
                    assert(post.frames[fj] == caller);
                } else if fj == pre.frames.len() {
                    assert(post.frames[fj] == child);
                } else {
                    assert(post.frames[fj] == pre.frames[fj]);
                }
            }
        },
        OpCode::NegI => {
            match f.stack.last() {
                Value::Integer(x) => {
                    assert(f.stack.drop_last() =~= f.stack.take(f.stack.len() - 1));
                    lemma_stack_edit_ok(
                        s,
                        f,
                        f.stack.len() - 1,
                        Value::Integer(neg_wrap(x)),
                    );
                    lemma_with_top_ok(
                        s,
                        pre,
                        (FrameView {
                            ip: f.ip + 1,
                            stack: f.stack.drop_last().push(Value::Integer(neg_wrap(x))),
                            ..f
                        }),
                    );
                },
                _ => {},
            }
        },
        _ => {
            if f.stack.len() >= 2 {
                match (f.stack[f.stack.len() - 1], f.stack[f.stack.len() - 2]) {
                    (Value::Integer(x), Value::Integer(y)) => {
                        lemma_stack_edit_ok(s, f, f.stack.len() - 2, bin_result(op, x, y));
                        lemma_with_top_ok(
                            s,
                            pre,
                            (FrameView {
                                ip: f.ip + 1,
                                stack: f.stack.take(f.stack.len() - 2).push(
                                    bin_result(op, x, y),
                                ),
                                ..f
                            }),
                        );
                    },
                    _ => {},
                }
            }
        },
    }
}

proof fn lemma_imm_ok(s: Seq<Slot>, pre: VmView, f: FrameView, width: int, v: Value)
    requires
        vm_refs_ok(s, pre),
        pre.frames.len() >= 1,
        f == top(pre),
        val_ok(s, v),
    ensures
        vm_refs_ok(s, with_top(pre, (FrameView { ip: f.ip + width, stack: f.stack.push(v), ..f }))),
{
    lemma_stack_edit_ok(s, f, f.stack.len() as int, v);
    assert(f.stack.take(f.stack.len() as int) =~= f.stack);
    lemma_with_top_ok(s, pre, (FrameView { ip: f.ip + width, stack: f.stack.push(v), ..f }));
}

/// State `b` is what `n` successful dispatch steps make of state `a`.
pub open spec fn steps_to(a: VmView, b: VmView, n: nat) -> bool
    decreases n,
{
    if n == 0 {
        a == b
    } else {
        exists|m: VmView|
            steps_to(a, m, (n - 1) as nat) && #[trigger] step_post(m, b, Ok::<(), RuntimeError>(()))
    }
}

/// Reads two bytes big-endian.
fn rd16(c: &Vec<u8>, i: usize) -> (r: usize)
    requires
        i + 2 <= c@.len(),
    ensures
        r == be16(c@[i as int], c@[i + 1]),
        r < 65536,
{
    let n = c.len();
    proof {
        assert(i + 2 <= n);
    }
    (c[i] as usize) * 256 + (c[i + 1] as usize)
}

/// Reads four bytes big-endian.
fn rd32(c: &Vec<u8>, i: usize) -> (r: u32)
    requires
        i + 4 <= c@.len(),
    ensures
        r as int == be32(c@[i as int], c@[i + 1], c@[i + 2], c@[i + 3]),
{
    let n = c.len();
    proof {
        assert(i + 4 <= n);
    }
    let mut w: u32 = c[i] as u32;
    w = w * 256 + (c[i + 1] as u32);
    w = w * 256 + (c[i + 2] as u32);
    w = w * 256 + (c[i + 3] as u32);
    w
}

/// Reads eight bytes big-endian.
fn rd64(c: &Vec<u8>, i: usize) -> (r: u64)
    requires
        i + 8 <= c@.len(),
    ensures
        r as int == be64(
            c@[i as int],
            c@[i + 1],
            c@[i + 2],
            c@[i + 3],
            c@[i + 4],
            c@[i + 5],
            c@[i + 6],
            c@[i + 7],
        ),
{
    let n = c.len();
    proof {
        assert(i + 8 <= n);
    }
    let mut w: u64 = c[i] as u64;
    w = w * 256 + (c[i + 1] as u64);
    w = w * 256 + (c[i + 2] as u64);
    w = w * 256 + (c[i + 3] as u64);
    w = w * 256 + (c[i + 4] as u64);
    w = w * 256 + (c[i + 5] as u64);
    w = w * 256 + (c[i + 6] as u64);
    w = w * 256 + (c[i + 7] as u64);
    w
}

/// The signed integer carried by a word's bit pattern.
fn i64_from_bits(w: u64) -> (r: i64)
    ensures
        r as int == i64_of_bits(w as int),
{
    if w <= i64::MAX as u64 {
        w as i64
    } else {
        let d = u64::MAX - w;
        -(d as i64) - 1
    }
}

/// The interpreter: the frame stack (the last entry is the frame being
/// executed), the constant pool and function table fixed at construction,
/// and the garbage-collected heap.
#[derive(Debug, Clone, PartialEq)]
pub struct VM {
    pub frames: Vec<Frame>,
    pub consts: Vec<Value>,
    pub functions: Vec<Function>,
    pub heap: Heap,
}

impl View for VM {
    type V = VmView;

    open spec fn view(&self) -> VmView {
        VmView {
            frames: self.frames@.map_values(|f: Frame| f@),
            consts: self.consts@,
            funs: self.functions@.map_values(|f: Function| f@),
        }
    }
}

impl VM {
    /// There is always a frame to execute, the heap's books balance, and
    /// no mark color lingers between collections: a mark pass runs only
    /// as the first half of a collection, and the sweep that completes it
    /// resets every survivor to `Unmarked`. Starting each pass from clean
    /// colors is what lets it descend the whole reachable object graph —
    /// a stale mark would stop the color-guarded traversal early.
    pub open spec fn wf(self) -> bool {
        self.frames@.len() >= 1 && self.heap.wf() && all_unmarked(self.heap.slots@)
    }

    /// An interpreter bound to an instruction stream, with its constant
    /// pool and function table, ready to run from offset 0 with empty
    /// stack, locals and globals and an empty heap.
    pub fn new(chunk: Chunk, consts: Vec<Value>, functions: Vec<Function>) -> (r: VM)
        ensures
            r.wf(),
            r@.frames.len() == 1,
            top(r@) == (FrameView {
                chunk: chunk@,
                ip: 0,
                stack: Seq::<Value>::empty(),
                locals: Seq::<Value>::empty(),
                globals: Seq::<Value>::empty(),
            }),
            r@.consts == consts@,
            r@.funs == functions@.map_values(|f: Function| f@),
            r.heap.slots@.len() == 0,
            r.heap.size == 0,
            r.heap.threshold == HEAP_THRESHOLD,
    {
        let frame = Frame {
            chunk,
            ip: 0,
            stack: Vec::new(),
            locals: Vec::new(),
            globals: Vec::new(),
        };
        let mut frames: Vec<Frame> = Vec::new();
        frames.push(frame);
        let r = VM { frames, consts, functions, heap: Heap::new() };
        proof {
            assert(top(r@) =~~= (FrameView {
                chunk: r.frames@[0].chunk@,
                ip: 0,
                stack: Seq::<Value>::empty(),
                locals: Seq::<Value>::empty(),
                globals: Seq::<Value>::empty(),
            }));
        }
        r
    }

    /// The working frame's operand stack, for embedding callers to read
    /// results off after a run.
    pub fn stack(&self) -> (r: &Vec<Value>)
        requires
            self.wf(),
        ensures
            r@ == top(self@).stack,
    {
        let n = self.frames.len() - 1;
        &self.frames[n].stack
    }

    /// The working frame has reached the end of its stream.
    pub fn eof(&self) -> (r: bool)
        requires
            self.wf(),
        ensures
            r == frame_halted(top(self@)),
    {
        let n = self.frames.len() - 1;
        self.frames[n].ip >= self.frames[n].chunk.len()
    }

    /// Execution is over: only the root frame remains and it is at
    /// end-of-stream.
    pub fn halted(&self) -> (r: bool)
        requires
            self.wf(),
        ensures
            r == vm_halted(self@),
    {
        self.frames.len() == 1 && self.eof()
    }

    /// Pushes onto the working frame's operand stack. At capacity the push
    /// fails with `StackOverflow` and the stack is left unchanged: there
    /// is no partial push.
    pub fn push(&mut self, val: Value) -> (r: Result<(), RuntimeError>)
        requires
            old(self).wf(),
        ensures
            final(self).wf(),
            final(self).heap == old(self).heap,
            if top(old(self)@).stack.len() < STACK_LIMIT {
                r is Ok && final(self)@ == with_top(
                    old(self)@,
                    (FrameView { stack: top(old(self)@).stack.push(val), ..top(old(self)@) }),
                )
            } else {
                r == Err::<(), RuntimeError>(RuntimeError::StackOverflow) && final(self)@ == old(self)@
            },
    {
        let n = self.frames.len() - 1;
        if self.frames[n].stack.len() >= STACK_LIMIT {
            return Err(RuntimeError::StackOverflow);
        }
        let fr = &mut self.frames[n];
        fr.stack.push(val);
        proof {
            assert(self@ =~~= with_top(
                old(self)@,
                (FrameView { stack: top(old(self)@).stack.push(val), ..top(old(self)@) }),
            ));
        }
        Ok(())
    }

    /// Pops the working frame's operand stack, or fails with `StackEmpty`.
    pub fn pop(&mut self) -> (r: Result<Value, RuntimeError>)
        requires
            old(self).wf(),
        ensures
            final(self).wf(),
            final(self).heap == old(self).heap,
            if top(old(self)@).stack.len() > 0 {
                r == Ok::<Value, RuntimeError>(top(old(self)@).stack.last()) && final(self)@
                    == with_top(
                    old(self)@,
                    (FrameView { stack: top(old(self)@).stack.drop_last(), ..top(old(self)@) }),
                )
            } else {
                r == Err::<Value, RuntimeError>(RuntimeError::StackEmpty) && final(self)@ == old(self)@
            },
    {
        let n = self.frames.len() - 1;
        let slen = self.frames[n].stack.len();
        if slen == 0 {
            return Err(RuntimeError::StackEmpty);
        }
        let v = self.frames[n].stack[slen - 1];
        let fr = &mut self.frames[n];
        fr.stack.truncate(slen - 1);
        proof {
            assert(top(old(self)@).stack.take(slen - 1) =~= top(old(self)@).stack.drop_last());
            assert(self@ =~~= with_top(
                old(self)@,
                (FrameView { stack: top(old(self)@).stack.drop_last(), ..top(old(self)@) }),
            ));
        }
        Ok(v)
    }

    /// Pops a word and reads it as a boolean: nonzero is true. The stack
    /// is unchanged when it is empty (`StackEmpty`) or the top is not a
    /// word (`TypeError`).
    pub fn get_bool(&mut self) -> (r: Result<bool, RuntimeError>)
        requires
            old(self).wf(),
        ensures
            final(self).wf(),
            final(self).heap == old(self).heap,
            ({
                let f = top(old(self)@);
                if f.stack.len() == 0 {
                    r == Err::<bool, RuntimeError>(RuntimeError::StackEmpty) && final(self)@ == old(self)@
                } else {
                    match f.stack.last() {
                        Value::Word(w) => r == Ok::<bool, RuntimeError>(w != 0) && final(self)@
                            == with_top(
                            old(self)@,
                            (FrameView { stack: f.stack.drop_last(), ..f }),
                        ),
                        _ => r == Err::<bool, RuntimeError>(RuntimeError::TypeError) && final(self)@ == old(self)@,
                    }
                }
            }),
    {
        match self.get_word() {
            Ok(w) => Ok(w != 0),
            Err(e) => Err(e),
        }
    }

    /// Pops a signed integer; the stack is unchanged on failure.
    pub fn get_integer(&mut self) -> (r: Result<i64, RuntimeError>)
        requires
            old(self).wf(),
        ensures
            final(self).wf(),
            final(self).heap == old(self).heap,
            ({
                let f = top(old(self)@);
                if f.stack.len() == 0 {
                    r == Err::<i64, RuntimeError>(RuntimeError::StackEmpty) && final(self)@ == old(self)@
                } else {
                    match f.stack.last() {
                        Value::Integer(i) => r == Ok::<i64, RuntimeError>(i) && final(self)@
                            == with_top(
                            old(self)@,
                            (FrameView { stack: f.stack.drop_last(), ..f }),
                        ),
                        _ => r == Err::<i64, RuntimeError>(RuntimeError::TypeError) && final(self)@ == old(self)@,
                    }
                }
            }),
    {
        let n = self.frames.len() - 1;
        let slen = self.frames[n].stack.len();
        if slen == 0 {
            return Err(RuntimeError::StackEmpty);
        }
        match self.frames[n].stack[slen - 1] {
            Value::Integer(i) => {
                let fr = &mut self.frames[n];
                fr.stack.truncate(slen - 1);
                proof {
                    assert(top(old(self)@).stack.take(slen - 1) =~= top(
                        old(self)@,
                    ).stack.drop_last());
                    assert(self@ =~~= with_top(
                        old(self)@,
                        (FrameView {
                            stack: top(old(self)@).stack.drop_last(),
                            ..top(old(self)@)
                        }),
                    ));
                }
                Ok(i)
            },
            _ => Err(RuntimeError::TypeError),
        }
    }

    /// Pops an unsigned word; the stack is unchanged on failure.
    pub fn get_word(&mut self) -> (r: Result<u64, RuntimeError>)
        requires
            old(self).wf(),
        ensures
            final(self).wf(),
            final(self).heap == old(self).heap,
            ({
                let f = top(old(self)@);
                if f.stack.len() == 0 {
                    r == Err::<u64, RuntimeError>(RuntimeError::StackEmpty) && final(self)@ == old(self)@
                } else {
                    match f.stack.last() {
                        Value::Word(w) => r == Ok::<u64, RuntimeError>(w) && final(self)@
                            == with_top(
                            old(self)@,
                            (FrameView { stack: f.stack.drop_last(), ..f }),
                        ),
                        _ => r == Err::<u64, RuntimeError>(RuntimeError::TypeError) && final(self)@ == old(self)@,
                    }
                }
            }),
    {
        let n = self.frames.len() - 1;
        let slen = self.frames[n].stack.len();
        if slen == 0 {
            return Err(RuntimeError::StackEmpty);
        }
        match self.frames[n].stack[slen - 1] {
            Value::Word(w) => {
                let fr = &mut self.frames[n];
                fr.stack.truncate(slen - 1);
                proof {
                    assert(top(old(self)@).stack.take(slen - 1) =~= top(
                        old(self)@,
                    ).stack.drop_last());
                    assert(self@ =~~= with_top(
                        old(self)@,
                        (FrameView {
                            stack: top(old(self)@).stack.drop_last(),
                            ..top(old(self)@)
                        }),
                    ));
                }
                Ok(w)
            },
            _ => Err(RuntimeError::TypeError),
        }
    }

    /// Pops a float's bit pattern; the stack is unchanged on failure. The
    /// runtime never interprets the bits numerically.
    pub fn get_float(&mut self) -> (r: Result<u64, RuntimeError>)
        requires
            old(self).wf(),
        ensures
            final(self).wf(),
            final(self).heap == old(self).heap,
            ({
                let f = top(old(self)@);
                if f.stack.len() == 0 {
                    r == Err::<u64, RuntimeError>(RuntimeError::StackEmpty) && final(self)@ == old(self)@
                } else {
                    match f.stack.last() {
                        Value::Float(w) => r == Ok::<u64, RuntimeError>(w) && final(self)@
                            == with_top(
                            old(self)@,
                            (FrameView { stack: f.stack.drop_last(), ..f }),
                        ),
                        _ => r == Err::<u64, RuntimeError>(RuntimeError::TypeError) && final(self)@ == old(self)@,
                    }
                }
            }),
    {
        let n = self.frames.len() - 1;
        let slen = self.frames[n].stack.len();
        if slen == 0 {
            return Err(RuntimeError::StackEmpty);
        }
        match self.frames[n].stack[slen - 1] {
            Value::Float(w) => {
                let fr = &mut self.frames[n];
                fr.stack.truncate(slen - 1);
                proof {
                    assert(top(old(self)@).stack.take(slen - 1) =~= top(
                        old(self)@,
                    ).stack.drop_last());
                    assert(self@ =~~= with_top(
                        old(self)@,
                        (FrameView {
                            stack: top(old(self)@).stack.drop_last(),
                            ..top(old(self)@)
                        }),
                    ));
                }
                Ok(w)
            },
            _ => Err(RuntimeError::TypeError),
        }
    }

    /// Reads the byte at the instruction pointer and advances past it, or
    /// fails with `UnexpectedEOF` at end-of-stream, leaving the state
    /// unchanged.
    pub fn advance(&mut self) -> (r: Result<u8, RuntimeError>)
        requires
            old(self).wf(),
        ensures
            final(self).wf(),
            final(self).heap == old(self).heap,
            ({
                let f = top(old(self)@);
                if f.ip < f.chunk.len() {
                    r == Ok::<u8, RuntimeError>(f.chunk[f.ip]) && final(self)@ == with_top(
                        old(self)@,
                        (FrameView { ip: f.ip + 1, ..f }),
                    )
                } else {
                    r == Err::<u8, RuntimeError>(RuntimeError::UnexpectedEOF) && final(self)@
                        == old(self)@
                }
            }),
    {
        let n = self.frames.len() - 1;
        let ip = self.frames[n].ip;
        if ip >= self.frames[n].chunk.len() {
            return Err(RuntimeError::UnexpectedEOF);
        }
        let b = self.frames[n].chunk[ip];
        let fr = &mut self.frames[n];
        fr.ip = ip + 1;
        proof {
            assert(self@ =~~= with_top(
                old(self)@,
                (FrameView { ip: top(old(self)@).ip + 1, ..top(old(self)@) }),
            ));
        }
        Ok(b)
    }

    /// Reads a two-byte big-endian operand, advancing past it; on a
    /// truncated stream fails with `UnexpectedEOF` and changes nothing.
    pub fn advance2(&mut self) -> (r: Result<u16, RuntimeError>)
        requires
            old(self).wf(),
        ensures
            final(self).wf(),
            final(self).heap == old(self).heap,
            ({
                let f = top(old(self)@);
                if f.ip + 2 <= f.chunk.len() {
                    r == Ok::<u16, RuntimeError>(be16(f.chunk[f.ip], f.chunk[f.ip + 1]) as u16)
                        && final(self)@ == with_top(old(self)@, (FrameView { ip: f.ip + 2, ..f }))
                } else {
                    r == Err::<u16, RuntimeError>(RuntimeError::UnexpectedEOF) && final(self)@
                        == old(self)@
                }
            }),
    {
        let n = self.frames.len() - 1;
        let ip = self.frames[n].ip;
        let clen = self.frames[n].chunk.len();
        if ip >= clen || clen - ip < 2 {
            return Err(RuntimeError::UnexpectedEOF);
        }
        let w = rd16(&self.frames[n].chunk, ip);
        let fr = &mut self.frames[n];
        fr.ip = ip + 2;
        proof {
            assert(self@ =~~= with_top(
                old(self)@,
                (FrameView { ip: top(old(self)@).ip + 2, ..top(old(self)@) }),
            ));
        }
        Ok(w as u16)
    }

    /// Reads a four-byte big-endian operand, advancing past it; on a
    /// truncated stream fails with `UnexpectedEOF` and changes nothing.
    pub fn advance4(&mut self) -> (r: Result<u32, RuntimeError>)
        requires
            old(self).wf(),
        ensures
            final(self).wf(),
            final(self).heap == old(self).heap,
            ({
                let f = top(old(self)@);
                if f.ip + 4 <= f.chunk.len() {
                    r == Ok::<u32, RuntimeError>(
                        be32(f.chunk[f.ip], f.chunk[f.ip + 1], f.chunk[f.ip + 2], f.chunk[f.ip + 3])
                            as u32,
                    ) && final(self)@ == with_top(old(self)@, (FrameView { ip: f.ip + 4, ..f }))
                } else {
                    r == Err::<u32, RuntimeError>(RuntimeError::UnexpectedEOF) && final(self)@
                        == old(self)@
                }
            }),
    {
        let n = self.frames.len() - 1;
        let ip = self.frames[n].ip;
        let clen = self.frames[n].chunk.len();
        if ip >= clen || clen - ip < 4 {
            return Err(RuntimeError::UnexpectedEOF);
        }
        let w = rd32(&self.frames[n].chunk, ip);
        let fr = &mut self.frames[n];
        fr.ip = ip + 4;
        proof {
            assert(self@ =~~= with_top(
                old(self)@,
                (FrameView { ip: top(old(self)@).ip + 4, ..top(old(self)@) }),
            ));
        }
        Ok(w)
    }

    /// Reads an eight-byte big-endian operand, advancing past it; on a
    /// truncated stream fails with `UnexpectedEOF` and changes nothing.
    pub fn advance8(&mut self) -> (r: Result<u64, RuntimeError>)
        requires
            old(self).wf(),
        ensures
            final(self).wf(),
            final(self).heap == old(self).heap,
            ({
                let f = top(old(self)@);
                if f.ip + 8 <= f.chunk.len() {
                    r == Ok::<u64, RuntimeError>(
                        be64(
                            f.chunk[f.ip],
                            f.chunk[f.ip + 1],
                            f.chunk[f.ip + 2],
                            f.chunk[f.ip + 3],
                            f.chunk[f.ip + 4],
                            f.chunk[f.ip + 5],
                            f.chunk[f.ip + 6],
                            f.chunk[f.ip + 7],
                        ) as u64,
                    ) && final(self)@ == with_top(old(self)@, (FrameView { ip: f.ip + 8, ..f }))
                } else {
                    r == Err::<u64, RuntimeError>(RuntimeError::UnexpectedEOF) && final(self)@
                        == old(self)@
                }
            }),
    {
        let n = self.frames.len() - 1;
        let ip = self.frames[n].ip;
        let clen = self.frames[n].chunk.len();
        if ip >= clen || clen - ip < 8 {
            return Err(RuntimeError::UnexpectedEOF);
        }
        let w = rd64(&self.frames[n].chunk, ip);
        let fr = &mut self.frames[n];
        fr.ip = ip + 8;
        proof {
            assert(self@ =~~= with_top(
                old(self)@,
                (FrameView { ip: top(old(self)@).ip + 8, ..top(old(self)@) }),
            ));
        }
        Ok(w)
    }
}

impl Default for VM {
    /// An interpreter bound to an empty stream: already halted, with
    /// nothing in its pool or table.
    fn default() -> (r: VM)
        ensures
            r.wf(),
            vm_halted(r@),
            r@.consts.len() == 0,
            r@.funs.len() == 0,
    {
        VM::new(Vec::new(), Vec::new(), Vec::new())
    }
}

impl VM {
    /// Forces the instruction pointer to end-of-stream.
    fn ret(&mut self) -> (r: Result<(), RuntimeError>)
        requires
            old(self).wf(),
            at_op(old(self)@, OpCode::Return),
        ensures
            final(self).wf(),
            final(self).heap == old(self).heap,
            step_post(old(self)@, final(self)@, r),
    {
        let n = self.frames.len() - 1;
        let clen = self.frames[n].chunk.len();
        let fr = &mut self.frames[n];
        fr.ip = clen;
        proof {
            assert(self@ =~~= with_top(
                old(self)@,
                (FrameView { ip: top(old(self)@).chunk.len() as int, ..top(old(self)@) }),
            ));
        }
        Ok(())
    }

    /// Unconditional absolute jump to a validated target.
    fn goto(&mut self) -> (r: Result<(), RuntimeError>)
        requires
            old(self).wf(),
            at_op(old(self)@, OpCode::Goto),
        ensures
            final(self).wf(),
            final(self).heap == old(self).heap,
            step_post(old(self)@, final(self)@, r),
    {
        let n = self.frames.len() - 1;
        let ip = self.frames[n].ip;
        let clen = self.frames[n].chunk.len();
        if clen - ip < 3 {
            return Err(RuntimeError::UnexpectedEOF);
        }
        let t = rd16(&self.frames[n].chunk, ip + 1);
        if t > clen {
            return Err(RuntimeError::IllegalGoto);
        }
        let fr = &mut self.frames[n];
        fr.ip = t;
        proof {
            assert(self@ =~~= with_top(
                old(self)@,
                (FrameView { ip: t as int, ..top(old(self)@) }),
            ));
        }
        Ok(())
    }

    /// Conditional absolute jump: validates the target, then pops the
    /// word and branches when it is nonzero.
    fn goto_if(&mut self) -> (r: Result<(), RuntimeError>)
        requires
            old(self).wf(),
            at_op(old(self)@, OpCode::GotoIf),
        ensures
            final(self).wf(),
            final(self).heap == old(self).heap,
            step_post(old(self)@, final(self)@, r),
    {
        let n = self.frames.len() - 1;
        let ip = self.frames[n].ip;
        let clen = self.frames[n].chunk.len();
        if clen - ip < 3 {
            return Err(RuntimeError::UnexpectedEOF);
        }
        let t = rd16(&self.frames[n].chunk, ip + 1);
        if t > clen {
            return Err(RuntimeError::IllegalGoto);
        }
        let slen = self.frames[n].stack.len();
        if slen == 0 {
            return Err(RuntimeError::StackEmpty);
        }
        match self.frames[n].stack[slen - 1] {
            Value::Word(w) => {
                let fr = &mut self.frames[n];
                fr.stack.truncate(slen - 1);
                fr.ip = if w != 0 {
                    t
                } else {
                    ip + 3
                };
                proof {
                    assert(top(old(self)@).stack.take(slen - 1) =~= top(
                        old(self)@,
                    ).stack.drop_last());
                    assert(self@ =~~= with_top(
                        old(self)@,
                        (FrameView {
                            ip: if w != 0 {
                                t as int
                            } else {
                                top(old(self)@).ip + 3
                            },
                            stack: top(old(self)@).stack.drop_last(),
                            ..top(old(self)@)
                        }),
                    ));
                }
                Ok(())
            },
            _ => Err(RuntimeError::TypeError),
        }
    }

    /// Pushes the local slot the two-byte index names.
    fn load(&mut self) -> (r: Result<(), RuntimeError>)
        requires
            old(self).wf(),
            at_op(old(self)@, OpCode::Load),
        ensures
            final(self).wf(),
            final(self).heap == old(self).heap,
            step_post(old(self)@, final(self)@, r),
    {
        let n = self.frames.len() - 1;
        let ip = self.frames[n].ip;
        let clen = self.frames[n].chunk.len();
        if clen - ip < 3 {
            return Err(RuntimeError::UnexpectedEOF);
        }
        let i = rd16(&self.frames[n].chunk, ip + 1);
        if i >= self.frames[n].locals.len() {
            return Err(RuntimeError::UnboundVariable);
        }
        if self.frames[n].stack.len() >= STACK_LIMIT {
            return Err(RuntimeError::StackOverflow);
        }
        let v = self.frames[n].locals[i];
        let fr = &mut self.frames[n];
        fr.stack.push(v);
        fr.ip = ip + 3;
        proof {
            assert(self@ =~~= with_top(
                old(self)@,
                (FrameView {
                    ip: top(old(self)@).ip + 3,
                    stack: top(old(self)@).stack.push(v),
                    ..top(old(self)@)
                }),
            ));
        }
        Ok(())
    }

    /// Pops into the local slot the two-byte index names: an index equal
    /// to the slot count appends, a smaller one overwrites, a larger one
    /// is unbound.
    fn store(&mut self) -> (r: Result<(), RuntimeError>)
        requires
            old(self).wf(),
            at_op(old(self)@, OpCode::Store),
        ensures
            final(self).wf(),
            final(self).heap == old(self).heap,
            step_post(old(self)@, final(self)@, r),
    {
        let n = self.frames.len() - 1;
        let ip = self.frames[n].ip;
        let clen = self.frames[n].chunk.len();
        if clen - ip < 3 {
            return Err(RuntimeError::UnexpectedEOF);
        }
        let i = rd16(&self.frames[n].chunk, ip + 1);
        let slen = self.frames[n].stack.len();
        if slen == 0 {
            return Err(RuntimeError::StackEmpty);
        }
        let llen = self.frames[n].locals.len();
        if i > llen {
            return Err(RuntimeError::UnboundVariable);
        }
        let v = self.frames[n].stack[slen - 1];
        let fr = &mut self.frames[n];
        fr.stack.truncate(slen - 1);
        if i < llen {
            fr.locals.set(i, v);
        } else {
            fr.locals.push(v);
        }
        fr.ip = ip + 3;
        proof {
            assert(top(old(self)@).stack.take(slen - 1) =~= top(old(self)@).stack.drop_last());
            if i < llen {
                assert(self@ =~~= with_top(
                    old(self)@,
                    (FrameView {
                        ip: top(old(self)@).ip + 3,
                        stack: top(old(self)@).stack.drop_last(),
                        locals: top(old(self)@).locals.update(
                            i as int,
                            top(old(self)@).stack.last(),
                        ),
                        ..top(old(self)@)
                    }),
                ));
            } else {
                assert(self@ =~~= with_top(
                    old(self)@,
                    (FrameView {
                        ip: top(old(self)@).ip + 3,
                        stack: top(old(self)@).stack.drop_last(),
                        locals: top(old(self)@).locals.push(top(old(self)@).stack.last()),
                        ..top(old(self)@)
                    }),
                ));
            }
        }
        Ok(())
    }

    /// Pushes the value an eight-byte immediate opcode carries, advancing
    /// past opcode and operand.
    fn push_imm8(&mut self, v: Value) -> (r: Result<(), RuntimeError>)
        requires
            old(self).wf(),
            old(self)@.frames.len() >= 1,
            !frame_halted(top(old(self)@)),
        ensures
            final(self).wf(),
            final(self).heap == old(self).heap,
            step_imm8(old(self)@, final(self)@, r, top(old(self)@), v),
    {
        let n = self.frames.len() - 1;
        let ip = self.frames[n].ip;
        let clen = self.frames[n].chunk.len();
        if clen - ip < 9 {
            return Err(RuntimeError::UnexpectedEOF);
        }
        if self.frames[n].stack.len() >= STACK_LIMIT {
            return Err(RuntimeError::StackOverflow);
        }
        let fr = &mut self.frames[n];
        fr.stack.push(v);
        fr.ip = ip + 9;
        proof {
            assert(self@ =~~= with_top(
                old(self)@,
                (FrameView {
                    ip: top(old(self)@).ip + 9,
                    stack: top(old(self)@).stack.push(v),
                    ..top(old(self)@)
                }),
            ));
        }
        Ok(())
    }

    /// Pushes an eight-byte two's-complement integer constant.
    fn imm_i(&mut self) -> (r: Result<(), RuntimeError>)
        requires
            old(self).wf(),
            at_op(old(self)@, OpCode::ImmI),
        ensures
            final(self).wf(),
            final(self).heap == old(self).heap,
            step_post(old(self)@, final(self)@, r),
    {
        let n = self.frames.len() - 1;
        let ip = self.frames[n].ip;
        let clen = self.frames[n].chunk.len();
        if clen - ip < 9 {
            return Err(RuntimeError::UnexpectedEOF);
        }
        let w = rd64(&self.frames[n].chunk, ip + 1);
        self.push_imm8(Value::Integer(i64_from_bits(w)))
    }

    /// Pushes an eight-byte IEEE-754 bit pattern as a float value.
    fn imm_f(&mut self) -> (r: Result<(), RuntimeError>)
        requires
            old(self).wf(),
            at_op(old(self)@, OpCode::ImmF),
        ensures
            final(self).wf(),
            final(self).heap == old(self).heap,
            step_post(old(self)@, final(self)@, r),
    {
        let n = self.frames.len() - 1;
        let ip = self.frames[n].ip;
        let clen = self.frames[n].chunk.len();
        if clen - ip < 9 {
            return Err(RuntimeError::UnexpectedEOF);
        }
        let w = rd64(&self.frames[n].chunk, ip + 1);
        self.push_imm8(Value::Float(w))
    }

    /// Pushes an eight-byte unsigned word constant.
    fn imm_w(&mut self) -> (r: Result<(), RuntimeError>)
        requires
            old(self).wf(),
            at_op(old(self)@, OpCode::ImmW),
        ensures
            final(self).wf(),
            final(self).heap == old(self).heap,
            step_post(old(self)@, final(self)@, r),
    {
        let n = self.frames.len() - 1;
        let ip = self.frames[n].ip;
        let clen = self.frames[n].chunk.len();
        if clen - ip < 9 {
            return Err(RuntimeError::UnexpectedEOF);
        }
        let w = rd64(&self.frames[n].chunk, ip + 1);
        self.push_imm8(Value::Word(w))
    }

    /// Pushes a one-byte sign-extended integer literal.
    fn imm_ib(&mut self) -> (r: Result<(), RuntimeError>)
        requires
            old(self).wf(),
            at_op(old(self)@, OpCode::ImmIByte),
        ensures
            final(self).wf(),
            final(self).heap == old(self).heap,
            step_post(old(self)@, final(self)@, r),
    {
        let n = self.frames.len() - 1;
        let ip = self.frames[n].ip;
        let clen = self.frames[n].chunk.len();
        if clen - ip < 2 {
            return Err(RuntimeError::UnexpectedEOF);
        }
        if self.frames[n].stack.len() >= STACK_LIMIT {
            return Err(RuntimeError::StackOverflow);
        }
        let b = self.frames[n].chunk[ip + 1];
        let v = if b < 128 {
            b as i64
        } else {
            (b as i64) - 256
        };
        let fr = &mut self.frames[n];
        fr.stack.push(Value::Integer(v));
        fr.ip = ip + 2;
        proof {
            assert(self@ =~~= with_top(
                old(self)@,
                (FrameView {
                    ip: top(old(self)@).ip + 2,
                    stack: top(old(self)@).stack.push(Value::Integer(v)),
                    ..top(old(self)@)
                }),
            ));
        }
        Ok(())
    }

    /// Pushes a two-byte big-endian sign-extended integer literal.
    fn imm_is(&mut self) -> (r: Result<(), RuntimeError>)
        requires
            old(self).wf(),
            at_op(old(self)@, OpCode::ImmIShort),
        ensures
            final(self).wf(),
            final(self).heap == old(self).heap,
            step_post(old(self)@, final(self)@, r),
    {
        let n = self.frames.len() - 1;
        let ip = self.frames[n].ip;
        let clen = self.frames[n].chunk.len();
        if clen - ip < 3 {
            return Err(RuntimeError::UnexpectedEOF);
        }
        if self.frames[n].stack.len() >= STACK_LIMIT {
            return Err(RuntimeError::StackOverflow);
        }
        let w = rd16(&self.frames[n].chunk, ip + 1);
        let v = if w < 32768 {
            w as i64
        } else {
            (w as i64) - 65536
        };
        let fr = &mut self.frames[n];
        fr.stack.push(Value::Integer(v));
        fr.ip = ip + 3;
        proof {
            assert(self@ =~~= with_top(
                old(self)@,
                (FrameView {
                    ip: top(old(self)@).ip + 3,
                    stack: top(old(self)@).stack.push(Value::Integer(v)),
                    ..top(old(self)@)
                }),
            ));
        }
        Ok(())
    }

    /// Pushes the constant-pool entry the one-byte index names.
    fn load_const(&mut self) -> (r: Result<(), RuntimeError>)
        requires
            old(self).wf(),
            at_op(old(self)@, OpCode::LoadConst),
        ensures
            final(self).wf(),
            final(self).heap == old(self).heap,
            step_post(old(self)@, final(self)@, r),
    {
        let n = self.frames.len() - 1;
        let ip = self.frames[n].ip;
        let clen = self.frames[n].chunk.len();
        if clen - ip < 2 {
            return Err(RuntimeError::UnexpectedEOF);
        }
        let c = self.frames[n].chunk[ip + 1] as usize;
        if c >= self.consts.len() {
            return Err(RuntimeError::ConstIndexError);
        }
        if self.frames[n].stack.len() >= STACK_LIMIT {
            return Err(RuntimeError::StackOverflow);
        }
        let v = self.consts[c];
        let fr = &mut self.frames[n];
        fr.stack.push(v);
        fr.ip = ip + 2;
        proof {
            assert(self@ =~~= with_top(
                old(self)@,
                (FrameView {
                    ip: top(old(self)@).ip + 2,
                    stack: top(old(self)@).stack.push(v),
                    ..top(old(self)@)
                }),
            ));
        }
        Ok(())
    }

    /// Pushes the captured/global slot the two-byte index names; globals
    /// are read-only from the frame's perspective.
    fn load_global(&mut self) -> (r: Result<(), RuntimeError>)
        requires
            old(self).wf(),
            at_op(old(self)@, OpCode::LoadGlobal),
        ensures
            final(self).wf(),
            final(self).heap == old(self).heap,
            step_post(old(self)@, final(self)@, r),
    {
        let n = self.frames.len() - 1;
        let ip = self.frames[n].ip;
        let clen = self.frames[n].chunk.len();
        if clen - ip < 3 {
            return Err(RuntimeError::UnexpectedEOF);
        }
        let i = rd16(&self.frames[n].chunk, ip + 1);
        if i >= self.frames[n].globals.len() {
            return Err(RuntimeError::UnboundVariable);
        }
        if self.frames[n].stack.len() >= STACK_LIMIT {
            return Err(RuntimeError::StackOverflow);
        }
        let v = self.frames[n].globals[i];
        let fr = &mut self.frames[n];
        fr.stack.push(v);
        fr.ip = ip + 3;
        proof {
            assert(self@ =~~= with_top(
                old(self)@,
                (FrameView {
                    ip: top(old(self)@).ip + 3,
                    stack: top(old(self)@).stack.push(v),
                    ..top(old(self)@)
                }),
            ));
        }
        Ok(())
    }

    /// One binary integer opcode: pops the left operand off the top and
    /// the right operand beneath it, pushes the result.
    fn bin_op(&mut self, op: OpCode) -> (r: Result<(), RuntimeError>)
        requires
            old(self).wf(),
            is_bin(op),
            at_op(old(self)@, op),
        ensures
            final(self).wf(),
            final(self).heap == old(self).heap,
            step_post(old(self)@, final(self)@, r),
    {
        let n = self.frames.len() - 1;
        let slen = self.frames[n].stack.len();
        if slen < 2 {
            return Err(RuntimeError::StackEmpty);
        }
        let xv = self.frames[n].stack[slen - 1];
        let yv = self.frames[n].stack[slen - 2];
        match (xv, yv) {
            (Value::Integer(x), Value::Integer(y)) => {
                let res: Value = match op {
                    OpCode::AddI => Value::Integer(x.wrapping_add(y)),
                    OpCode::SubI => Value::Integer(x.wrapping_sub(y)),
                    OpCode::MulI => Value::Integer(x.wrapping_mul(y)),
                    OpCode::DivI => {
                        if y == 0 {
                            return Err(RuntimeError::DivideByZero);
                        }
                        Value::Integer(
                            match x.checked_div(y) {
                                Some(q) => q,
                                None => i64::MIN,
                            },
                        )
                    },
                    OpCode::CmpEqI => if x == y {
                        Value::Word(1)
                    } else {
                        Value::Word(0)
                    },
                    OpCode::CmpGtI => if x > y {
                        Value::Word(1)
                    } else {
                        Value::Word(0)
                    },
                    OpCode::CmpGeI => if x >= y {
                        Value::Word(1)
                    } else {
                        Value::Word(0)
                    },
                    OpCode::CmpLtI => if x < y {
                        Value::Word(1)
                    } else {
                        Value::Word(0)
                    },
                    OpCode::CmpLeI => if x <= y {
                        Value::Word(1)
                    } else {
                        Value::Word(0)
                    },
                    _ => Value::Word(0),
                };
                let ip = self.frames[n].ip;
                let clen = self.frames[n].chunk.len();
                proof {
                    assert(ip < clen);
                }
                let fr = &mut self.frames[n];
                fr.stack.truncate(slen - 2);
                fr.stack.push(res);
                fr.ip = ip + 1;
                proof {
                    assert(res == bin_result(op, x, y));
                    assert(self@ =~~= with_top(
                        old(self)@,
                        (FrameView {
                            ip: top(old(self)@).ip + 1,
                            stack: top(old(self)@).stack.take(slen - 2).push(res),
                            ..top(old(self)@)
                        }),
                    ));
                }
                Ok(())
            },
            _ => Err(RuntimeError::TypeError),
        }
    }

    fn add_i(&mut self) -> (r: Result<(), RuntimeError>)
        requires
            old(self).wf(),
            at_op(old(self)@, OpCode::AddI),
        ensures
            final(self).wf(),
            final(self).heap == old(self).heap,
            step_post(old(self)@, final(self)@, r),
    {
        self.bin_op(OpCode::AddI)
    }

    fn sub_i(&mut self) -> (r: Result<(), RuntimeError>)
        requires
            old(self).wf(),
            at_op(old(self)@, OpCode::SubI),
        ensures
            final(self).wf(),
            final(self).heap == old(self).heap,
            step_post(old(self)@, final(self)@, r),
    {
        self.bin_op(OpCode::SubI)
    }

    fn mul_i(&mut self) -> (r: Result<(), RuntimeError>)
        requires
            old(self).wf(),
            at_op(old(self)@, OpCode::MulI),
        ensures
            final(self).wf(),
            final(self).heap == old(self).heap,
            step_post(old(self)@, final(self)@, r),
    {
        self.bin_op(OpCode::MulI)
    }

    fn div_i(&mut self) -> (r: Result<(), RuntimeError>)
        requires
            old(self).wf(),
            at_op(old(self)@, OpCode::DivI),
        ensures
            final(self).wf(),
            final(self).heap == old(self).heap,
            step_post(old(self)@, final(self)@, r),
    {
        self.bin_op(OpCode::DivI)
    }

    fn cmpeq_i(&mut self) -> (r: Result<(), RuntimeError>)
        requires
            old(self).wf(),
            at_op(old(self)@, OpCode::CmpEqI),
        ensures
            final(self).wf(),
            final(self).heap == old(self).heap,
            step_post(old(self)@, final(self)@, r),
    {
        self.bin_op(OpCode::CmpEqI)
    }

    fn cmpgt_i(&mut self) -> (r: Result<(), RuntimeError>)
        requires
            old(self).wf(),
            at_op(old(self)@, OpCode::CmpGtI),
        ensures
            final(self).wf(),
            final(self).heap == old(self).heap,
            step_post(old(self)@, final(self)@, r),
    {
        self.bin_op(OpCode::CmpGtI)
    }

    fn cmpge_i(&mut self) -> (r: Result<(), RuntimeError>)
        requires
            old(self).wf(),
            at_op(old(self)@, OpCode::CmpGeI),
        ensures
            final(self).wf(),
            final(self).heap == old(self).heap,
            step_post(old(self)@, final(self)@, r),
    {
        self.bin_op(OpCode::CmpGeI)
    }

    fn cmplt_i(&mut self) -> (r: Result<(), RuntimeError>)
        requires
            old(self).wf(),
            at_op(old(self)@, OpCode::CmpLtI),
        ensures
            final(self).wf(),
            final(self).heap == old(self).heap,
            step_post(old(self)@, final(self)@, r),
    {
        self.bin_op(OpCode::CmpLtI)
    }

    fn cmple_i(&mut self) -> (r: Result<(), RuntimeError>)
        requires
            old(self).wf(),
            at_op(old(self)@, OpCode::CmpLeI),
        ensures
            final(self).wf(),
            final(self).heap == old(self).heap,
            step_post(old(self)@, final(self)@, r),
    {
        self.bin_op(OpCode::CmpLeI)
    }

    /// Two's-complement negation of the top integer.
    fn neg_i(&mut self) -> (r: Result<(), RuntimeError>)
        requires
            old(self).wf(),
            at_op(old(self)@, OpCode::NegI),
        ensures
            final(self).wf(),
            final(self).heap == old(self).heap,
            step_post(old(self)@, final(self)@, r),
    {
        let n = self.frames.len() - 1;
        let slen = self.frames[n].stack.len();
        if slen == 0 {
            return Err(RuntimeError::StackEmpty);
        }
        match self.frames[n].stack[slen - 1] {
            Value::Integer(x) => {
                let v = if x == i64::MIN {
                    i64::MIN
                } else {
                    -x
                };
                let ip = self.frames[n].ip;
                let clen = self.frames[n].chunk.len();
                proof {
                    assert(ip < clen);
                }
                let fr = &mut self.frames[n];
                fr.stack.truncate(slen - 1);
                fr.stack.push(Value::Integer(v));
                fr.ip = ip + 1;
                proof {
                    assert(top(old(self)@).stack.take(slen - 1) =~= top(
                        old(self)@,
                    ).stack.drop_last());
                    assert(self@ =~~= with_top(
                        old(self)@,
                        (FrameView {
                            ip: top(old(self)@).ip + 1,
                            stack: top(old(self)@).stack.drop_last().push(Value::Integer(v)),
                            ..top(old(self)@)
                        }),
                    ));
                }
                Ok(())
            },
            _ => Err(RuntimeError::TypeError),
        }
    }

    /// Invokes the function-table entry the one-byte index names: pops
    /// the callee's arguments into its fresh locals, hands it the
    /// caller's locals as read-only globals, and pushes the new frame.
    #[verifier::loop_isolation(false)]
    fn call_fn(&mut self) -> (r: Result<(), RuntimeError>)
        requires
            old(self).wf(),
            at_op(old(self)@, OpCode::Call),
        ensures
            final(self).wf(),
            final(self).heap == old(self).heap,
            step_post(old(self)@, final(self)@, r),
    {
        let n = self.frames.len() - 1;
        let ip = self.frames[n].ip;
        let clen = self.frames[n].chunk.len();
        if clen - ip < 2 {
            return Err(RuntimeError::UnexpectedEOF);
        }
        let fi = self.frames[n].chunk[ip + 1] as usize;
        if fi >= self.functions.len() {
            return Err(RuntimeError::ArgumentError);
        }
        let arity = self.functions[fi].arity;
        let slen = self.frames[n].stack.len();
        if slen < arity {
            return Err(RuntimeError::StackEmpty);
        }
        let mut locals: Vec<Value> = Vec::new();
        let mut k: usize = slen - arity;
        while k < slen
            invariant
                locals@ == top(old(self)@).stack.subrange((slen - arity) as int, k as int),
                slen - arity <= k <= slen,
            decreases slen - k,
        {
            let v = self.frames[n].stack[k];
            locals.push(v);
            k = k + 1;
            proof {
                assert(locals@ =~= top(old(self)@).stack.subrange(
                    (slen - arity) as int,
                    k as int,
                ));
            }
        }
        let chunk = self.functions[fi].chunk.clone();
        let globals = self.frames[n].locals.clone();
        proof {
            assert(chunk@ =~= old(self)@.funs[fi as int].chunk);
            assert(globals@ =~= top(old(self)@).locals);
        }
        let fr = &mut self.frames[n];
        fr.ip = ip + 2;
        fr.stack.truncate(slen - arity);
        self.frames.push(
            Frame { chunk, ip: 0, stack: Vec::new(), locals, globals },
        );
        proof {
            let pre = old(self)@;
            let f = top(pre);
            let fun = pre.funs[fi as int];
            assert(self@ =~~= (VmView {
                frames: pre.frames.update(
                    pre.frames.len() - 1,
                    (FrameView {
                        ip: f.ip + 2,
                        stack: f.stack.take(f.stack.len() - fun.arity),
                        ..f
                    }),
                ).push(
                    (FrameView {
                        chunk: fun.chunk,
                        ip: 0,
                        stack: Seq::<Value>::empty(),
                        locals: f.stack.subrange(f.stack.len() - fun.arity, f.stack.len() as int),
                        globals: f.locals,
                    }),
                ),
                ..pre
            }));
        }
        Ok(())
    }

    /// The root-marking pass, the first half of a collection: starting
    /// from the clean colors that well-formedness guarantees, it colors
    /// `Reachable` every heap slot transitively reachable from a
    /// reference on any frame's operand stack, local slots or
    /// captured/global slots. It runs immediately before the sweep that
    /// completes the collection; the sweep resets the colors, which is
    /// why the resulting state is not itself well formed and why nothing
    /// else may run between the pass and its sweep.
    #[verifier::loop_isolation(false)]
    pub fn mark_objects(&mut self)
        requires
            old(self).wf(),
        ensures
            final(self).frames@.len() >= 1,
            final(self).heap.wf(),
            final(self)@ == old(self)@,
            forall|t: int, i: int|
                #![trigger is_root(old(self)@, t), reachable(old(self).heap.slots@, t, i)]
                is_root(old(self)@, t) && reachable(old(self).heap.slots@, t, i) ==> marked(
                    final(self).heap.slots@,
                    i,
                ),
            final(self).heap.size == old(self).heap.size,
            final(self).heap.threshold == old(self).heap.threshold,
            final(self).heap.slots@.len() == old(self).heap.slots@.len(),
            forall|i: int|
                occ(final(self).heap.slots@, i) == occ(old(self).heap.slots@, i),
            forall|i: int|
                occ(old(self).heap.slots@, i) ==> obj_at(final(self).heap.slots@, i).data
                    == obj_at(old(self).heap.slots@, i).data,
            forall|i: int|
                marked(old(self).heap.slots@, i) ==> marked(final(self).heap.slots@, i),
            forall|t: int|
                is_root(old(self)@, t) && occ(old(self).heap.slots@, t) ==> marked(
                    final(self).heap.slots@,
                    t,
                ),
            marked_closed(old(self).heap.slots@) ==> marked_closed(final(self).heap.slots@),
    {
        let nf = self.frames.len();
        let mut fi: usize = 0;
        while fi < nf
            invariant
                fi <= nf,
                self.heap.wf(),
                self.frames == old(self).frames,
                self.consts == old(self).consts,
                self.functions == old(self).functions,
                self.heap.size == old(self).heap.size,
                self.heap.threshold == old(self).heap.threshold,
                self.heap.slots@.len() == old(self).heap.slots@.len(),
                forall|i: int| occ(self.heap.slots@, i) == occ(old(self).heap.slots@, i),
                forall|i: int|
                    occ(old(self).heap.slots@, i) ==> obj_at(self.heap.slots@, i).data == obj_at(
                        old(self).heap.slots@,
                        i,
                    ).data,
                forall|i: int|
                    marked(old(self).heap.slots@, i) ==> marked(self.heap.slots@, i),
                forall|fj: int, t: int|
                    #![trigger frame_has_ref(old(self)@.frames[fj], t)]
                    0 <= fj < fi && frame_has_ref(old(self)@.frames[fj], t) && occ(
                        old(self).heap.slots@,
                        t,
                    ) ==> marked(self.heap.slots@, t),
                marked_closed(old(self).heap.slots@) ==> marked_closed(self.heap.slots@),
            decreases nf - fi,
        {
            let ghost before = self.heap.slots@;
            self.heap.mark_values(&self.frames[fi].stack);
            self.heap.mark_values(&self.frames[fi].locals);
            self.heap.mark_values(&self.frames[fi].globals);
            proof {
                assert forall|t: int|
                    frame_has_ref(old(self)@.frames[fi as int], t) && occ(
                        old(self).heap.slots@,
                        t,
                    ) implies marked(self.heap.slots@, t) by {
                    let f = old(self)@.frames[fi as int];
                    assert(f == self.frames@[fi as int]@);
                    if exists|k: int|
                        0 <= k < f.stack.len() && value_ref(#[trigger] f.stack[k]) == Some(t) {
                        let k = choose|k: int|
                            0 <= k < f.stack.len() && value_ref(#[trigger] f.stack[k]) == Some(
                                t,
                            );
                        assert(value_ref(self.frames@[fi as int].stack@[k]) == Some(t));
                    } else if exists|k: int|
                        0 <= k < f.locals.len() && value_ref(#[trigger] f.locals[k]) == Some(t) {
                        let k = choose|k: int|
                            0 <= k < f.locals.len() && value_ref(#[trigger] f.locals[k]) == Some(
                                t,
                            );
                        assert(value_ref(self.frames@[fi as int].locals@[k]) == Some(t));
                    } else {
                        let k = choose|k: int|
                            0 <= k < f.globals.len() && value_ref(#[trigger] f.globals[k])
                                == Some(t);
                        assert(value_ref(self.frames@[fi as int].globals@[k]) == Some(t));
                    }
                }
            }
            fi = fi + 1;
        }
        proof {
            assert forall|t: int|
                is_root(old(self)@, t) && occ(old(self).heap.slots@, t) implies marked(
                self.heap.slots@,
                t,
            ) by {
                let fj = choose|fj: int|
                    0 <= fj < old(self)@.frames.len() && frame_has_ref(
                        #[trigger] old(self)@.frames[fj],
                        t,
                    );
                assert(frame_has_ref(old(self)@.frames[fj], t));
            }
            assert(marked_closed(old(self).heap.slots@));
            assert forall|t: int, i: int|
                is_root(old(self)@, t) && reachable(old(self).heap.slots@, t, i) implies marked(
                self.heap.slots@,
                i,
            ) by {
                lemma_reachable_occ(old(self).heap.slots@, t, i);
                assert(marked(self.heap.slots@, t));
                lemma_reachable_congruent(
                    old(self).heap.slots@,
                    self.heap.slots@,
                    t,
                    i,
                );
                lemma_mark_pass_covers(self.heap.slots@, t, i);
            }
        }
    }

    /// Allocates a heap object on the interpreter's behalf. When the
    /// allocation is about to trigger a sweep, it runs the root-marking
    /// pass itself, immediately beforehand, so the sweep can never
    /// reclaim an object transitively reachable from the interpreter's
    /// roots; when no sweep is due, the colors are left untouched, so
    /// every pass starts from a clean slate and covers the whole
    /// reachable graph. This makes the mark-before-sweep contract
    /// structural rather than a calling convention.
    pub fn new_object(&mut self, data: Object) -> (r: ObjectPtr)
        requires
            old(self).wf(),
            old(self).heap.size < usize::MAX,
        ensures
            final(self).wf(),
            final(self)@ == old(self)@,
            occ(final(self).heap.slots@, r.index as int),
            obj_at(final(self).heap.slots@, r.index as int).data == data,
            forall|t: int, i: int|
                #![trigger is_root(old(self)@, t), reachable(old(self).heap.slots@, t, i)]
                is_root(old(self)@, t) && reachable(old(self).heap.slots@, t, i) ==> occ(
                    final(self).heap.slots@,
                    i,
                ) && obj_at(final(self).heap.slots@, i).data == obj_at(
                    old(self).heap.slots@,
                    i,
                ).data,
    {
        if self.heap.is_full() {
            self.mark_objects();
            let ghost mid = self.heap.slots@;
            let p = self.heap.new_object(data);
            proof {
                assert forall|t: int, i: int|
                    is_root(old(self)@, t) && reachable(old(self).heap.slots@, t, i) implies occ(
                    self.heap.slots@,
                    i,
                ) && obj_at(self.heap.slots@, i).data == obj_at(old(self).heap.slots@, i).data by {
                    lemma_reachable_occ(old(self).heap.slots@, t, i);
                    assert(marked(mid, i));
                }
                let base = swept(mid);
                assert forall|i: int| !marked(self.heap.slots@, i) by {
                    if occ(self.heap.slots@, i) && i != p.index as int {
                        assert(occ(base, i));
                        assert(obj_at(self.heap.slots@, i) == obj_at(base, i));
                        assert(obj_at(base, i).color is Unmarked);
                    }
                }
            }
            p
        } else {
            let p = self.heap.new_object(data);
            proof {
                let base = old(self).heap.slots@;
                lemma_first_free_in_range(base);
                assert forall|t: int, i: int|
                    is_root(old(self)@, t) && reachable(old(self).heap.slots@, t, i) implies occ(
                    self.heap.slots@,
                    i,
                ) && obj_at(self.heap.slots@, i).data == obj_at(old(self).heap.slots@, i).data by {
                    lemma_reachable_occ(base, t, i);
                    assert(i != p.index as int);
                    assert(obj_at(self.heap.slots@, i) == obj_at(base, i));
                }
                assert forall|i: int| !marked(self.heap.slots@, i) by {
                    if occ(self.heap.slots@, i) && i != p.index as int {
                        assert(occ(base, i));
                        assert(obj_at(self.heap.slots@, i) == obj_at(base, i));
                        assert(!marked(base, i));
                    }
                }
            }
            p
        }
    }

    /// Runs dispatch steps until the interpreter halts, a step fails, or
    /// the step budget runs out — Verus asks that every loop provably
    /// terminate, and an instruction stream may loop forever, so the
    /// caller says how many steps it is willing to spend. `Ok(true)`
    /// means halted; `Ok(false)` means the budget ran out first; an
    /// error is the first failing step's, with the state exactly as that
    /// step found it.
    #[verifier::loop_isolation(false)]
    pub fn execute_all(&mut self, fuel: usize) -> (r: Result<bool, RuntimeError>)
        requires
            old(self).wf(),
        ensures
            final(self).wf(),
            final(self).heap == old(self).heap,
            exists|n: nat| steps_to(old(self)@, final(self)@, n),
            (r == Ok::<bool, RuntimeError>(true) ==> vm_halted(final(self)@)),
            (r == Ok::<bool, RuntimeError>(false) ==> steps_to(
                old(self)@,
                final(self)@,
                fuel as nat,
            ) && !vm_halted(final(self)@)),
            (forall|e: RuntimeError|
                r == Err::<bool, RuntimeError>(e) ==> step_post(
                    final(self)@,
                    final(self)@,
                    Err(e),
                )),
    {
        proof {
            assert(steps_to(old(self)@, self@, 0nat));
        }
        let mut left = fuel;
        while left > 0
            invariant
                left <= fuel,
                self.wf(),
                self.heap == old(self).heap,
                steps_to(old(self)@, self@, (fuel - left) as nat),
            decreases left,
        {
            if self.halted() {
                return Ok(true);
            }
            left = left - 1;
            let ghost prev = self@;
            let ghost k: nat = (fuel - left - 1) as nat;
            match self.execute() {
                Ok(()) => {
                    proof {
                        assert(steps_to(old(self)@, self@, k + 1));
                    }
                },
                Err(e) => {
                    proof {
                        assert(self@ == prev);
                    }
                    return Err(e);
                },
            }
        }
        if self.halted() {
            return Ok(true);
        }
        Ok(false)
    }

    /// Executes exactly one dispatch step: hands a finished inner frame's
    /// result to its caller, or decodes and runs the opcode at the
    /// instruction pointer. A halted interpreter stays halted. The first
    /// error is returned at once and leaves the state unchanged.
    pub fn execute(&mut self) -> (r: Result<(), RuntimeError>)
        requires
            old(self).wf(),
        ensures
            final(self).wf(),
            final(self).heap == old(self).heap,
            step_post(old(self)@, final(self)@, r),
    {
        let n = self.frames.len() - 1;
        let ip = self.frames[n].ip;
        let clen = self.frames[n].chunk.len();
        if ip >= clen {
            if n == 0 {
                return Ok(());
            }
            let child_len = self.frames[n].stack.len();
            if child_len == 0 {
                return Err(RuntimeError::StackEmpty);
            }
            if self.frames[n - 1].stack.len() >= STACK_LIMIT {
                return Err(RuntimeError::StackOverflow);
            }
            let v = self.frames[n].stack[child_len - 1];
            self.frames.pop();
            let m = self.frames.len() - 1;
            let fr = &mut self.frames[m];
            fr.stack.push(v);
            proof {
                let pre = old(self)@;
                let caller = pre.frames[pre.frames.len() - 2];
                assert(self@ =~~= (VmView {
                    frames: pre.frames.drop_last().update(
                        pre.frames.len() - 2,
                        (FrameView { stack: caller.stack.push(v), ..caller }),
                    ),
                    ..pre
                }));
            }
            return Ok(());
        }
        let b = self.frames[n].chunk[ip];
        match OpCode::decode(b) {
            None => Err(RuntimeError::UnknownOpCode),
            Some(op) => match op {
                OpCode::Return => self.ret(),
                OpCode::Goto => self.goto(),
                OpCode::GotoIf => self.goto_if(),
                OpCode::Load => self.load(),
                OpCode::Store => self.store(),
                OpCode::ImmI => self.imm_i(),
                OpCode::ImmF => self.imm_f(),
                OpCode::ImmW => self.imm_w(),
                OpCode::AddI => self.add_i(),
                OpCode::SubI => self.sub_i(),
                OpCode::MulI => self.mul_i(),
                OpCode::DivI => self.div_i(),
                OpCode::CmpEqI => self.cmpeq_i(),
                OpCode::CmpGtI => self.cmpgt_i(),
                OpCode::CmpGeI => self.cmpge_i(),
                OpCode::CmpLtI => self.cmplt_i(),
                OpCode::CmpLeI => self.cmple_i(),
                OpCode::ImmIByte => self.imm_ib(),
                OpCode::ImmIShort => self.imm_is(),
                OpCode::LoadConst => self.load_const(),
                OpCode::LoadGlobal => self.load_global(),
                OpCode::Call => self.call_fn(),
                OpCode::NegI => self.neg_i(),
            },
        }
    }
}

} // verus!
