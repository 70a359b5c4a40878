//! The code generator: a depth-first, pre-order walk of the program tree
//! that emits a textual LLVM IR program, allocating virtual registers and
//! loop labels from two counters that only ever grow, so every register is
//! written exactly once and no two loops share a label.

use crate::ast::{prog_view, stmt_view, SpecStmt, Stmt};
use crate::parser::{lemma_scan_resume, parse_spec, push_folded, scan, symbol_stmt};
use vstd::prelude::*;
use vstd::string::StringExecFns;

verus! {

broadcast use crate::ast::lemma_prog_view_index;

/// The state threaded through one generation run: the next free virtual
/// register and the next free loop id. Neither counter is ever decremented
/// or reset within a run.
struct CodeGenContext {
    regc: u32,
    loopc: u32,
}

/// The character of one decimal digit.
pub open spec fn digit_char(d: int) -> char {
    if d == 0 {
        '0'
    } else if d == 1 {
        '1'
    } else if d == 2 {
        '2'
    } else if d == 3 {
        '3'
    } else if d == 4 {
        '4'
    } else if d == 5 {
        '5'
    } else if d == 6 {
        '6'
    } else if d == 7 {
        '7'
    } else if d == 8 {
        '8'
    } else {
        '9'
    }
}

/// The decimal digits of a non-negative number, most significant first.
pub open spec fn dec_digits(n: int) -> Seq<char>
    recommends
        n >= 0,
    decreases n,
{
    if n < 10 {
        seq![digit_char(n)]
    } else {
        dec_digits(n / 10).push(digit_char(n % 10))
    }
}

/// The decimal text of a number, a minus sign first when it is negative.
pub open spec fn dec_int(n: int) -> Seq<char> {
    if n < 0 {
        seq!['-'] + dec_digits(-n)
    } else {
        dec_digits(n)
    }
}

/// The fixed prologue: the zero-initialized tape, the cursor, and the entry
/// block of the one externally visible routine.
#[verifier::opaque]
pub open spec fn header_text() -> Seq<char> {
    "@memory = global [65536 x i8] zeroinitializer, align 16\n\n"@
        + "@memory_idx = global i32 0, align 4\n\n"@ + "define i32 @main() {\n"@ + "entry:\n"@
}

/// The fixed epilogue: the return and the declarations of the two external
/// I/O primitives.
#[verifier::opaque]
pub open spec fn footer_text() -> Seq<char> {
    "  ret i32 0\n"@ + "}\n\n"@ + "declare i32 @putchar(i32)\n"@ + "declare i32 @getchar()\n"@
}

/// The address computation: load the cursor, widen it, and take the address
/// of the tape cell it points at. Registers `rc` through `rc + 2` are
/// written; `rc + 2` holds the cell's address.
#[verifier::opaque]
pub open spec fn mem_ref_text(rc: int) -> Seq<char> {
    "  %"@ + dec_digits(rc) + " = load i32, i32* @memory_idx, align 4\n"@ + "  %"@ + dec_digits(
        rc + 1,
    ) + " = zext i32 %"@ + dec_digits(rc) + " to i64\n"@ + "  %"@ + dec_digits(rc + 2)
        + " = getelementptr inbounds [65536 x i8], [65536 x i8]* @memory, i64 0, i64 %"@
        + dec_digits(rc + 1) + "\n"@
}

/// A cursor move: load the cursor, add the delta, store it back.
/// Registers `rc` and `rc + 1` are written.
#[verifier::opaque]
pub open spec fn move_text(rc: int, n: int) -> Seq<char> {
    "  %"@ + dec_digits(rc) + " = load i32, i32* @memory_idx, align 4\n"@ + "  %"@ + dec_digits(
        rc + 1,
    ) + " = add i32 %"@ + dec_digits(rc) + ", "@ + dec_int(n) + "\n"@ + "  store i32 %"@
        + dec_digits(rc + 1) + ", i32* @memory_idx, align 4\n\n"@
}

/// A cell addition: take the cell's address, load the byte, add the delta
/// at 8-bit width (which wraps by itself), store it back. Registers `rc`
/// through `rc + 4` are written.
#[verifier::opaque]
pub open spec fn add_text(rc: int, n: int) -> Seq<char> {
    mem_ref_text(rc) + "  %"@ + dec_digits(rc + 3) + " = load i8, i8* %"@ + dec_digits(rc + 2)
        + ", align 1\n"@ + "  %"@ + dec_digits(rc + 4) + " = add i8 %"@ + dec_digits(rc + 3)
        + ", "@ + dec_int(n) + "\n"@ + "  store i8 %"@ + dec_digits(rc + 4) + ", i8* %"@
        + dec_digits(rc + 2) + ", align 1\n\n"@
}

/// An input: call the input primitive, narrow its result to a byte, take
/// the cell's address, store the byte. Registers `rc` through `rc + 4`
/// are written.
#[verifier::opaque]
pub open spec fn getc_text(rc: int) -> Seq<char> {
    "  %"@ + dec_digits(rc) + " = call i32 @getchar()\n"@ + "  %"@ + dec_digits(rc + 1)
        + " = trunc i32 %"@ + dec_digits(rc) + " to i8\n"@ + mem_ref_text(rc + 2)
        + "  store i8 %"@ + dec_digits(rc + 1) + ", i8* %"@ + dec_digits(rc + 4) + ", align 1\n\n"@
}

/// An output: take the cell's address, load the byte, widen it, call the
/// output primitive. Registers `rc` through `rc + 5` are written.
#[verifier::opaque]
pub open spec fn putc_text(rc: int) -> Seq<char> {
    mem_ref_text(rc) + "  %"@ + dec_digits(rc + 3) + " = load i8, i8* %"@ + dec_digits(rc + 2)
        + ", align 1\n"@ + "  %"@ + dec_digits(rc + 4) + " = zext i8 %"@ + dec_digits(rc + 3)
        + " to i32\n"@ + "  %"@ + dec_digits(rc + 5) + " = call i32  @putchar(i32 %"@ + dec_digits(
        rc + 4,
    ) + ")\n\n"@
}

/// The opening of loop `lc`'s head: branch into the condition block and
/// open it.
#[verifier::opaque]
pub open spec fn loop_cond_open_text(lc: int) -> Seq<char> {
    "  br label %loop_cond"@ + dec_digits(lc) + "\n"@ + "loop_cond"@ + dec_digits(lc) + ":\n"@
}

/// The test of loop `lc`'s head, after the cell address stands in register
/// `rc + 2`: load the cell, compare it to zero, branch to the end block or
/// the body block, and open the body block. Registers `rc + 3` and `rc + 4`
/// are written.
#[verifier::opaque]
pub open spec fn loop_cond_test_text(rc: int, lc: int) -> Seq<char> {
    "  %"@ + dec_digits(rc + 3) + " = load i8, i8* %"@ + dec_digits(rc + 2) + ", align 1\n"@
        + "  %"@ + dec_digits(rc + 4) + " = icmp eq i8 %"@ + dec_digits(rc + 3) + ", 0\n"@
        + "  br i1 %"@ + dec_digits(rc + 4) + ", label %loop_end"@ + dec_digits(lc)
        + ", label %loop_begin"@ + dec_digits(lc) + "\n"@ + "loop_begin"@ + dec_digits(lc) + ":\n"@
}

/// The head of loop `lc`: branch to the condition block, which loads the
/// current cell and branches to the end block when it is zero, else to the
/// body block — re-tested before every iteration, including the first.
/// Registers `rc` through `rc + 4` are written.
pub open spec fn loop_begin_text(rc: int, lc: int) -> Seq<char> {
    loop_cond_open_text(lc) + mem_ref_text(rc) + loop_cond_test_text(rc, lc)
}

/// The tail of loop `lc`: branch back to the condition block and open the
/// end block. No register is written.
#[verifier::opaque]
pub open spec fn loop_end_text(lc: int) -> Seq<char> {
    "  br label %loop_cond"@ + dec_digits(lc) + "\n"@ + "loop_end"@ + dec_digits(lc) + ":\n\n"@
}

/// How many virtual registers the emission of one statement writes.
pub open spec fn stmt_regs(s: SpecStmt) -> int
    decreases s,
{
    match s {
        SpecStmt::Move(_) => 2,
        SpecStmt::Add(_) => 5,
        SpecStmt::Input => 5,
        SpecStmt::Output => 6,
        SpecStmt::Loop(body) => 5 + prog_regs(body),
    }
}

/// How many virtual registers the emission of a program writes.
pub open spec fn prog_regs(p: Seq<SpecStmt>) -> int
    decreases p,
{
    if p.len() == 0 {
        0
    } else {
        stmt_regs(p[0]) + prog_regs(p.drop_first())
    }
}

/// How many loop ids the emission of one statement allocates.
pub open spec fn stmt_loops(s: SpecStmt) -> int
    decreases s,
{
    match s {
        SpecStmt::Loop(body) => 1 + prog_loops(body),
        _ => 0,
    }
}

/// How many loop ids the emission of a program allocates.
pub open spec fn prog_loops(p: Seq<SpecStmt>) -> int
    decreases p,
{
    if p.len() == 0 {
        0
    } else {
        stmt_loops(p[0]) + prog_loops(p.drop_first())
    }
}

/// The instructions emitted for one statement, with `rc` the first free
/// virtual register and `lc` the first free loop id.
pub open spec fn stmt_text(s: SpecStmt, rc: int, lc: int) -> Seq<char>
    decreases s,
{
    match s {
        SpecStmt::Move(n) => move_text(rc, n),
        SpecStmt::Add(n) => add_text(rc, n),
        SpecStmt::Input => getc_text(rc),
        SpecStmt::Output => putc_text(rc),
        SpecStmt::Loop(body) => loop_begin_text(rc, lc) + prog_text(body, rc + 5, lc + 1)
            + loop_end_text(lc),
    }
}

/// The instructions emitted for a program: each statement's instructions in
/// order, every statement starting at the registers and loop ids where the
/// one before it stopped — the counters never rewind.
pub open spec fn prog_text(p: Seq<SpecStmt>, rc: int, lc: int) -> Seq<char>
    decreases p,
{
    if p.len() == 0 {
        Seq::empty()
    } else {
        stmt_text(p[0], rc, lc) + prog_text(
            p.drop_first(),
            rc + stmt_regs(p[0]),
            lc + stmt_loops(p[0]),
        )
    }
}

/// The whole emitted IR program for a statement tree.
pub open spec fn gen_text(p: Seq<SpecStmt>) -> Seq<char> {
    header_text() + prog_text(p, 0, 0) + footer_text()
}

/// The virtual registers that one statement's emission writes (the `%N` on
/// the left of an `=` in `stmt_text`), in emission order.
pub open spec fn stmt_defs(s: SpecStmt, rc: int) -> Seq<int>
    decreases s,
{
    match s {
        SpecStmt::Move(_) => seq![rc, rc + 1],
        SpecStmt::Add(_) => seq![rc, rc + 1, rc + 2, rc + 3, rc + 4],
        SpecStmt::Input => seq![rc, rc + 1, rc + 2, rc + 3, rc + 4],
        SpecStmt::Output => seq![rc, rc + 1, rc + 2, rc + 3, rc + 4, rc + 5],
        SpecStmt::Loop(body) => seq![rc, rc + 1, rc + 2, rc + 3, rc + 4] + prog_defs(body, rc + 5),
    }
}

/// The virtual registers that a program's emission writes, in emission
/// order.
pub open spec fn prog_defs(p: Seq<SpecStmt>, rc: int) -> Seq<int>
    decreases p,
{
    if p.len() == 0 {
        Seq::empty()
    } else {
        stmt_defs(p[0], rc) + prog_defs(p.drop_first(), rc + stmt_regs(p[0]))
    }
}

/// The loop ids that one statement's emission allocates (each id names the
/// `loop_cond`/`loop_begin`/`loop_end` label triple of one loop), in
/// emission order.
pub open spec fn stmt_loop_ids(s: SpecStmt, lc: int) -> Seq<int>
    decreases s,
{
    match s {
        SpecStmt::Loop(body) => seq![lc] + prog_loop_ids(body, lc + 1),
        _ => Seq::empty(),
    }
}

/// The loop ids that a program's emission allocates, in emission order.
pub open spec fn prog_loop_ids(p: Seq<SpecStmt>, lc: int) -> Seq<int>
    decreases p,
{
    if p.len() == 0 {
        Seq::empty()
    } else {
        stmt_loop_ids(p[0], lc) + prog_loop_ids(p.drop_first(), lc + stmt_loops(p[0]))
    }
}

/// One statement's emission writes exactly the next `stmt_regs` registers,
/// in order, and allocates exactly the next `stmt_loops` ids, in order.
proof fn lemma_stmt_defs_range(s: SpecStmt, rc: int, lc: int)
    ensures
        stmt_regs(s) >= 0,
        stmt_loops(s) >= 0,
        stmt_defs(s, rc) =~= Seq::new(stmt_regs(s) as nat, |k: int| rc + k),
        stmt_loop_ids(s, lc) =~= Seq::new(stmt_loops(s) as nat, |k: int| lc + k),
    decreases s,
{
    match s {
        SpecStmt::Loop(body) => {
            lemma_prog_defs_range(body, rc + 5, lc + 1);
        },
        _ => {},
    }
}

/// A program's emission writes exactly the next `prog_regs` registers, in
/// order, and allocates exactly the next `prog_loops` ids, in order.
proof fn lemma_prog_defs_range(p: Seq<SpecStmt>, rc: int, lc: int)
    ensures
        prog_regs(p) >= 0,
        prog_loops(p) >= 0,
        prog_defs(p, rc) =~= Seq::new(prog_regs(p) as nat, |k: int| rc + k),
        prog_loop_ids(p, lc) =~= Seq::new(prog_loops(p) as nat, |k: int| lc + k),
    decreases p,
{
    if p.len() > 0 {
        lemma_stmt_defs_range(p[0], rc, lc);
        lemma_prog_defs_range(p.drop_first(), rc + stmt_regs(p[0]), lc + stmt_loops(p[0]));
    }
}

/// Register monotonicity: one generation run over a program whose first
/// free register is `first` writes exactly the registers
/// `first, first + 1, ...`, one after the other — so in the emitted text
/// register numbers strictly increase in program order and every register
/// is written exactly once, never reused, whatever the nesting.
pub proof fn lemma_register_monotonicity(p: Seq<SpecStmt>, first: int)
    ensures
        prog_defs(p, first).len() == prog_regs(p),
        forall|k: int| 0 <= k < prog_regs(p) ==> #[trigger] prog_defs(p, first)[k] == first + k,
        forall|k1: int, k2: int|
            0 <= k1 < k2 < prog_regs(p) ==> #[trigger] prog_defs(p, first)[k1] < #[trigger] prog_defs(
                p,
                first,
            )[k2],
{
    lemma_prog_defs_range(p, first, 0);
}

/// Loop id uniqueness: one generation run over a program whose first free
/// loop id is `first` allocates exactly the ids `first, first + 1, ...`,
/// each once — so no two loops of a run share an id, and the three block
/// labels derived from each id never collide, even between structurally
/// identical loops.
pub proof fn lemma_loop_id_uniqueness(p: Seq<SpecStmt>, first: int)
    ensures
        prog_loop_ids(p, first).len() == prog_loops(p),
        forall|k: int| 0 <= k < prog_loops(p) ==> #[trigger] prog_loop_ids(p, first)[k] == first
            + k,
        forall|k1: int, k2: int|
            0 <= k1 < k2 < prog_loops(p) ==> #[trigger] prog_loop_ids(p, first)[k1]
                != #[trigger] prog_loop_ids(p, first)[k2],
{
    lemma_prog_defs_range(p, 0, first);
}

/// A decimal rendering holds at least one digit, and at least two for a
/// number of two digits.
proof fn lemma_dec_digits_len(n: int)
    requires
        0 <= n,
    ensures
        dec_digits(n).len() >= 1,
        n >= 10 ==> dec_digits(n).len() >= 2,
    decreases n,
{
    if n >= 10 {
        lemma_dec_digits_len(n / 10);
    }
}

/// The decimal rendering is injective on the non-negative numbers: distinct
/// register numbers and distinct loop ids always render as distinct text,
/// so distinct loop ids yield distinct block labels.
pub proof fn lemma_dec_digits_injective(a: int, b: int)
    requires
        0 <= a,
        0 <= b,
        a != b,
    ensures
        dec_digits(a) != dec_digits(b),
    decreases a + b,
{
    lemma_dec_digits_len(a);
    lemma_dec_digits_len(b);
    if a < 10 && b < 10 {
        assert(dec_digits(a)[0] == digit_char(a));
        assert(dec_digits(b)[0] == digit_char(b));
    } else if a >= 10 && b >= 10 {
        if a % 10 != b % 10 {
            assert(dec_digits(a).last() == digit_char(a % 10));
            assert(dec_digits(b).last() == digit_char(b % 10));
        } else {
            lemma_dec_digits_injective(a / 10, b / 10);
            assert(dec_digits(a).drop_last() =~= dec_digits(a / 10));
            assert(dec_digits(b).drop_last() =~= dec_digits(b / 10));
        }
    }
}

/// Append one decimal digit.
fn push_digit(ir: &mut String, d: u32)
    requires
        d < 10,
    ensures
        final(ir)@ == old(ir)@ + seq![digit_char(d as int)],
{
    let ghost pre = ir@;
    if d == 0 {
        ir.append("0");
        proof {
            reveal_strlit("0");
        }
    } else if d == 1 {
        ir.append("1");
        proof {
            reveal_strlit("1");
        }
    } else if d == 2 {
        ir.append("2");
        proof {
            reveal_strlit("2");
        }
    } else if d == 3 {
        ir.append("3");
        proof {
            reveal_strlit("3");
        }
    } else if d == 4 {
        ir.append("4");
        proof {
            reveal_strlit("4");
        }
    } else if d == 5 {
        ir.append("5");
        proof {
            reveal_strlit("5");
        }
    } else if d == 6 {
        ir.append("6");
        proof {
            reveal_strlit("6");
        }
    } else if d == 7 {
        ir.append("7");
        proof {
            reveal_strlit("7");
        }
    } else if d == 8 {
        ir.append("8");
        proof {
            reveal_strlit("8");
        }
    } else {
        ir.append("9");
        proof {
            reveal_strlit("9");
        }
    }
    proof {
        assert(ir@ =~= pre + seq![digit_char(d as int)]);
    }
}

/// Append the decimal digits of `n`.
fn push_u32(ir: &mut String, n: u32)
    ensures
        final(ir)@ == old(ir)@ + dec_digits(n as int),
    decreases n,
{
    let ghost pre = ir@;
    if n >= 10 {
        push_u32(ir, n / 10);
        push_digit(ir, n % 10);
        proof {
            assert(ir@ =~= pre + dec_digits(n as int));
        }
    } else {
        push_digit(ir, n);
    }
}

/// Append the decimal text of `n`, with its sign.
fn push_i32(ir: &mut String, n: i32)
    ensures
        final(ir)@ == old(ir)@ + dec_int(n as int),
{
    let ghost pre = ir@;
    if n < 0 {
        ir.append("-");
        let m: u32 = (-(n as i64)) as u32;
        push_u32(ir, m);
        proof {
            reveal_strlit("-");
            assert(m as int == -(n as int));
            assert(ir@ =~= pre + dec_int(n as int));
        }
    } else {
        push_u32(ir, n as u32);
    }
}

/// Emit the fixed prologue.
#[verifier::rlimit(100)]
fn write_header(ir: &mut String)
    ensures
        final(ir)@ == old(ir)@ + header_text(),
{
    let ghost pre = ir@;
    ir.append("@memory = global [65536 x i8] zeroinitializer, align 16\n\n");
    ir.append("@memory_idx = global i32 0, align 4\n\n");
    ir.append("define i32 @main() {\n");
    ir.append("entry:\n");
    proof {
        reveal(header_text);
        assert(ir@ =~= pre + header_text());
    }
}

/// Emit the fixed epilogue.
#[verifier::rlimit(100)]
fn write_footer(ir: &mut String)
    ensures
        final(ir)@ == old(ir)@ + footer_text(),
{
    let ghost pre = ir@;
    ir.append("  ret i32 0\n");
    ir.append("}\n\n");
    ir.append("declare i32 @putchar(i32)\n");
    ir.append("declare i32 @getchar()\n");
    proof {
        reveal(footer_text);
        assert(ir@ =~= pre + footer_text());
    }
}

/// Emit the address of the tape cell under the cursor; the returned
/// register holds that address.
#[verifier::rlimit(100)]
fn write_get_memory_ref(ir: &mut String, context: &mut CodeGenContext) -> (r: u32)
    requires
        old(context).regc + 3 <= u32::MAX,
    ensures
        final(ir)@ == old(ir)@ + mem_ref_text(old(context).regc as int),
        final(context).regc == old(context).regc + 3,
        final(context).loopc == old(context).loopc,
        r == old(context).regc + 2,
{
    let ghost pre = ir@;
    ir.append("  %");
    push_u32(ir, context.regc);
    ir.append(" = load i32, i32* @memory_idx, align 4\n");
    ir.append("  %");
    push_u32(ir, context.regc + 1);
    ir.append(" = zext i32 %");
    push_u32(ir, context.regc);
    ir.append(" to i64\n");
    ir.append("  %");
    push_u32(ir, context.regc + 2);
    ir.append(" = getelementptr inbounds [65536 x i8], [65536 x i8]* @memory, i64 0, i64 %");
    push_u32(ir, context.regc + 1);
    ir.append("\n");
    context.regc = context.regc + 3;
    proof {
        reveal(mem_ref_text);
        assert(ir@ =~= pre + mem_ref_text(old(context).regc as int));
    }
    context.regc - 1
}

/// Emit a cursor move by `n`.
#[verifier::rlimit(100)]
fn write_move(ir: &mut String, context: &mut CodeGenContext, n: i32)
    requires
        old(context).regc + 2 <= u32::MAX,
    ensures
        final(ir)@ == old(ir)@ + move_text(old(context).regc as int, n as int),
        final(context).regc == old(context).regc + 2,
        final(context).loopc == old(context).loopc,
{
    let ghost pre = ir@;
    ir.append("  %");
    push_u32(ir, context.regc);
    ir.append(" = load i32, i32* @memory_idx, align 4\n");
    ir.append("  %");
    push_u32(ir, context.regc + 1);
    ir.append(" = add i32 %");
    push_u32(ir, context.regc);
    ir.append(", ");
    push_i32(ir, n);
    ir.append("\n");
    ir.append("  store i32 %");
    push_u32(ir, context.regc + 1);
    ir.append(", i32* @memory_idx, align 4\n\n");
    context.regc = context.regc + 2;
    proof {
        reveal(move_text);
        assert(ir@ =~= pre + move_text(old(context).regc as int, n as int));
    }
}

/// Emit an addition of `n` to the cell under the cursor.
#[verifier::rlimit(100)]
fn write_add(ir: &mut String, context: &mut CodeGenContext, n: i32)
    requires
        old(context).regc + 5 <= u32::MAX,
    ensures
        final(ir)@ == old(ir)@ + add_text(old(context).regc as int, n as int),
        final(context).regc == old(context).regc + 5,
        final(context).loopc == old(context).loopc,
{
    let ghost pre = ir@;
    let mem_ref = write_get_memory_ref(ir, context);
    ir.append("  %");
    push_u32(ir, context.regc);
    ir.append(" = load i8, i8* %");
    push_u32(ir, mem_ref);
    ir.append(", align 1\n");
    ir.append("  %");
    push_u32(ir, context.regc + 1);
    ir.append(" = add i8 %");
    push_u32(ir, context.regc);
    ir.append(", ");
    push_i32(ir, n);
    ir.append("\n");
    ir.append("  store i8 %");
    push_u32(ir, context.regc + 1);
    ir.append(", i8* %");
    push_u32(ir, mem_ref);
    ir.append(", align 1\n\n");
    context.regc = context.regc + 2;
    proof {
        reveal(add_text);
        assert(ir@ =~= pre + add_text(old(context).regc as int, n as int));
    }
}

/// Emit a read from the external input primitive into the cell under the
/// cursor.
#[verifier::rlimit(100)]
fn write_getc(ir: &mut String, context: &mut CodeGenContext)
    requires
        old(context).regc + 5 <= u32::MAX,
    ensures
        final(ir)@ == old(ir)@ + getc_text(old(context).regc as int),
        final(context).regc == old(context).regc + 5,
        final(context).loopc == old(context).loopc,
{
    let ghost pre = ir@;
    ir.append("  %");
    push_u32(ir, context.regc);
    ir.append(" = call i32 @getchar()\n");
    let value = context.regc + 1;
    ir.append("  %");
    push_u32(ir, value);
    ir.append(" = trunc i32 %");
    push_u32(ir, context.regc);
    ir.append(" to i8\n");
    context.regc = context.regc + 2;
    let mem_ref = write_get_memory_ref(ir, context);
    ir.append("  store i8 %");
    push_u32(ir, value);
    ir.append(", i8* %");
    push_u32(ir, mem_ref);
    ir.append(", align 1\n\n");
    proof {
        reveal(getc_text);
        assert(ir@ =~= pre + getc_text(old(context).regc as int));
    }
}

/// Emit a write of the cell under the cursor to the external output
/// primitive.
#[verifier::rlimit(100)]
fn write_putc(ir: &mut String, context: &mut CodeGenContext)
    requires
        old(context).regc + 6 <= u32::MAX,
    ensures
        final(ir)@ == old(ir)@ + putc_text(old(context).regc as int),
        final(context).regc == old(context).regc + 6,
        final(context).loopc == old(context).loopc,
{
    let ghost pre = ir@;
    let mem_ref = write_get_memory_ref(ir, context);
    ir.append("  %");
    push_u32(ir, context.regc);
    ir.append(" = load i8, i8* %");
    push_u32(ir, mem_ref);
    ir.append(", align 1\n");
    ir.append("  %");
    push_u32(ir, context.regc + 1);
    ir.append(" = zext i8 %");
    push_u32(ir, context.regc);
    ir.append(" to i32\n");
    ir.append("  %");
    push_u32(ir, context.regc + 2);
    ir.append(" = call i32  @putchar(i32 %");
    push_u32(ir, context.regc + 1);
    ir.append(")\n\n");
    context.regc = context.regc + 3;
    proof {
        reveal(putc_text);
        assert(ir@ =~= pre + putc_text(old(context).regc as int));
    }
}

/// Emit the head of a fresh loop and hand its id out for the matching tail.
#[verifier::rlimit(100)]
fn write_loop_begin(ir: &mut String, context: &mut CodeGenContext) -> (loop_num: u32)
    requires
        old(context).regc + 5 <= u32::MAX,
        old(context).loopc + 1 <= u32::MAX,
    ensures
        final(ir)@ == old(ir)@ + loop_begin_text(
            old(context).regc as int,
            old(context).loopc as int,
        ),
        final(context).regc == old(context).regc + 5,
        final(context).loopc == old(context).loopc + 1,
        loop_num == old(context).loopc,
{
    let ghost pre = ir@;
    let loop_num = context.loopc;
    ir.append("  br label %loop_cond");
    push_u32(ir, loop_num);
    ir.append("\n");
    ir.append("loop_cond");
    push_u32(ir, loop_num);
    ir.append(":\n");
    proof {
        reveal(loop_cond_open_text);
        assert(ir@ =~= pre + loop_cond_open_text(old(context).loopc as int));
    }
    let ghost opened = ir@;
    write_get_memory_ref(ir, context);
    let ghost addressed = ir@;
    ir.append("  %");
    push_u32(ir, context.regc);
    ir.append(" = load i8, i8* %");
    push_u32(ir, context.regc - 1);
    ir.append(", align 1\n");
    ir.append("  %");
    push_u32(ir, context.regc + 1);
    ir.append(" = icmp eq i8 %");
    push_u32(ir, context.regc);
    ir.append(", 0\n");
    ir.append("  br i1 %");
    push_u32(ir, context.regc + 1);
    ir.append(", label %loop_end");
    push_u32(ir, loop_num);
    ir.append(", label %loop_begin");
    push_u32(ir, loop_num);
    ir.append("\n");
    ir.append("loop_begin");
    push_u32(ir, loop_num);
    ir.append(":\n");
    context.regc = context.regc + 2;
    context.loopc = context.loopc + 1;
    proof {
        let rc = old(context).regc as int;
        let lc = old(context).loopc as int;
        reveal(loop_cond_test_text);
        assert(ir@ =~= addressed + loop_cond_test_text(rc, lc));
        assert(ir@ =~= pre + loop_begin_text(rc, lc));
    }
    loop_num
}

/// Emit the tail of loop `loop_num`.
#[verifier::rlimit(100)]
fn write_loop_end(ir: &mut String, loop_num: u32)
    ensures
        final(ir)@ == old(ir)@ + loop_end_text(loop_num as int),
{
    let ghost pre = ir@;
    ir.append("  br label %loop_cond");
    push_u32(ir, loop_num);
    ir.append("\n");
    ir.append("loop_end");
    push_u32(ir, loop_num);
    ir.append(":\n\n");
    proof {
        reveal(loop_end_text);
        assert(ir@ =~= pre + loop_end_text(loop_num as int));
    }
}

/// Emission never hands a register or loop id back: the counts are
/// non-negative.
proof fn lemma_stmt_counts_nonneg(s: SpecStmt)
    ensures
        stmt_regs(s) >= 0,
        stmt_loops(s) >= 0,
    decreases s,
{
    match s {
        SpecStmt::Loop(body) => lemma_prog_counts_nonneg(body),
        _ => {},
    }
}

/// Emission never hands a register or loop id back: the counts are
/// non-negative.
proof fn lemma_prog_counts_nonneg(p: Seq<SpecStmt>)
    ensures
        prog_regs(p) >= 0,
        prog_loops(p) >= 0,
    decreases p,
{
    if p.len() > 0 {
        lemma_stmt_counts_nonneg(p[0]);
        lemma_prog_counts_nonneg(p.drop_first());
    }
}

/// Appending a statement adds its register and loop-id consumption.
proof fn lemma_counts_push(p: Seq<SpecStmt>, s: SpecStmt)
    ensures
        prog_regs(p.push(s)) == prog_regs(p) + stmt_regs(s),
        prog_loops(p.push(s)) == prog_loops(p) + stmt_loops(s),
    decreases p,
{
    if p.len() == 0 {
        assert(p.push(s)[0] == s);
        assert(p.push(s).drop_first() =~= Seq::<SpecStmt>::empty());
        assert(p.push(s).len() == 1);
        assert(prog_regs(p.push(s)) == stmt_regs(p.push(s)[0]) + prog_regs(p.push(s).drop_first()));
        assert(prog_loops(p.push(s)) == stmt_loops(p.push(s)[0]) + prog_loops(
            p.push(s).drop_first(),
        ));
    } else {
        assert(p.push(s)[0] == p[0]);
        assert(p.push(s).drop_first() =~= p.drop_first().push(s));
        lemma_counts_push(p.drop_first(), s);
    }
}

/// Replacing the last statement with one of equal consumption keeps a
/// program's register and loop-id consumption.
proof fn lemma_counts_update_last(p: Seq<SpecStmt>, t: SpecStmt)
    requires
        p.len() > 0,
        stmt_regs(t) == stmt_regs(p.last()),
        stmt_loops(t) == stmt_loops(p.last()),
    ensures
        prog_regs(p.update(p.len() - 1, t)) == prog_regs(p),
        prog_loops(p.update(p.len() - 1, t)) == prog_loops(p),
    decreases p,
{
    let q = p.update(p.len() - 1, t);
    if p.len() == 1 {
        assert(q[0] == t);
        assert(q.drop_first() =~= p.drop_first());
    } else {
        assert(q[0] == p[0]);
        assert(q.drop_first() =~= p.drop_first().update(p.drop_first().len() - 1, t));
        lemma_counts_update_last(p.drop_first(), t);
    }
}

/// The parser's folding append raises a program's register consumption by
/// at most six and never touches its loop-id consumption.
proof fn lemma_push_folded_counts(code: Seq<SpecStmt>, s: SpecStmt)
    requires
        !(s is Loop),
    ensures
        prog_regs(push_folded(code, s)) <= prog_regs(code) + 6,
        prog_loops(push_folded(code, s)) == prog_loops(code),
{
    if code.len() == 0 {
        lemma_counts_push(code, s);
    } else {
        match (code.last(), s) {
            (SpecStmt::Move(n), SpecStmt::Move(m)) => {
                lemma_counts_update_last(code, SpecStmt::Move(n + m));
            },
            (SpecStmt::Add(n), SpecStmt::Add(m)) => {
                lemma_counts_update_last(code, SpecStmt::Add(n + m));
            },
            _ => {
                lemma_counts_push(code, s);
            },
        }
    }
}

/// One scan consumes at most six registers and one loop id per source byte
/// it moves over.
proof fn lemma_scan_counts(src: Seq<u8>, i: int, acc: Seq<SpecStmt>)
    requires
        0 <= i <= src.len(),
    ensures
        prog_regs(scan(src, i, acc).0) <= prog_regs(acc) + 6 * (scan(src, i, acc).1 - i),
        prog_loops(scan(src, i, acc).0) <= prog_loops(acc) + (scan(src, i, acc).1 - i),
    decreases src.len() - i,
{
    if i >= src.len() {
    } else if src[i] == ('[' as u8) {
        let (body, r) = scan(src, i + 1, Seq::empty());
        lemma_scan_resume(src, i + 1, Seq::empty());
        let j = if r < i + 1 {
            i + 1
        } else if r > src.len() {
            src.len() as int
        } else {
            r
        };
        assert(j == r);
        lemma_scan_counts(src, i + 1, Seq::empty());
        lemma_counts_push(acc, SpecStmt::Loop(body));
        lemma_scan_counts(src, j, acc.push(SpecStmt::Loop(body)));
    } else if src[i] == (']' as u8) {
    } else {
        match symbol_stmt(src[i]) {
            Some(s) => {
                lemma_push_folded_counts(acc, s);
                lemma_scan_counts(src, i + 1, push_folded(acc, s));
            },
            None => {
                lemma_scan_counts(src, i + 1, acc);
            },
        }
    }
}

/// A parsed tree never exhausts the generator's counters: emitting it
/// writes at most six virtual registers and allocates at most one loop id
/// per source byte, so for any source whose length stays under a sixth of
/// `u32::MAX` the parse meets `code_gen`'s bounds.
pub proof fn lemma_parse_fits_generator(src: Seq<u8>)
    ensures
        prog_regs(parse_spec(src)) <= 6 * src.len(),
        prog_loops(parse_spec(src)) <= src.len(),
{
    lemma_scan_counts(src, 0, Seq::empty());
    lemma_scan_resume(src, 0, Seq::empty());
}

/// One step of a program's emission: the statement at `idx` emits first,
/// and the rest of the program follows with the counters it left behind.
proof fn lemma_prog_text_step(p: Seq<SpecStmt>, idx: int, rc: int, lc: int)
    requires
        0 <= idx < p.len(),
    ensures
        prog_text(p.skip(idx), rc, lc) == stmt_text(p[idx], rc, lc) + prog_text(
            p.skip(idx + 1),
            rc + stmt_regs(p[idx]),
            lc + stmt_loops(p[idx]),
        ),
        prog_regs(p.skip(idx)) == stmt_regs(p[idx]) + prog_regs(p.skip(idx + 1)),
        prog_loops(p.skip(idx)) == stmt_loops(p[idx]) + prog_loops(p.skip(idx + 1)),
{
    assert(p.skip(idx)[0] == p[idx]);
    assert(p.skip(idx).drop_first() =~= p.skip(idx + 1));
}

/// Emit the instruction stream for a program, statement by statement.
fn write_code(ir: &mut String, code: &[Stmt], context: &mut CodeGenContext)
    requires
        old(context).regc + prog_regs(prog_view(code@)) <= u32::MAX,
        old(context).loopc + prog_loops(prog_view(code@)) <= u32::MAX,
    ensures
        final(ir)@ == old(ir)@ + prog_text(
            prog_view(code@),
            old(context).regc as int,
            old(context).loopc as int,
        ),
        final(context).regc == old(context).regc + prog_regs(prog_view(code@)),
        final(context).loopc == old(context).loopc + prog_loops(prog_view(code@)),
    decreases code@,
{
    let ghost p = prog_view(code@);
    let ghost ir0 = ir@;
    let ghost rc0 = context.regc as int;
    let ghost lc0 = context.loopc as int;
    proof {
        assert(p.skip(0) =~= p);
    }
    let mut idx: usize = 0;
    while idx < code.len()
        invariant
            idx <= code@.len(),
            p == prog_view(code@),
            p.len() == code@.len(),
            context.regc + prog_regs(p.skip(idx as int)) == rc0 + prog_regs(p),
            context.loopc + prog_loops(p.skip(idx as int)) == lc0 + prog_loops(p),
            rc0 + prog_regs(p) <= u32::MAX,
            lc0 + prog_loops(p) <= u32::MAX,
            ir@ + prog_text(p.skip(idx as int), context.regc as int, context.loopc as int) == ir0
                + prog_text(p, rc0, lc0),
        decreases code@.len() - idx,
    {
        let ghost idx0 = idx as int;
        let ghost ir_prev = ir@;
        let ghost rc_prev = context.regc as int;
        let ghost lc_prev = context.loopc as int;
        proof {
            lemma_prog_text_step(p, idx0, rc_prev, lc_prev);
            lemma_stmt_counts_nonneg(p[idx0]);
            lemma_prog_counts_nonneg(p.skip(idx0 + 1));
            assert(stmt_view(code@[idx0]) == p[idx0]);
        }
        let stmt = &code[idx];
        match stmt {
            Stmt::Move(n) => write_move(ir, context, *n),
            Stmt::Add(n) => write_add(ir, context, *n),
            Stmt::Input => write_getc(ir, context),
            Stmt::Output => write_putc(ir, context),
            Stmt::Loop(loop_code) => {
                proof {
                    lemma_prog_counts_nonneg(prog_view(loop_code@));
                    assert(p[idx0] == SpecStmt::Loop(prog_view(loop_code@)));
                }
                let loop_num = write_loop_begin(ir, context);
                write_code(ir, loop_code.as_slice(), context);
                write_loop_end(ir, loop_num);
                proof {
                    assert(ir@ =~= ir_prev + stmt_text(p[idx0], rc_prev, lc_prev));
                }
            },
        }
        proof {
            assert(ir@ + prog_text(p.skip(idx0 + 1), context.regc as int, context.loopc as int)
                =~= ir_prev + prog_text(p.skip(idx0), rc_prev, lc_prev));
        }
        idx = idx + 1;
    }
    proof {
        assert(p.skip(p.len() as int) =~= Seq::<SpecStmt>::empty());
        assert(ir@ + Seq::<char>::empty() =~= ir@);
    }
}

/// Generate the textual LLVM IR program for a statement tree: the fixed
/// prologue, the instruction stream of the whole tree, and the fixed
/// epilogue with the two external I/O declarations.
///
/// The two bounds exclude only trees whose emission would exhaust the `u32`
/// register or loop counter.
pub fn code_gen(code: &[Stmt]) -> (ir: String)
    requires
        prog_regs(prog_view(code@)) <= u32::MAX,
        prog_loops(prog_view(code@)) <= u32::MAX,
    ensures
        ir@ == gen_text(prog_view(code@)),
{
    let mut ir = String::new();

    let mut context = CodeGenContext { regc: 0, loopc: 0 };

    proof {
        lemma_prog_counts_nonneg(prog_view(code@));
    }
    write_header(&mut ir);
    write_code(&mut ir, code, &mut context);
    write_footer(&mut ir);

    proof {
        assert(ir@ =~= gen_text(prog_view(code@)));
    }
    ir
}

} // verus!
