use bfc::{code_gen, parse, Stmt};

const HEADER: &str = "@memory = global [65536 x i8] zeroinitializer, align 16\n\n\
@memory_idx = global i32 0, align 4\n\n\
define i32 @main() {\n\
entry:\n";

const FOOTER: &str = "  ret i32 0\n\
}\n\n\
declare i32 @putchar(i32)\n\
declare i32 @getchar()\n";

fn expected(body_lines: &[&str]) -> String {
    let mut text = String::new();
    text.push_str(HEADER);
    for line in body_lines {
        text.push_str(line);
        text.push('\n');
    }
    text.push_str(FOOTER);
    text
}

#[test]
fn empty_program_is_prologue_and_epilogue() {
    let ir = code_gen(&[]);
    assert_eq!(ir, expected(&[]));
}

#[test]
fn round_trip_scenario_generates_an_add_of_three_and_an_output() {
    let (program, _) = parse(b"+++.", 0);
    let ir = code_gen(&program);
    let body = [
        "  %0 = load i32, i32* @memory_idx, align 4",
        "  %1 = zext i32 %0 to i64",
        "  %2 = getelementptr inbounds [65536 x i8], [65536 x i8]* @memory, i64 0, i64 %1",
        "  %3 = load i8, i8* %2, align 1",
        "  %4 = add i8 %3, 3",
        "  store i8 %4, i8* %2, align 1",
        "",
        "  %5 = load i32, i32* @memory_idx, align 4",
        "  %6 = zext i32 %5 to i64",
        "  %7 = getelementptr inbounds [65536 x i8], [65536 x i8]* @memory, i64 0, i64 %6",
        "  %8 = load i8, i8* %7, align 1",
        "  %9 = zext i8 %8 to i32",
        "  %10 = call i32  @putchar(i32 %9)",
        "",
    ];
    assert_eq!(ir, expected(&body));
}

#[test]
fn wraparound_scenario_adds_minus_one_at_byte_width() {
    let (program, _) = parse(b"-.", 0);
    assert_eq!(program, vec![Stmt::Add(-1), Stmt::Output]);
    let ir = code_gen(&program);
    // The cell arithmetic is emitted at i8 width, where `0 - 1` wraps to 255
    // by itself; a conforming backend thus outputs byte value 255.
    assert!(ir.contains("  %4 = add i8 %3, -1\n"));
    assert!(ir.contains(" = call i32  @putchar(i32 %"));
}

#[test]
fn loop_generates_condition_body_and_end_blocks() {
    let (program, _) = parse(b"[-]", 0);
    let ir = code_gen(&program);
    let body = [
        "  br label %loop_cond0",
        "loop_cond0:",
        "  %0 = load i32, i32* @memory_idx, align 4",
        "  %1 = zext i32 %0 to i64",
        "  %2 = getelementptr inbounds [65536 x i8], [65536 x i8]* @memory, i64 0, i64 %1",
        "  %3 = load i8, i8* %2, align 1",
        "  %4 = icmp eq i8 %3, 0",
        "  br i1 %4, label %loop_end0, label %loop_begin0",
        "loop_begin0:",
        "  %5 = load i32, i32* @memory_idx, align 4",
        "  %6 = zext i32 %5 to i64",
        "  %7 = getelementptr inbounds [65536 x i8], [65536 x i8]* @memory, i64 0, i64 %6",
        "  %8 = load i8, i8* %7, align 1",
        "  %9 = add i8 %8, -1",
        "  store i8 %9, i8* %7, align 1",
        "",
        "  br label %loop_cond0",
        "loop_end0:",
        "",
    ];
    assert_eq!(ir, expected(&body));
}

#[test]
fn identical_loops_get_distinct_label_sets() {
    let (program, _) = parse(b"[-][-]", 0);
    let ir = code_gen(&program);
    assert_eq!(ir.matches("loop_cond0:").count(), 1);
    assert_eq!(ir.matches("loop_cond1:").count(), 1);
    assert_eq!(ir.matches("loop_begin0:").count(), 1);
    assert_eq!(ir.matches("loop_begin1:").count(), 1);
    assert_eq!(ir.matches("loop_end0:").count(), 1);
    assert_eq!(ir.matches("loop_end1:").count(), 1);
}

#[test]
fn registers_continue_across_statements() {
    let (program, _) = parse(b">.", 0);
    let ir = code_gen(&program);
    let body = [
        "  %0 = load i32, i32* @memory_idx, align 4",
        "  %1 = add i32 %0, 1",
        "  store i32 %1, i32* @memory_idx, align 4",
        "",
        "  %2 = load i32, i32* @memory_idx, align 4",
        "  %3 = zext i32 %2 to i64",
        "  %4 = getelementptr inbounds [65536 x i8], [65536 x i8]* @memory, i64 0, i64 %3",
        "  %5 = load i8, i8* %4, align 1",
        "  %6 = zext i8 %5 to i32",
        "  %7 = call i32  @putchar(i32 %6)",
        "",
    ];
    assert_eq!(ir, expected(&body));
}

#[test]
fn input_narrows_and_stores_the_read_byte() {
    let ir = code_gen(&[Stmt::Input]);
    let body = [
        "  %0 = call i32 @getchar()",
        "  %1 = trunc i32 %0 to i8",
        "  %2 = load i32, i32* @memory_idx, align 4",
        "  %3 = zext i32 %2 to i64",
        "  %4 = getelementptr inbounds [65536 x i8], [65536 x i8]* @memory, i64 0, i64 %3",
        "  store i8 %1, i8* %4, align 1",
        "",
    ];
    assert_eq!(ir, expected(&body));
}

#[test]
fn negative_move_keeps_its_sign() {
    let ir = code_gen(&[Stmt::Move(-12)]);
    let body = [
        "  %0 = load i32, i32* @memory_idx, align 4",
        "  %1 = add i32 %0, -12",
        "  store i32 %1, i32* @memory_idx, align 4",
        "",
    ];
    assert_eq!(ir, expected(&body));
}

#[test]
fn loop_ids_reach_two_digits() {
    let source = b"[-][-][-][-][-][-][-][-][-][-][-]";
    let (program, _) = parse(source, 0);
    let ir = code_gen(&program);
    assert_eq!(ir.matches("loop_cond9:").count(), 1);
    assert_eq!(ir.matches("loop_cond10:").count(), 1);
    assert!(!ir.contains("loop_cond11"));
}

#[test]
fn nested_loops_allocate_ids_in_preorder() {
    let (program, _) = parse(b"[[-]][-]", 0);
    let ir = code_gen(&program);
    // Outer loop 0, its inner loop 1, the later sibling loop 2.
    let cond0 = ir.find("loop_cond0:").unwrap();
    let cond1 = ir.find("loop_cond1:").unwrap();
    let cond2 = ir.find("loop_cond2:").unwrap();
    assert!(cond0 < cond1 && cond1 < cond2);
    assert_eq!(ir.matches("loop_end2:").count(), 1);
}
