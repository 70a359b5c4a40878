use bfc::{parse, Stmt};

#[test]
fn round_trip_scenario_parse() {
    let (program, _) = parse(b"+++.", 0);
    assert_eq!(program, vec![Stmt::Add(3), Stmt::Output]);
}

#[test]
fn loop_scenario_parse() {
    let (program, _) = parse(b"+++[>+<-]", 0);
    assert_eq!(
        program,
        vec![
            Stmt::Add(3),
            Stmt::Loop(vec![Stmt::Move(1), Stmt::Add(1), Stmt::Move(-1), Stmt::Add(-1)]),
        ]
    );
}

#[test]
fn wraparound_scenario_parse() {
    let (program, _) = parse(b"-.", 0);
    assert_eq!(program, vec![Stmt::Add(-1), Stmt::Output]);
}

#[test]
fn folding_merges_adjacent_moves() {
    let (program, _) = parse(b">>", 0);
    assert_eq!(program, vec![Stmt::Move(2)]);
}

#[test]
fn folding_merges_adjacent_adds() {
    let (program, _) = parse(b"++---", 0);
    assert_eq!(program, vec![Stmt::Add(-1)]);
}

#[test]
fn folding_keeps_distinct_kinds_apart() {
    let (program, _) = parse(b">+<-", 0);
    assert_eq!(
        program,
        vec![Stmt::Move(1), Stmt::Add(1), Stmt::Move(-1), Stmt::Add(-1)]
    );
}

#[test]
fn opposite_moves_fold_to_zero() {
    let (program, _) = parse(b"><", 0);
    assert_eq!(program, vec![Stmt::Move(0)]);
}

#[test]
fn magnitude_is_up_count_minus_down_count() {
    let (program, _) = parse(b">><>>><<", 0);
    assert_eq!(program, vec![Stmt::Move(2)]);
}

#[test]
fn comments_are_skipped() {
    let (program, _) = parse(b"a+ b+\nc", 0);
    assert_eq!(program, vec![Stmt::Add(2)]);
}

#[test]
fn empty_source_parses_to_empty_program() {
    let (program, resume) = parse(b"", 0);
    assert_eq!(program, vec![]);
    assert_eq!(resume, 0);
}

#[test]
fn brackets_nest_to_their_depth() {
    let (program, _) = parse(b"[[[]]]", 0);
    assert_eq!(
        program,
        vec![Stmt::Loop(vec![Stmt::Loop(vec![Stmt::Loop(vec![])])])]
    );
}

#[test]
fn folding_does_not_cross_a_loop() {
    let (program, _) = parse(b"+[+]+", 0);
    assert_eq!(
        program,
        vec![Stmt::Add(1), Stmt::Loop(vec![Stmt::Add(1)]), Stmt::Add(1)]
    );
}

#[test]
fn unmatched_close_ends_the_level_early() {
    let (program, resume) = parse(b"+]+", 0);
    assert_eq!(program, vec![Stmt::Add(1)]);
    assert_eq!(resume, 2);
}

#[test]
fn unmatched_open_absorbs_the_remainder() {
    let (program, resume) = parse(b"[+", 0);
    assert_eq!(program, vec![Stmt::Loop(vec![Stmt::Add(1)])]);
    assert_eq!(resume, 2);
}

#[test]
fn parse_from_an_inner_position() {
    let (program, resume) = parse(b"+++[>]", 4);
    assert_eq!(program, vec![Stmt::Move(1)]);
    assert_eq!(resume, 6);
}
