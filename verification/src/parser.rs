//! The parser: a single left-to-right scan of the source bytes, one level of
//! recursion per nested loop, with peephole folding of adjacent moves and
//! adjacent additions at construction time.

use crate::ast::{
    prog_depth, prog_folded, prog_view, same_foldable_kind, stmt_depth, stmt_folded, SpecStmt,
    Stmt,
};
use vstd::prelude::*;

verus! {

broadcast use crate::ast::lemma_prog_view_index, crate::ast::lemma_prog_view_push,
    crate::ast::lemma_prog_view_update;

/// The statement denoted by one source byte, if it is one of the six
/// primitive symbols; every other byte is a comment and denotes nothing.
pub open spec fn symbol_stmt(c: u8) -> Option<SpecStmt> {
    if c == ('>' as u8) {
        Some(SpecStmt::Move(1))
    } else if c == ('<' as u8) {
        Some(SpecStmt::Move(-1))
    } else if c == ('+' as u8) {
        Some(SpecStmt::Add(1))
    } else if c == ('-' as u8) {
        Some(SpecStmt::Add(-1))
    } else if c == (',' as u8) {
        Some(SpecStmt::Input)
    } else if c == ('.' as u8) {
        Some(SpecStmt::Output)
    } else {
        None
    }
}

/// Append a primitive statement to a program under construction, folding it
/// into the last statement already there when both are moves or both are
/// additions.
pub open spec fn push_folded(code: Seq<SpecStmt>, s: SpecStmt) -> Seq<SpecStmt> {
    if code.len() == 0 {
        code.push(s)
    } else {
        match (code.last(), s) {
            (SpecStmt::Move(n), SpecStmt::Move(m)) => code.update(
                code.len() - 1,
                SpecStmt::Move(n + m),
            ),
            (SpecStmt::Add(n), SpecStmt::Add(m)) => code.update(
                code.len() - 1,
                SpecStmt::Add(n + m),
            ),
            _ => code.push(s),
        }
    }
}

/// One scanning pass from position `i` of `src`, extending the program
/// `acc` built so far at the current bracket level. Returns that level's
/// finished program and the position at which the enclosing level resumes:
/// one past the `]` that closed this level, or the end of the source when
/// the input runs out first (an unmatched `[` thus absorbs the remainder of
/// the input, and an unmatched `]` ends its level early).
///
/// The bounds placed on `j` before the resumed scan only restate what
/// `lemma_scan_resume` proves of every resume position; they keep the scan
/// visibly terminating.
pub open spec fn scan(src: Seq<u8>, i: int, acc: Seq<SpecStmt>) -> (Seq<SpecStmt>, int)
    decreases src.len() - i,
{
    if i < 0 || i >= src.len() {
        (acc, src.len() as int)
    } else if src[i] == ('[' as u8) {
        let (body, r) = scan(src, i + 1, Seq::empty());
        let j = if r < i + 1 {
            i + 1
        } else if r > src.len() {
            src.len() as int
        } else {
            r
        };
        scan(src, j, acc.push(SpecStmt::Loop(body)))
    } else if src[i] == (']' as u8) {
        (acc, i + 1)
    } else {
        match symbol_stmt(src[i]) {
            Some(s) => scan(src, i + 1, push_folded(acc, s)),
            None => scan(src, i + 1, acc),
        }
    }
}

/// The parse of a whole source: the scan of all of it, from the start, at
/// the outermost bracket level.
pub open spec fn parse_spec(src: Seq<u8>) -> Seq<SpecStmt> {
    scan(src, 0, Seq::empty()).0
}

/// A scan always resumes past the position it started at and never past the
/// end of the source, so the bounds inside `scan` never change anything.
pub proof fn lemma_scan_resume(src: Seq<u8>, i: int, acc: Seq<SpecStmt>)
    requires
        0 <= i,
    ensures
        scan(src, i, acc).1 <= src.len(),
        i < src.len() ==> i < scan(src, i, acc).1,
    decreases src.len() - i,
{
    if i < src.len() {
        if src[i] == ('[' as u8) {
            lemma_scan_resume(src, i + 1, Seq::empty());
            let r = scan(src, i + 1, Seq::empty()).1;
            let j = if r < i + 1 {
                i + 1
            } else if r > src.len() {
                src.len() as int
            } else {
                r
            };
            lemma_scan_resume(src, j, acc.push(SpecStmt::Loop(scan(src, i + 1, Seq::empty()).0)));
        } else if src[i] == (']' as u8) {
        } else {
            match symbol_stmt(src[i]) {
                Some(s) => lemma_scan_resume(src, i + 1, push_folded(acc, s)),
                None => lemma_scan_resume(src, i + 1, acc),
            }
        }
    }
}

/// Pushing a folded statement that does not fold with the last one keeps a
/// program maximally folded.
proof fn lemma_folded_push(p: Seq<SpecStmt>, s: SpecStmt)
    requires
        prog_folded(p),
        stmt_folded(s),
        p.len() > 0 ==> !same_foldable_kind(p.last(), s),
    ensures
        prog_folded(p.push(s)),
{
    let q = p.push(s);
    assert forall|i: int| 0 <= i && i + 1 < q.len() implies !same_foldable_kind(
        #[trigger] q[i],
        q[i + 1],
    ) by {
        if i + 1 < p.len() {
            assert(!same_foldable_kind(p[i], p[i + 1]));
        } else {
            assert(q[i] == p.last());
        }
    }
}

/// The folding append keeps a program maximally folded.
proof fn lemma_push_folded_keeps_folded(code: Seq<SpecStmt>, s: SpecStmt)
    requires
        prog_folded(code),
        !(s is Loop),
    ensures
        prog_folded(push_folded(code, s)),
{
    if code.len() == 0 {
        lemma_folded_push(code, s);
    } else {
        match (code.last(), s) {
            (SpecStmt::Move(n), SpecStmt::Move(m)) => {
                lemma_update_last_same_kind(code, SpecStmt::Move(n + m));
            },
            (SpecStmt::Add(n), SpecStmt::Add(m)) => {
                lemma_update_last_same_kind(code, SpecStmt::Add(n + m));
            },
            _ => {
                lemma_folded_push(code, s);
            },
        }
    }
}

/// Replacing the last statement with a folded one of the same kind keeps a
/// program maximally folded.
proof fn lemma_update_last_same_kind(code: Seq<SpecStmt>, t: SpecStmt)
    requires
        prog_folded(code),
        code.len() > 0,
        stmt_folded(t),
        (code.last() is Move && t is Move) || (code.last() is Add && t is Add),
    ensures
        prog_folded(code.update(code.len() - 1, t)),
{
    let q = code.update(code.len() - 1, t);
    assert forall|i: int| 0 <= i && i + 1 < q.len() implies !same_foldable_kind(
        #[trigger] q[i],
        q[i + 1],
    ) by {
        if i + 1 < code.len() - 1 {
            assert(!same_foldable_kind(code[i], code[i + 1]));
        } else {
            assert(q[i] == code[i]);
            assert(!same_foldable_kind(code[i], code[i + 1]));
        }
    }
}

/// A scan of a maximally folded program stays maximally folded: folding
/// happens at construction time, never after.
proof fn lemma_scan_folded(src: Seq<u8>, i: int, acc: Seq<SpecStmt>)
    requires
        prog_folded(acc),
    ensures
        prog_folded(scan(src, i, acc).0),
    decreases src.len() - i,
{
    if i < 0 || i >= src.len() {
    } else if src[i] == ('[' as u8) {
        let (body, r) = scan(src, i + 1, Seq::empty());
        let j = if r < i + 1 {
            i + 1
        } else if r > src.len() {
            src.len() as int
        } else {
            r
        };
        lemma_scan_folded(src, i + 1, Seq::empty());
        lemma_folded_push(acc, SpecStmt::Loop(body));
        lemma_scan_folded(src, j, acc.push(SpecStmt::Loop(body)));
    } else if src[i] == (']' as u8) {
    } else {
        match symbol_stmt(src[i]) {
            Some(s) => {
                lemma_push_folded_keeps_folded(acc, s);
                lemma_scan_folded(src, i + 1, push_folded(acc, s));
            },
            None => {
                lemma_scan_folded(src, i + 1, acc);
            },
        }
    }
}

/// Folding invariance: in a parsed tree no two adjacent sibling statements
/// are both `Move` or both `Add`, at any nesting level.
pub proof fn lemma_parse_folded(src: Seq<u8>)
    ensures
        prog_folded(parse_spec(src)),
{
    lemma_scan_folded(src, 0, Seq::empty());
}

/// How often byte `b` occurs in `src` at or after position `i`.
pub open spec fn count_from(src: Seq<u8>, i: int, b: u8) -> int
    decreases src.len() - i,
{
    if i < 0 || i >= src.len() {
        0
    } else {
        (if src[i] == b {
            1int
        } else {
            0int
        }) + count_from(src, i + 1, b)
    }
}

/// The accumulating statement of a run of one arithmetic kind.
spec fn arith_stmt(move_kind: bool, delta: int) -> SpecStmt {
    if move_kind {
        SpecStmt::Move(delta)
    } else {
        SpecStmt::Add(delta)
    }
}

/// The symbol that raises a run's delta: `>` for moves, `+` for additions.
spec fn up_symbol(move_kind: bool) -> u8 {
    if move_kind {
        '>' as u8
    } else {
        '+' as u8
    }
}

/// The symbol that lowers a run's delta: `<` for moves, `-` for additions.
spec fn down_symbol(move_kind: bool) -> u8 {
    if move_kind {
        '<' as u8
    } else {
        '-' as u8
    }
}

/// Scanning a run of one arithmetic kind folds everything into the single
/// statement already accumulated, adding one per raising symbol and
/// subtracting one per lowering symbol.
proof fn lemma_scan_run(src: Seq<u8>, i: int, m: int, move_kind: bool)
    requires
        0 <= i <= src.len(),
        forall|k: int|
            i <= k < src.len() ==> src[k] == up_symbol(move_kind) || src[k] == down_symbol(
                move_kind,
            ),
    ensures
        scan(src, i, seq![arith_stmt(move_kind, m)]).0 == seq![
            arith_stmt(
                move_kind,
                m + count_from(src, i, up_symbol(move_kind)) - count_from(
                    src,
                    i,
                    down_symbol(move_kind),
                ),
            ),
        ],
    decreases src.len() - i,
{
    let acc = seq![arith_stmt(move_kind, m)];
    if i >= src.len() {
        assert(scan(src, i, acc).0 == acc);
    } else {
        let step: int = if src[i] == up_symbol(move_kind) {
            1
        } else {
            -1
        };
        let s = arith_stmt(move_kind, step);
        assert(symbol_stmt(src[i]) == Some(s));
        assert(push_folded(acc, s) =~= seq![arith_stmt(move_kind, m + step)]);
        lemma_scan_run(src, i + 1, m + step, move_kind);
    }
}

/// Magnitude conservation for cursor moves: a source of only `>` and `<`
/// parses to a single `Move` whose delta is the count of `>` minus the
/// count of `<`.
pub proof fn lemma_move_magnitude(src: Seq<u8>)
    requires
        src.len() > 0,
        forall|k: int| 0 <= k < src.len() ==> src[k] == ('>' as u8) || src[k] == ('<' as u8),
    ensures
        parse_spec(src) == seq![
            SpecStmt::Move(count_from(src, 0, '>' as u8) - count_from(src, 0, '<' as u8)),
        ],
{
    lemma_run_magnitude(src, true);
}

/// Magnitude conservation for cell additions: a source of only `+` and `-`
/// parses to a single `Add` whose delta is the count of `+` minus the
/// count of `-`.
pub proof fn lemma_add_magnitude(src: Seq<u8>)
    requires
        src.len() > 0,
        forall|k: int| 0 <= k < src.len() ==> src[k] == ('+' as u8) || src[k] == ('-' as u8),
    ensures
        parse_spec(src) == seq![
            SpecStmt::Add(count_from(src, 0, '+' as u8) - count_from(src, 0, '-' as u8)),
        ],
{
    lemma_run_magnitude(src, false);
}

/// The shared body of the two magnitude-conservation laws.
proof fn lemma_run_magnitude(src: Seq<u8>, move_kind: bool)
    requires
        src.len() > 0,
        forall|k: int|
            0 <= k < src.len() ==> src[k] == up_symbol(move_kind) || src[k] == down_symbol(
                move_kind,
            ),
    ensures
        parse_spec(src) == seq![
            arith_stmt(
                move_kind,
                count_from(src, 0, up_symbol(move_kind)) - count_from(
                    src,
                    0,
                    down_symbol(move_kind),
                ),
            ),
        ],
{
    let step: int = if src[0] == up_symbol(move_kind) {
        1
    } else {
        -1
    };
    let s = arith_stmt(move_kind, step);
    assert(symbol_stmt(src[0]) == Some(s));
    assert(push_folded(Seq::empty(), s) =~= seq![s]);
    lemma_scan_run(src, 1, step, move_kind);
}

/// The bracket nesting depth of the source from position `i`, by the same
/// permissive scan the parser makes, together with the resume position: a
/// `[` opens one level around whatever nests inside it, a `]` closes the
/// current level, and for a source whose brackets balance this is simply
/// the depth to which its brackets nest.
pub open spec fn bracket_depth(src: Seq<u8>, i: int) -> (nat, int)
    decreases src.len() - i,
{
    if i < 0 || i >= src.len() {
        (0, src.len() as int)
    } else if src[i] == ('[' as u8) {
        let (inner, r) = bracket_depth(src, i + 1);
        let j = if r < i + 1 {
            i + 1
        } else if r > src.len() {
            src.len() as int
        } else {
            r
        };
        let (rest, k) = bracket_depth(src, j);
        (
            if 1 + inner >= rest {
                1 + inner
            } else {
                rest
            },
            k,
        )
    } else if src[i] == (']' as u8) {
        (0, i + 1)
    } else {
        bracket_depth(src, i + 1)
    }
}

/// Appending a statement to a program takes the depth to the larger of the
/// two depths.
proof fn lemma_prog_depth_push(p: Seq<SpecStmt>, s: SpecStmt)
    ensures
        prog_depth(p.push(s)) == if prog_depth(p) >= stmt_depth(s) {
            prog_depth(p)
        } else {
            stmt_depth(s)
        },
{
    assert(p.push(s).drop_last() =~= p);
}

/// The scan and the bracket-depth scan agree: they resume at the same
/// position, and the depth of the parsed program is the accumulated
/// program's depth or the source segment's bracket depth, whichever is
/// larger.
proof fn lemma_scan_depth(src: Seq<u8>, i: int, acc: Seq<SpecStmt>)
    ensures
        scan(src, i, acc).1 == bracket_depth(src, i).1,
        prog_depth(scan(src, i, acc).0) == if prog_depth(acc) >= bracket_depth(src, i).0 {
            prog_depth(acc)
        } else {
            bracket_depth(src, i).0
        },
    decreases src.len() - i,
{
    if i < 0 || i >= src.len() {
    } else if src[i] == ('[' as u8) {
        let (body, r) = scan(src, i + 1, Seq::empty());
        lemma_scan_depth(src, i + 1, Seq::empty());
        let j = if r < i + 1 {
            i + 1
        } else if r > src.len() {
            src.len() as int
        } else {
            r
        };
        lemma_prog_depth_push(acc, SpecStmt::Loop(body));
        lemma_scan_depth(src, j, acc.push(SpecStmt::Loop(body)));
    } else if src[i] == (']' as u8) {
    } else {
        match symbol_stmt(src[i]) {
            Some(s) => {
                lemma_push_folded_depth(acc, s);
                lemma_scan_depth(src, i + 1, push_folded(acc, s));
            },
            None => {
                lemma_scan_depth(src, i + 1, acc);
            },
        }
    }
}

/// The folding append of a primitive statement never changes a program's
/// depth.
proof fn lemma_push_folded_depth(code: Seq<SpecStmt>, s: SpecStmt)
    requires
        !(s is Loop),
    ensures
        prog_depth(push_folded(code, s)) == prog_depth(code),
{
    if code.len() == 0 {
        lemma_prog_depth_push(code, s);
    } else {
        match (code.last(), s) {
            (SpecStmt::Move(n), SpecStmt::Move(m)) => {
                lemma_update_last_depth(code, SpecStmt::Move(n + m));
            },
            (SpecStmt::Add(n), SpecStmt::Add(m)) => {
                lemma_update_last_depth(code, SpecStmt::Add(n + m));
            },
            _ => {
                lemma_prog_depth_push(code, s);
            },
        }
    }
}

/// Replacing the last statement of a program with one of equal depth keeps
/// the program's depth.
proof fn lemma_update_last_depth(code: Seq<SpecStmt>, t: SpecStmt)
    requires
        code.len() > 0,
        stmt_depth(t) == stmt_depth(code.last()),
    ensures
        prog_depth(code.update(code.len() - 1, t)) == prog_depth(code),
{
    let q = code.update(code.len() - 1, t);
    assert(q.drop_last() =~= code.drop_last());
    assert(q.last() == t);
}

/// Bracket nesting depth: the parsed tree's loops nest exactly as deep as
/// the source's brackets do.
pub proof fn lemma_nesting_depth(src: Seq<u8>)
    ensures
        prog_depth(parse_spec(src)) == bracket_depth(src, 0).0,
{
    lemma_scan_depth(src, 0, Seq::empty());
}

/// Parse the source bytes from `start_idx` into a program tree, together
/// with the position at which an enclosing parse would resume (the whole
/// parse of a source is `parse(src, 0)`, whose resume position callers
/// ignore). Folding happens at construction time, so the returned tree
/// satisfies the folding invariant (`lemma_parse_folded`).
///
/// Sources longer than `i32::MAX` bytes are excluded: a folded delta is
/// bounded by the number of bytes that fed it and must fit its `i32` field.
pub fn parse(src: &[u8], start_idx: usize) -> (r: (Vec<Stmt>, usize))
    requires
        src@.len() <= i32::MAX,
    ensures
        prog_view(r.0@) == scan(src@, start_idx as int, Seq::empty()).0,
        r.1 as int == scan(src@, start_idx as int, Seq::empty()).1,
        r.1 <= src@.len(),
        start_idx < src@.len() ==> start_idx < r.1,
        prog_folded(prog_view(r.0@)),
    decreases src@.len() - start_idx,
{
    let mut code: Vec<Stmt> = Vec::new();
    let mut i: usize = start_idx;

    while i < src.len()
        invariant
            src@.len() <= i32::MAX,
            start_idx <= i,
            scan(src@, start_idx as int, Seq::empty()) == scan(src@, i as int, prog_view(code@)),
            forall|k: int|
                0 <= k < code@.len() ==> match #[trigger] prog_view(code@)[k] {
                    SpecStmt::Move(n) => -(i as int) <= n <= i as int,
                    SpecStmt::Add(n) => -(i as int) <= n <= i as int,
                    _ => true,
                },
        decreases src@.len() - i,
    {
        let c = src[i];

        // A nested loop: parse its body recursively and resume after it.
        if c == ('[' as u8) {
            let (loop_code, idx_after) = parse(src, i + 1);
            code.push(Stmt::Loop(loop_code));
            i = idx_after;
            continue;
        }
        // The end of this bracket level: hand control back to the caller.
        if c == (']' as u8) {
            proof {
                lemma_scan_folded(src@, start_idx as int, Seq::empty());
            }
            return (code, i + 1);
        }
        let maybe_statement = if c == ('>' as u8) {
            Some(Stmt::Move(1))
        } else if c == ('<' as u8) {
            Some(Stmt::Move(-1))
        } else if c == ('+' as u8) {
            Some(Stmt::Add(1))
        } else if c == ('-' as u8) {
            Some(Stmt::Add(-1))
        } else if c == (',' as u8) {
            Some(Stmt::Input)
        } else if c == ('.' as u8) {
            Some(Stmt::Output)
        } else {
            // Any other byte is a comment.
            None
        };

        if let Some(s) = maybe_statement {
            if code.len() == 0 {
                code.push(s);
            } else {
                let last_idx = code.len() - 1;
                let folded = match (&code[last_idx], &s) {
                    (Stmt::Move(n), Stmt::Move(m)) => Some(Stmt::Move(*n + *m)),
                    (Stmt::Add(n), Stmt::Add(m)) => Some(Stmt::Add(*n + *m)),
                    _ => None,
                };
                match folded {
                    Some(t) => {
                        code[last_idx] = t;
                    },
                    None => {
                        code.push(s);
                    },
                }
            }
        }

        i = i + 1;
    }

    proof {
        lemma_scan_folded(src@, start_idx as int, Seq::empty());
    }
    (code, src.len())
}

} // verus!
