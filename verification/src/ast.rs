//! The program tree produced by the parser and consumed by the code
//! generator, together with its mathematical model.

use vstd::prelude::*;

verus! {

/// One statement of the tape-machine language. A whole program is an
/// ordered sequence of statements; a `Loop` holds such a sequence itself,
/// so a program is a tree of unbounded nesting depth.
#[derive(PartialEq, Eq, Debug)]
pub enum Stmt {
    /// Shift the cursor by the given amount (negative shifts move left).
    Move(i32),
    /// Add the given amount to the byte under the cursor, wrapping at 8 bits.
    Add(i32),
    /// Read one byte from the external source into the cell under the cursor.
    Input,
    /// Write the byte under the cursor to the external sink.
    Output,
    /// Repeat the body while the byte under the cursor is non-zero,
    /// re-tested before every iteration including the first.
    Loop(Vec<Stmt>),
}

/// The mathematical model of a statement: deltas are unbounded integers and
/// a loop body is a `Seq`, so contracts and lemmas can speak of trees
/// without reference to `Vec` or machine integers.
pub enum SpecStmt {
    Move(int),
    Add(int),
    Input,
    Output,
    Loop(Seq<SpecStmt>),
}

/// The model of one executable statement.
pub open spec fn stmt_view(s: Stmt) -> SpecStmt
    decreases s,
{
    match s {
        Stmt::Move(n) => SpecStmt::Move(n as int),
        Stmt::Add(n) => SpecStmt::Add(n as int),
        Stmt::Input => SpecStmt::Input,
        Stmt::Output => SpecStmt::Output,
        Stmt::Loop(body) => SpecStmt::Loop(prog_view(body@)),
    }
}

/// The model of a sequence of executable statements, element by element.
pub open spec fn prog_view(p: Seq<Stmt>) -> Seq<SpecStmt>
    decreases p,
{
    if p.len() == 0 {
        Seq::empty()
    } else {
        prog_view(p.drop_last()).push(stmt_view(p.last()))
    }
}

/// `prog_view` maps the sequence element by element.
pub broadcast proof fn lemma_prog_view_index(p: Seq<Stmt>)
    ensures
        (#[trigger] prog_view(p)).len() == p.len(),
        forall|i: int| 0 <= i < p.len() ==> prog_view(p)[i] == stmt_view(p[i]),
    decreases p,
{
    if p.len() > 0 {
        lemma_prog_view_index(p.drop_last());
        assert forall|i: int| 0 <= i < p.len() implies prog_view(p)[i] == stmt_view(p[i]) by {
            if i + 1 < p.len() {
                assert(p.drop_last()[i] == p[i]);
            }
        }
    }
}

/// Appending a statement appends its model.
pub broadcast proof fn lemma_prog_view_push(p: Seq<Stmt>, s: Stmt)
    ensures
        #[trigger] prog_view(p.push(s)) == prog_view(p).push(stmt_view(s)),
{
    assert(p.push(s).drop_last() =~= p);
    assert(p.push(s).last() == s);
}

/// Replacing a statement replaces its model.
pub broadcast proof fn lemma_prog_view_update(p: Seq<Stmt>, k: int, s: Stmt)
    requires
        0 <= k < p.len(),
    ensures
        #[trigger] prog_view(p.update(k, s)) == prog_view(p).update(k, stmt_view(s)),
{
    lemma_prog_view_index(p);
    lemma_prog_view_index(p.update(k, s));
    assert(prog_view(p.update(k, s)) =~= prog_view(p).update(k, stmt_view(s)));
}

/// Two statements fold into one when appended next to each other:
/// both cursor moves, or both cell additions.
pub open spec fn same_foldable_kind(a: SpecStmt, b: SpecStmt) -> bool {
    ||| (a is Move && b is Move)
    ||| (a is Add && b is Add)
}

/// A statement is maximally folded when every loop body inside it is.
pub open spec fn stmt_folded(s: SpecStmt) -> bool
    decreases s,
{
    match s {
        SpecStmt::Loop(body) => prog_folded(body),
        _ => true,
    }
}

/// A program is maximally folded: no two adjacent siblings are both `Move`
/// or both `Add`, at any nesting level.
pub open spec fn prog_folded(p: Seq<SpecStmt>) -> bool
    decreases p,
{
    &&& forall|i: int| 0 <= i && i + 1 < p.len() ==> !same_foldable_kind(#[trigger] p[i], p[i + 1])
    &&& forall|i: int| 0 <= i < p.len() ==> stmt_folded(#[trigger] p[i])
}

/// Nesting depth of one statement: loops count one level plus their body.
pub open spec fn stmt_depth(s: SpecStmt) -> nat
    decreases s,
{
    match s {
        SpecStmt::Loop(body) => 1 + prog_depth(body),
        _ => 0,
    }
}

/// Nesting depth of a program: the deepest of its statements.
pub open spec fn prog_depth(p: Seq<SpecStmt>) -> nat
    decreases p,
{
    if p.len() == 0 {
        0
    } else {
        let rest = prog_depth(p.drop_last());
        let last = stmt_depth(p.last());
        if rest >= last {
            rest
        } else {
            last
        }
    }
}

} // verus!
