//! Undo and redo steps. Each recorded action is the inverse of the edit
//! that produced it; applying an action yields the action that reverses it
//! in turn, which is how undo and redo feed each other.

use vstd::prelude::*;
use vstd::utf8::{is_char_boundary, valid_utf8, valid_utf8_concat, valid_utf8_split};
use crate::doctext::{
    lemma_coords_stable, lemma_join_split, lemma_line_boundary, lemma_line_start_nonneg,
    lemma_split_wf, line_start, split_text,
};
use crate::unicode::{lemma_boundary_of_valid_prefix, lemma_valid_subrange};

verus! {

/// One recorded undo or redo step.
pub enum Action {
    /// Applied by inserting `data` at the given line and byte offset.
    Insert { line_idx: usize, char_idx: usize, data: Vec<u8> },
    /// Applied by deleting `num_bytes` bytes from the given position on.
    Delete { line_idx: usize, char_idx: usize, num_bytes: usize },
}

/// The line the action acts on.
pub open spec fn action_line(a: &Action) -> int {
    match a {
        Action::Insert { line_idx, char_idx, data } => *line_idx as int,
        Action::Delete { line_idx, char_idx, num_bytes } => *line_idx as int,
    }
}

/// The byte offset within the line the action acts at.
pub open spec fn action_char(a: &Action) -> int {
    match a {
        Action::Insert { line_idx, char_idx, data } => *char_idx as int,
        Action::Delete { line_idx, char_idx, num_bytes } => *char_idx as int,
    }
}

/// Whether line `l`, byte offset `c` names a character boundary of text `t`.
pub open spec fn coords_valid(t: Seq<u8>, l: int, c: int) -> bool {
    &&& 0 <= l < split_text(t).len()
    &&& 0 <= c <= split_text(t)[l].len()
    &&& is_char_boundary(split_text(t)[l], c)
}

/// The byte offset into text `t` named by line `l`, byte offset `c`.
pub open spec fn pos_of(t: Seq<u8>, l: int, c: int) -> int {
    line_start(split_text(t), l) + c
}

/// The position the action acts at in text `t`.
pub open spec fn action_pos(t: Seq<u8>, a: &Action) -> int {
    pos_of(t, action_line(a), action_char(a))
}

/// Whether the action can be applied to text `t`.
pub open spec fn action_app(t: Seq<u8>, a: &Action) -> bool {
    match a {
        Action::Insert { line_idx, char_idx, data } => {
            &&& coords_valid(t, *line_idx as int, *char_idx as int)
            &&& valid_utf8(data@)
        },
        Action::Delete { line_idx, char_idx, num_bytes } => {
            &&& coords_valid(t, *line_idx as int, *char_idx as int)
            &&& action_pos(t, a) + *num_bytes <= t.len()
            &&& is_char_boundary(t, action_pos(t, a) + *num_bytes)
        },
    }
}

/// The text after applying the action to text `t`.
pub open spec fn action_apply(t: Seq<u8>, a: &Action) -> Seq<u8> {
    match a {
        Action::Insert { line_idx, char_idx, data } => t.take(action_pos(t, a)) + data@
            + t.skip(action_pos(t, a)),
        Action::Delete { line_idx, char_idx, num_bytes } => t.take(action_pos(t, a)) + t.skip(
            action_pos(t, a) + *num_bytes,
        ),
    }
}

/// Whether `r` is the action that reverses `a` when `a` is applied to `t`.
pub open spec fn action_inverts(t: Seq<u8>, a: &Action, r: &Action) -> bool {
    match (a, r) {
        (
            Action::Delete { line_idx: l, char_idx: c, num_bytes: n },
            Action::Insert { line_idx: l2, char_idx: c2, data },
        ) => {
            &&& *l2 == *l
            &&& *c2 == *c
            &&& data@ == t.subrange(action_pos(t, a), action_pos(t, a) + *n)
        },
        (
            Action::Insert { line_idx: l, char_idx: c, data },
            Action::Delete { line_idx: l2, char_idx: c2, num_bytes: n },
        ) => {
            &&& *l2 == *l
            &&& *c2 == *c
            &&& *n == data@.len()
        },
        _ => false,
    }
}

/// Whether every action of the stack applies in turn, from the top down.
pub open spec fn stack_ok(t: Seq<u8>, s: Seq<Action>) -> bool
    decreases s.len(),
{
    s.len() == 0 || {
        &&& action_app(t, &s.last())
        &&& stack_ok(action_apply(t, &s.last()), s.drop_last())
    }
}

/// The text reached by applying every action of the stack, from the top
/// down: for the undo stack, the document as it was before all recorded
/// edits.
pub open spec fn rewind(t: Seq<u8>, s: Seq<Action>) -> Seq<u8>
    decreases s.len(),
{
    if s.len() == 0 {
        t
    } else {
        rewind(action_apply(t, &s.last()), s.drop_last())
    }
}

/// A position named by valid coordinates is a character boundary of the
/// text, and lies within it.
pub proof fn lemma_pos_boundary(t: Seq<u8>, l: int, c: int)
    requires
        valid_utf8(t),
        coords_valid(t, l, c),
    ensures
        0 <= pos_of(t, l, c) <= t.len(),
        is_char_boundary(t, pos_of(t, l, c)),
{
    lemma_split_wf(t);
    lemma_join_split(t);
    lemma_line_boundary(split_text(t), l, c);
    lemma_line_start_nonneg(split_text(t), l);
}

/// Valid coordinates survive any edit at or after their position: in a
/// valid text that agrees with the old one up to that position, they are
/// valid again and name the same position.
pub proof fn lemma_coords_transfer(t: Seq<u8>, t1: Seq<u8>, l: int, c: int)
    requires
        valid_utf8(t),
        valid_utf8(t1),
        coords_valid(t, l, c),
        pos_of(t, l, c) <= t1.len(),
        t.take(pos_of(t, l, c)) == t1.take(pos_of(t, l, c)),
    ensures
        coords_valid(t1, l, c),
        pos_of(t1, l, c) == pos_of(t, l, c),
        is_char_boundary(t1, pos_of(t, l, c)),
{
    let p = pos_of(t, l, c);
    lemma_pos_boundary(t, l, c);
    lemma_coords_stable(t, t1, l, c);
    assert(is_char_boundary(t1, p)) by {
        valid_utf8_split(t, p);
        assert(t1.subrange(0, p) =~= t.subrange(0, p));
        lemma_boundary_of_valid_prefix(t1, p);
    }
    lemma_split_wf(t1);
    lemma_join_split(t1);
    lemma_line_boundary(split_text(t1), l, c);
}

/// Applying an applicable action to valid text yields valid text, and the
/// action reversing it applies there and restores the original text at the
/// same position. This is the round trip that lets undo and redo feed each
/// other.
pub proof fn lemma_apply_invert(t: Seq<u8>, a: &Action, r: &Action)
    requires
        valid_utf8(t),
        action_app(t, a),
        action_inverts(t, a, r),
    ensures
        valid_utf8(action_apply(t, a)),
        action_app(action_apply(t, a), r),
        action_pos(action_apply(t, a), r) == action_pos(t, a),
        action_apply(action_apply(t, a), r) == t,
{
    let l = action_line(a);
    let c = action_char(a);
    let p = action_pos(t, a);
    lemma_pos_boundary(t, l, c);
    let t1 = action_apply(t, a);
    match a {
        Action::Delete { line_idx, char_idx, num_bytes } => {
            let n = *num_bytes as int;
            assert(t.take(p) == t.subrange(0, p));
            assert(t.skip(p + n) == t.subrange(p + n, t.len() as int));
            valid_utf8_split(t, p + n);
            valid_utf8_split(t, p);
            assert(valid_utf8(t.take(p)));
            assert(valid_utf8(t.skip(p + n)));
            valid_utf8_concat(t.take(p), t.skip(p + n));
            assert(valid_utf8(t1));
            // the same coordinates name the same position afterwards
            assert(t.take(p) =~= t1.take(p));
            lemma_coords_stable(t, t1, l, c);
            assert(pos_of(t1, l, c) == p);
            // and they lie on a character boundary there
            assert(is_char_boundary(t1, p)) by {
                assert(t1.subrange(0, p) =~= t.take(p));
                lemma_boundary_of_valid_prefix(t1, p);
            }
            assert(coords_valid(t1, l, c)) by {
                lemma_split_wf(t1);
                lemma_join_split(t1);
                lemma_line_boundary(split_text(t1), l, c);
            }
            // the removed bytes are valid on their own
            assert(valid_utf8(t.subrange(p, p + n))) by {
                lemma_valid_subrange(t, p, p + n);
            }
            assert(action_app(t1, r));
            assert(action_apply(t1, r) =~= t) by {
                assert(t1.take(p) =~= t.take(p));
                assert(t1.skip(p) =~= t.skip(p + n));
            }
        },
        Action::Insert { line_idx, char_idx, data } => {
            let n = data@.len() as int;
            assert(t.take(p) == t.subrange(0, p));
            assert(t.skip(p) == t.subrange(p, t.len() as int));
            valid_utf8_split(t, p);
            valid_utf8_concat(t.take(p), data@);
            valid_utf8_concat(t.take(p) + data@, t.skip(p));
            assert(valid_utf8(t1)) by {
                assert((t.take(p) + data@) + t.skip(p) =~= t1);
            }
            assert(t.take(p) =~= t1.take(p));
            lemma_coords_stable(t, t1, l, c);
            assert(pos_of(t1, l, c) == p);
            assert(is_char_boundary(t1, p)) by {
                assert(t1.subrange(0, p) =~= t.take(p));
                lemma_boundary_of_valid_prefix(t1, p);
            }
            assert(coords_valid(t1, l, c)) by {
                lemma_split_wf(t1);
                lemma_join_split(t1);
                lemma_line_boundary(split_text(t1), l, c);
            }
            assert(is_char_boundary(t1, p + n)) by {
                assert(t1.subrange(0, p + n) =~= t.take(p) + data@);
                lemma_boundary_of_valid_prefix(t1, p + n);
            }
            assert(action_app(t1, r));
            assert(action_apply(t1, r) =~= t) by {
                assert(t1.take(p) =~= t.take(p));
                assert(t1.skip(p + n) =~= t.skip(p));
            }
        },
    }
}

} // verus!
