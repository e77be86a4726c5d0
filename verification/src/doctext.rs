//! The document as flat text: line contents joined by single newline bytes,
//! and the lemmas that relate per-line edits to edits of the joined text.

use vstd::prelude::*;
use vstd::utf8::{
    is_char_boundary, is_char_boundary_iff_not_is_continuation_byte,
    is_char_boundary_start_end_of_seq, is_continuation_byte, valid_first_scalar, valid_utf8,
    valid_utf8_concat, valid_utf8_split,
};
use crate::unicode::{lemma_boundary_of_valid_prefix, line_wf};

verus! {

/// The joined document text: line contents separated by single `\n` bytes,
/// with no trailing newline.
pub open spec fn join(d: Seq<Seq<u8>>) -> Seq<u8>
    decreases d.len(),
{
    if d.len() == 0 {
        Seq::empty()
    } else if d.len() == 1 {
        d[0]
    } else {
        d[0] + seq![10u8] + join(d.drop_first())
    }
}

/// Byte offset in the joined text where line `l` starts.
pub open spec fn line_start(d: Seq<Seq<u8>>, l: int) -> int
    decreases l,
{
    if l <= 0 {
        0
    } else {
        line_start(d, l - 1) + d[l - 1].len() + 1
    }
}

/// Every line is valid UTF-8 and holds no newline byte.
pub open spec fn lines_wf(d: Seq<Seq<u8>>) -> bool {
    forall|i: int| 0 <= i < d.len() ==> line_wf(#[trigger] d[i])
}

/// The text that precedes line `l`, separator included.
pub open spec fn join_before(d: Seq<Seq<u8>>, l: int) -> Seq<u8> {
    if l <= 0 {
        Seq::empty()
    } else {
        join(d.subrange(0, l)) + seq![10u8]
    }
}

/// The text that follows line `l`, separator included.
pub open spec fn join_after(d: Seq<Seq<u8>>, l: int) -> Seq<u8> {
    if l >= d.len() - 1 {
        Seq::empty()
    } else {
        seq![10u8] + join(d.subrange(l + 1, d.len() as int))
    }
}

/// Line start offsets are never negative.
pub proof fn lemma_line_start_nonneg(d: Seq<Seq<u8>>, l: int)
    ensures
        0 <= line_start(d, l),
    decreases l,
{
    if l > 0 {
        lemma_line_start_nonneg(d, l - 1);
    }
}

/// Joining one line followed by the rest prepends that line and a separator.
pub proof fn lemma_join_cons(x: Seq<u8>, rest: Seq<Seq<u8>>)
    ensures
        join(seq![x] + rest) == if rest.len() == 0 {
            x
        } else {
            x + seq![10u8] + join(rest)
        },
{
    let d = seq![x] + rest;
    if rest.len() == 0 {
        assert(d.len() == 1);
        assert(d[0] == x);
    } else {
        assert(d.len() >= 2);
        assert(d[0] == x);
        assert(d.drop_first() =~~= rest);
    }
}

/// Joining after appending one line appends a separator and that line.
pub proof fn lemma_join_snoc(d: Seq<Seq<u8>>, x: Seq<u8>)
    ensures
        join(d.push(x)) == if d.len() == 0 {
            x
        } else {
            join(d) + seq![10u8] + x
        },
    decreases d.len(),
{
    if d.len() == 0 {
        assert(d.push(x)[0] == x);
    } else if d.len() == 1 {
        let dp = d.push(x);
        assert(dp.len() == 2);
        assert(dp.drop_first() =~~= seq![x]);
        assert(join(dp) == dp[0] + seq![10u8] + join(dp.drop_first()));
        assert(join(seq![x]) == x);
        assert(dp[0] == d[0]);
        assert(join(d) == d[0]);
    } else {
        let dp = d.push(x);
        assert(dp.drop_first() =~~= d.drop_first().push(x));
        lemma_join_snoc(d.drop_first(), x);
        assert(join(dp) == dp[0] + seq![10u8] + join(dp.drop_first()));
        assert(dp[0] == d[0]);
        assert(d[0] + seq![10u8] + (join(d.drop_first()) + seq![10u8] + x) =~= (d[0]
            + seq![10u8] + join(d.drop_first())) + seq![10u8] + x);
    }
}

/// Dropping the first line shifts every later line start by that line's
/// length plus its separator.
pub proof fn lemma_line_start_shift(d: Seq<Seq<u8>>, l: int)
    requires
        1 <= l <= d.len(),
    ensures
        line_start(d, l) == d[0].len() + 1 + line_start(d.drop_first(), l - 1),
    decreases l,
{
    if l == 1 {
        assert(line_start(d, 1) == line_start(d, 0) + d[0].len() + 1);
        assert(line_start(d, 0) == 0);
        assert(line_start(d.drop_first(), 0) == 0);
    } else {
        lemma_line_start_shift(d, l - 1);
        assert(d.drop_first()[l - 2] == d[l - 1]);
        assert(line_start(d, l) == line_start(d, l - 1) + d[l - 1].len() + 1);
        assert(line_start(d.drop_first(), l - 1) == line_start(d.drop_first(), l - 2)
            + d.drop_first()[l - 2].len() + 1);
    }
}

/// Line starts do not depend on the lines at or after the given index.
pub proof fn lemma_line_start_congruent(d1: Seq<Seq<u8>>, d2: Seq<Seq<u8>>, l: int)
    requires
        0 <= l <= d1.len(),
        l <= d2.len(),
        forall|i: int| 0 <= i < l ==> d1[i] == d2[i],
    ensures
        line_start(d1, l) == line_start(d2, l),
    decreases l,
{
    if l > 0 {
        lemma_line_start_congruent(d1, d2, l - 1);
    }
}

/// The joined text splits around any line: what is before it, the line
/// itself, and what is after it; the prefix length is the line's start.
pub proof fn lemma_join_parts(d: Seq<Seq<u8>>, l: int)
    requires
        0 <= l < d.len(),
    ensures
        join(d) == join_before(d, l) + d[l] + join_after(d, l),
        line_start(d, l) == join_before(d, l).len(),
    decreases l,
{
    if l == 0 {
        if d.len() == 1 {
            assert(join_before(d, 0) + d[0] + join_after(d, 0) =~= d[0]);
        } else {
            assert(d.subrange(1, d.len() as int) =~~= d.drop_first());
            assert(join_before(d, 0) + d[0] + join_after(d, 0) =~= d[0] + seq![10u8] + join(
                d.drop_first(),
            ));
        }
    } else {
        let d2 = d.drop_first();
        lemma_join_parts(d2, l - 1);
        lemma_line_start_shift(d, l);
        assert(join(d) == d[0] + seq![10u8] + join(d2));
        assert(d2[l - 1] == d[l]);
        // the part after line l is the same seen from d or from d2
        assert(join_after(d, l) == join_after(d2, l - 1)) by {
            if l < d.len() - 1 {
                assert(d2.subrange(l, d2.len() as int) =~~= d.subrange(l + 1, d.len() as int));
            }
        }
        // the part before line l grows by the first line and its separator
        assert(join_before(d, l) == d[0] + seq![10u8] + join_before(d2, l - 1)) by {
            if l == 1 {
                assert(d.subrange(0, 1) =~~= seq![d[0]]);
                assert(join(seq![d[0]]) == d[0]);
                assert(join_before(d, 1) == join(d.subrange(0, 1)) + seq![10u8]);
                assert(d[0] + seq![10u8] + join_before(d2, 0) =~= d[0] + seq![10u8]);
            } else {
                assert(d.subrange(0, l) =~~= seq![d[0]] + d2.subrange(0, l - 1));
                lemma_join_cons(d[0], d2.subrange(0, l - 1));
                assert(join(d.subrange(0, l)) == d[0] + seq![10u8] + join(
                    d2.subrange(0, l - 1),
                ));
                assert((d[0] + seq![10u8] + join(d2.subrange(0, l - 1))) + seq![10u8] =~= d[0]
                    + seq![10u8] + (join(d2.subrange(0, l - 1)) + seq![10u8]));
            }
        }
        assert(join(d) =~= join_before(d, l) + d[l] + join_after(d, l)) by {
            assert(join(d2) == join_before(d2, l - 1) + d2[l - 1] + join_after(d2, l - 1));
            assert(d[0] + seq![10u8] + (join_before(d2, l - 1) + d2[l - 1] + join_after(
                d2,
                l - 1,
            )) =~= (d[0] + seq![10u8] + join_before(d2, l - 1)) + d2[l - 1] + join_after(
                d2,
                l - 1,
            ));
        }
    }
}

/// The index of the first newline byte, or the length if there is none.
pub open spec fn first_nl(t: Seq<u8>) -> int
    decreases t.len(),
{
    if t.len() == 0 {
        0
    } else if t[0] == 10u8 {
        0
    } else {
        1 + first_nl(t.drop_first())
    }
}

/// Splitting text at newline bytes, the inverse of `join`.
pub open spec fn split_text(t: Seq<u8>) -> Seq<Seq<u8>>
    decreases t.len(),
{
    let i = first_nl(t);
    if 0 <= i < t.len() {
        seq![t.take(i)] + split_text(t.skip(i + 1))
    } else {
        seq![t]
    }
}

/// `first_nl` points at the first newline: no newline lies before it, and
/// it lies at a newline unless there is none.
pub proof fn lemma_first_nl(t: Seq<u8>)
    ensures
        0 <= first_nl(t) <= t.len(),
        first_nl(t) < t.len() ==> t[first_nl(t)] == 10u8,
        forall|j: int| 0 <= j < first_nl(t) ==> t[j] != 10u8,
    decreases t.len(),
{
    if t.len() == 0 {
    } else if t[0] == 10u8 {
    } else {
        lemma_first_nl(t.drop_first());
        assert(forall|j: int|
            0 <= j < first_nl(t.drop_first()) ==> #[trigger] t.drop_first()[j] != 10u8);
        assert forall|j: int| 0 <= j < first_nl(t) implies t[j] != 10u8 by {
            if j > 0 {
                assert(t.drop_first()[j - 1] == t[j]);
            }
        }
    }
}

/// Any position with a newline and none before it is `first_nl`.
pub proof fn lemma_first_nl_is(t: Seq<u8>, i: int)
    requires
        0 <= i <= t.len(),
        forall|j: int| 0 <= j < i ==> t[j] != 10u8,
        i < t.len() ==> t[i] == 10u8,
    ensures
        i < t.len() ==> first_nl(t) == i,
        i == t.len() ==> first_nl(t) >= i,
    decreases i,
{
    if t.len() == 0 {
    } else if i == 0 {
    } else {
        assert(t[0] != 10u8);
        assert forall|j: int| 0 <= j < i - 1 implies t.drop_first()[j] != 10u8 by {
            assert(t.drop_first()[j] == t[j + 1]);
        }
        assert(i - 1 < t.drop_first().len() ==> t.drop_first()[i - 1] == t[i]);
        lemma_first_nl_is(t.drop_first(), i - 1);
    }
}

/// Splitting the joined text of well-formed lines gives the lines back.
pub proof fn lemma_split_join(d: Seq<Seq<u8>>)
    requires
        lines_wf(d),
        d.len() >= 1,
    ensures
        split_text(join(d)) == d,
    decreases d.len(),
{
    let t = join(d);
    if d.len() == 1 {
        assert(line_wf(d[0]));
        assert(t == d[0]);
        assert(forall|j: int| 0 <= j < t.len() ==> t[j] != 10u8) by {
            if t.contains(10u8) {
            }
        }
        lemma_first_nl_is(t, t.len() as int);
        assert(split_text(t) =~~= seq![d[0]]);
        assert(split_text(t) == seq![t]);
        assert(seq![t] =~~= d);
    } else {
        let d2 = d.drop_first();
        assert(line_wf(d[0]));
        assert(t == d[0] + seq![10u8] + join(d2));
        let i = d[0].len() as int;
        assert(forall|j: int| 0 <= j < i ==> t[j] != 10u8) by {
            assert(forall|j: int| 0 <= j < i ==> t[j] == d[0][j]);
        }
        assert(t[i] == 10u8);
        lemma_first_nl_is(t, i);
        assert(first_nl(t) == i);
        assert(t.take(i) =~= d[0]);
        assert(t.skip(i + 1) =~= join(d2));
        assert(lines_wf(d2)) by {
            assert(forall|k: int| 0 <= k < d2.len() ==> #[trigger] d2[k] == d[k + 1]);
        }
        lemma_split_join(d2);
        assert(split_text(t) == seq![d[0]] + d2);
        assert(seq![d[0]] + d2 =~~= d);
    }
}

/// Joining the split of any text gives the text back.
pub proof fn lemma_join_split(t: Seq<u8>)
    ensures
        join(split_text(t)) == t,
        split_text(t).len() >= 1,
    decreases t.len(),
{
    lemma_first_nl(t);
    let i = first_nl(t);
    if 0 <= i < t.len() {
        lemma_join_split(t.skip(i + 1));
        lemma_join_cons(t.take(i), split_text(t.skip(i + 1)));
        assert(join(split_text(t)) == t.take(i) + seq![10u8] + join(
            split_text(t.skip(i + 1)),
        ));
        assert(t.take(i) + seq![10u8] + t.skip(i + 1) =~= t);
    }
}

/// The split of valid UTF-8 text yields well-formed lines.
pub proof fn lemma_split_wf(t: Seq<u8>)
    requires
        valid_utf8(t),
    ensures
        split_text(t).len() >= 1,
        lines_wf(split_text(t)),
    decreases t.len(),
{
    lemma_first_nl(t);
    let i = first_nl(t);
    if 0 <= i < t.len() {
        let head = t.take(i);
        assert(is_char_boundary(t, i)) by {
            is_char_boundary_iff_not_is_continuation_byte(t, i);
        }
        assert(valid_utf8(head)) by {
            valid_utf8_split(t, i);
            assert(head == t.subrange(0, i));
        }
        assert(!head.contains(10u8)) by {
            assert(forall|j: int| 0 <= j < i ==> head[j] == t[j]);
        }
        assert(is_char_boundary(t, i + 1)) by {
            crate::unicode::lemma_next_boundary(t, i);
            let tail = t.subrange(i, t.len() as int);
            assert(tail[0] == 10u8);
            assert(vstd::utf8::is_leading_byte_width_1(tail[0]));
            assert(vstd::utf8::length_of_first_scalar(tail) == 1);
        }
        assert(valid_utf8(t.skip(i + 1))) by {
            valid_utf8_split(t, i + 1);
            assert(t.skip(i + 1) == t.subrange(i + 1, t.len() as int));
        }
        lemma_split_wf(t.skip(i + 1));
        let d = split_text(t);
        assert(d == seq![head] + split_text(t.skip(i + 1)));
        assert(forall|k: int|
            1 <= k < d.len() ==> d[k] == #[trigger] split_text(t.skip(i + 1))[k - 1]);
        assert(lines_wf(d)) by {
            assert(forall|k: int| 0 <= k < d.len() ==> line_wf(#[trigger] d[k]));
        }
    } else {
        assert(split_text(t) == seq![t]);
        assert(!t.contains(10u8)) by {
            if t.contains(10u8) {
                let j = choose|j: int| 0 <= j < t.len() && t[j] == 10u8;
                assert(t[j] == 10u8);
            }
        }
        assert(line_wf(t));
        assert(forall|k: int| 0 <= k < 1 ==> #[trigger] split_text(t)[k] == t);
    }
}

/// If two texts agree up to a position that lies at or before the cursor
/// position described by line `l` and offset `c`, then that line and
/// offset describe the same position in both, and the line prefix up to
/// the offset is the same.
pub proof fn lemma_coords_stable(t: Seq<u8>, t2: Seq<u8>, l: int, c: int)
    requires
        0 <= l < split_text(t).len(),
        0 <= c <= split_text(t)[l].len(),
        line_start(split_text(t), l) + c <= t2.len(),
        t.take(line_start(split_text(t), l) + c) == t2.take(
            line_start(split_text(t), l) + c,
        ),
    ensures
        l < split_text(t2).len(),
        line_start(split_text(t2), l) == line_start(split_text(t), l),
        c <= split_text(t2)[l].len(),
        split_text(t2)[l].take(c) == split_text(t)[l].take(c),
    decreases l,
{
    let d = split_text(t);
    let d2 = split_text(t2);
    let p = line_start(d, l) + c;
    lemma_first_nl(t);
    lemma_first_nl(t2);
    lemma_join_split(t);
    lemma_join_parts(d, l);
    assert(p <= t.len());
    if l == 0 {
        // the first line of both texts reaches at least to c
        assert(d[0] == if first_nl(t) >= t.len() {
            t
        } else {
            t.take(first_nl(t))
        });
        assert(c <= first_nl(t) && c <= t.len()) by {
            if first_nl(t) < t.len() {
                assert(d[0] == t.take(first_nl(t)));
            }
        }
        assert forall|j: int| 0 <= j < c implies t2[j] == t[j] by {
            assert(t.take(p)[j] == t[j]);
            assert(t2.take(p)[j] == t2[j]);
        }
        assert(forall|j: int| 0 <= j < c ==> t2[j] != 10u8) by {
            assert(forall|j: int| 0 <= j < c ==> t[j] != 10u8);
        }
        assert(first_nl(t2) >= c) by {
            if first_nl(t2) < c {
                assert(t2[first_nl(t2)] == 10u8);
            }
        }
        if first_nl(t2) >= t2.len() {
            assert(d2[0] == t2);
            assert(d2[0].take(c) =~= d[0].take(c));
        } else {
            assert(d2[0] == t2.take(first_nl(t2)));
            assert(d2[0].take(c) =~= d[0].take(c));
        }
    } else {
        // both texts share the first line and its newline
        assert(d.len() >= 2);
        assert(first_nl(t) < t.len()) by {
            if first_nl(t) >= t.len() {
                assert(d.len() == 1);
            }
        }
        let i = first_nl(t);
        assert(d == seq![t.take(i)] + split_text(t.skip(i + 1)));
        assert(d[0] == t.take(i));
        assert(d.drop_first() =~~= split_text(t.skip(i + 1)));
        lemma_line_start_shift(d, l);
        assert(line_start(d, l) == i + 1 + line_start(split_text(t.skip(i + 1)), l - 1));
        crate::doctext::lemma_line_start_nonneg(split_text(t.skip(i + 1)), l - 1);
        assert(p >= i + 1);
        // t2 has the same first newline
        assert forall|j: int| 0 <= j <= i implies t2[j] == t[j] by {
            assert(t.take(p)[j] == t[j]);
            assert(t2.take(p)[j] == t2[j]);
        }
        lemma_first_nl_is(t2, i);
        assert(first_nl(t2) == i);
        assert(d2 == seq![t2.take(i)] + split_text(t2.skip(i + 1)));
        let r1 = t.skip(i + 1);
        let r2 = t2.skip(i + 1);
        assert(split_text(t.skip(i + 1))[l - 1] == d[l]) by {
            assert(d.drop_first()[l - 1] == d[l]);
        }
        assert forall|k: int| 0 <= k < p - (i + 1) implies r1[k] == r2[k] by {
            assert(t.take(p)[i + 1 + k] == t[i + 1 + k]);
            assert(t2.take(p)[i + 1 + k] == t2[i + 1 + k]);
        }
        assert(r1.take(p - (i + 1)) =~= r2.take(p - (i + 1)));
        lemma_coords_stable(r1, r2, l - 1, c);
        assert(d2.drop_first() =~~= split_text(r2));
        assert(d2[l] == split_text(r2)[l - 1]) by {
            assert(d2.drop_first()[l - 1] == d2[l]);
        }
        lemma_line_start_shift(d2, l);
    }
}

/// A single ASCII byte is a valid UTF-8 sequence.
pub proof fn lemma_ascii_byte_valid(b: u8)
    requires
        b < 0x80,
    ensures
        valid_utf8(seq![b]),
{
    let s = seq![b];
    assert(valid_first_scalar(s));
    assert(vstd::utf8::length_of_first_scalar(s) == 1);
    assert(vstd::utf8::pop_first_scalar(s) =~= Seq::<u8>::empty());
    assert(valid_utf8(Seq::<u8>::empty()));
}

/// The joined text of well-formed lines is valid UTF-8.
pub proof fn lemma_text_valid(d: Seq<Seq<u8>>)
    requires
        lines_wf(d),
    ensures
        valid_utf8(join(d)),
    decreases d.len(),
{
    if d.len() == 0 {
    } else if d.len() == 1 {
        assert(line_wf(d[0]));
    } else {
        assert(line_wf(d[0]));
        lemma_ascii_byte_valid(10u8);
        assert(lines_wf(d.drop_first())) by {
            assert(forall|i: int|
                0 <= i < d.drop_first().len() ==> #[trigger] d.drop_first()[i] == d[i + 1]);
        }
        lemma_text_valid(d.drop_first());
        valid_utf8_concat(d[0], seq![10u8]);
        valid_utf8_concat(d[0] + seq![10u8], join(d.drop_first()));
        assert((d[0] + seq![10u8]) + join(d.drop_first()) =~= d[0] + seq![10u8] + join(
            d.drop_first(),
        ));
    }
}

/// The separator after a line that is not the last is a newline byte.
pub proof fn lemma_join_sep(d: Seq<Seq<u8>>, l: int)
    requires
        0 <= l < d.len() - 1,
    ensures
        line_start(d, l) + d[l].len() < join(d).len(),
        join(d)[line_start(d, l) + d[l].len()] == 10u8,
{
    lemma_join_parts(d, l);
}

/// The document ends where its last line ends.
pub proof fn lemma_join_end(d: Seq<Seq<u8>>)
    requires
        d.len() >= 1,
    ensures
        join(d).len() == line_start(d, d.len() - 1) + d[d.len() - 1].len(),
{
    lemma_join_parts(d, d.len() - 1);
}

/// A position within a line is a character boundary of the joined text
/// exactly when it is one of the line.
pub proof fn lemma_line_boundary(d: Seq<Seq<u8>>, l: int, j: int)
    requires
        lines_wf(d),
        0 <= l < d.len(),
        0 <= j <= d[l].len(),
    ensures
        line_start(d, l) + j <= join(d).len(),
        is_char_boundary(join(d), line_start(d, l) + j) <==> is_char_boundary(d[l], j),
{
    lemma_join_parts(d, l);
    lemma_text_valid(d);
    let p = line_start(d, l) + j;
    let t = join(d);
    assert(line_wf(d[l]));
    if j < d[l].len() {
        assert(t[p] == d[l][j]);
        is_char_boundary_iff_not_is_continuation_byte(t, p);
        is_char_boundary_iff_not_is_continuation_byte(d[l], j);
    } else {
        is_char_boundary_start_end_of_seq(d[l]);
        if l == d.len() - 1 {
            is_char_boundary_start_end_of_seq(t);
        } else {
            lemma_join_sep(d, l);
            is_char_boundary_iff_not_is_continuation_byte(t, p);
        }
    }
}

} // verus!
