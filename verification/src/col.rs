//! Visual columns: the column reached after laying out a byte sequence
//! with tabs expanded to the next tab stop, every other character one
//! column wide.

use vstd::prelude::*;
use vstd::utf8::{
    is_char_boundary, length_of_first_scalar, valid_first_scalar, valid_utf8,
};

verus! {

/// The widest value a column can take in memory.
pub open spec fn col_clamp(v: int) -> int {
    if v <= usize::MAX as int {
        v
    } else {
        usize::MAX as int
    }
}

/// The column after one character whose encoding starts with byte `b`:
/// a tab rounds up to the next multiple of `tab`, anything else adds one.
pub open spec fn col_step(col: int, b: u8, tab: int) -> int {
    if b == 9u8 {
        col - col % tab + tab
    } else {
        col + 1
    }
}

/// The encoded width a leading byte announces.
pub open spec fn scalar_class(b: u8) -> int {
    if b < 0x80 {
        1
    } else if b < 0xe0 {
        2
    } else if b < 0xf0 {
        3
    } else {
        4
    }
}

/// The column after laying out all of `s`, starting at column `col`.
pub open spec fn col_from(s: Seq<u8>, tab: int, col: int) -> int
    decreases s.len(),
{
    if s.len() == 0 {
        col
    } else {
        let k = scalar_class(s[0]);
        let k2 = if k <= s.len() {
            k
        } else {
            s.len() as int
        };
        col_from(s.skip(k2), tab, col_step(col, s[0], tab))
    }
}

/// The column after laying out all of `s` from the left margin.
pub open spec fn col_of(s: Seq<u8>, tab: int) -> int {
    col_from(s, tab, 0)
}

/// One layout step moves the column right by one to `tab` places.
pub proof fn lemma_col_step_ge(col: int, b: u8, tab: int)
    requires
        0 <= col,
        1 <= tab,
    ensures
        col < col_step(col, b, tab) <= col + tab,
{
    if b == 9u8 {
        assert(0 <= col % tab < tab) by (nonlinear_arith)
            requires
                0 <= col && 1 <= tab,
        ;
    }
}

/// The leading byte of a well-formed scalar announces its actual width.
pub proof fn lemma_scalar_class(s: Seq<u8>)
    requires
        valid_utf8(s),
        s.len() > 0,
    ensures
        scalar_class(s[0]) == length_of_first_scalar(s),
{
    assert(valid_first_scalar(s));
}

/// Laying out a concatenation lays out the head, then the tail from the
/// column the head reached.
pub proof fn lemma_col_concat(a: Seq<u8>, b: Seq<u8>, tab: int, col: int)
    requires
        valid_utf8(a),
    ensures
        col_from(a + b, tab, col) == col_from(b, tab, col_from(a, tab, col)),
    decreases a.len(),
{
    if a.len() == 0 {
        assert(a + b =~= b);
    } else {
        lemma_scalar_class(a);
        crate::unicode::lemma_first_scalar_decodes(a);
        let k = length_of_first_scalar(a);
        assert((a + b)[0] == a[0]);
        assert(scalar_class((a + b)[0]) == k);
        assert(k <= (a + b).len());
        assert((a + b).skip(k) =~= a.skip(k) + b);
        assert(a.skip(k) =~= vstd::utf8::pop_first_scalar(a));
        lemma_col_concat(a.skip(k), b, tab, col_step(col, a[0], tab));
        assert(col_from(a, tab, col) == col_from(a.skip(k), tab, col_step(col, a[0], tab)))
            by {
            assert(k <= a.len());
        }
    }
}

/// A run of spaces.
pub open spec fn spaces(n: int) -> Seq<u8> {
    Seq::new(
        if n >= 0 {
            n as nat
        } else {
            0
        },
        |i: int| 32u8,
    )
}

/// The bytes laid out from column `col`: tabs become the spaces that
/// reach the next tab stop, other characters keep their own bytes.
pub open spec fn expand_from(s: Seq<u8>, tab: int, col: int) -> Seq<u8>
    decreases s.len(),
{
    if s.len() == 0 {
        Seq::empty()
    } else {
        let k = scalar_class(s[0]);
        let k2 = if k <= s.len() {
            k
        } else {
            s.len() as int
        };
        if s[0] == 9u8 {
            spaces(col_step(col, 9u8, tab) - col) + expand_from(
                s.skip(k2),
                tab,
                col_step(col, s[0], tab),
            )
        } else {
            s.subrange(0, k2) + expand_from(s.skip(k2), tab, col_step(col, s[0], tab))
        }
    }
}

/// Laying out a concatenation expands the head, then the tail from the
/// column the head reached.
pub proof fn lemma_expand_concat(a: Seq<u8>, b: Seq<u8>, tab: int, col: int)
    requires
        valid_utf8(a),
    ensures
        expand_from(a + b, tab, col) == expand_from(a, tab, col) + expand_from(
            b,
            tab,
            col_from(a, tab, col),
        ),
    decreases a.len(),
{
    if a.len() == 0 {
        assert(a + b =~= b);
        assert(expand_from(a, tab, col) + expand_from(b, tab, col) =~= expand_from(
            b,
            tab,
            col,
        ));
    } else {
        lemma_scalar_class(a);
        crate::unicode::lemma_first_scalar_decodes(a);
        let k = length_of_first_scalar(a);
        assert((a + b)[0] == a[0]);
        assert(scalar_class((a + b)[0]) == k);
        assert(k <= (a + b).len());
        assert((a + b).skip(k) =~= a.skip(k) + b);
        assert(a.skip(k) =~= vstd::utf8::pop_first_scalar(a));
        lemma_expand_concat(a.skip(k), b, tab, col_step(col, a[0], tab));
        if a[0] == 9u8 {
            assert(spaces(col_step(col, 9u8, tab) - col) + (expand_from(
                a.skip(k),
                tab,
                col_step(col, a[0], tab),
            ) + expand_from(b, tab, col_from(a, tab, col))) =~= (spaces(
                col_step(col, 9u8, tab) - col,
            ) + expand_from(a.skip(k), tab, col_step(col, a[0], tab))) + expand_from(
                b,
                tab,
                col_from(a, tab, col),
            ));
        } else {
            assert((a + b).subrange(0, k) =~= a.subrange(0, k));
            assert(a.subrange(0, k) + (expand_from(a.skip(k), tab, col_step(col, a[0], tab))
                + expand_from(b, tab, col_from(a, tab, col))) =~= (a.subrange(0, k)
                + expand_from(a.skip(k), tab, col_step(col, a[0], tab))) + expand_from(
                b,
                tab,
                col_from(a, tab, col),
            ));
        }
    }
}

/// Appends the bytes laid out from the left margin, tabs expanded.
#[verifier::rlimit(100)]
pub fn push_expanded(out: &mut Vec<u8>, s: &[u8], tab: usize)
    requires
        valid_utf8(s@),
        tab >= 1,
    ensures
        final(out)@ == old(out)@ + expand_from(s@, tab as int, 0),
{
    let mut col: u128 = 0;
    let mut i: usize = 0;
    proof {
        vstd::utf8::is_char_boundary_start_end_of_seq(s@);
        assert(s@.take(0) =~= Seq::<u8>::empty());
        assert(out@ =~= old(out)@ + expand_from(s@.take(0), tab as int, 0));
    }
    while i < s.len()
        invariant
            valid_utf8(s@),
            1 <= tab,
            i <= s@.len(),
            is_char_boundary(s@, i as int),
            col == crate::col::col_from(s@.take(i as int), tab as int, 0),
            col <= (tab as u128) * (i as u128),
            out@ == old(out)@ + expand_from(s@.take(i as int), tab as int, 0),
        decreases s@.len() - i,
    {
        let b = s[i];
        let k: usize = if b < 0x80 {
            1
        } else if b < 0xe0 {
            2
        } else if b < 0xf0 {
            3
        } else {
            4
        };
        proof {
            crate::unicode::lemma_next_boundary(s@, i as int);
            vstd::utf8::valid_utf8_split(s@, i as int);
            lemma_scalar_class(s@.subrange(i as int, s@.len() as int));
            assert(s@.subrange(i as int, s@.len() as int)[0] == b);
        }
        let ghost old_col = col as int;
        let ghost pre = s@.take(i as int);
        let ghost ch = s@.subrange(i as int, i + k);
        proof {
            assert(s@.take(i + k) =~= pre + ch);
            lemma_col_concat(pre, ch, tab as int, 0int);
            lemma_expand_concat(pre, ch, tab as int, 0int);
            assert(ch[0] == b);
            assert(ch.len() == k && scalar_class(ch[0]) == k);
            assert(ch.skip(k as int) =~= Seq::<u8>::empty());
            assert(crate::col::col_from(ch, tab as int, old_col) == crate::col::col_from(
                ch.skip(k as int),
                tab as int,
                col_step(old_col, ch[0], tab as int),
            ));
            assert(crate::col::col_from(
                Seq::<u8>::empty(),
                tab as int,
                col_step(old_col, b, tab as int),
            ) == col_step(old_col, b, tab as int));
            assert(crate::col::col_from(ch, tab as int, old_col) == col_step(
                old_col,
                b,
                tab as int,
            ));
            assert(expand_from(Seq::<u8>::empty(), tab as int, col_step(
                old_col,
                b,
                tab as int,
            )) =~= Seq::<u8>::empty());
            assert(expand_from(ch, tab as int, old_col) == if ch[0] == 9u8 {
                spaces(col_step(old_col, 9u8, tab as int) - old_col) + expand_from(
                    ch.skip(k as int),
                    tab as int,
                    col_step(old_col, ch[0], tab as int),
                )
            } else {
                ch.subrange(0, k as int) + expand_from(
                    ch.skip(k as int),
                    tab as int,
                    col_step(old_col, ch[0], tab as int),
                )
            });
            assert(expand_from(ch, tab as int, old_col) =~= if b == 9u8 {
                spaces(col_step(old_col, 9u8, tab as int) - old_col)
            } else {
                ch.subrange(0, k as int)
            });
            assert(i as u128 + 1 <= u128::MAX);
            assert((tab as u128) * (i as u128) + tab as u128 == (tab as u128) * (i as u128
                + 1)) by (nonlinear_arith);
            assert((tab as int) * (i as int + 1) < u128::MAX) by (nonlinear_arith)
                requires
                    0 <= tab as int <= 0xffffffffffffffffint,
                    0 <= i as int,
                    i as int + 1 <= 0x10000000000000000int,
            ;
            assert(col as int + tab as int <= (tab as int) * (i as int + 1))
                by (nonlinear_arith)
                requires
                    col as int <= (tab as int) * (i as int),
                    0 <= i as int,
                    1 <= tab as int,
            ;
        }
        if b == 9 {
            let pad128: u128 = tab as u128 - col % (tab as u128);
            proof {
                assert(0 <= col % (tab as u128) < tab as u128) by (nonlinear_arith)
                    requires
                        1 <= tab as u128,
                ;
                assert(col % (tab as u128) == old_col % (tab as int));
                assert(col_step(old_col, 9u8, tab as int) - old_col == pad128);
            }
            let pad: usize = pad128 as usize;
            let mut j: usize = 0;
            let ghost out_mid = out@;
            while j < pad
                invariant
                    j <= pad,
                    out@ == out_mid + spaces(j as int),
                decreases pad - j,
            {
                out.push(32u8);
                proof {
                    assert(out@ =~= out_mid + spaces(j + 1));
                }
                j = j + 1;
            }
            col = col + pad128;
        } else {
            let chunk = vstd::slice::slice_subrange(s, i, i + k);
            out.extend_from_slice(chunk);
            proof {
                assert(chunk@ =~= ch.subrange(0, k as int));
            }
            col = col + 1;
        }
        proof {
            assert(out@ =~= old(out)@ + expand_from(s@.take(i + k), tab as int, 0));
            assert((tab as int) * (i as int + 1) <= (tab as int) * (i as int + k as int))
                by (nonlinear_arith)
                requires
                    1 <= k as int,
                    1 <= tab as int,
                    0 <= i as int,
            ;
        }
        i = i + k;
    }
    proof {
        assert(s@.take(s@.len() as int) =~= s@);
    }
}

/// The longest run of blanks (spaces and tabs) that starts the bytes.
pub open spec fn leading_ws(s: Seq<u8>) -> Seq<u8>
    decreases s.len(),
{
    if s.len() > 0 && (s[0] == 32u8 || s[0] == 9u8) {
        seq![s[0]] + leading_ws(s.drop_first())
    } else {
        Seq::empty()
    }
}

/// If the first `j` bytes are blanks and the next one is not, the leading
/// run of blanks is exactly those `j` bytes.
pub proof fn lemma_leading_ws_is(s: Seq<u8>, j: int)
    requires
        0 <= j <= s.len(),
        forall|m: int| 0 <= m < j ==> s[m] == 32u8 || s[m] == 9u8,
        j < s.len() ==> !(s[j] == 32u8 || s[j] == 9u8),
    ensures
        leading_ws(s) == s.take(j),
    decreases s.len(),
{
    if j == 0 {
        if s.len() > 0 && (s[0] == 32u8 || s[0] == 9u8) {
            assert(false);
        }
        assert(s.take(0) =~= Seq::<u8>::empty());
    } else {
        assert(s[0] == 32u8 || s[0] == 9u8);
        let s2 = s.drop_first();
        assert(forall|m: int| 0 <= m < j - 1 ==> #[trigger] s2[m] == s[m + 1]);
        assert(j - 1 < s2.len() ==> s2[j - 1] == s[j]);
        lemma_leading_ws_is(s2, j - 1);
        assert(leading_ws(s) == seq![s[0]] + s2.take(j - 1));
        assert(seq![s[0]] + s2.take(j - 1) =~= s.take(j));
    }
}

/// Lays out the bytes and returns the column reached, held at the largest
/// value the machine can represent if it would pass it.
pub fn col_scan(s: &[u8], tab: usize) -> (r: usize)
    requires
        valid_utf8(s@),
        tab >= 1,
    ensures
        r == col_clamp(col_of(s@, tab as int)),
{
    let mut col: usize = 0;
    let ghost mut colx: int = 0int;
    let mut i: usize = 0;
    proof {
        vstd::utf8::is_char_boundary_start_end_of_seq(s@);
        assert(s@.take(0) =~= Seq::<u8>::empty());
    }
    while i < s.len()
        invariant
            valid_utf8(s@),
            tab >= 1,
            i <= s@.len(),
            is_char_boundary(s@, i as int),
            0 <= colx,
            colx == col_of(s@.take(i as int), tab as int),
            col == col_clamp(colx),
        decreases s@.len() - i,
    {
        let b = s[i];
        let k: usize = if b < 0x80 {
            1
        } else if b < 0xe0 {
            2
        } else if b < 0xf0 {
            3
        } else {
            4
        };
        proof {
            crate::unicode::lemma_next_boundary(s@, i as int);
            vstd::utf8::valid_utf8_split(s@, i as int);
            lemma_scalar_class(s@.subrange(i as int, s@.len() as int));
            assert(s@.subrange(i as int, s@.len() as int)[0] == b);
            assert(k == length_of_first_scalar(s@.subrange(i as int, s@.len() as int)));
        }
        let inc: usize = if b == 9 {
            tab - col % tab
        } else {
            1
        };
        let ghost old_colx = colx;
        let ghost old_col = col;
        if col > usize::MAX - inc {
            col = usize::MAX;
        } else {
            col = col + inc;
        }
        proof {
            colx = col_step(colx, b, tab as int);
            lemma_col_step_ge(old_colx, b, tab as int);
            assert(col == col_clamp(colx)) by {
                if old_colx <= usize::MAX as int {
                    assert(old_col == old_colx);
                    if b == 9u8 {
                        assert(0 <= old_colx % (tab as int) < tab as int) by (nonlinear_arith)
                            requires
                                0 <= old_colx && 1 <= tab as int,
                        ;
                        assert(old_col % tab == old_colx % (tab as int));
                        assert(inc == tab - old_colx % (tab as int));
                        assert(colx == old_colx + inc);
                    } else {
                        assert(colx == old_colx + 1);
                    }
                } else {
                    assert(old_col == usize::MAX);
                    assert(colx > usize::MAX as int);
                    assert(col == usize::MAX);
                }
            }
            // the scanned prefix grew by one character
            assert(colx == col_of(s@.take(i + k), tab as int)) by {
                let pre = s@.take(i as int);
                let ch = s@.subrange(i as int, i + k);
                assert(s@.take(i + k) =~= pre + ch);
                lemma_col_concat(pre, ch, tab as int, 0int);
                assert(ch[0] == b);
                assert(scalar_class(ch[0]) == k) by {
                    lemma_scalar_class(s@.subrange(i as int, s@.len() as int));
                }
                assert(col_from(ch, tab as int, old_colx) == col_step(
                    old_colx,
                    b,
                    tab as int,
                )) by {
                    assert(ch.len() == k);
                    assert(ch.skip(k as int) =~= Seq::<u8>::empty());
                    assert(col_from(ch, tab as int, old_colx) == col_from(
                        ch.skip(k as int),
                        tab as int,
                        col_step(old_colx, ch[0], tab as int),
                    ));
                    assert(col_from(Seq::<u8>::empty(), tab as int, col_step(
                        old_colx,
                        b,
                        tab as int,
                    )) == col_step(old_colx, b, tab as int));
                }
            }
        }
        i = i + k;
    }
    proof {
        assert(s@.take(s@.len() as int) =~= s@);
    }
    col
}

} // verus!
