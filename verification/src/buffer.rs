//! The document buffer: an ordered, never-empty sequence of lines and a
//! cursor given as a line index and a byte offset on a character boundary.
//!
//! Contracts speak of two views of the same state: the per-line view
//! (`lines_view`, `cursor_line`, `cursor_char`) and the flat text view
//! (`text`, the lines joined by newline bytes, with the cursor at byte
//! offset `cur`).

use std::rc::Rc;
use vstd::prelude::*;
use vstd::utf8::{is_char_boundary, is_char_boundary_start_end_of_seq, valid_utf8, valid_utf8_split};
use crate::doctext::{
    join, join_after, join_before, lemma_join_cons, lemma_join_end,
    lemma_join_parts, lemma_join_sep, lemma_line_boundary, lemma_line_start_congruent,
    lemma_text_valid, line_start, lines_wf,
};
use crate::line::Line;
use crate::unicode::{
    char_bytes, decode_char_at, encode_char, lemma_boundary_of_valid_prefix,
    lemma_char_bytes_newline, lemma_char_bytes_valid, lemma_line_wf_subrange, line_wf,
};

verus! {

/// A document: lines and a cursor.
pub struct Buffer {
    lines: Vec<Line>,
    line_idx: usize,
    char_idx: usize,
}

impl Buffer {
    /// The text of each line.
    pub closed spec fn lines_view(&self) -> Seq<Seq<u8>> {
        self.lines@.map_values(|l: Line| l@)
    }

    /// The line the cursor is on.
    pub closed spec fn cursor_line(&self) -> int {
        self.line_idx as int
    }

    /// The byte offset of the cursor within its line.
    pub closed spec fn cursor_char(&self) -> int {
        self.char_idx as int
    }

    pub closed spec fn lines_ok(&self) -> bool {
        forall|i: int| 0 <= i < self.lines@.len() ==> (#[trigger] self.lines@[i]).wf()
    }

    /// The whole document as flat text.
    pub open spec fn text(&self) -> Seq<u8> {
        join(self.lines_view())
    }

    /// The cursor as a byte offset into the flat text.
    pub open spec fn cur(&self) -> int {
        line_start(self.lines_view(), self.cursor_line()) + self.cursor_char()
    }

    /// The text of the line the cursor is on.
    pub open spec fn cur_line(&self) -> Seq<u8> {
        self.lines_view()[self.cursor_line()]
    }

    /// The buffer invariant: at least one line, every line valid UTF-8 with
    /// no embedded newline, and the cursor on a character boundary of an
    /// existing line.
    pub open spec fn wf(&self) -> bool {
        &&& self.lines_ok()
        &&& 1 <= self.lines_view().len()
        &&& lines_wf(self.lines_view())
        &&& 0 <= self.cursor_line() < self.lines_view().len()
        &&& 0 <= self.cursor_char() <= self.cur_line().len()
        &&& is_char_boundary(self.cur_line(), self.cursor_char())
    }

    /// A well-formed buffer has valid flat text with the cursor on one of
    /// its character boundaries.
    pub proof fn lemma_text_facts(&self)
        requires
            self.wf(),
        ensures
            valid_utf8(self.text()),
            0 <= self.cur() <= self.text().len(),
            is_char_boundary(self.text(), self.cur()),
    {
        lemma_text_valid(self.lines_view());
        lemma_line_boundary(self.lines_view(), self.cursor_line(), self.cursor_char());
        crate::doctext::lemma_line_start_nonneg(self.lines_view(), self.cursor_line());
    }

    /// Saving and loading round-trip the document: a well-formed buffer's
    /// flat text is valid UTF-8, so `from_blob` accepts it, and splitting
    /// it at newlines gives back exactly the lines that were saved.
    pub proof fn lemma_save_load_round_trip(&self)
        requires
            self.wf(),
        ensures
            valid_utf8(self.text()),
            crate::doctext::split_text(self.text()) == self.lines_view(),
            crate::doctext::join(crate::doctext::split_text(self.text())) == self.text(),
    {
        self.lemma_text_facts();
        self.lemma_split_view();
    }

    /// The per-line view is the split of the flat text: the two views of a
    /// well-formed buffer carry the same information.
    pub proof fn lemma_split_view(&self)
        requires
            self.wf(),
        ensures
            crate::doctext::split_text(self.text()) == self.lines_view(),
    {
        crate::doctext::lemma_split_join(self.lines_view());
    }

    /// The line the cursor is on.
    pub fn line_idx(&self) -> (r: usize)
        ensures
            r == self.cursor_line(),
    {
        self.line_idx
    }

    /// The cursor's byte offset within its line.
    pub fn char_idx(&self) -> (r: usize)
        ensures
            r == self.cursor_char(),
    {
        self.char_idx
    }

    /// The number of lines.
    pub fn num_lines(&self) -> (r: usize)
        ensures
            r == self.lines_view().len(),
    {
        self.lines.len()
    }

    /// The text of the line the cursor is on.
    pub fn line(&self) -> (r: &[u8])
        requires
            self.wf(),
        ensures
            r@ == self.cur_line(),
    {
        self.lines[self.line_idx].as_str()
    }

    /// The text of any line.
    pub fn line_at(&self, l: usize) -> (r: &[u8])
        requires
            self.wf(),
            l < self.lines_view().len(),
        ensures
            r@ == self.lines_view()[l as int],
    {
        self.lines[l].as_str()
    }

    /// The current line's text before the cursor.
    pub fn line_left(&self) -> (r: &[u8])
        requires
            self.wf(),
        ensures
            r@ == self.cur_line().take(self.cursor_char()),
    {
        let s = self.lines[self.line_idx].as_str();
        vstd::slice::slice_subrange(s, 0, self.char_idx)
    }

    /// The current line's text from the cursor on.
    pub fn line_right(&self) -> (r: &[u8])
        requires
            self.wf(),
        ensures
            r@ == self.cur_line().skip(self.cursor_char()),
    {
        let s = self.lines[self.line_idx].as_str();
        vstd::slice::slice_subrange(s, self.char_idx, s.len())
    }

    /// Moves the cursor to the given line and byte offset, which must be a
    /// character boundary of that line.
    pub fn move_to(&mut self, line_idx: usize, char_idx: usize)
        requires
            old(self).wf(),
            line_idx < old(self).lines_view().len(),
            char_idx <= old(self).lines_view()[line_idx as int].len(),
            is_char_boundary(old(self).lines_view()[line_idx as int], char_idx as int),
        ensures
            final(self).wf(),
            final(self).lines_view() == old(self).lines_view(),
            final(self).cursor_line() == line_idx,
            final(self).cursor_char() == char_idx,
    {
        self.line_idx = line_idx;
        self.char_idx = char_idx;
    }

    /// Inserts one character at the cursor. A newline splits the current
    /// line and leaves the cursor at the start of the new line; any other
    /// character is inserted into the line and the cursor advances past it.
    /// In flat text both amount to inserting the character's bytes at the
    /// cursor offset.
    #[verifier::rlimit(50)]
    pub fn insert_char(&mut self, ch: char)
        requires
            old(self).wf(),
        ensures
            final(self).wf(),
            final(self).text() == old(self).text().take(old(self).cur()) + char_bytes(ch)
                + old(self).text().skip(old(self).cur()),
            final(self).cur() == old(self).cur() + char_bytes(ch).len(),
            ch != '\n' ==> {
                &&& final(self).lines_view() == old(self).lines_view().update(
                    old(self).cursor_line(),
                    old(self).cur_line().take(old(self).cursor_char()) + char_bytes(ch)
                        + old(self).cur_line().skip(old(self).cursor_char()),
                )
                &&& final(self).cursor_line() == old(self).cursor_line()
                &&& final(self).cursor_char() == old(self).cursor_char() + char_bytes(
                    ch,
                ).len()
            },
            ch == '\n' ==> {
                &&& final(self).lines_view() == old(self).lines_view().update(
                    old(self).cursor_line(),
                    old(self).cur_line().take(old(self).cursor_char()),
                ).insert(
                    old(self).cursor_line() + 1,
                    old(self).cur_line().skip(old(self).cursor_char()),
                )
                &&& final(self).cursor_line() == old(self).cursor_line() + 1
                &&& final(self).cursor_char() == 0
            },
    {
        let ghost d = self.lines_view();
        let ghost l = self.cursor_line();
        let ghost c = self.cursor_char();
        let ghost x = self.cur_line();
        proof {
            lemma_join_parts(d, l);
            lemma_char_bytes_valid(ch);
            lemma_char_bytes_newline(ch);
            valid_utf8_split(x, c);
        }
        if ch == '\n' {
            let li = self.line_idx;
            let ci = self.char_idx;
            let left = self.lines[li].copy_range(0, ci);
            let line_len = self.lines[li].len();
            let right = self.lines[li].copy_range(ci, line_len);
            {
                let elem = &mut self.lines[li];
                *elem = Line::new_owned(left);
            }
            proof {
                vstd::std_specs::vec::axiom_spec_len(&self.lines);
            }
            self.lines.insert(li + 1, Line::new_owned(right));
            self.line_idx = li + 1;
            self.char_idx = 0;
            proof {
                let d2 = self.lines_view();
                assert(d2 =~~= d.update(l, x.take(c)).insert(l + 1, x.skip(c)));
                assert(x.subrange(0, c) == x.take(c));
                assert(x.subrange(c, x.len() as int) == x.skip(c));
                // the new lines are well formed
                assert(line_wf(x.take(c)) && line_wf(x.skip(c))) by {
                    crate::unicode::lemma_line_wf_split(x, c);
                }
                assert(lines_wf(d2)) by {
                    assert(forall|i: int|
                        0 <= i < d2.len() && i != l && i != l + 1 ==> #[trigger] d2[i]
                            == if i < l {
                            d[i]
                        } else {
                            d[i - 1]
                        });
                }
                // cursor wf
                assert(is_char_boundary(d2[l + 1], 0)) by {
                    is_char_boundary_start_end_of_seq(x.skip(c));
                }
                // text equality
                assert(d2.subrange(0, l) =~~= d.subrange(0, l));
                lemma_join_parts(d2, l);
                lemma_line_start_congruent(d2, d, l);
                assert(join_before(d2, l) == join_before(d, l));
                let b = join_before(d, l);
                let a = join_after(d, l);
                assert(join_after(d2, l) == seq![10u8] + (x.skip(c) + a)) by {
                    assert(l < d2.len() - 1);
                    let rest = d2.subrange(l + 1, d2.len() as int);
                    assert(rest =~~= seq![x.skip(c)] + d.subrange(l + 1, d.len() as int));
                    lemma_join_cons(x.skip(c), d.subrange(l + 1, d.len() as int));
                    if l == d.len() - 1 {
                        assert(d.subrange(l + 1, d.len() as int).len() == 0);
                        assert(join(rest) == x.skip(c));
                        assert(a =~= Seq::<u8>::empty());
                        assert(x.skip(c) + a =~= x.skip(c));
                    } else {
                        assert(join(rest) == x.skip(c) + seq![10u8] + join(
                            d.subrange(l + 1, d.len() as int),
                        ));
                        assert(x.skip(c) + (seq![10u8] + join(
                            d.subrange(l + 1, d.len() as int),
                        )) =~= x.skip(c) + seq![10u8] + join(d.subrange(l + 1, d.len() as int)));
                        assert(x.skip(c) + a =~= x.skip(c) + seq![10u8] + join(
                            d.subrange(l + 1, d.len() as int),
                        ));
                    }
                }
                assert(self.text() =~= b + x.take(c) + seq![10u8] + (x.skip(c) + a)) by {
                    assert(join(d2) == join_before(d2, l) + d2[l] + join_after(d2, l));
                    assert(d2[l] == x.take(c));
                    assert(b + x.take(c) + (seq![10u8] + (x.skip(c) + a)) =~= b + x.take(c)
                        + seq![10u8] + (x.skip(c) + a));
                }
                assert(old(self).text().take(old(self).cur()) =~= b + x.take(c));
                assert(old(self).text().skip(old(self).cur()) =~= x.skip(c) + a);
                assert(self.text() =~= old(self).text().take(old(self).cur()) + char_bytes(ch)
                    + old(self).text().skip(old(self).cur()));
                // cursor offset
                assert(line_start(d2, l + 1) == line_start(d2, l) + d2[l].len() + 1);
                assert(line_start(d2, l) == line_start(d, l)) by {
                    lemma_line_start_congruent(d2, d, l);
                }
                assert(self.cur() == old(self).cur() + 1);
            }
        } else {
            let enc = encode_char(ch);
            let li = self.line_idx;
            let ci = self.char_idx;
            {
                let elem = &mut self.lines[li];
                elem.insert_bytes(ci, enc.as_slice());
            }
            let ghost x2 = x.take(c) + char_bytes(ch) + x.skip(c);
            proof {
                assert(x.subrange(0, c) == x.take(c));
                assert(x.subrange(c, x.len() as int) == x.skip(c));
                assert(self.lines@[l]@ == x2);
            }
            let new_len = self.lines[li].len();
            assert(ci + enc@.len() <= new_len);
            self.char_idx = ci + enc.len();
            proof {
                let d2 = self.lines_view();
                assert(d2 =~~= d.update(l, x2));
                // the updated line is well formed
                assert(line_wf(x2)) by {
                    crate::unicode::lemma_line_wf_split(x, c);
                    crate::unicode::lemma_line_wf_concat(x.take(c), char_bytes(ch));
                    assert(line_wf(char_bytes(ch)));
                    crate::unicode::lemma_line_wf_concat(x.take(c) + char_bytes(ch), x.skip(c));
                }
                assert(lines_wf(d2)) by {
                    assert(forall|i: int|
                        0 <= i < d2.len() && i != l ==> #[trigger] d2[i] == d[i]);
                }
                // cursor on a boundary of the updated line
                assert(is_char_boundary(x2, c + char_bytes(ch).len())) by {
                    assert(x2.subrange(0, c + char_bytes(ch).len()) =~= x.take(c) + char_bytes(
                        ch,
                    ));
                    crate::unicode::lemma_line_wf_concat(x.take(c), char_bytes(ch));
                    lemma_boundary_of_valid_prefix(x2, c + char_bytes(ch).len());
                }
                // text equality
                lemma_join_parts(d2, l);
                lemma_line_start_congruent(d2, d, l);
                assert(d2.subrange(0, l) =~~= d.subrange(0, l));
                assert(join_before(d2, l) == join_before(d, l));
                assert(join_after(d2, l) == join_after(d, l)) by {
                    if l < d.len() - 1 {
                        assert(d2.subrange(l + 1, d2.len() as int) =~~= d.subrange(
                            l + 1,
                            d.len() as int,
                        ));
                    }
                }
                let b = join_before(d, l);
                let a = join_after(d, l);
                assert(self.text() == b + x2 + a);
                assert(old(self).text().take(old(self).cur()) =~= b + x.take(c));
                assert(old(self).text().skip(old(self).cur()) =~= x.skip(c) + a);
                assert(self.text() =~= old(self).text().take(old(self).cur()) + char_bytes(ch)
                    + old(self).text().skip(old(self).cur()));
                assert(self.cur() == old(self).cur() + char_bytes(ch).len());
            }
        }
    }
    /// Moves the cursor `num` characters to the right, crossing line ends
    /// (each of which counts as one character), stopping at the document's
    /// end.
    #[verifier::rlimit(50)]
    pub fn move_right(&mut self, num: usize)
        requires
            old(self).wf(),
        ensures
            final(self).wf(),
            final(self).lines_view() == old(self).lines_view(),
            final(self).cur() == crate::unicode::fwd_n(
                old(self).text(),
                old(self).cur(),
                num as nat,
            ),
    {
        let ghost t = self.text();
        let ghost cur0 = self.cur();
        let mut i: usize = 0;
        let mut done: bool = false;
        while i < num && !done
            invariant
                self.wf(),
                self.lines_view() == old(self).lines_view(),
                t == self.text(),
                cur0 == old(self).cur(),
                i <= num,
                self.cur() == crate::unicode::fwd_n(t, cur0, i as nat),
                done ==> self.cur() == t.len(),
            decreases num - i,
        {
            let ghost d = self.lines_view();
            let ghost l = self.cursor_line();
            let ghost c = self.cursor_char();
            let ghost x = self.cur_line();
            let ghost cur_i = self.cur();
            proof {
                lemma_join_parts(d, l);
            }
            let li = self.line_idx;
            let ci = self.char_idx;
            let n = self.lines.len();
            let line_len = self.lines[li].len();
            if ci < line_len {
                let (_ch, k) = {
                    let s = self.lines[li].as_str();
                    decode_char_at(s, ci)
                };
                self.char_idx = ci + k;
                proof {
                    assert(x.subrange(c, x.len() as int) == x.skip(c));
                    assert(t.skip(cur_i) =~= x.skip(c) + join_after(d, l));
                    valid_utf8_split(x, c);
                    crate::unicode::lemma_first_scalar_prefix(x.skip(c), join_after(d, l));
                    assert(t.subrange(cur_i, t.len() as int) == t.skip(cur_i));
                    assert(self.cur() == crate::unicode::next_cur(t, cur_i));
                }
            } else if li + 1 < n {
                self.line_idx = li + 1;
                self.char_idx = 0;
                proof {
                    lemma_join_sep(d, l);
                    assert(is_char_boundary(self.cur_line(), 0)) by {
                        is_char_boundary_start_end_of_seq(self.cur_line());
                    }
                    assert(line_start(d, l + 1) == line_start(d, l) + x.len() + 1);
                    assert(self.cur() == cur_i + 1);
                    assert(crate::unicode::next_cur(t, cur_i) == cur_i + 1) by {
                        let tail = t.subrange(cur_i, t.len() as int);
                        assert(tail[0] == 10u8);
                        assert(vstd::utf8::is_leading_byte_width_1(tail[0]));
                    }
                }
            } else {
                done = true;
                proof {
                    lemma_join_end(d);
                    assert(cur_i == t.len());
                }
            }
            i = i + 1;
            proof {
                crate::unicode::lemma_fwd_add(t, cur0, (i - 1) as nat, 1);
                assert(crate::unicode::fwd_n(t, self.cur(), 0) == self.cur());
                assert(crate::unicode::fwd_n(t, cur_i, 1) == crate::unicode::next_cur(
                    t,
                    cur_i,
                ));
                if done {
                    assert(crate::unicode::next_cur(t, cur_i) == cur_i);
                }
            }
        }
        proof {
            if i < num {
                crate::unicode::lemma_fwd_add(t, cur0, i as nat, (num - i) as nat);
                crate::unicode::lemma_fwd_at_end(t, (num - i) as nat);
            }
        }
    }

    /// Moves the cursor `num` characters to the left, crossing line ends
    /// (each of which counts as one character), stopping at the document's
    /// start.
    #[verifier::rlimit(50)]
    pub fn move_left(&mut self, num: usize)
        requires
            old(self).wf(),
        ensures
            final(self).wf(),
            final(self).lines_view() == old(self).lines_view(),
            final(self).cur() == crate::unicode::bwd_n(
                old(self).text(),
                old(self).cur(),
                num as nat,
            ),
    {
        let ghost t = self.text();
        let ghost cur0 = self.cur();
        let mut i: usize = 0;
        let mut done: bool = false;
        while i < num && !done
            invariant
                self.wf(),
                self.lines_view() == old(self).lines_view(),
                t == self.text(),
                cur0 == old(self).cur(),
                i <= num,
                self.cur() == crate::unicode::bwd_n(t, cur0, i as nat),
                done ==> self.cur() == 0,
            decreases num - i,
        {
            let ghost d = self.lines_view();
            let ghost l = self.cursor_line();
            let ghost c = self.cursor_char();
            let ghost x = self.cur_line();
            let ghost cur_i = self.cur();
            proof {
                lemma_join_parts(d, l);
                lemma_text_valid(d);
                crate::doctext::lemma_line_start_nonneg(d, l);
            }
            let li = self.line_idx;
            let ci = self.char_idx;
            if ci > 0 {
                let j = {
                    let s = self.lines[li].as_str();
                    crate::unicode::prev_char_start(s, ci)
                };
                self.char_idx = j;
                proof {
                    lemma_line_boundary(d, l, j as int);
                    assert(self.cur() == cur_i - (c - j));
                    assert(crate::unicode::prev_cur(t, cur_i) == self.cur()) by {
                        assert forall|m: int|
                            line_start(d, l) + j < m < cur_i implies !is_char_boundary(
                            t,
                            m,
                        ) by {
                            lemma_line_boundary(d, l, m - line_start(d, l));
                        }
                        crate::unicode::lemma_prev_cur_char(
                            t,
                            cur_i,
                            line_start(d, l) + j,
                        );
                    }
                }
            } else if li > 0 {
                let prev_len = self.lines[li - 1].len();
                self.line_idx = li - 1;
                self.char_idx = prev_len;
                proof {
                    let xp = d[l - 1];
                    assert(is_char_boundary(xp, xp.len() as int)) by {
                        is_char_boundary_start_end_of_seq(xp);
                    }
                    assert(line_start(d, l) == line_start(d, l - 1) + xp.len() + 1);
                    assert(self.cur() == cur_i - 1);
                    lemma_join_sep(d, l - 1);
                    crate::doctext::lemma_line_start_nonneg(d, l - 1);
                    assert(t[cur_i - 1] == 10u8);
                    assert(crate::unicode::prev_cur(t, cur_i) == cur_i - 1) by {
                        vstd::utf8::is_char_boundary_iff_not_is_continuation_byte(
                            t,
                            cur_i - 1,
                        );
                        crate::unicode::lemma_prev_cur_char(t, cur_i, cur_i - 1);
                    }
                }
            } else {
                done = true;
                proof {
                    assert(cur_i == 0);
                }
            }
            i = i + 1;
            proof {
                crate::unicode::lemma_bwd_add(t, cur0, (i - 1) as nat, 1);
                assert(crate::unicode::bwd_n(t, self.cur(), 0) == self.cur());
                assert(crate::unicode::bwd_n(t, cur_i, 1) == crate::unicode::bwd_n(
                    t,
                    crate::unicode::prev_cur(t, cur_i),
                    0,
                ));
                if done {
                    assert(crate::unicode::prev_cur(t, cur_i) == 0);
                }
            }
        }
        proof {
            if i < num {
                crate::unicode::lemma_bwd_add(t, cur0, i as nat, (num - i) as nat);
                crate::unicode::lemma_bwd_at_start(t, (num - i) as nat);
            }
        }
    }

    /// Inserts each character of the given UTF-8 text at the cursor in
    /// order; newlines split lines as `insert_char` does. In flat text the
    /// whole byte sequence is inserted at the cursor offset.
    #[verifier::rlimit(50)]
    pub fn insert_str(&mut self, data: &[u8])
        requires
            old(self).wf(),
            valid_utf8(data@),
        ensures
            final(self).wf(),
            final(self).text() == old(self).text().take(old(self).cur()) + data@ + old(
                self,
            ).text().skip(old(self).cur()),
            final(self).cur() == old(self).cur() + data@.len(),
    {
        let ghost t = self.text();
        let ghost cur0 = self.cur();
        let mut i: usize = 0;
        proof {
            self.lemma_text_facts();
            is_char_boundary_start_end_of_seq(data@);
            assert(t.take(cur0) + data@.take(0) + t.skip(cur0) =~= t.take(cur0) + t.skip(
                cur0,
            ));
            assert(t.take(cur0) + t.skip(cur0) =~= t);
        }
        while i < data.len()
            invariant
                self.wf(),
                valid_utf8(data@),
                i <= data@.len(),
                is_char_boundary(data@, i as int),
                t == old(self).text(),
                cur0 == old(self).cur(),
                0 <= cur0 <= t.len(),
                self.text() == t.take(cur0) + data@.take(i as int) + t.skip(cur0),
                self.cur() == cur0 + i,
            decreases data@.len() - i,
        {
            let (ch, k) = decode_char_at(data, i);
            let ghost text_i = self.text();
            let ghost cur_i = self.cur();
            self.insert_char(ch);
            proof {
                assert(text_i.take(cur_i) =~= t.take(cur0) + data@.take(i as int));
                assert(text_i.skip(cur_i) =~= t.skip(cur0));
                assert(char_bytes(ch) == data@.subrange(i as int, i + k));
                assert(self.text() =~= t.take(cur0) + data@.take(i + k) + t.skip(cur0)) by {
                    assert(self.text() == text_i.take(cur_i) + char_bytes(ch) + text_i.skip(
                        cur_i,
                    ));
                    assert(data@.take(i + k) =~= data@.take(i as int) + data@.subrange(
                        i as int,
                        i + k,
                    ));
                }
            }
            i = i + k;
        }
        proof {
            assert(data@.take(data@.len() as int) =~= data@);
        }
    }

    /// Removes exactly `num_bytes` bytes to the right of the cursor,
    /// crossing line ends as newline bytes, and returns them. The span must
    /// end on a character boundary of the flat text. The cursor stays.
    #[verifier::rlimit(50)]
    pub fn cut_bytes_right(&mut self, num_bytes: usize) -> (r: Vec<u8>)
        requires
            old(self).wf(),
            old(self).cur() + num_bytes <= old(self).text().len(),
            is_char_boundary(old(self).text(), old(self).cur() + num_bytes),
        ensures
            final(self).wf(),
            r@ == old(self).text().subrange(old(self).cur(), old(self).cur() + num_bytes),
            final(self).text() == old(self).text().take(old(self).cur()) + old(
                self,
            ).text().skip(old(self).cur() + num_bytes),
            final(self).cursor_line() == old(self).cursor_line(),
            final(self).cursor_char() == old(self).cursor_char(),
            final(self).cur() == old(self).cur(),
    {
        let ghost t = self.text();
        let ghost cur0 = self.cur();
        let mut out: Vec<u8> = Vec::new();
        let mut rem: usize = num_bytes;
        proof {
            self.lemma_text_facts();
            assert(t.take(cur0) + t.skip(cur0 + (num_bytes - rem)) =~= t);
            assert(out@ =~= t.subrange(cur0, cur0 + (num_bytes - rem)));
        }
        while rem > 0
            invariant
                self.wf(),
                rem <= num_bytes,
                t == old(self).text(),
                cur0 == old(self).cur(),
                0 <= cur0,
                cur0 + num_bytes <= t.len(),
                self.cursor_line() == old(self).cursor_line(),
                self.cursor_char() == old(self).cursor_char(),
                self.cur() == cur0,
                self.text() == t.take(cur0) + t.skip(cur0 + (num_bytes - rem)),
                out@ == t.subrange(cur0, cur0 + (num_bytes - rem)),
                is_char_boundary(self.text(), cur0 + rem),
            decreases rem,
        {
            let ghost text_i = self.text();
            proof {
                assert(text_i.len() == t.len() - (num_bytes - rem));
                assert(cur0 + rem <= text_i.len());
                self.lemma_text_facts();
            }
            let copt = self.delete_char_right();
            let ch = copt.unwrap();
            let mut enc = encode_char(ch);
            let k = enc.len();
            proof {
                let kk = char_bytes(ch).len() as int;
                // the removed character does not overrun the span
                assert(kk <= rem) by {
                    crate::unicode::lemma_next_boundary(text_i, cur0);
                    assert(char_bytes(ch).len() == vstd::utf8::length_of_first_scalar(
                        text_i.subrange(cur0, text_i.len() as int),
                    ));
                    if kk > rem {
                        assert(!is_char_boundary(text_i, cur0 + rem));
                    }
                }
                // the removed bytes extend the cut
                assert(out@ + char_bytes(ch) =~= t.subrange(
                    cur0,
                    cur0 + (num_bytes - (rem - kk)),
                )) by {
                    assert(char_bytes(ch) == text_i.subrange(cur0, cur0 + kk));
                    assert(forall|m: int| #![auto]
                        cur0 <= m < text_i.len() ==> text_i[m] == t[m + (num_bytes
                            - rem)]) by {
                        assert(text_i == t.take(cur0) + t.skip(cur0 + (num_bytes - rem)));
                    }
                }
            }
            out.append(&mut enc);
            proof {
                // the remaining text after this deletion
                let kk = char_bytes(ch).len() as int;
                assert(self.text() =~= t.take(cur0) + t.skip(cur0 + (num_bytes - (rem - kk))))
                    by {
                    assert(self.text() == text_i.take(cur0) + text_i.skip(cur0 + kk));
                    assert(text_i.take(cur0) =~= t.take(cur0));
                    assert(text_i.skip(cur0 + kk) =~= t.skip(cur0 + (num_bytes - (rem
                        - kk))));
                }
                // the span end stays on a boundary of the shrunk text
                assert(is_char_boundary(self.text(), cur0 + (rem - kk))) by {
                    self.lemma_text_facts();
                    assert(self.text().subrange(0, cur0 + (rem - kk)) =~= text_i.subrange(
                        0,
                        cur0,
                    ) + text_i.subrange(cur0 + kk, cur0 + rem));
                    crate::unicode::lemma_next_boundary(text_i, cur0);
                    crate::unicode::lemma_valid_subrange(text_i, cur0 + kk, cur0 + rem);
                    vstd::utf8::valid_utf8_split(text_i, cur0);
                    vstd::utf8::valid_utf8_concat(
                        text_i.subrange(0, cur0),
                        text_i.subrange(cur0 + kk, cur0 + rem),
                    );
                    assert(text_i.subrange(0, cur0) =~= text_i.take(cur0));
                    lemma_boundary_of_valid_prefix(self.text(), cur0 + (rem - kk));
                }
            }
            rem = rem - k;
        }
        proof {
            assert(out@ =~= t.subrange(cur0, cur0 + num_bytes));
        }
        out
    }

    /// Joins the cursor's line with the following one; in flat text this
    /// removes the separator byte at the cursor.
    #[verifier::rlimit(50)]
    fn merge_next(&mut self)
        requires
            old(self).wf(),
            old(self).cursor_line() + 1 < old(self).lines_view().len(),
            old(self).cursor_char() == old(self).cur_line().len(),
        ensures
            final(self).wf(),
            final(self).lines_view() == old(self).lines_view().update(
                old(self).cursor_line(),
                old(self).cur_line() + old(self).lines_view()[old(self).cursor_line() + 1],
            ).remove(old(self).cursor_line() + 1),
            final(self).cursor_line() == old(self).cursor_line(),
            final(self).cursor_char() == old(self).cursor_char(),
            final(self).text() == old(self).text().take(old(self).cur()) + old(
                self,
            ).text().skip(old(self).cur() + 1),
            final(self).cur() == old(self).cur(),
            old(self).text()[old(self).cur()] == 10u8,
            old(self).cur() < old(self).text().len(),
    {
        let ghost d = self.lines_view();
        let ghost l = self.cursor_line();
        let ghost x = self.cur_line();
        let ghost y = d[l + 1];
        proof {
            lemma_join_parts(d, l);
            lemma_join_sep(d, l);
        }
        let li = self.line_idx;
        proof {
            vstd::std_specs::vec::axiom_spec_len(&self.lines);
        }
        let next = self.lines.remove(li + 1);
        {
            let elem = &mut self.lines[li];
            elem.push_line(&next);
        }
        proof {
            let d2 = self.lines_view();
            assert(d2 =~~= d.update(l, x + y).remove(l + 1));
            assert(line_wf(x + y)) by {
                crate::unicode::lemma_line_wf_concat(x, y);
            }
            assert(lines_wf(d2)) by {
                assert(forall|i: int|
                    0 <= i < d2.len() && i != l ==> #[trigger] d2[i] == if i < l {
                        d[i]
                    } else {
                        d[i + 1]
                    });
            }
            assert(is_char_boundary(d2[l], self.cursor_char())) by {
                assert((x + y).subrange(0, x.len() as int) =~= x);
                lemma_boundary_of_valid_prefix(x + y, x.len() as int);
            }
            // text equality
            lemma_join_parts(d2, l);
            lemma_line_start_congruent(d2, d, l);
            assert(d2.subrange(0, l) =~~= d.subrange(0, l));
            assert(join_before(d2, l) == join_before(d, l));
            let b = join_before(d, l);
            lemma_join_parts(d, l + 1);
            assert(join_after(d2, l) == join_after(d, l + 1)) by {
                if l < d2.len() - 1 {
                    assert(d2.subrange(l + 1, d2.len() as int) =~~= d.subrange(
                        l + 2,
                        d.len() as int,
                    ));
                }
            }
            let a1 = join_after(d, l + 1);
            assert(self.text() == b + (x + y) + a1);
            // the old text around the separator
            assert(join_after(d, l) == seq![10u8] + join(d.subrange(l + 1, d.len() as int)));
            assert(join(d.subrange(l + 1, d.len() as int)) == y + a1) by {
                let rest = d.subrange(l + 1, d.len() as int);
                assert(rest =~~= seq![y] + d.subrange(l + 2, d.len() as int));
                lemma_join_cons(y, d.subrange(l + 2, d.len() as int));
                if l + 1 == d.len() - 1 {
                    assert(y + a1 =~= y);
                } else {
                    assert(y + (seq![10u8] + join(d.subrange(l + 2, d.len() as int))) =~= y
                        + seq![10u8] + join(d.subrange(l + 2, d.len() as int)));
                    assert(y + a1 =~= y + seq![10u8] + join(d.subrange(l + 2, d.len() as int)));
                }
            }
            assert(old(self).text() =~= b + x + seq![10u8] + (y + a1));
            assert(old(self).text().take(old(self).cur()) =~= b + x);
            assert(old(self).text().skip(old(self).cur() + 1) =~= y + a1);
            assert(self.text() =~= old(self).text().take(old(self).cur()) + old(
                self,
            ).text().skip(old(self).cur() + 1));
            assert(old(self).text()[old(self).cur()] == 10u8);
        }
    }

    /// Removes and returns the current line: with its newline when a line
    /// follows (the cursor then rests at the start of what moved up), or
    /// bare at the last line, which is left empty. Either way the cursor
    /// moves to the start of the line, and inserting the returned bytes
    /// there restores the document.
    #[verifier::rlimit(50)]
    pub fn cut_line(&mut self) -> (r: Vec<u8>)
        requires
            old(self).wf(),
        ensures
            final(self).wf(),
            final(self).cursor_line() == old(self).cursor_line(),
            final(self).cursor_char() == 0,
            final(self).cur() == old(self).cur() - old(self).cursor_char(),
            old(self).cursor_line() + 1 < old(self).lines_view().len() ==> {
                &&& r@ == old(self).cur_line() + seq![10u8]
                &&& final(self).lines_view() == old(self).lines_view().remove(
                    old(self).cursor_line(),
                )
            },
            old(self).cursor_line() + 1 == old(self).lines_view().len() ==> {
                &&& r@ == old(self).cur_line()
                &&& final(self).lines_view() == old(self).lines_view().update(
                    old(self).cursor_line(),
                    Seq::<u8>::empty(),
                )
            },
            final(self).text() == old(self).text().take(final(self).cur())
                + old(self).text().skip(final(self).cur() + r@.len()),
            old(self).text() == final(self).text().take(final(self).cur()) + r@
                + final(self).text().skip(final(self).cur()),
    {
        let ghost d = self.lines_view();
        let ghost l = self.cursor_line();
        let ghost x = self.cur_line();
        proof {
            lemma_join_parts(d, l);
            crate::doctext::lemma_line_start_nonneg(d, l);
        }
        let li = self.line_idx;
        let n = self.lines.len();
        if li + 1 < n {
            let ghost y = d[l + 1];
            let removed = self.lines.remove(li);
            let rlen = removed.len();
            let mut r = removed.copy_range(0, rlen);
            r.push(10u8);
            self.char_idx = 0;
            proof {
                let d2 = self.lines_view();
                assert(d2 =~~= d.remove(l));
                assert(r@ =~= x + seq![10u8]);
                assert(lines_wf(d2)) by {
                    assert(forall|i: int|
                        0 <= i < d2.len() ==> #[trigger] d2[i] == if i < l {
                            d[i]
                        } else {
                            d[i + 1]
                        });
                }
                assert(is_char_boundary(d2[l], 0)) by {
                    is_char_boundary_start_end_of_seq(d2[l]);
                }
                // decompose the new and old text around line l
                lemma_join_parts(d2, l);
                lemma_line_start_congruent(d2, d, l);
                assert(d2.subrange(0, l) =~~= d.subrange(0, l));
                assert(join_before(d2, l) == join_before(d, l));
                let b = join_before(d, l);
                lemma_join_parts(d, l + 1);
                assert(join_after(d2, l) == join_after(d, l + 1)) by {
                    if l < d2.len() - 1 {
                        assert(d2.subrange(l + 1, d2.len() as int) =~~= d.subrange(
                            l + 2,
                            d.len() as int,
                        ));
                    }
                }
                let a1 = join_after(d, l + 1);
                assert(self.text() == b + y + a1);
                assert(join_after(d, l) == seq![10u8] + join(
                    d.subrange(l + 1, d.len() as int),
                ));
                assert(join(d.subrange(l + 1, d.len() as int)) == y + a1) by {
                    let rest = d.subrange(l + 1, d.len() as int);
                    assert(rest =~~= seq![y] + d.subrange(l + 2, d.len() as int));
                    lemma_join_cons(y, d.subrange(l + 2, d.len() as int));
                    if l + 1 == d.len() - 1 {
                        assert(y + a1 =~= y);
                    } else {
                        assert(y + (seq![10u8] + join(d.subrange(l + 2, d.len() as int)))
                            =~= y + seq![10u8] + join(d.subrange(l + 2, d.len() as int)));
                        assert(y + a1 =~= y + seq![10u8] + join(
                            d.subrange(l + 2, d.len() as int),
                        ));
                    }
                }
                assert(old(self).text() =~= b + x + seq![10u8] + (y + a1));
                assert(self.cur() == b.len());
                assert(self.text().take(self.cur()) =~= b);
                assert(self.text().skip(self.cur()) =~= y + a1);
                assert(old(self).text().take(self.cur()) =~= b);
                assert(old(self).text().skip(self.cur() + r@.len()) =~= y + a1);
                assert(self.text() =~= old(self).text().take(self.cur()) + old(
                    self,
                ).text().skip(self.cur() + r@.len()));
                assert(old(self).text() =~= self.text().take(self.cur()) + r@ + self.text(
                ).skip(self.cur()));
            }
            r
        } else {
            let rlen = self.lines[li].len();
            let r = self.lines[li].copy_range(0, rlen);
            {
                let elem = &mut self.lines[li];
                *elem = Line::new_empty();
            }
            self.char_idx = 0;
            proof {
                let d2 = self.lines_view();
                assert(d2 =~~= d.update(l, Seq::<u8>::empty()));
                assert(r@ =~= x);
                assert(line_wf(Seq::<u8>::empty()));
                assert(lines_wf(d2)) by {
                    assert(forall|i: int|
                        0 <= i < d2.len() && i != l ==> #[trigger] d2[i] == d[i]);
                }
                assert(is_char_boundary(d2[l], 0)) by {
                    is_char_boundary_start_end_of_seq(d2[l]);
                }
                lemma_join_parts(d2, l);
                lemma_line_start_congruent(d2, d, l);
                assert(d2.subrange(0, l) =~~= d.subrange(0, l));
                assert(join_before(d2, l) == join_before(d, l));
                let b = join_before(d, l);
                assert(join_after(d, l) =~= Seq::<u8>::empty());
                assert(join_after(d2, l) =~= Seq::<u8>::empty());
                assert(old(self).text() =~= b + x);
                assert(self.text() =~= b);
                assert(self.cur() == b.len());
                assert(self.text() =~= old(self).text().take(self.cur()) + old(
                    self,
                ).text().skip(self.cur() + r@.len()));
                assert(old(self).text() =~= self.text().take(self.cur()) + r@ + self.text(
                ).skip(self.cur()));
            }
            r
        }
    }

    /// Splits a blob loaded from disk into shared lines at each newline
    /// byte, with the cursor at the document's start. The joined text of
    /// the result is exactly the blob.
    #[verifier::rlimit(50)]
    pub fn from_blob(src: &Rc<Vec<u8>>) -> (r: Buffer)
        requires
            valid_utf8(src@),
        ensures
            r.wf(),
            r.text() == src@,
            r.cursor_line() == 0,
            r.cursor_char() == 0,
    {
        let s: &[u8] = src.as_slice();
        let n: usize = s.len();
        let mut lines: Vec<Line> = Vec::new();
        let mut prev: usize = 0;
        let mut j: usize = 0;
        proof {
            is_char_boundary_start_end_of_seq(src@);
        }
        while j < n
            invariant
                valid_utf8(src@),
                s@ == src@,
                n == src@.len(),
                0 <= prev <= j <= n,
                is_char_boundary(src@, prev as int),
                forall|m: int| prev <= m < j ==> src@[m] != 10u8,
                lines@.len() == 0 ==> prev == 0,
                lines@.len() > 0 ==> prev >= 1 && src@[prev - 1] == 10u8 && join(
                    lines@.map_values(|li: Line| li@),
                ) == src@.take(prev - 1),
                forall|i: int|
                    0 <= i < lines@.len() ==> (#[trigger] lines@[i]).wf() && line_wf(
                        lines@[i]@,
                    ),
            decreases n - j,
        {
            if s[j] == 10 {
                let ghost piece = src@.subrange(prev as int, j as int);
                proof {
                    vstd::utf8::is_char_boundary_iff_not_is_continuation_byte(src@, j as int);
                    crate::unicode::lemma_valid_subrange(src@, prev as int, j as int);
                    assert forall|m: int| 0 <= m < piece.len() implies piece[m] != 10u8 by {
                        assert(piece[m] == src@[prev + m]);
                    }
                    assert(!piece.contains(10u8));
                }
                let ghost old_lines = lines@;
                lines.push(Line::Shared(crate::line::clone_blob(src), prev, j));
                proof {
                    let lv = lines@.map_values(|li: Line| li@);
                    assert(lv =~~= old_lines.map_values(|li: Line| li@).push(piece));
                    crate::doctext::lemma_join_snoc(
                        old_lines.map_values(|li: Line| li@),
                        piece,
                    );
                    if old_lines.len() == 0 {
                        assert(join(lv) == piece);
                        assert(piece =~= src@.take(j as int));
                    } else {
                        assert(join(lv) == src@.take(prev - 1) + seq![10u8] + piece);
                        assert(src@.take(prev - 1) + seq![10u8] + piece =~= src@.take(
                            j as int,
                        ));
                    }
                    // the next line starts on a character boundary
                    crate::unicode::lemma_next_boundary(src@, j as int);
                    let tail = src@.subrange(j as int, src@.len() as int);
                    assert(tail[0] == 10u8);
                    assert(vstd::utf8::is_leading_byte_width_1(tail[0]));
                    assert(vstd::utf8::length_of_first_scalar(tail) == 1);
                }
                prev = j + 1;
            }
            j = j + 1;
        }
        let ghost piece = src@.subrange(prev as int, n as int);
        proof {
            crate::unicode::lemma_valid_subrange(src@, prev as int, n as int);
            assert forall|m: int| 0 <= m < piece.len() implies piece[m] != 10u8 by {
                assert(piece[m] == src@[prev + m]);
            }
            assert(!piece.contains(10u8));
        }
        let ghost old_lines = lines@;
        lines.push(Line::Shared(crate::line::clone_blob(src), prev, n));
        proof {
            let lv = lines@.map_values(|li: Line| li@);
            assert(lv =~~= old_lines.map_values(|li: Line| li@).push(piece));
            crate::doctext::lemma_join_snoc(old_lines.map_values(|li: Line| li@), piece);
            if old_lines.len() == 0 {
                assert(join(lv) == piece);
                assert(piece =~= src@);
            } else {
                assert(join(lv) == src@.take(prev - 1) + seq![10u8] + piece);
                assert(src@.take(prev - 1) + seq![10u8] + piece =~= src@);
            }
        }
        let r = Buffer { lines, line_idx: 0, char_idx: 0 };
        proof {
            assert(r.lines_view() == lines@.map_values(|li: Line| li@));
            assert(is_char_boundary(r.cur_line(), 0)) by {
                is_char_boundary_start_end_of_seq(r.cur_line());
            }
        }
        r
    }

    /// Removes and returns the character after the cursor; at the end of a
    /// line that is not the last, joins the next line up and returns the
    /// newline. Returns nothing at the end of the document. The cursor does
    /// not move.
    #[verifier::rlimit(50)]
    pub fn delete_char_right(&mut self) -> (r: Option<char>)
        requires
            old(self).wf(),
        ensures
            final(self).wf(),
            r is Some <==> old(self).cur() < old(self).text().len(),
            r is None ==> final(self).lines_view() == old(self).lines_view(),
            final(self).cursor_line() == old(self).cursor_line(),
            final(self).cursor_char() == old(self).cursor_char(),
            final(self).cur() == old(self).cur(),
            r is Some ==> {
                let k = char_bytes(r->0).len();
                &&& char_bytes(r->0) == old(self).text().subrange(
                    old(self).cur(),
                    old(self).cur() + k,
                )
                &&& k == vstd::utf8::length_of_first_scalar(
                    old(self).text().skip(old(self).cur()),
                )
                &&& final(self).text() == old(self).text().take(old(self).cur()) + old(
                    self,
                ).text().skip(old(self).cur() + k)
                &&& (r->0 == '\n' <==> old(self).cursor_char() == old(self).cur_line().len())
            },
    {
        let ghost d = self.lines_view();
        let ghost l = self.cursor_line();
        let ghost c = self.cursor_char();
        let ghost x = self.cur_line();
        proof {
            lemma_join_parts(d, l);
        }
        let li = self.line_idx;
        let ci = self.char_idx;
        let n = self.lines.len();
        let line_len = self.lines[li].len();
        if ci < line_len {
            let (ch, k) = {
                let s = self.lines[li].as_str();
                decode_char_at(s, ci)
            };
            {
                let elem = &mut self.lines[li];
                elem.remove_bytes(ci, ci + k);
            }
            let ghost x2 = x.take(c) + x.skip(c + k);
            proof {
                assert(x.subrange(0, c) == x.take(c));
                assert(x.subrange(c + k, x.len() as int) == x.skip(c + k));
                let d2 = self.lines_view();
                assert(d2 =~~= d.update(l, x2));
                assert(line_wf(x2)) by {
                    crate::unicode::lemma_line_wf_split(x, c);
                    is_char_boundary_start_end_of_seq(x);
                    lemma_line_wf_subrange(x, c as int + k, x.len() as int);
                    assert(x.subrange(c + k, x.len() as int) == x.skip(c + k));
                    crate::unicode::lemma_line_wf_concat(x.take(c), x.skip(c + k));
                }
                assert(lines_wf(d2)) by {
                    assert(forall|i: int|
                        0 <= i < d2.len() && i != l ==> #[trigger] d2[i] == d[i]);
                }
                assert(is_char_boundary(x2, c)) by {
                    assert(x2.subrange(0, c) =~= x.take(c));
                    crate::unicode::lemma_line_wf_split(x, c);
                    lemma_boundary_of_valid_prefix(x2, c);
                }
                // text equality
                lemma_join_parts(d2, l);
                lemma_line_start_congruent(d2, d, l);
                assert(d2.subrange(0, l) =~~= d.subrange(0, l));
                assert(join_before(d2, l) == join_before(d, l));
                assert(join_after(d2, l) == join_after(d, l)) by {
                    if l < d.len() - 1 {
                        assert(d2.subrange(l + 1, d2.len() as int) =~~= d.subrange(
                            l + 1,
                            d.len() as int,
                        ));
                    }
                }
                let b = join_before(d, l);
                let a = join_after(d, l);
                assert(self.text() == b + x2 + a);
                assert(old(self).text().take(old(self).cur()) =~= b + x.take(c));
                assert(old(self).text().skip(old(self).cur() + k) =~= x.skip(c + k) + a);
                assert(self.text() =~= old(self).text().take(old(self).cur()) + old(
                    self,
                ).text().skip(old(self).cur() + k));
                // the removed bytes are the character's encoding
                assert(char_bytes(ch) =~= old(self).text().subrange(
                    old(self).cur(),
                    old(self).cur() + k,
                )) by {
                    assert(char_bytes(ch) == x.subrange(c, c + k));
                }
                assert(k == vstd::utf8::length_of_first_scalar(
                    old(self).text().skip(old(self).cur()),
                )) by {
                    assert(old(self).text().skip(old(self).cur()) =~= x.skip(c) + a);
                    valid_utf8_split(x, c);
                    assert(x.skip(c) == x.subrange(c, x.len() as int));
                    crate::unicode::lemma_first_scalar_prefix(x.skip(c), a);
                    assert(k == vstd::utf8::length_of_first_scalar(x.skip(c))) by {
                        assert(x.skip(c) =~= x.subrange(c, x.len() as int));
                    }
                }
                // a character taken from inside a line is not the newline
                assert(ch != '\n') by {
                    lemma_char_bytes_newline(ch);
                    if ch == '\n' {
                        assert(x[c] == 10u8);
                        assert(x.contains(10u8));
                    }
                }
            }
            Some(ch)
        } else if li + 1 < n {
            proof {
                lemma_join_sep(d, l);
                lemma_char_bytes_newline('\n');
            }
            self.merge_next();
            Some('\n')
        } else {
            proof {
                lemma_join_end(d);
            }
            None
        }
    }

    /// Removes and returns the character before the cursor; at the start of
    /// a line that is not the first, joins it onto the previous line and
    /// returns the newline. Returns nothing at the start of the document.
    #[verifier::rlimit(50)]
    pub fn delete_char_left(&mut self) -> (r: Option<char>)
        requires
            old(self).wf(),
        ensures
            final(self).wf(),
            r is Some <==> old(self).cur() > 0,
            r is None ==> final(self).lines_view() == old(self).lines_view()
                && final(self).cursor_line() == old(self).cursor_line()
                && final(self).cursor_char() == old(self).cursor_char(),
            r is Some ==> {
                let k = char_bytes(r->0).len();
                &&& final(self).cur() == old(self).cur() - k
                &&& char_bytes(r->0) == old(self).text().subrange(
                    old(self).cur() - k,
                    old(self).cur(),
                )
                &&& final(self).text() == old(self).text().take(old(self).cur() - k) + old(
                    self,
                ).text().skip(old(self).cur())
                &&& (r->0 == '\n' <==> old(self).cursor_char() == 0)
                &&& final(self).cursor_line() == if r->0 == '\n' {
                    old(self).cursor_line() - 1
                } else {
                    old(self).cursor_line()
                }
            },
    {
        let ghost d = self.lines_view();
        let ghost l = self.cursor_line();
        let ghost c = self.cursor_char();
        let ghost x = self.cur_line();
        proof {
            lemma_join_parts(d, l);
            crate::doctext::lemma_line_start_nonneg(d, l);
        }
        let li = self.line_idx;
        let ci = self.char_idx;
        if ci > 0 {
            let (j, ch, k) = {
                let s = self.lines[li].as_str();
                let j = crate::unicode::prev_char_start(s, ci);
                let (ch, k) = decode_char_at(s, j);
                proof {
                    assert(j + k == ci);
                }
                (j, ch, k)
            };
            {
                let elem = &mut self.lines[li];
                elem.remove_bytes(j, ci);
            }
            self.char_idx = j;
            let ghost x2 = x.take(j as int) + x.skip(c);
            proof {
                assert(x.subrange(0, j as int) == x.take(j as int));
                assert(x.subrange(c, x.len() as int) == x.skip(c));
                let d2 = self.lines_view();
                assert(d2 =~~= d.update(l, x2));
                assert(line_wf(x2)) by {
                    crate::unicode::lemma_line_wf_split(x, c);
                    is_char_boundary_start_end_of_seq(x);
                    lemma_line_wf_subrange(x, 0, j as int);
                    assert(x.subrange(0, j as int) == x.take(j as int));
                    crate::unicode::lemma_line_wf_concat(x.take(j as int), x.skip(c));
                }
                assert(lines_wf(d2)) by {
                    assert(forall|i: int|
                        0 <= i < d2.len() && i != l ==> #[trigger] d2[i] == d[i]);
                }
                assert(is_char_boundary(x2, j as int)) by {
                    assert(x2.subrange(0, j as int) =~= x.take(j as int));
                    is_char_boundary_start_end_of_seq(x);
                    lemma_line_wf_subrange(x, 0, j as int);
                    assert(x.subrange(0, j as int) == x.take(j as int));
                    lemma_boundary_of_valid_prefix(x2, j as int);
                }
                // text equality
                lemma_join_parts(d2, l);
                lemma_line_start_congruent(d2, d, l);
                assert(d2.subrange(0, l) =~~= d.subrange(0, l));
                assert(join_before(d2, l) == join_before(d, l));
                assert(join_after(d2, l) == join_after(d, l)) by {
                    if l < d.len() - 1 {
                        assert(d2.subrange(l + 1, d2.len() as int) =~~= d.subrange(
                            l + 1,
                            d.len() as int,
                        ));
                    }
                }
                let b = join_before(d, l);
                let a = join_after(d, l);
                assert(self.text() == b + x2 + a);
                assert(old(self).text().take(old(self).cur() - k) =~= b + x.take(j as int));
                assert(old(self).text().skip(old(self).cur()) =~= x.skip(c) + a);
                assert(self.text() =~= old(self).text().take(old(self).cur() - k) + old(
                    self,
                ).text().skip(old(self).cur()));
                assert(char_bytes(ch) =~= old(self).text().subrange(
                    old(self).cur() - k,
                    old(self).cur(),
                )) by {
                    assert(char_bytes(ch) == x.subrange(j as int, c));
                }
                assert(ch != '\n') by {
                    lemma_char_bytes_newline(ch);
                    if ch == '\n' {
                        assert(x[j as int] == 10u8);
                        assert(x.contains(10u8));
                    }
                }
                assert(self.cur() == old(self).cur() - k);
            }
            Some(ch)
        } else if li > 0 {
            let prev_len = self.lines[li - 1].len();
            self.line_idx = li - 1;
            self.char_idx = prev_len;
            proof {
                let xp = d[l - 1];
                assert(is_char_boundary(xp, xp.len() as int)) by {
                    is_char_boundary_start_end_of_seq(xp);
                }
                assert(self.wf());
                assert(self.cur() == old(self).cur() - 1) by {
                    assert(line_start(d, l) == line_start(d, l - 1) + xp.len() + 1);
                }
                lemma_char_bytes_newline('\n');
            }
            let ghost mid = *self;
            self.merge_next();
            proof {
                assert(old(self).text() == mid.text());
                assert(self.text() =~= old(self).text().take(old(self).cur() - 1) + old(
                    self,
                ).text().skip(old(self).cur())) by {
                    assert(mid.text().take(mid.cur()) == old(self).text().take(
                        old(self).cur() - 1,
                    ));
                    assert(mid.text().skip(mid.cur() + 1) == old(self).text().skip(
                        old(self).cur(),
                    ));
                }
                assert(char_bytes('\n') =~= old(self).text().subrange(
                    old(self).cur() - 1,
                    old(self).cur(),
                )) by {
                    assert(mid.text()[mid.cur()] == 10u8);
                }
            }
            Some('\n')
        } else {
            None
        }
    }

    /// The character after the cursor, without moving: the newline at the
    /// end of a line that is not the last, nothing at the document's end.
    pub fn peek_right(&self) -> (r: Option<char>)
        requires
            self.wf(),
        ensures
            r is Some <==> self.cur() < self.text().len(),
            r is Some ==> {
                let k = char_bytes(r->0).len();
                &&& char_bytes(r->0) == self.text().subrange(self.cur(), self.cur() + k)
                &&& (r->0 == '\n' <==> self.cursor_char() == self.cur_line().len())
            },
    {
        let ghost d = self.lines_view();
        let ghost l = self.cursor_line();
        let ghost c = self.cursor_char();
        let ghost x = self.cur_line();
        proof {
            lemma_join_parts(d, l);
        }
        let li = self.line_idx;
        let ci = self.char_idx;
        let n = self.lines.len();
        let line_len = self.lines[li].len();
        if ci < line_len {
            let s = self.lines[li].as_str();
            let (ch, k) = decode_char_at(s, ci);
            proof {
                assert(char_bytes(ch) =~= self.text().subrange(self.cur(), self.cur() + k))
                    by {
                    assert(char_bytes(ch) == x.subrange(c, c + k));
                }
                assert(ch != '\n') by {
                    lemma_char_bytes_newline(ch);
                    if ch == '\n' {
                        assert(x[c] == 10u8);
                        assert(x.contains(10u8));
                    }
                }
            }
            Some(ch)
        } else if li + 1 < n {
            proof {
                lemma_join_sep(d, l);
                lemma_char_bytes_newline('\n');
                assert(char_bytes('\n') =~= self.text().subrange(self.cur(), self.cur() + 1));
            }
            Some('\n')
        } else {
            proof {
                lemma_join_end(d);
            }
            None
        }
    }

    /// The character before the cursor, without moving: the newline at the
    /// start of a line that is not the first, nothing at the document's
    /// start.
    pub fn peek_left(&self) -> (r: Option<char>)
        requires
            self.wf(),
        ensures
            r is Some <==> self.cur() > 0,
            r is Some ==> {
                let k = char_bytes(r->0).len();
                &&& char_bytes(r->0) == self.text().subrange(self.cur() - k, self.cur())
                &&& (r->0 == '\n' <==> self.cursor_char() == 0)
            },
    {
        let ghost d = self.lines_view();
        let ghost l = self.cursor_line();
        let ghost c = self.cursor_char();
        let ghost x = self.cur_line();
        proof {
            lemma_join_parts(d, l);
            crate::doctext::lemma_line_start_nonneg(d, l);
        }
        let li = self.line_idx;
        let ci = self.char_idx;
        if ci > 0 {
            let s = self.lines[li].as_str();
            let j = crate::unicode::prev_char_start(s, ci);
            let (ch, k) = decode_char_at(s, j);
            proof {
                assert(j + k == ci);
                assert(char_bytes(ch) =~= self.text().subrange(self.cur() - k, self.cur()))
                    by {
                    assert(char_bytes(ch) == x.subrange(j as int, c));
                }
                assert(ch != '\n') by {
                    lemma_char_bytes_newline(ch);
                    if ch == '\n' {
                        assert(x[j as int] == 10u8);
                        assert(x.contains(10u8));
                    }
                }
            }
            Some(ch)
        } else if li > 0 {
            proof {
                lemma_char_bytes_newline('\n');
                assert(line_start(d, l) == line_start(d, l - 1) + d[l - 1].len() + 1);
                crate::doctext::lemma_line_start_nonneg(d, l - 1);
                lemma_join_sep(d, l - 1);
                lemma_join_parts(d, l - 1);
                assert(char_bytes('\n') =~= self.text().subrange(self.cur() - 1, self.cur()));
            }
            Some('\n')
        } else {
            None
        }
    }
}

impl Default for Buffer {
    /// A fresh buffer: one empty line, cursor at its start.
    fn default() -> (r: Buffer)
        ensures
            r.wf(),
            r.lines_view() == seq![Seq::<u8>::empty()],
            r.cursor_line() == 0,
            r.cursor_char() == 0,
            r.text() == Seq::<u8>::empty(),
    {
        let mut lines: Vec<Line> = Vec::new();
        lines.push(Line::new_empty());
        let r = Buffer { lines, line_idx: 0, char_idx: 0 };
        proof {
            assert(r.lines_view() =~~= seq![Seq::<u8>::empty()]);
            assert(is_char_boundary(r.cur_line(), 0)) by {
                is_char_boundary_start_end_of_seq(r.cur_line());
            }
        }
        r
    }
}

} // verus!
