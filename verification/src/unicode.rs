//! Byte-level UTF-8 helpers: encoding one character, decoding the character
//! at a boundary, and stepping between character boundaries.

use vstd::prelude::*;
use vstd::utf8::{
    char_is_scalar, decode_first_codepoint, encode_scalar, is_char_boundary,
    is_char_boundary_iff_not_is_continuation_byte, is_char_boundary_start_end_of_seq,
    is_continuation_byte, is_leading_byte_width_1, is_leading_byte_width_2,
    is_leading_byte_width_3, is_leading_byte_width_4, is_scalar,
    length_of_first_scalar, valid_first_scalar, valid_utf8, valid_utf8_concat,
    valid_utf8_split,
};

verus! {

/// Trusted: `char::from_u32` returns, per its standard-library documentation,
/// `Some` of the character with the given scalar value exactly when the value
/// is a Unicode scalar (at most 0x10FFFF and not a surrogate), else `None`.
pub assume_specification[ char::from_u32 ](v: u32) -> (r: Option<char>)
    ensures
        r is Some <==> is_scalar(v),
        r is Some ==> r->0 as u32 == v,
;

/// The UTF-8 encoding of one character, as a byte sequence.
pub open spec fn char_bytes(c: char) -> Seq<u8> {
    encode_scalar(c as u32)
}

/// A byte sequence that is a valid UTF-8 encoding and contains no newline.
pub open spec fn line_wf(s: Seq<u8>) -> bool {
    valid_utf8(s) && !s.contains(10u8)
}

proof fn lemma_bits_width_1(b1: u8)
    by (bit_vector)
    requires
        is_leading_byte_width_1(b1),
    ensures
        vstd::utf8::has_width_1_encoding(vstd::utf8::codepoint_width_1(b1)),
        vstd::utf8::leading_byte_width_1(vstd::utf8::codepoint_width_1(b1)) == b1,
        vstd::utf8::codepoint_width_1(b1) == b1 as u32,
{
}

proof fn lemma_bits_width_2(b1: u8, b2: u8)
    by (bit_vector)
    requires
        is_leading_byte_width_2(b1),
        is_continuation_byte(b2),
        vstd::utf8::not_overlong_encoding(vstd::utf8::codepoint_width_2(b1, b2), 2),
    ensures
        vstd::utf8::has_width_2_encoding(vstd::utf8::codepoint_width_2(b1, b2)),
        vstd::utf8::leading_byte_width_2(vstd::utf8::codepoint_width_2(b1, b2)) == b1,
        vstd::utf8::last_continuation_byte(vstd::utf8::codepoint_width_2(b1, b2)) == b2,
{
}

proof fn lemma_bits_width_3(b1: u8, b2: u8, b3: u8)
    by (bit_vector)
    requires
        is_leading_byte_width_3(b1),
        is_continuation_byte(b2),
        is_continuation_byte(b3),
        vstd::utf8::not_overlong_encoding(vstd::utf8::codepoint_width_3(b1, b2, b3), 3),
        vstd::utf8::not_surrogate(vstd::utf8::codepoint_width_3(b1, b2, b3)),
    ensures
        vstd::utf8::has_width_3_encoding(vstd::utf8::codepoint_width_3(b1, b2, b3)),
        vstd::utf8::leading_byte_width_3(vstd::utf8::codepoint_width_3(b1, b2, b3)) == b1,
        vstd::utf8::second_last_continuation_byte(vstd::utf8::codepoint_width_3(b1, b2, b3))
            == b2,
        vstd::utf8::last_continuation_byte(vstd::utf8::codepoint_width_3(b1, b2, b3)) == b3,
{
}

proof fn lemma_bits_width_4(b1: u8, b2: u8, b3: u8, b4: u8)
    by (bit_vector)
    requires
        is_leading_byte_width_4(b1),
        is_continuation_byte(b2),
        is_continuation_byte(b3),
        is_continuation_byte(b4),
        vstd::utf8::not_overlong_encoding(vstd::utf8::codepoint_width_4(b1, b2, b3, b4), 4),
    ensures
        vstd::utf8::has_width_4_encoding(vstd::utf8::codepoint_width_4(b1, b2, b3, b4)),
        vstd::utf8::leading_byte_width_4(vstd::utf8::codepoint_width_4(b1, b2, b3, b4)) == b1,
        vstd::utf8::third_last_continuation_byte(vstd::utf8::codepoint_width_4(b1, b2, b3, b4))
            == b2,
        vstd::utf8::second_last_continuation_byte(vstd::utf8::codepoint_width_4(b1, b2, b3, b4))
            == b3,
        vstd::utf8::last_continuation_byte(vstd::utf8::codepoint_width_4(b1, b2, b3, b4)) == b4,
{
}

/// The codepoint at the head of a well-formed scalar encoding is a scalar,
/// and the encoding of that scalar is exactly the head bytes.
pub proof fn lemma_first_scalar_decodes(s: Seq<u8>)
    requires
        valid_utf8(s),
        s.len() > 0,
    ensures
        is_scalar(decode_first_codepoint(s)),
        encode_scalar(decode_first_codepoint(s)) == s.subrange(
            0,
            length_of_first_scalar(s),
        ),
        1 <= length_of_first_scalar(s) <= 4,
        length_of_first_scalar(s) <= s.len(),
{
    let cp = decode_first_codepoint(s);
    let n = length_of_first_scalar(s);
    assert(valid_first_scalar(s));
    if is_leading_byte_width_1(s[0]) {
        lemma_bits_width_1(s[0]);
        assert(encode_scalar(cp) =~= s.subrange(0, 1));
    } else if is_leading_byte_width_2(s[0]) {
        lemma_bits_width_2(s[0], s[1]);
        assert(encode_scalar(cp) =~= s.subrange(0, 2));
    } else if is_leading_byte_width_3(s[0]) {
        lemma_bits_width_3(s[0], s[1], s[2]);
        assert(encode_scalar(cp) =~= s.subrange(0, 3));
    } else {
        lemma_bits_width_4(s[0], s[1], s[2], s[3]);
        assert(encode_scalar(cp) =~= s.subrange(0, 4));
    }
}

/// The encoding of one character is valid UTF-8 of one to four bytes.
pub proof fn lemma_char_bytes_valid(c: char)
    ensures
        valid_utf8(char_bytes(c)),
        1 <= char_bytes(c).len() <= 4,
{
    char_is_scalar(c);
    vstd::utf8::encode_utf8_valid_utf8(seq![c]);
    assert(vstd::utf8::encode_utf8(seq![c]) =~= char_bytes(c)) by {
        assert(seq![c].drop_first() =~= Seq::<char>::empty());
        assert(vstd::utf8::encode_utf8(seq![c]) == encode_scalar(c as u32)
            + vstd::utf8::encode_utf8(seq![c].drop_first()));
        assert(vstd::utf8::encode_utf8(Seq::<char>::empty()) =~= Seq::<u8>::empty());
        assert(encode_scalar(c as u32) + Seq::<u8>::empty() =~= encode_scalar(c as u32));
    }
}

/// A character's encoding holds the newline byte exactly when the character
/// is the newline, whose encoding is that single byte.
pub proof fn lemma_char_bytes_newline(c: char)
    ensures
        char_bytes(c).contains(10u8) <==> c == '\n',
        c == '\n' ==> char_bytes(c) == seq![10u8],
{
    char_is_scalar(c);
    let u = c as u32;
    if u <= 0x7f {
        assert(vstd::utf8::leading_byte_width_1(u) == u as u8) by (bit_vector)
            requires
                u <= 0x7f,
        ;
        assert(char_bytes(c) == seq![u as u8]);
        assert('\n' as u32 == 10);
        if u == 10 {
            vstd::utf8::char_u32_cast(c, u);
            vstd::utf8::char_u32_cast('\n', 10);
            assert(c == '\n');
            assert(char_bytes(c)[0] == 10u8);
            assert(char_bytes(c).contains(10u8));
            assert(char_bytes(c) =~= seq![10u8]);
        } else {
            assert(forall|i: int|
                0 <= i < char_bytes(c).len() ==> char_bytes(c)[i] == u as u8);
            assert(u as u8 != 10u8) by (bit_vector)
                requires
                    u <= 0x7f && u != 10,
            ;
        }
    } else {
        assert('\n' as u32 == 10);
        assert(vstd::utf8::leading_byte_width_2(u) >= 0xc0 && vstd::utf8::leading_byte_width_3(
            u,
        ) >= 0xc0 && vstd::utf8::leading_byte_width_4(u) >= 0xc0
            && vstd::utf8::last_continuation_byte(u) >= 0x80
            && vstd::utf8::second_last_continuation_byte(u) >= 0x80
            && vstd::utf8::third_last_continuation_byte(u) >= 0x80) by (bit_vector);
        assert(forall|i: int| 0 <= i < char_bytes(c).len() ==> char_bytes(c)[i] != 10u8);
    }
}

/// A character's encoding starts with a leading byte; every later byte
/// is a continuation byte.
pub proof fn lemma_char_bytes_shape(c: char)
    ensures
        !is_continuation_byte(char_bytes(c)[0]),
        forall|j: int|
            1 <= j < char_bytes(c).len() ==> is_continuation_byte(
                #[trigger] char_bytes(c)[j],
            ),
{
    char_is_scalar(c);
    let u = c as u32;
    assert(vstd::utf8::leading_byte_width_1(u) <= 0x7f && vstd::utf8::leading_byte_width_2(u)
        >= 0xc0 && vstd::utf8::leading_byte_width_3(u) >= 0xc0
        && vstd::utf8::leading_byte_width_4(u) >= 0xc0 && 0x80
        <= vstd::utf8::last_continuation_byte(u) <= 0xbf && 0x80
        <= vstd::utf8::second_last_continuation_byte(u) <= 0xbf && 0x80
        <= vstd::utf8::third_last_continuation_byte(u) <= 0xbf) by (bit_vector);
}

/// Encodes one character into its UTF-8 bytes.
pub fn encode_char(c: char) -> (r: Vec<u8>)
    ensures
        r@ == char_bytes(c),
        1 <= r@.len() <= 4,
{
    let u = c as u32;
    proof {
        char_is_scalar(c);
    }
    let mut r: Vec<u8> = Vec::new();
    if u <= 0x7f {
        proof {
            assert(u & 0x7f < 256 && (u & 0x7f) as u8 == vstd::utf8::leading_byte_width_1(u))
                by (bit_vector)
                requires
                    u <= 0x7f,
            ;
        }
        r.push((u & 0x7f) as u8);
        assert(r@ =~= char_bytes(c));
    } else if u <= 0x7ff {
        proof {
            assert((u >> 6) & 0x1f < 256 && u & 0x3f < 256) by (bit_vector);
        }
        r.push(0xc0u8 | (((u >> 6) & 0x1f) as u8));
        r.push(0x80u8 | ((u & 0x3f) as u8));
        assert(r@ =~= char_bytes(c));
    } else if u <= 0xffff {
        proof {
            assert((u >> 12) & 0x0f < 256 && (u >> 6) & 0x3f < 256 && u & 0x3f < 256)
                by (bit_vector);
        }
        r.push(0xe0u8 | (((u >> 12) & 0x0f) as u8));
        r.push(0x80u8 | (((u >> 6) & 0x3f) as u8));
        r.push(0x80u8 | ((u & 0x3f) as u8));
        assert(r@ =~= char_bytes(c));
    } else {
        proof {
            assert((u >> 18) & 0x07 < 256 && (u >> 12) & 0x3f < 256 && (u >> 6) & 0x3f < 256
                && u & 0x3f < 256) by (bit_vector);
        }
        r.push(0xf0u8 | (((u >> 18) & 0x07) as u8));
        r.push(0x80u8 | (((u >> 12) & 0x3f) as u8));
        r.push(0x80u8 | (((u >> 6) & 0x3f) as u8));
        r.push(0x80u8 | ((u & 0x3f) as u8));
        assert(r@ =~= char_bytes(c));
    }
    r
}

/// Decodes the character whose encoding starts at byte `i` of `s`.
/// Returns the character and the length of its encoding.
pub fn decode_char_at(s: &[u8], i: usize) -> (r: (char, usize))
    requires
        valid_utf8(s@),
        is_char_boundary(s@, i as int),
        i < s@.len(),
    ensures
        1 <= r.1 <= 4,
        i + r.1 <= s@.len(),
        char_bytes(r.0) == s@.subrange(i as int, i + r.1),
        r.1 == length_of_first_scalar(s@.subrange(i as int, s@.len() as int)),
        is_char_boundary(s@, i + r.1),
{
    let ghost tail = s@.subrange(i as int, s@.len() as int);
    proof {
        valid_utf8_split(s@, i as int);
        lemma_first_scalar_decodes(tail);
    }
    let b0 = s[i];
    assert(b0 == tail[0]);
    let ghost cp_spec = decode_first_codepoint(tail);
    let ghost n_spec = length_of_first_scalar(tail);
    let (cp, n): (u32, usize) = if b0 < 0x80 {
        assert(b0 as u32 == vstd::utf8::codepoint_width_1(b0)) by (bit_vector)
            requires
                b0 < 0x80,
        ;
        (b0 as u32, 1)
    } else if b0 < 0xe0 {
        assert(is_leading_byte_width_2(b0)) by {
            assert(valid_first_scalar(tail));
        }
        let b1 = s[i + 1];
        assert(b1 == tail[1]);
        let v = (((b0 & 0x1f) as u32) << 6u32) | ((b1 & 0x3f) as u32);
        assert(v == vstd::utf8::codepoint_width_2(b0, b1)) by (bit_vector)
            requires
                v == (((b0 & 0x1f) as u32) << 6u32) | ((b1 & 0x3f) as u32),
        ;
        (v, 2)
    } else if b0 < 0xf0 {
        let b1 = s[i + 1];
        let b2 = s[i + 2];
        assert(b1 == tail[1] && b2 == tail[2]);
        let v = (((b0 & 0x0f) as u32) << 12u32) | (((b1 & 0x3f) as u32) << 6u32) | ((b2
            & 0x3f) as u32);
        assert(v == vstd::utf8::codepoint_width_3(b0, b1, b2)) by (bit_vector)
            requires
                v == (((b0 & 0x0f) as u32) << 12u32) | (((b1 & 0x3f) as u32) << 6u32) | ((b2
                    & 0x3f) as u32),
        ;
        (v, 3)
    } else {
        let b1 = s[i + 1];
        let b2 = s[i + 2];
        let b3 = s[i + 3];
        assert(b1 == tail[1] && b2 == tail[2] && b3 == tail[3]);
        let v = (((b0 & 0x07) as u32) << 18u32) | (((b1 & 0x3f) as u32) << 12u32) | (((b2
            & 0x3f) as u32) << 6u32) | ((b3 & 0x3f) as u32);
        assert(v == vstd::utf8::codepoint_width_4(b0, b1, b2, b3)) by (bit_vector)
            requires
                v == (((b0 & 0x07) as u32) << 18u32) | (((b1 & 0x3f) as u32) << 12u32) | (((b2
                    & 0x3f) as u32) << 6u32) | ((b3 & 0x3f) as u32),
        ;
        (v, 4)
    };
    assert(cp == cp_spec && n == n_spec);
    let c = char::from_u32(cp).unwrap();
    proof {
        assert(char_bytes(c) == tail.subrange(0, n as int));
        assert(tail.subrange(0, n as int) =~= s@.subrange(i as int, i + n));
        assert(is_char_boundary(s@, i + n)) by {
            vstd::utf8::partial_valid_utf8_extend(s@, i as int);
            lemma_boundary_of_valid_prefix(s@, i + n);
        }
    }
    (c, n)
}

/// In a valid UTF-8 sequence, a prefix that is itself valid ends on a
/// character boundary.
pub proof fn lemma_boundary_of_valid_prefix(s: Seq<u8>, i: int)
    requires
        valid_utf8(s),
        0 <= i <= s.len(),
        valid_utf8(s.subrange(0, i)),
    ensures
        is_char_boundary(s, i),
    decreases i,
{
    if i == 0 {
    } else {
        let pre = s.subrange(0, i);
        assert(valid_first_scalar(pre));
        assert(valid_first_scalar(s)) by {
            assert(forall|k: int| 0 <= k < i ==> pre[k] == s[k]);
        }
        let n = length_of_first_scalar(s);
        assert(length_of_first_scalar(pre) == n);
        let s2 = vstd::utf8::pop_first_scalar(s);
        let pre2 = vstd::utf8::pop_first_scalar(pre);
        assert(pre2 =~= s2.subrange(0, i - n));
        lemma_boundary_of_valid_prefix(s2, i - n);
    }
}

/// In a valid UTF-8 sequence, consecutive boundaries are one scalar apart.
pub proof fn lemma_next_boundary(s: Seq<u8>, i: int)
    requires
        valid_utf8(s),
        is_char_boundary(s, i),
        0 <= i < s.len(),
    ensures
        ({
            let n = length_of_first_scalar(s.subrange(i, s.len() as int));
            &&& 1 <= n <= 4
            &&& i + n <= s.len()
            &&& is_char_boundary(s, i + n)
            &&& forall|j: int| i < j < i + n ==> !is_char_boundary(s, j)
        }),
{
    let tail = s.subrange(i, s.len() as int);
    valid_utf8_split(s, i);
    lemma_first_scalar_decodes(tail);
    let n = length_of_first_scalar(tail);
    vstd::utf8::partial_valid_utf8_extend(s, i);
    lemma_boundary_of_valid_prefix(s, i + n);
    assert forall|j: int| i < j < i + n implies !is_char_boundary(s, j) by {
        assert(is_continuation_byte(s[j])) by {
            assert(tail[j - i] == s[j]);
            assert(valid_first_scalar(tail));
        }
        is_char_boundary_iff_not_is_continuation_byte(s, j);
    }
}

/// Steps back from boundary `i` to the previous character boundary.
pub fn prev_char_start(s: &[u8], i: usize) -> (r: usize)
    requires
        valid_utf8(s@),
        is_char_boundary(s@, i as int),
        0 < i <= s@.len(),
    ensures
        r < i,
        is_char_boundary(s@, r as int),
        length_of_first_scalar(s@.subrange(r as int, s@.len() as int)) == i - r,
        forall|j: int| r < j < i ==> !is_char_boundary(s@, j),
{
    let mut j = i - 1;
    proof {
        is_char_boundary_iff_not_is_continuation_byte(s@, j as int);
    }
    while s[j] >= 0x80 && s[j] < 0xc0
        invariant
            valid_utf8(s@),
            is_char_boundary(s@, i as int),
            0 <= j < i <= s@.len(),
            forall|k: int| j < k < i ==> !is_char_boundary(s@, k),
        decreases j,
    {
        proof {
            is_char_boundary_iff_not_is_continuation_byte(s@, j as int);
            assert(!is_char_boundary(s@, j as int));
            assert(j > 0) by {
                is_char_boundary_start_end_of_seq(s@);
            }
        }
        j = j - 1;
        proof {
            is_char_boundary_iff_not_is_continuation_byte(s@, j as int);
        }
    }
    proof {
        is_char_boundary_iff_not_is_continuation_byte(s@, j as int);
        assert(is_char_boundary(s@, j as int));
        lemma_next_boundary(s@, j as int);
        let n = length_of_first_scalar(s@.subrange(j as int, s@.len() as int));
        assert(is_char_boundary(s@, j + n));
        assert(j + n >= i) by {
            if j + n < i {
                assert(!is_char_boundary(s@, j + n));
            }
        }
        assert(j + n <= i) by {
            if j + n > i {
                assert(!is_char_boundary(s@, i as int));
            }
        }
    }
    j
}

/// The byte offset one character to the right of `i`, clamped at the end.
pub open spec fn next_cur(s: Seq<u8>, i: int) -> int {
    if i >= s.len() {
        i
    } else {
        i + length_of_first_scalar(s.subrange(i, s.len() as int))
    }
}

/// The byte offset `n` characters to the right of `i`, clamped at the end.
pub open spec fn fwd_n(s: Seq<u8>, i: int, n: nat) -> int
    decreases n,
{
    if n == 0 {
        i
    } else {
        fwd_n(s, next_cur(s, i), (n - 1) as nat)
    }
}

/// The byte offset one character to the left of `i`, clamped at the start:
/// the nearest earlier position that does not hold a continuation byte.
pub open spec fn prev_cur(s: Seq<u8>, i: int) -> int
    decreases i,
{
    if i <= 1 {
        0
    } else if !is_continuation_byte(s[i - 1]) {
        i - 1
    } else {
        prev_cur(s, i - 1)
    }
}

/// The byte offset `n` characters to the left of `i`, clamped at the start.
pub open spec fn bwd_n(s: Seq<u8>, i: int, n: nat) -> int
    decreases n,
{
    if n == 0 {
        i
    } else {
        bwd_n(s, prev_cur(s, i), (n - 1) as nat)
    }
}

/// Stepping right from the end of the text stays at the end.
pub proof fn lemma_fwd_at_end(s: Seq<u8>, n: nat)
    ensures
        fwd_n(s, s.len() as int, n) == s.len(),
    decreases n,
{
    if n > 0 {
        lemma_fwd_at_end(s, (n - 1) as nat);
    }
}

/// Stepping left from the start of the text stays at the start.
pub proof fn lemma_bwd_at_start(s: Seq<u8>, n: nat)
    ensures
        bwd_n(s, 0, n) == 0,
    decreases n,
{
    if n > 0 {
        lemma_bwd_at_start(s, (n - 1) as nat);
    }
}

/// Stepping right distributes over addition of step counts.
pub proof fn lemma_fwd_add(s: Seq<u8>, i: int, a: nat, b: nat)
    ensures
        fwd_n(s, i, a + b) == fwd_n(s, fwd_n(s, i, a), b),
    decreases a,
{
    if a > 0 {
        lemma_fwd_add(s, next_cur(s, i), (a - 1) as nat, b);
    }
}

/// Stepping left distributes over addition of step counts.
pub proof fn lemma_bwd_add(s: Seq<u8>, i: int, a: nat, b: nat)
    ensures
        bwd_n(s, i, a + b) == bwd_n(s, bwd_n(s, i, a), b),
    decreases a,
{
    if a > 0 {
        lemma_bwd_add(s, prev_cur(s, i), (a - 1) as nat, b);
    }
}

/// If `j` is the nearest character boundary left of `i`, stepping left from
/// `i` lands on `j`.
pub proof fn lemma_prev_cur_char(s: Seq<u8>, i: int, j: int)
    requires
        valid_utf8(s),
        is_char_boundary(s, j),
        0 <= j < i <= s.len(),
        forall|m: int| j < m < i ==> !is_char_boundary(s, m),
    ensures
        prev_cur(s, i) == j,
    decreases i,
{
    if j == i - 1 {
        if i > 1 {
            is_char_boundary_iff_not_is_continuation_byte(s, j);
        }
    } else {
        is_char_boundary_iff_not_is_continuation_byte(s, i - 1);
        assert(is_continuation_byte(s[i - 1]));
        lemma_prev_cur_char(s, i - 1, j);
    }
}

/// A subrange of valid UTF-8 taken between character boundaries is valid.
pub proof fn lemma_valid_subrange(s: Seq<u8>, i: int, j: int)
    requires
        valid_utf8(s),
        0 <= i <= j <= s.len(),
        is_char_boundary(s, i),
        is_char_boundary(s, j),
    ensures
        valid_utf8(s.subrange(i, j)),
{
    valid_utf8_split(s, i);
    let tail = s.subrange(i, s.len() as int);
    lemma_boundary_shift(s, i, j);
    valid_utf8_split(tail, j - i);
    assert(s.subrange(i, j) =~= tail.subrange(0, j - i));
}

/// Concatenating well-formed line bytes keeps the line well-formed.
pub proof fn lemma_line_wf_concat(a: Seq<u8>, b: Seq<u8>)
    requires
        line_wf(a),
        line_wf(b),
    ensures
        line_wf(a + b),
{
    valid_utf8_concat(a, b);
    assert forall|k: int| 0 <= k < (a + b).len() implies (a + b)[k] != 10u8 by {
        if k < a.len() {
            assert((a + b)[k] == a[k]);
        } else {
            assert((a + b)[k] == b[k - a.len()]);
        }
    }
    assert(!(a + b).contains(10u8));
}

/// A subrange of well-formed line bytes taken between character boundaries
/// is itself well-formed.
pub proof fn lemma_line_wf_subrange(s: Seq<u8>, i: int, j: int)
    requires
        line_wf(s),
        0 <= i <= j <= s.len(),
        is_char_boundary(s, i),
        is_char_boundary(s, j),
    ensures
        line_wf(s.subrange(i, j)),
{
    valid_utf8_split(s, i);
    let tail = s.subrange(i, s.len() as int);
    lemma_boundary_shift(s, i, j);
    valid_utf8_split(tail, j - i);
    assert(s.subrange(i, j) =~= tail.subrange(0, j - i));
    assert forall|k: int| 0 <= k < j - i implies s.subrange(i, j)[k] != 10u8 by {
        assert(s.subrange(i, j)[k] == s[i + k]);
    }
    assert(!s.subrange(i, j).contains(10u8));
}

/// The first scalar of a concatenation is the first scalar of its
/// non-empty valid head.
pub proof fn lemma_first_scalar_prefix(x: Seq<u8>, z: Seq<u8>)
    requires
        valid_utf8(x),
        x.len() > 0,
    ensures
        valid_first_scalar(x + z),
        length_of_first_scalar(x + z) == length_of_first_scalar(x),
        decode_first_codepoint(x + z) == decode_first_codepoint(x),
{
    assert(valid_first_scalar(x));
    let s = x + z;
    assert(s[0] == x[0]);
    if 1 < x.len() {
        assert(s[1] == x[1]);
    }
    if 2 < x.len() {
        assert(s[2] == x[2]);
    }
    if 3 < x.len() {
        assert(s[3] == x[3]);
    }
    lemma_first_scalar_decodes(x);
}

/// Splitting well-formed line bytes at a character boundary leaves two
/// well-formed halves.
pub proof fn lemma_line_wf_split(s: Seq<u8>, c: int)
    requires
        line_wf(s),
        0 <= c <= s.len(),
        is_char_boundary(s, c),
    ensures
        line_wf(s.take(c)),
        line_wf(s.skip(c)),
{
    assert(is_char_boundary(s, 0) && is_char_boundary(s, s.len() as int)) by {
        is_char_boundary_start_end_of_seq(s);
    }
    lemma_line_wf_subrange(s, 0, c);
    lemma_line_wf_subrange(s, c, s.len() as int);
    assert(s.take(c) == s.subrange(0, c));
    assert(s.skip(c) == s.subrange(c, s.len() as int));
}

/// A boundary of `s` past `i` is a boundary of the tail of `s` from `i`.
pub proof fn lemma_boundary_shift(s: Seq<u8>, i: int, j: int)
    requires
        valid_utf8(s),
        is_char_boundary(s, i),
        0 <= i <= j <= s.len(),
        is_char_boundary(s, j),
    ensures
        is_char_boundary(s.subrange(i, s.len() as int), j - i),
    decreases i,
{
    if i == 0 {
        assert(s.subrange(0, s.len() as int) =~= s);
    } else {
        assert(valid_first_scalar(s));
        let n = length_of_first_scalar(s);
        let s2 = vstd::utf8::pop_first_scalar(s);
        assert(n <= i) by {
            if i < n {
                lemma_next_boundary(s, 0);
            }
        }
        assert(n <= j) by {
            if j < n {
                lemma_next_boundary(s, 0);
            }
        }
        lemma_boundary_shift(s2, i - n, j - n);
        assert(s2.subrange(i - n, s2.len() as int) =~= s.subrange(i, s.len() as int));
    }
}

} // verus!
