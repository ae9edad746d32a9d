//! Character-level model of the scanner: whitespace, word and line
//! boundaries, trimming, macro-body line capture, and position tracking.
//!
//! Everything here is stated over a `Seq<char>` and an index into it; the
//! executable tokenizer in `token` is proved equal to these functions.

use vstd::prelude::*;

verus! {

/// Whether `c` has the Unicode `White_Space` property: the set of characters
/// that `char::is_whitespace` accepts.
pub open spec fn is_ws_char(c: char) -> bool {
    c == ' ' || c == '\t' || c == '\n' || c == '\u{b}' || c == '\u{c}' || c == '\r'
        || c == '\u{85}' || c == '\u{a0}' || c == '\u{1680}' || c == '\u{2000}'
        || c == '\u{2001}' || c == '\u{2002}' || c == '\u{2003}' || c == '\u{2004}'
        || c == '\u{2005}' || c == '\u{2006}' || c == '\u{2007}' || c == '\u{2008}'
        || c == '\u{2009}' || c == '\u{200a}' || c == '\u{2028}' || c == '\u{2029}'
        || c == '\u{202f}' || c == '\u{205f}' || c == '\u{3000}'
}

/// Runtime whitespace test, equal to the spec-level `is_ws_char`.
pub fn is_ws(c: char) -> (r: bool)
    ensures
        r == is_ws_char(c),
{
    match c {
        ' ' | '\t' | '\n' | '\u{b}' | '\u{c}' | '\r' | '\u{85}' | '\u{a0}' | '\u{1680}'
            | '\u{2000}' | '\u{2001}' | '\u{2002}' | '\u{2003}' | '\u{2004}' | '\u{2005}'
            | '\u{2006}' | '\u{2007}' | '\u{2008}' | '\u{2009}' | '\u{200a}' | '\u{2028}'
            | '\u{2029}' | '\u{202f}' | '\u{205f}' | '\u{3000}' => true,
        _ => false,
    }
}

/// A word: non-empty, and free of whitespace characters.
pub open spec fn is_word(w: Seq<char>) -> bool {
    w.len() > 0 && forall|t: int| 0 <= t < w.len() ==> !is_ws_char(#[trigger] w[t])
}

/// The first index at or after `i` that does not hold whitespace (or the
/// length of `s` if only whitespace remains).
pub open spec fn skip_ws_idx(s: Seq<char>, i: int) -> int
    decreases s.len() - i,
{
    if i < s.len() && is_ws_char(s[i]) {
        skip_ws_idx(s, i + 1)
    } else {
        i
    }
}

/// The index just past the word that starts at `i`: the first index at or
/// after `i` holding whitespace, or the length of `s`.
pub open spec fn word_end_idx(s: Seq<char>, i: int) -> int
    decreases s.len() - i,
{
    if i < s.len() && !is_ws_char(s[i]) {
        word_end_idx(s, i + 1)
    } else {
        i
    }
}

/// The index of the next newline at or after `i`, or the length of `s`.
pub open spec fn line_end_idx(s: Seq<char>, i: int) -> int
    decreases s.len() - i,
{
    if i < s.len() && s[i] != '\n' {
        line_end_idx(s, i + 1)
    } else {
        i
    }
}

pub proof fn lemma_skip_ws_idx_bounds(s: Seq<char>, i: int)
    requires
        0 <= i <= s.len(),
    ensures
        i <= skip_ws_idx(s, i) <= s.len(),
        forall|t: int| i <= t < skip_ws_idx(s, i) ==> is_ws_char(#[trigger] s[t]),
        skip_ws_idx(s, i) < s.len() ==> !is_ws_char(s[skip_ws_idx(s, i)]),
    decreases s.len() - i,
{
    if i < s.len() && is_ws_char(s[i]) {
        lemma_skip_ws_idx_bounds(s, i + 1);
    }
}

/// A run of whitespace from `i` to `e`, with `e` at the end of input or on a
/// non-whitespace character, is exactly what `skip_ws_idx` passes over.
pub proof fn lemma_skip_ws_idx_complete(s: Seq<char>, i: int, e: int)
    requires
        0 <= i <= e <= s.len(),
        forall|t: int| i <= t < e ==> is_ws_char(#[trigger] s[t]),
        e == s.len() || !is_ws_char(s[e]),
    ensures
        skip_ws_idx(s, i) == e,
    decreases e - i,
{
    if i < e {
        lemma_skip_ws_idx_complete(s, i + 1, e);
    }
}

pub proof fn lemma_word_end_idx_bounds(s: Seq<char>, i: int)
    requires
        0 <= i <= s.len(),
    ensures
        i <= word_end_idx(s, i) <= s.len(),
        forall|t: int| i <= t < word_end_idx(s, i) ==> !is_ws_char(#[trigger] s[t]),
        word_end_idx(s, i) < s.len() ==> is_ws_char(s[word_end_idx(s, i)]),
    decreases s.len() - i,
{
    if i < s.len() && !is_ws_char(s[i]) {
        lemma_word_end_idx_bounds(s, i + 1);
    }
}

/// A run without whitespace from `i` to `e`, with `e` at the end of input or
/// on a whitespace character, is exactly one word.
pub proof fn lemma_word_end_idx_complete(s: Seq<char>, i: int, e: int)
    requires
        0 <= i <= e <= s.len(),
        forall|t: int| i <= t < e ==> !is_ws_char(#[trigger] s[t]),
        e == s.len() || is_ws_char(s[e]),
    ensures
        word_end_idx(s, i) == e,
    decreases e - i,
{
    if i < e {
        lemma_word_end_idx_complete(s, i + 1, e);
    }
}

pub proof fn lemma_line_end_idx_bounds(s: Seq<char>, i: int)
    requires
        0 <= i <= s.len(),
    ensures
        i <= line_end_idx(s, i) <= s.len(),
        forall|t: int| i <= t < line_end_idx(s, i) ==> #[trigger] s[t] != '\n',
        line_end_idx(s, i) < s.len() ==> s[line_end_idx(s, i)] == '\n',
    decreases s.len() - i,
{
    if i < s.len() && s[i] != '\n' {
        lemma_line_end_idx_bounds(s, i + 1);
    }
}

pub proof fn lemma_line_end_idx_complete(s: Seq<char>, i: int, e: int)
    requires
        0 <= i <= e <= s.len(),
        forall|t: int| i <= t < e ==> #[trigger] s[t] != '\n',
        e == s.len() || s[e] == '\n',
    ensures
        line_end_idx(s, i) == e,
    decreases e - i,
{
    if i < e {
        lemma_line_end_idx_complete(s, i + 1, e);
    }
}

/// The index that is left of `j` after dropping trailing whitespace of
/// `w.subrange(0, j)`.
pub open spec fn trim_end_idx(w: Seq<char>, j: int) -> int
    decreases j,
{
    if j > 0 && is_ws_char(w[j - 1]) {
        trim_end_idx(w, j - 1)
    } else {
        j
    }
}

pub proof fn lemma_trim_end_idx_bounds(w: Seq<char>, j: int)
    requires
        0 <= j <= w.len(),
    ensures
        0 <= trim_end_idx(w, j) <= j,
        forall|t: int| trim_end_idx(w, j) <= t < j ==> is_ws_char(#[trigger] w[t]),
        trim_end_idx(w, j) > 0 ==> !is_ws_char(w[trim_end_idx(w, j) - 1]),
    decreases j,
{
    if j > 0 && is_ws_char(w[j - 1]) {
        lemma_trim_end_idx_bounds(w, j - 1);
    }
}

pub proof fn lemma_trim_end_idx_complete(w: Seq<char>, j: int, e: int)
    requires
        0 <= e <= j <= w.len(),
        forall|t: int| e <= t < j ==> is_ws_char(#[trigger] w[t]),
        e == 0 || !is_ws_char(w[e - 1]),
    ensures
        trim_end_idx(w, j) == e,
    decreases j - e,
{
    if e < j {
        lemma_trim_end_idx_complete(w, j - 1, e);
    }
}

/// `w` with leading and trailing whitespace removed.
pub open spec fn trim_seq(w: Seq<char>) -> Seq<char> {
    let a = skip_ws_idx(w, 0);
    if a == w.len() {
        Seq::empty()
    } else {
        w.subrange(a, trim_end_idx(w, w.len() as int))
    }
}

/// Trimming keeps the bounds straight: on a sequence with at least one
/// non-whitespace character the trimmed subrange is well formed.
pub proof fn lemma_trim_seq_bounds(w: Seq<char>)
    ensures
        trim_seq(w).len() <= w.len(),
        skip_ws_idx(w, 0) < w.len() ==> skip_ws_idx(w, 0) < trim_end_idx(w, w.len() as int)
            <= w.len(),
        (exists|t: int| 0 <= t < w.len() && !is_ws_char(#[trigger] w[t])) ==> trim_seq(w).len()
            > 0,
{
    lemma_skip_ws_idx_bounds(w, 0);
    lemma_trim_end_idx_bounds(w, w.len() as int);
    let a = skip_ws_idx(w, 0);
    if a < w.len() {
        let b = trim_end_idx(w, w.len() as int);
        if b <= a {
            assert(is_ws_char(w[a]));
            assert(false);
        }
    }
    if exists|t: int| 0 <= t < w.len() && !is_ws_char(#[trigger] w[t]) {
        let t = choose|t: int| 0 <= t < w.len() && !is_ws_char(#[trigger] w[t]);
        if a == w.len() {
            assert(is_ws_char(w[t]));
        }
    }
}

/// The macro-body lines captured from `i` on: one entry per line, trimmed,
/// up to (and not including) the first line that is blank after trimming, or
/// the end of input.  `i` is expected to sit on a non-whitespace character or
/// at the end of input, since the tokenizer skips whitespace first.
pub open spec fn cmds_from(s: Seq<char>, i: int) -> Seq<Seq<char>>
    decreases s.len() - i,
    via lemma_cmds_from_decreases
{
    if i < 0 || i >= s.len() {
        Seq::empty()
    } else {
        let e = line_end_idx(s, i);
        let line = s.subrange(i, e);
        let next = if e < s.len() {
            e + 1
        } else {
            e
        };
        if trim_seq(line).len() == 0 {
            Seq::empty()
        } else {
            seq![trim_seq(line)] + cmds_from(s, next)
        }
    }
}

/// The index just past what the macro-body capture starting at `i` consumes,
/// including the terminating blank line if one is present.
pub open spec fn cmds_end(s: Seq<char>, i: int) -> int
    decreases s.len() - i,
    via lemma_cmds_end_decreases
{
    if i < 0 || i >= s.len() {
        i
    } else {
        let e = line_end_idx(s, i);
        let line = s.subrange(i, e);
        let next = if e < s.len() {
            e + 1
        } else {
            e
        };
        if trim_seq(line).len() == 0 {
            next
        } else {
            cmds_end(s, next)
        }
    }
}

/// A line that ends where it starts is blank after trimming, so the
/// line-capture recursion always moves forward.
pub proof fn lemma_capture_step(s: Seq<char>, i: int)
    requires
        0 <= i < s.len(),
    ensures
        i <= line_end_idx(s, i) <= s.len(),
        trim_seq(s.subrange(i, line_end_idx(s, i))).len() != 0 ==> line_end_idx(s, i) > i,
{
    lemma_line_end_idx_bounds(s, i);
    let e = line_end_idx(s, i);
    if e == i {
        let line = s.subrange(i, e);
        assert(line.len() == 0);
        assert(skip_ws_idx(line, 0) == 0);
        assert(trim_seq(line).len() == 0);
    }
}

#[via_fn]
proof fn lemma_cmds_from_decreases(s: Seq<char>, i: int) {
    if 0 <= i && i < s.len() {
        lemma_capture_step(s, i);
    }
}

#[via_fn]
proof fn lemma_cmds_end_decreases(s: Seq<char>, i: int) {
    if 0 <= i && i < s.len() {
        lemma_capture_step(s, i);
    }
}

pub proof fn lemma_cmds_end_bounds(s: Seq<char>, i: int)
    requires
        0 <= i <= s.len(),
    ensures
        i <= cmds_end(s, i) <= s.len(),
        i + cmds_from(s, i).len() <= cmds_end(s, i),
    decreases s.len() - i,
{
    if i < s.len() {
        lemma_line_end_idx_bounds(s, i);
        let e = line_end_idx(s, i);
        let next = if e < s.len() {
            e + 1
        } else {
            e
        };
        let line = s.subrange(i, e);
        if trim_seq(line).len() == 0 {
            lemma_trim_seq_bounds(line);
        } else {
            lemma_trim_seq_bounds(line);
            assert(next > i);
            lemma_cmds_end_bounds(s, next);
        }
    }
}

/// The new (row, column) position after consuming the characters of
/// `s.subrange(i, j)`, starting from (row, col).  A newline steps to the next
/// row and resets the column to 1; any other character advances the column.
pub open spec fn step_pos(row: int, col: int, c: char) -> (int, int) {
    if c == '\n' {
        (row + 1, 1)
    } else {
        (row, col + 1)
    }
}

pub open spec fn pos_after(s: Seq<char>, i: int, j: int, row: int, col: int) -> (int, int)
    decreases j - i,
{
    if i < j {
        let p = pos_after(s, i, j - 1, row, col);
        step_pos(p.0, p.1, s[j - 1])
    } else {
        (row, col)
    }
}

/// Positions compose: tracking through `i..k` equals tracking through `i..j`
/// and then `j..k`.
pub proof fn lemma_pos_after_concat(s: Seq<char>, i: int, j: int, k: int, row: int, col: int)
    requires
        i <= j <= k,
    ensures
        pos_after(s, i, k, row, col) == pos_after(
            s,
            j,
            k,
            pos_after(s, i, j, row, col).0,
            pos_after(s, i, j, row, col).1,
        ),
    decreases k - j,
{
    if j < k {
        lemma_pos_after_concat(s, i, j, k - 1, row, col);
    }
}

/// Position rows and columns stay within one more than the number of
/// characters consumed.
pub proof fn lemma_pos_after_bounds(s: Seq<char>, i: int, j: int, row: int, col: int)
    requires
        i <= j,
        1 <= row,
        1 <= col,
    ensures
        1 <= pos_after(s, i, j, row, col).0,
        1 <= pos_after(s, i, j, row, col).1,
        pos_after(s, i, j, row, col).0 + pos_after(s, i, j, row, col).1 <= row + col + (j - i),
    decreases j - i,
{
    if i < j {
        lemma_pos_after_bounds(s, i, j - 1, row, col);
    }
}

} // verus!
