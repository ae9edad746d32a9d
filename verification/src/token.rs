//! The two-mode tokenizer: word mode yields whitespace-delimited words
//! classified into keywords or opaque strings; line-capture mode collects a
//! macro body.  A thin lexer turns "no more words" into an explicit error.

use vstd::prelude::*;
use vstd::string::StrSliceExecFns;
use vstd::string::StringExecFns;

use crate::model::Error;
use crate::model::ErrorView;
use crate::model::Position;
use crate::model::lemma_vec_deep_view_push;
use crate::scan::cmds_end;
use crate::scan::cmds_from;
use crate::scan::is_ws;
use crate::scan::is_ws_char;
use crate::scan::lemma_cmds_end_bounds;
use crate::scan::lemma_pos_after_concat;
use crate::scan::line_end_idx;
use crate::scan::pos_after;
use crate::scan::skip_ws_idx;
use crate::scan::trim_end_idx;
use crate::scan::trim_seq;
use crate::scan::word_end_idx;

verus! {

/// One whitespace-delimited word, classified: the six fixed keywords, or an
/// opaque string carrying the original text.
#[derive(Debug)]
pub enum Token {
    Machine,
    Default,
    Login,
    Password,
    Account,
    MacDef,
    Str(String),
}

/// The mathematical value of a [`Token`].
pub enum TokenView {
    Machine,
    Default,
    Login,
    Password,
    Account,
    MacDef,
    Str(Seq<char>),
}

impl View for Token {
    type V = TokenView;

    open spec fn view(&self) -> TokenView {
        match self {
            Token::Machine => TokenView::Machine,
            Token::Default => TokenView::Default,
            Token::Login => TokenView::Login,
            Token::Password => TokenView::Password,
            Token::Account => TokenView::Account,
            Token::MacDef => TokenView::MacDef,
            Token::Str(s) => TokenView::Str(s@),
        }
    }
}

/// How a raw word is classified: an exact, case-sensitive match against the
/// six keywords; anything else is an opaque string.
pub open spec fn classify(w: Seq<char>) -> TokenView {
    if w == "machine"@ {
        TokenView::Machine
    } else if w == "default"@ {
        TokenView::Default
    } else if w == "login"@ {
        TokenView::Login
    } else if w == "password"@ {
        TokenView::Password
    } else if w == "account"@ {
        TokenView::Account
    } else if w == "macdef"@ {
        TokenView::MacDef
    } else {
        TokenView::Str(w)
    }
}

/// The text a token renders back to: the keyword spelling, or the opaque
/// string verbatim.
pub open spec fn token_text(t: TokenView) -> Seq<char> {
    match t {
        TokenView::Machine => "machine"@,
        TokenView::Default => "default"@,
        TokenView::Login => "login"@,
        TokenView::Password => "password"@,
        TokenView::Account => "account"@,
        TokenView::MacDef => "macdef"@,
        TokenView::Str(s) => s,
    }
}

/// Classifying a word and rendering it back recovers the word.
pub proof fn lemma_token_text_classify(w: Seq<char>)
    ensures
        token_text(classify(w)) == w,
{
}

impl Token {
    /// Classifies one raw word.
    pub fn new(s: String) -> (t: Token)
        ensures
            t@ == classify(s@),
    {
        if s == "machine".to_owned() {
            Token::Machine
        } else if s == "default".to_owned() {
            Token::Default
        } else if s == "login".to_owned() {
            Token::Login
        } else if s == "password".to_owned() {
            Token::Password
        } else if s == "account".to_owned() {
            Token::Account
        } else if s == "macdef".to_owned() {
            Token::MacDef
        } else {
            Token::Str(s)
        }
    }

    /// Renders the token back to text.
    pub fn to_text(&self) -> (r: String)
        ensures
            r@ == token_text(self@),
    {
        match self {
            Token::Machine => "machine".to_owned(),
            Token::Default => "default".to_owned(),
            Token::Login => "login".to_owned(),
            Token::Password => "password".to_owned(),
            Token::Account => "account".to_owned(),
            Token::MacDef => "macdef".to_owned(),
            Token::Str(s) => s.clone(),
        }
    }
}

/// The character scanner: a read cursor `i` over the borrowed input and the
/// (row, column) position of the cursor.
pub struct Tokens<'a> {
    pub buf: &'a str,
    pub i: usize,
    pub pos: Position,
}

impl<'a> Tokens<'a> {
    /// Well-formedness: the cursor is inside the input, and the position
    /// cannot outrun the characters consumed.
    pub open spec fn wf(self) -> bool {
        &&& self.i <= self.buf@.len()
        &&& self.buf@.len() < usize::MAX
        &&& 1 <= self.pos.0
        &&& 1 <= self.pos.1
        &&& self.pos.0 + self.pos.1 <= self.i + 2
    }

    /// A scanner at the start of `buf`, at row 1 and column 1.
    pub fn new(buf: &'a str) -> (t: Tokens<'a>)
        requires
            buf@.len() < usize::MAX,
        ensures
            t.wf(),
            t.buf@ == buf@,
            t.i == 0,
            t.pos.0 == 1,
            t.pos.1 == 1,
    {
        Tokens { buf, i: 0, pos: Position(1, 1) }
    }

    /// Steps the position over one consumed character.
    pub fn update_position(&mut self, ch: char)
        requires
            old(self).pos.0 < usize::MAX,
            old(self).pos.1 < usize::MAX,
        ensures
            final(self).buf == old(self).buf,
            final(self).i == old(self).i,
            (final(self).pos.0 as int, final(self).pos.1 as int) == crate::scan::step_pos(
                old(self).pos.0 as int,
                old(self).pos.1 as int,
                ch,
            ),
    {
        if ch == '\n' {
            self.pos.0 = self.pos.0 + 1;
            self.pos.1 = 1;
        } else {
            self.pos.1 = self.pos.1 + 1;
        }
    }

    /// The current position.
    pub fn position(&self) -> (p: Position)
        ensures
            p == self.pos,
    {
        self.pos
    }

    /// Advances the cursor past any run of whitespace, tracking the position
    /// through every character consumed.
    pub fn skip_whitespace(&mut self)
        requires
            old(self).wf(),
        ensures
            final(self).wf(),
            final(self).buf == old(self).buf,
            final(self).i == skip_ws_idx(old(self).buf@, old(self).i as int),
            (final(self).pos.0 as int, final(self).pos.1 as int) == pos_after(
                old(self).buf@,
                old(self).i as int,
                final(self).i as int,
                old(self).pos.0 as int,
                old(self).pos.1 as int,
            ),
    {
        let ghost s0 = *self;
        let n = self.buf.unicode_len();
        while self.i < n && is_ws(self.buf.get_char(self.i))
            invariant
                self.buf == s0.buf,
                n == s0.buf@.len(),
                s0.i <= self.i <= n,
                s0.wf(),
                self.wf(),
                skip_ws_idx(s0.buf@, s0.i as int) == skip_ws_idx(s0.buf@, self.i as int),
                (self.pos.0 as int, self.pos.1 as int) == pos_after(
                    s0.buf@,
                    s0.i as int,
                    self.i as int,
                    s0.pos.0 as int,
                    s0.pos.1 as int,
                ),
            decreases n - self.i,
        {
            let c = self.buf.get_char(self.i);
            self.update_position(c);
            self.i = self.i + 1;
        }
    }

    /// Word mode: skips whitespace, then consumes and classifies the next
    /// word.  Yields nothing exactly when only whitespace remained.
    pub fn next_token(&mut self) -> (r: Option<Token>)
        requires
            old(self).wf(),
        ensures
            final(self).wf(),
            final(self).buf == old(self).buf,
            ({
                let s = old(self).buf@;
                let j = skip_ws_idx(s, old(self).i as int);
                if j == s.len() {
                    &&& r is None
                    &&& final(self).i == j
                    &&& (final(self).pos.0 as int, final(self).pos.1 as int) == pos_after(
                        s,
                        old(self).i as int,
                        j,
                        old(self).pos.0 as int,
                        old(self).pos.1 as int,
                    )
                } else {
                    let k = word_end_idx(s, j);
                    &&& r matches Some(t) && t@ == classify(s.subrange(j, k))
                    &&& final(self).i == k
                    &&& (final(self).pos.0 as int, final(self).pos.1 as int) == pos_after(
                        s,
                        old(self).i as int,
                        k,
                        old(self).pos.0 as int,
                        old(self).pos.1 as int,
                    )
                }
            }),
    {
        let ghost s0 = *self;
        self.skip_whitespace();
        proof {
            crate::scan::lemma_skip_ws_idx_bounds(s0.buf@, s0.i as int);
        }
        let ghost sj = *self;
        let n = self.buf.unicode_len();
        if self.i < n {
            let start = self.i;
            while self.i < n && !is_ws(self.buf.get_char(self.i))
                invariant
                    self.buf == sj.buf,
                    n == sj.buf@.len(),
                    sj.i <= self.i <= n,
                    start == sj.i,
                    sj.wf(),
                    self.wf(),
                    word_end_idx(sj.buf@, sj.i as int) == word_end_idx(sj.buf@, self.i as int),
                    (self.pos.0 as int, self.pos.1 as int) == pos_after(
                        sj.buf@,
                        sj.i as int,
                        self.i as int,
                        sj.pos.0 as int,
                        sj.pos.1 as int,
                    ),
                decreases n - self.i,
            {
                let c = self.buf.get_char(self.i);
                self.update_position(c);
                self.i = self.i + 1;
            }
            proof {
                lemma_pos_after_concat(
                    s0.buf@,
                    s0.i as int,
                    sj.i as int,
                    self.i as int,
                    s0.pos.0 as int,
                    s0.pos.1 as int,
                );
            }
            let w = self.buf.substring_char(start, self.i).to_owned();
            Some(Token::new(w))
        } else {
            None
        }
    }

    /// Line-capture mode, used for macro bodies: skips whitespace, then
    /// consumes line after line, each trimmed and kept, until a line that is
    /// blank after trimming (consumed, not kept) or the end of input.  The
    /// row advances by the number of captured lines and the column resets:
    /// positions inside a macro body are deliberately coarse.
    pub fn next_commands(&mut self) -> (cmds: Vec<String>)
        requires
            old(self).wf(),
        ensures
            final(self).wf(),
            final(self).buf == old(self).buf,
            ({
                let s = old(self).buf@;
                let j = skip_ws_idx(s, old(self).i as int);
                &&& cmds.deep_view() == cmds_from(s, j)
                &&& final(self).i == cmds_end(s, j)
                &&& final(self).pos.0 as int == pos_after(
                    s,
                    old(self).i as int,
                    j,
                    old(self).pos.0 as int,
                    old(self).pos.1 as int,
                ).0 + cmds_from(s, j).len()
                &&& final(self).pos.1 == 1
            }),
    {
        self.skip_whitespace();
        let ghost t0 = *self;
        let ghost s = self.buf@;
        let ghost j = self.i as int;
        let ghost pos_j = self.pos;
        let n = self.buf.unicode_len();
        let mut cmds: Vec<String> = Vec::new();
        loop
            invariant_except_break
                cmds_from(s, j) == cmds.deep_view() + cmds_from(s, self.i as int),
                cmds_end(s, j) == cmds_end(s, self.i as int),
            invariant
                self.buf == t0.buf,
                self.buf@ == s,
                n == s.len(),
                s.len() < usize::MAX,
                j <= self.i <= n,
                self.pos == pos_j,
                cmds.len() <= self.i - j,
            ensures
                self.buf == t0.buf,
                self.pos == pos_j,
                cmds.deep_view() == cmds_from(s, j),
                self.i == cmds_end(s, j),
                cmds.len() == cmds_from(s, j).len(),
                j <= self.i <= n,
                cmds.len() <= self.i - j,
            decreases n - self.i,
        {
            if self.i >= n {
                proof {
                    assert(cmds_from(s, self.i as int) =~= Seq::<Seq<char>>::empty());
                    assert(cmds.deep_view() + Seq::<Seq<char>>::empty() =~= cmds.deep_view());
                }
                break ;
            }
            let e = find_line_end(self.buf, self.i, n);
            let trimmed = trim_line(self.buf, self.i, e);
            let ghost icur = self.i as int;
            let next = if e < n {
                e + 1
            } else {
                e
            };
            self.i = next;
            if trimmed.as_str().is_empty() {
                proof {
                    let line = s.subrange(icur, line_end_idx(s, icur));
                    assert(trim_seq(line).len() == 0);
                    assert(cmds_from(s, icur) =~= Seq::<Seq<char>>::empty());
                    assert(cmds_end(s, icur) == next);
                    assert(cmds.deep_view() + Seq::<Seq<char>>::empty() =~= cmds.deep_view());
                }
                break ;
            }
            let ghost cmds_pre = cmds;
            cmds.push(trimmed);
            proof {
                lemma_vec_deep_view_push(cmds_pre, cmds, trimmed);
                crate::scan::lemma_capture_step(s, icur);
                let line = s.subrange(icur, line_end_idx(s, icur));
                assert(cmds_from(s, icur) == seq![trim_seq(line)] + cmds_from(s, next as int));
                assert(cmds_end(s, icur) == cmds_end(s, next as int));
                assert(cmds_pre.deep_view().push(trim_seq(line)) + cmds_from(s, next as int)
                    =~= cmds_pre.deep_view() + (seq![trim_seq(line)] + cmds_from(s, next as int)));
            }
        }
        proof {
            lemma_cmds_end_bounds(s, j);
        }
        let k = cmds.len();
        self.pos.0 = self.pos.0 + k;
        self.pos.1 = 1;
        cmds
    }
}

/// The index of the next newline at or after `start`, or the input length.
fn find_line_end(buf: &str, start: usize, n: usize) -> (e: usize)
    requires
        start <= n,
        n == buf@.len(),
    ensures
        e == line_end_idx(buf@, start as int),
        start <= e <= n,
{
    let mut e = start;
    while e < n && buf.get_char(e) != '\n'
        invariant
            start <= e <= n,
            n == buf@.len(),
            line_end_idx(buf@, start as int) == line_end_idx(buf@, e as int),
        decreases n - e,
    {
        e = e + 1;
    }
    e
}

/// The characters of `buf` between `start` and `e`, with leading and
/// trailing whitespace removed.
fn trim_line(buf: &str, start: usize, e: usize) -> (r: String)
    requires
        start <= e <= buf@.len(),
    ensures
        r@ == trim_seq(buf@.subrange(start as int, e as int)),
{
    let line = buf.substring_char(start, e);
    let m = line.unicode_len();
    let mut a: usize = 0;
    while a < m && is_ws(line.get_char(a))
        invariant
            0 <= a <= m,
            m == line@.len(),
            skip_ws_idx(line@, 0) == skip_ws_idx(line@, a as int),
        decreases m - a,
    {
        a = a + 1;
    }
    proof {
        assert(skip_ws_idx(line@, a as int) == a);
    }
    if a == m {
        String::new()
    } else {
        let mut b: usize = m;
        while b > a && is_ws(line.get_char(b - 1))
            invariant
                a < b <= m,
                a < m,
                m == line@.len(),
                !is_ws_char(line@[a as int]),
                trim_end_idx(line@, m as int) == trim_end_idx(line@, b as int),
            decreases b,
        {
            b = b - 1;
        }
        proof {
            assert(trim_end_idx(line@, b as int) == b);
            assert(line@.subrange(a as int, b as int) == trim_seq(line@));
        }
        line.substring_char(a, b).to_owned()
    }
}

/// Wraps the tokenizer so that "no more words" becomes an explicit
/// end-of-input error: inside an entry, running out of input while one more
/// word is required must be distinguishable from running out between
/// entries.
pub struct Lexer<'a> {
    pub tokens: Tokens<'a>,
}

impl<'a> Lexer<'a> {
    pub fn new(buf: &'a str) -> (l: Lexer<'a>)
        requires
            buf@.len() < usize::MAX,
        ensures
            l.tokens.wf(),
            l.tokens.buf@ == buf@,
            l.tokens.i == 0,
            l.tokens.pos.0 == 1,
            l.tokens.pos.1 == 1,
    {
        Lexer { tokens: Tokens::new(buf) }
    }

    /// The next word, or the end-of-input error when only whitespace
    /// remains.
    pub fn next_token(&mut self) -> (r: Result<Token, Error>)
        requires
            old(self).tokens.wf(),
        ensures
            final(self).tokens.wf(),
            final(self).tokens.buf == old(self).tokens.buf,
            ({
                let s = old(self).tokens.buf@;
                let j = skip_ws_idx(s, old(self).tokens.i as int);
                if j == s.len() {
                    &&& r matches Err(e) && e@ == ErrorView::EOF
                    &&& final(self).tokens.i == j
                    &&& (final(self).tokens.pos.0 as int, final(self).tokens.pos.1 as int) == pos_after(
                        s,
                        old(self).tokens.i as int,
                        j,
                        old(self).tokens.pos.0 as int,
                        old(self).tokens.pos.1 as int,
                    )
                } else {
                    let k = word_end_idx(s, j);
                    &&& r matches Ok(t) && t@ == classify(s.subrange(j, k))
                    &&& final(self).tokens.i == k
                    &&& (final(self).tokens.pos.0 as int, final(self).tokens.pos.1 as int) == pos_after(
                        s,
                        old(self).tokens.i as int,
                        k,
                        old(self).tokens.pos.0 as int,
                        old(self).tokens.pos.1 as int,
                    )
                }
            }),
    {
        match self.tokens.next_token() {
            Some(t) => Ok(t),
            None => Err(Error::EOF),
        }
    }

    /// Captures a macro body through the tokenizer's line mode.
    pub fn next_commands(&mut self) -> (cmds: Vec<String>)
        requires
            old(self).tokens.wf(),
        ensures
            final(self).tokens.wf(),
            final(self).tokens.buf == old(self).tokens.buf,
            ({
                let s = old(self).tokens.buf@;
                let j = skip_ws_idx(s, old(self).tokens.i as int);
                &&& cmds.deep_view() == cmds_from(s, j)
                &&& final(self).tokens.i == cmds_end(s, j)
                &&& final(self).tokens.pos.0 as int == pos_after(
                    s,
                    old(self).tokens.i as int,
                    j,
                    old(self).tokens.pos.0 as int,
                    old(self).tokens.pos.1 as int,
                ).0 + cmds_from(s, j).len()
                &&& final(self).tokens.pos.1 == 1
            }),
    {
        self.tokens.next_commands()
    }
}

} // verus!
