//! The entry state machine and the top-level parse loop.
//!
//! `parse_from` is the mathematical parser: it consumes the input word by
//! word from an index, threading the accumulated result, the credential
//! counters and the (row, column) position, and either ends between entries
//! (success) or stops at the first failure.  `Netrc::parse` and
//! `Netrc::parse_borrow` are proved to return exactly its value.

use vstd::prelude::*;
use vstd::string::StringExecFns;

use crate::model::Error;
use crate::model::ErrorView;
use crate::model::Machine;
use crate::model::MachineView;
use crate::model::Netrc;
use crate::model::NetrcView;
use crate::model::empty_machine_view;
use crate::model::empty_netrc_view;
use crate::model::lemma_vec_deep_view_push;
use crate::model::lemma_vec_deep_view_update;
use crate::scan::cmds_end;
use crate::scan::cmds_from;
use crate::scan::lemma_cmds_end_bounds;
use crate::scan::lemma_skip_ws_idx_bounds;
use crate::scan::lemma_word_end_idx_bounds;
use crate::scan::pos_after;
use crate::scan::skip_ws_idx;
use crate::scan::word_end_idx;
use crate::token::Lexer;
use crate::token::Token;
use crate::token::TokenView;
use crate::token::classify;

verus! {

/// The running counters of one parse call.  `login`, `password` and
/// `account` may never be brought above `machine`: that is the signal that a
/// credential keyword appeared before any machine or default entry was open,
/// or too many times relative to the entries opened.
#[derive(Debug)]
struct MachineCount {
    machine: usize,
    login: usize,
    password: usize,
    account: usize,
}

/// The full state of the mathematical parser between two entries: the
/// accumulated result, the three credential counters (the machine counter is
/// the length of `netrc.machines`), and the current position.
#[verifier::ext_equal]
pub struct ParseState {
    pub netrc: NetrcView,
    pub logins: int,
    pub passwords: int,
    pub accounts: int,
    pub row: int,
    pub col: int,
}

/// The bounds of the next word at or after `k`: start and end index, or
/// nothing when only whitespace remains.
pub open spec fn read_word(s: Seq<char>, k: int) -> Option<(int, int)> {
    let j = skip_ws_idx(s, k);
    if j >= s.len() {
        None
    } else {
        Some((j, word_end_idx(s, j)))
    }
}

/// One transition of the entry state machine.  `t` is the classified word
/// that was just consumed, `k` the index right behind it, and `st.row/col`
/// the position right behind it.  The result is the index and state from
/// which parsing continues, or the failure that aborts it.
pub open spec fn entry_step(
    s: Seq<char>,
    k: int,
    t: TokenView,
    st: ParseState,
    tolerate: bool,
) -> Result<(int, ParseState), ErrorView> {
    match t {
        TokenView::Machine => match read_word(s, k) {
            None => Err(ErrorView::EOF),
            Some((j2, k2)) => {
                let name = s.subrange(j2, k2);
                let p2 = pos_after(s, k, k2, st.row, st.col);
                Ok(
                    (
                        k2,
                        ParseState {
                            netrc: NetrcView {
                                machines: st.netrc.machines.push(
                                    MachineView {
                                        name: Some(name),
                                        login: None,
                                        password: None,
                                        account: None,
                                    },
                                ),
                                ..st.netrc
                            },
                            row: p2.0,
                            col: p2.1,
                            ..st
                        },
                    ),
                )
            },
        },
        TokenView::Default => Ok(
            (
                k,
                ParseState {
                    netrc: NetrcView {
                        machines: st.netrc.machines.push(empty_machine_view()),
                        ..st.netrc
                    },
                    ..st
                },
            ),
        ),
        TokenView::Login => match read_word(s, k) {
            None => Err(ErrorView::EOF),
            Some((j2, k2)) => {
                let v = s.subrange(j2, k2);
                let p2 = pos_after(s, k, k2, st.row, st.col);
                if st.logins + 1 > st.netrc.machines.len() {
                    Err(ErrorView::IllegalFormat(p2.0, p2.1, "login must follow machine"@))
                } else {
                    let li = st.netrc.machines.len() - 1;
                    let m0 = st.netrc.machines[li];
                    Ok(
                        (
                            k2,
                            ParseState {
                                netrc: NetrcView {
                                    machines: st.netrc.machines.update(
                                        li,
                                        MachineView { login: Some(v), ..m0 },
                                    ),
                                    ..st.netrc
                                },
                                logins: st.logins + 1,
                                row: p2.0,
                                col: p2.1,
                                ..st
                            },
                        ),
                    )
                }
            },
        },
        TokenView::Password => match read_word(s, k) {
            None => Err(ErrorView::EOF),
            Some((j2, k2)) => {
                let v = s.subrange(j2, k2);
                let p2 = pos_after(s, k, k2, st.row, st.col);
                if st.passwords + 1 > st.netrc.machines.len() {
                    Err(ErrorView::IllegalFormat(p2.0, p2.1, "password must follow machine"@))
                } else {
                    let li = st.netrc.machines.len() - 1;
                    let m0 = st.netrc.machines[li];
                    Ok(
                        (
                            k2,
                            ParseState {
                                netrc: NetrcView {
                                    machines: st.netrc.machines.update(
                                        li,
                                        MachineView { password: Some(v), ..m0 },
                                    ),
                                    ..st.netrc
                                },
                                passwords: st.passwords + 1,
                                row: p2.0,
                                col: p2.1,
                                ..st
                            },
                        ),
                    )
                }
            },
        },
        TokenView::Account => match read_word(s, k) {
            None => Err(ErrorView::EOF),
            Some((j2, k2)) => {
                let v = s.subrange(j2, k2);
                let p2 = pos_after(s, k, k2, st.row, st.col);
                if st.accounts + 1 > st.netrc.machines.len() {
                    Err(ErrorView::IllegalFormat(p2.0, p2.1, "account must follow machine"@))
                } else {
                    let li = st.netrc.machines.len() - 1;
                    let m0 = st.netrc.machines[li];
                    Ok(
                        (
                            k2,
                            ParseState {
                                netrc: NetrcView {
                                    machines: st.netrc.machines.update(
                                        li,
                                        MachineView { account: Some(v), ..m0 },
                                    ),
                                    ..st.netrc
                                },
                                accounts: st.accounts + 1,
                                row: p2.0,
                                col: p2.1,
                                ..st
                            },
                        ),
                    )
                }
            },
        },
        TokenView::MacDef => match read_word(s, k) {
            None => Err(ErrorView::EOF),
            Some((j2, k2)) => {
                let name = s.subrange(j2, k2);
                let p2 = pos_after(s, k, k2, st.row, st.col);
                let j3 = skip_ws_idx(s, k2);
                let p3 = pos_after(s, k2, j3, p2.0, p2.1);
                let cmds = cmds_from(s, j3);
                Ok(
                    (
                        cmds_end(s, j3),
                        ParseState {
                            netrc: NetrcView {
                                macdefs: st.netrc.macdefs.push((name, cmds)),
                                ..st.netrc
                            },
                            row: p3.0 + cmds.len(),
                            col: 1,
                            ..st
                        },
                    ),
                )
            },
        },
        TokenView::Str(w) => {
            if tolerate {
                Ok(
                    (
                        k,
                        ParseState {
                            netrc: NetrcView {
                                unknown_entries: st.netrc.unknown_entries.push(w),
                                ..st.netrc
                            },
                            ..st
                        },
                    ),
                )
            } else {
                Err(ErrorView::IllegalFormat(st.row, st.col, "token: "@ + w))
            }
        },
    }
}

/// A successful transition never moves the cursor backwards or past the end.
pub proof fn lemma_entry_step_bounds(
    s: Seq<char>,
    k: int,
    t: TokenView,
    st: ParseState,
    tolerate: bool,
)
    requires
        0 <= k <= s.len(),
    ensures
        entry_step(s, k, t, st, tolerate) matches Ok(r) ==> k <= r.0 <= s.len(),
{
    lemma_skip_ws_idx_bounds(s, k);
    let j = skip_ws_idx(s, k);
    if j < s.len() {
        lemma_word_end_idx_bounds(s, j);
        let k2 = word_end_idx(s, j);
        lemma_skip_ws_idx_bounds(s, k2);
        let j3 = skip_ws_idx(s, k2);
        lemma_cmds_end_bounds(s, j3);
    }
}

/// The mathematical parse from index `i` in state `st`: read the next word;
/// a clean end of input between entries succeeds with the accumulated
/// result, anything else is one `entry_step` and, unless it failed, the
/// parse from where it left off.
pub open spec fn parse_from(
    s: Seq<char>,
    i: int,
    st: ParseState,
    tolerate: bool,
) -> Result<NetrcView, ErrorView>
    decreases s.len() - i,
    when 0 <= i <= s.len()
    via lemma_parse_from_decreases
{
    let j = skip_ws_idx(s, i);
    if j >= s.len() {
        Ok(st.netrc)
    } else {
        let k = word_end_idx(s, j);
        let w = s.subrange(j, k);
        let p1 = pos_after(s, i, k, st.row, st.col);
        match entry_step(s, k, classify(w), ParseState { row: p1.0, col: p1.1, ..st }, tolerate) {
            Err(e) => Err(e),
            Ok((i2, st2)) => parse_from(s, i2, st2, tolerate),
        }
    }
}

#[via_fn]
proof fn lemma_parse_from_decreases(s: Seq<char>, i: int, st: ParseState, tolerate: bool) {
    lemma_skip_ws_idx_bounds(s, i);
    let j = skip_ws_idx(s, i);
    if j < s.len() {
        lemma_word_end_idx_bounds(s, j);
        lemma_word_end_idx_bounds(s, j + 1);
        let k = word_end_idx(s, j);
        assert(k == word_end_idx(s, j + 1));
        let w = s.subrange(j, k);
        let p1 = pos_after(s, i, k, st.row, st.col);
        lemma_entry_step_bounds(
            s,
            k,
            classify(w),
            ParseState { row: p1.0, col: p1.1, ..st },
            tolerate,
        );
    }
}

/// The state a parse call starts from: nothing accumulated, counters at
/// zero, row 1 and column 1.
pub open spec fn init_state() -> ParseState {
    ParseState { netrc: empty_netrc_view(), logins: 0, passwords: 0, accounts: 0, row: 1, col: 1 }
}

/// What parsing a whole input yields.
pub open spec fn spec_parse(s: Seq<char>, tolerate: bool) -> Result<NetrcView, ErrorView> {
    parse_from(s, 0, init_state(), tolerate)
}

/// How an executable result must relate to the mathematical one: same
/// success or failure, and the same value of it.
pub open spec fn result_matches(r: Result<Netrc, Error>, v: Result<NetrcView, ErrorView>) -> bool {
    match r {
        Ok(n) => v matches Ok(nv) && n@ == nv,
        Err(e) => v matches Err(ev) && e@ == ev,
    }
}

/// The `ParseState` an executable parse is in.
spec fn state_of(n: NetrcView, count: MachineCount, row: int, col: int) -> ParseState {
    ParseState {
        netrc: n,
        logins: count.login as int,
        passwords: count.password as int,
        accounts: count.account as int,
        row,
        col,
    }
}

spec fn count_sum(count: MachineCount) -> int {
    count.machine + count.login + count.password + count.account
}

impl Netrc {
    /// Parse one `.netrc` text.  With `unknown_entries` set, unrecognized
    /// bare words are collected; otherwise they abort the parse.
    ///
    /// The result is exactly the mathematical parse of the input: one
    /// machine record per `machine`/`default` entry in input order with the
    /// credential values the input attaches to it, one macro definition per
    /// `macdef` in input order, the `EOF` error exactly when input ends
    /// where one more word was required, and the positioned `IllegalFormat`
    /// error exactly when a credential keyword arrives without an open
    /// entry, or an unknown word arrives while tolerance is off.
    pub fn parse(buf: &str, unknown_entries: bool) -> (r: Result<Netrc, Error>)
        requires
            buf@.len() < usize::MAX,
        ensures
            result_matches(r, spec_parse(buf@, unknown_entries)),
    {
        Self::parse_borrow(buf, unknown_entries)
    }

    /// Parse one `.netrc` text from a borrowed source; see [`Netrc::parse`].
    pub fn parse_borrow(buf: &str, unknown_entries: bool) -> (r: Result<Netrc, Error>)
        requires
            buf@.len() < usize::MAX,
        ensures
            result_matches(r, spec_parse(buf@, unknown_entries)),
    {
        let mut netrc = Netrc::default();
        let mut lexer = Lexer::new(buf);
        let mut count = MachineCount { machine: 0, login: 0, password: 0, account: 0 };
        let ghost s = buf@;
        loop
            invariant_except_break
                s == buf@,
                lexer.tokens.wf(),
                lexer.tokens.buf@ == s,
                s.len() < usize::MAX,
                count.machine == netrc@.machines.len(),
                count_sum(count) <= lexer.tokens.i,
                parse_from(
                    s,
                    lexer.tokens.i as int,
                    state_of(netrc@, count, lexer.tokens.pos.0 as int, lexer.tokens.pos.1 as int),
                    unknown_entries,
                ) == spec_parse(s, unknown_entries),
            ensures
                spec_parse(s, unknown_entries) matches Ok(nv) && netrc@ == nv,
            decreases s.len() - lexer.tokens.i,
        {
            let ghost i0 = lexer.tokens.i as int;
            let ghost st0 = state_of(
                netrc@,
                count,
                lexer.tokens.pos.0 as int,
                lexer.tokens.pos.1 as int,
            );
            proof {
                lemma_skip_ws_idx_bounds(s, i0);
                if skip_ws_idx(s, i0) < s.len() {
                    lemma_word_end_idx_bounds(s, skip_ws_idx(s, i0));
                    lemma_word_end_idx_bounds(s, skip_ws_idx(s, i0) + 1);
                }
            }
            match lexer.next_token() {
                Err(Error::EOF) => {
                    break ;
                },
                Err(err) => {
                    return Err(err);
                },
                Ok(tok) => {
                    let ghost st1 = state_of(
                        netrc@,
                        count,
                        lexer.tokens.pos.0 as int,
                        lexer.tokens.pos.1 as int,
                    );
                    proof {
                        let j = skip_ws_idx(s, i0);
                        let k = word_end_idx(s, j);
                        let w = s.subrange(j, k);
                        let p1 = pos_after(s, i0, k, st0.row, st0.col);
                        assert(word_end_idx(s, j) == word_end_idx(s, j + 1));
                        assert(st1 =~= ParseState { row: p1.0, col: p1.1, ..st0 });
                        lemma_entry_step_bounds(s, k, tok@, st1, unknown_entries);
                        assert(tok@ == classify(w));
                        assert(parse_from(s, i0, st0, unknown_entries) == (match entry_step(
                            s,
                            k,
                            tok@,
                            st1,
                            unknown_entries,
                        ) {
                            Err(e) => Err(e),
                            Ok((i2, st2)) => parse_from(s, i2, st2, unknown_entries),
                        }));
                    }
                    match netrc.parse_entry(&mut lexer, &tok, &mut count, unknown_entries) {
                        Ok(()) => {},
                        Err(e) => {
                            proof {
                                assert(spec_parse(s, unknown_entries) == Err::<
                                    NetrcView,
                                    ErrorView,
                                >(e@));
                            }
                            return Err(e);
                        },
                    }
                },
            }
        }
        Ok(netrc)
    }

    /// Performs one state transition of the entry parser for the word
    /// `item`, reading further words or a macro body through `lexer` as the
    /// keyword demands, and is proved to act exactly as `entry_step`.
    fn parse_entry(
        &mut self,
        lexer: &mut Lexer,
        item: &Token,
        count: &mut MachineCount,
        unknown_entries: bool,
    ) -> (r: Result<(), Error>)
        requires
            old(lexer).tokens.wf(),
            old(count).machine == old(self)@.machines.len(),
            count_sum(*old(count)) < old(lexer).tokens.i,
        ensures
            final(lexer).tokens.wf(),
            final(lexer).tokens.buf == old(lexer).tokens.buf,
            final(lexer).tokens.i >= old(lexer).tokens.i,
            final(count).machine == final(self)@.machines.len(),
            count_sum(*final(count)) <= count_sum(*old(count)) + 1,
            ({
                let s = old(lexer).tokens.buf@;
                let k = old(lexer).tokens.i as int;
                let st0 = state_of(
                    old(self)@,
                    *old(count),
                    old(lexer).tokens.pos.0 as int,
                    old(lexer).tokens.pos.1 as int,
                );
                match entry_step(s, k, item@, st0, unknown_entries) {
                    Ok((i2, st2)) => {
                        &&& r is Ok
                        &&& final(lexer).tokens.i == i2
                        &&& state_of(
                            final(self)@,
                            *final(count),
                            final(lexer).tokens.pos.0 as int,
                            final(lexer).tokens.pos.1 as int,
                        ) == st2
                    },
                    Err(e) => r matches Err(err) && err@ == e,
                }
            }),
    {
        let ghost s = lexer.tokens.buf@;
        let ghost k = lexer.tokens.i as int;
        let ghost st0 = state_of(
            self@,
            *count,
            lexer.tokens.pos.0 as int,
            lexer.tokens.pos.1 as int,
        );
        proof {
            lemma_skip_ws_idx_bounds(s, k);
            let j2 = skip_ws_idx(s, k);
            if j2 < s.len() {
                lemma_word_end_idx_bounds(s, j2);
            }
        }
        match item {
            Token::Machine => {
                let host_name = match lexer.next_token() {
                    Ok(t) => t,
                    Err(e) => {
                        return Err(e);
                    },
                };
                let mut m = Machine::default();
                m.name = Some(host_name.to_text());
                let ghost machines_pre = self.machines;
                self.machines.push(m);
                count.machine = count.machine + 1;
                proof {
                    let j2 = skip_ws_idx(s, k);
                    let k2 = word_end_idx(s, j2);
                    crate::token::lemma_token_text_classify(s.subrange(j2, k2));
                    lemma_vec_deep_view_push(machines_pre, self.machines, m);
                    let st2 = entry_step(s, k, item@, st0, unknown_entries)->Ok_0.1;
                    assert(state_of(
                        self@,
                        *count,
                        lexer.tokens.pos.0 as int,
                        lexer.tokens.pos.1 as int,
                    ) =~= st2);
                }
                Ok(())
            },
            Token::Default => {
                let m = Machine::default();
                let ghost machines_pre = self.machines;
                self.machines.push(m);
                count.machine = count.machine + 1;
                proof {
                    lemma_vec_deep_view_push(machines_pre, self.machines, m);
                    let st2 = entry_step(s, k, item@, st0, unknown_entries)->Ok_0.1;
                    assert(state_of(
                        self@,
                        *count,
                        lexer.tokens.pos.0 as int,
                        lexer.tokens.pos.1 as int,
                    ) =~= st2);
                }
                Ok(())
            },
            Token::Login => {
                let name = match lexer.next_token() {
                    Ok(t) => t,
                    Err(e) => {
                        return Err(e);
                    },
                };
                count.login = count.login + 1;
                if count.login > count.machine {
                    return Err(
                        Error::IllegalFormat(
                            lexer.tokens.position(),
                            "login must follow machine".to_owned(),
                        ),
                    );
                }
                let last = self.machines.len() - 1;
                let ghost machines_pre = self.machines;
                self.machines[last].login = Some(name.to_text());
                proof {
                    let j2 = skip_ws_idx(s, k);
                    let k2 = word_end_idx(s, j2);
                    crate::token::lemma_token_text_classify(s.subrange(j2, k2));
                    lemma_vec_deep_view_update(
                        machines_pre,
                        self.machines,
                        last as int,
                        self.machines@[last as int],
                    );
                    let st2 = entry_step(s, k, item@, st0, unknown_entries)->Ok_0.1;
                    assert(state_of(
                        self@,
                        *count,
                        lexer.tokens.pos.0 as int,
                        lexer.tokens.pos.1 as int,
                    ) =~= st2);
                }
                Ok(())
            },
            Token::Password => {
                let name = match lexer.next_token() {
                    Ok(t) => t,
                    Err(e) => {
                        return Err(e);
                    },
                };
                count.password = count.password + 1;
                if count.password > count.machine {
                    return Err(
                        Error::IllegalFormat(
                            lexer.tokens.position(),
                            "password must follow machine".to_owned(),
                        ),
                    );
                }
                let last = self.machines.len() - 1;
                let ghost machines_pre = self.machines;
                self.machines[last].password = Some(name.to_text());
                proof {
                    let j2 = skip_ws_idx(s, k);
                    let k2 = word_end_idx(s, j2);
                    crate::token::lemma_token_text_classify(s.subrange(j2, k2));
                    lemma_vec_deep_view_update(
                        machines_pre,
                        self.machines,
                        last as int,
                        self.machines@[last as int],
                    );
                    let st2 = entry_step(s, k, item@, st0, unknown_entries)->Ok_0.1;
                    assert(state_of(
                        self@,
                        *count,
                        lexer.tokens.pos.0 as int,
                        lexer.tokens.pos.1 as int,
                    ) =~= st2);
                }
                Ok(())
            },
            Token::Account => {
                let name = match lexer.next_token() {
                    Ok(t) => t,
                    Err(e) => {
                        return Err(e);
                    },
                };
                count.account = count.account + 1;
                if count.account > count.machine {
                    return Err(
                        Error::IllegalFormat(
                            lexer.tokens.position(),
                            "account must follow machine".to_owned(),
                        ),
                    );
                }
                let last = self.machines.len() - 1;
                let ghost machines_pre = self.machines;
                self.machines[last].account = Some(name.to_text());
                proof {
                    let j2 = skip_ws_idx(s, k);
                    let k2 = word_end_idx(s, j2);
                    crate::token::lemma_token_text_classify(s.subrange(j2, k2));
                    lemma_vec_deep_view_update(
                        machines_pre,
                        self.machines,
                        last as int,
                        self.machines@[last as int],
                    );
                    let st2 = entry_step(s, k, item@, st0, unknown_entries)->Ok_0.1;
                    assert(state_of(
                        self@,
                        *count,
                        lexer.tokens.pos.0 as int,
                        lexer.tokens.pos.1 as int,
                    ) =~= st2);
                }
                Ok(())
            },
            Token::MacDef => {
                let name = match lexer.next_token() {
                    Ok(t) => t,
                    Err(e) => {
                        return Err(e);
                    },
                };
                let cmds = lexer.next_commands();
                let ghost macdefs_pre = self.macdefs;
                let entry = (name.to_text(), cmds);
                self.macdefs.push(entry);
                proof {
                    let j2 = skip_ws_idx(s, k);
                    let k2 = word_end_idx(s, j2);
                    crate::token::lemma_token_text_classify(s.subrange(j2, k2));
                    lemma_skip_ws_idx_bounds(s, k2);
                    lemma_cmds_end_bounds(s, skip_ws_idx(s, k2));
                    lemma_vec_deep_view_push(macdefs_pre, self.macdefs, entry);
                    let st2 = entry_step(s, k, item@, st0, unknown_entries)->Ok_0.1;
                    assert(state_of(
                        self@,
                        *count,
                        lexer.tokens.pos.0 as int,
                        lexer.tokens.pos.1 as int,
                    ) =~= st2);
                }
                Ok(())
            },
            Token::Str(w) => {
                if unknown_entries {
                    let ghost unknown_pre = self.unknown_entries;
                    let copy = w.clone();
                    self.unknown_entries.push(copy);
                    proof {
                        lemma_vec_deep_view_push(unknown_pre, self.unknown_entries, copy);
                        let st2 = entry_step(s, k, item@, st0, unknown_entries)->Ok_0.1;
                        assert(state_of(
                            self@,
                            *count,
                            lexer.tokens.pos.0 as int,
                            lexer.tokens.pos.1 as int,
                        ) =~= st2);
                    }
                    Ok(())
                } else {
                    let mut msg = "token: ".to_owned();
                    msg.append(w.as_str());
                    Err(Error::IllegalFormat(lexer.tokens.position(), msg))
                }
            },
        }
    }
}

} // verus!
