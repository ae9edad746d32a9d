//! Global properties of the format, stated over the mathematical parser and
//! proved: well-formed rendered entries parse back to exactly the machines
//! they render (round-tripping), `default` entries are all kept, a
//! credential keyword without an open entry fails with a positioned error,
//! input ending where a value is owed fails with the end-of-input error, and
//! unknown bare words are collected or rejected by the tolerance switch.

use vstd::prelude::*;

use crate::model::MachineView;
use crate::model::NetrcView;
use crate::model::ErrorView;
use crate::model::empty_machine_view;
use crate::model::opt_field;
use crate::model::render_view;
use crate::parser::ParseState;
use crate::parser::entry_step;
use crate::parser::init_state;
use crate::parser::parse_from;
use crate::parser::spec_parse;
use crate::scan::is_word;
use crate::scan::is_ws_char;
use crate::scan::lemma_pos_after_concat;
use crate::scan::cmds_end;
use crate::scan::cmds_from;
use crate::scan::lemma_cmds_end_bounds;
use crate::scan::lemma_line_end_idx_complete;
use crate::scan::lemma_skip_ws_idx_bounds;
use crate::scan::line_end_idx;
use crate::scan::trim_seq;
use crate::scan::lemma_word_end_idx_bounds;
use crate::scan::lemma_skip_ws_idx_complete;
use crate::scan::lemma_word_end_idx_complete;
use crate::scan::pos_after;
use crate::scan::skip_ws_idx;
use crate::scan::word_end_idx;
use crate::token::TokenView;
use crate::token::classify;

verus! {

/// The characters of `w` stand in `s` starting at index `i`.
pub open spec fn occurs_at(s: Seq<char>, i: int, w: Seq<char>) -> bool {
    &&& 0 <= i
    &&& i + w.len() <= s.len()
    &&& forall|t: int| 0 <= t < w.len() ==> s[i + t] == #[trigger] w[t]
}

/// Index `b` sits on a word break: the end of input, or whitespace.
pub open spec fn at_break(s: Seq<char>, b: int) -> bool {
    b == s.len() || (0 <= b < s.len() && is_ws_char(s[b]))
}

/// An occurrence of a concatenation is an occurrence of each part.
pub proof fn lemma_occurs_split(s: Seq<char>, i: int, a: Seq<char>, b: Seq<char>)
    requires
        occurs_at(s, i, a + b),
    ensures
        occurs_at(s, i, a),
        occurs_at(s, i + a.len(), b),
{
    assert forall|t: int| 0 <= t < a.len() implies s[i + t] == #[trigger] a[t] by {
        assert((a + b)[t] == a[t]);
        assert(s[i + t] == (a + b)[t]);
    }
    assert forall|t: int| 0 <= t < b.len() implies s[i + a.len() + t] == #[trigger] b[t] by {
        assert((a + b)[a.len() + t] == b[t]);
        assert(s[i + (a.len() + t)] == (a + b)[a.len() + t]);
    }
}

/// A word standing at `i` with a break behind it is exactly what the
/// scanner reads at `i`.
pub proof fn lemma_word_token(s: Seq<char>, i: int, w: Seq<char>)
    requires
        occurs_at(s, i, w),
        is_word(w),
        at_break(s, i + w.len()),
    ensures
        skip_ws_idx(s, i) == i,
        word_end_idx(s, i) == i + w.len(),
        s.subrange(i, i + w.len()) == w,
{
    assert(s[i + 0] == w[0]);
    lemma_skip_ws_idx_complete(s, i, i);
    assert forall|t: int| i <= t < i + w.len() implies !is_ws_char(#[trigger] s[t]) by {
        assert(s[i + (t - i)] == w[t - i]);
        assert(!is_ws_char(w[t - i]));
    }
    lemma_word_end_idx_complete(s, i, i + w.len());
    assert(s.subrange(i, i + w.len()) =~= w);
}

/// A run of `d` whitespace characters before a word start at `i + d` is
/// exactly what whitespace skipping passes over.
pub proof fn lemma_ws_run(s: Seq<char>, i: int, d: int)
    requires
        0 <= i,
        0 <= d,
        i + d <= s.len(),
        forall|t: int| i <= t < i + d ==> is_ws_char(#[trigger] s[t]),
        i + d == s.len() || !is_ws_char(s[i + d]),
    ensures
        skip_ws_idx(s, i) == i + d,
{
    lemma_skip_ws_idx_complete(s, i, i + d);
}

/// Character-level facts about the six keywords, and how each classifies.
pub proof fn lemma_keywords()
    ensures
        is_word("machine"@) && "machine"@.len() == 7,
        is_word("default"@) && "default"@.len() == 7,
        is_word("login"@) && "login"@.len() == 5,
        is_word("password"@) && "password"@.len() == 8,
        is_word("account"@) && "account"@.len() == 7,
        is_word("macdef"@) && "macdef"@.len() == 6,
        classify("machine"@) == TokenView::Machine,
        classify("default"@) == TokenView::Default,
        classify("login"@) == TokenView::Login,
        classify("password"@) == TokenView::Password,
        classify("account"@) == TokenView::Account,
        classify("macdef"@) == TokenView::MacDef,
{
    reveal_strlit("machine");
    reveal_strlit("default");
    reveal_strlit("login");
    reveal_strlit("password");
    reveal_strlit("account");
    reveal_strlit("macdef");
    let wm = "machine"@;
    let wd = "default"@;
    let wl = "login"@;
    let wp = "password"@;
    let wa = "account"@;
    let wf = "macdef"@;
    assert(wm[0] == 'm' && wm[1] == 'a' && wm[2] == 'c' && wm[3] == 'h' && wm[4] == 'i' && wm[5]
        == 'n' && wm[6] == 'e');
    assert(wd[0] == 'd' && wd[1] == 'e' && wd[2] == 'f' && wd[3] == 'a' && wd[4] == 'u' && wd[5]
        == 'l' && wd[6] == 't');
    assert(wl[0] == 'l' && wl[1] == 'o' && wl[2] == 'g' && wl[3] == 'i' && wl[4] == 'n');
    assert(wp[0] == 'p' && wp[1] == 'a' && wp[2] == 's' && wp[3] == 's' && wp[4] == 'w' && wp[5]
        == 'o' && wp[6] == 'r' && wp[7] == 'd');
    assert(wa[0] == 'a' && wa[1] == 'c' && wa[2] == 'c' && wa[3] == 'o' && wa[4] == 'u' && wa[5]
        == 'n' && wa[6] == 't');
    assert(wf[0] == 'm' && wf[1] == 'a' && wf[2] == 'c' && wf[3] == 'd' && wf[4] == 'e' && wf[5]
        == 'f');
    assert forall|t: int| 0 <= t < wm.len() implies !is_ws_char(#[trigger] wm[t]) by {}
    assert forall|t: int| 0 <= t < wd.len() implies !is_ws_char(#[trigger] wd[t]) by {}
    assert forall|t: int| 0 <= t < wl.len() implies !is_ws_char(#[trigger] wl[t]) by {}
    assert forall|t: int| 0 <= t < wp.len() implies !is_ws_char(#[trigger] wp[t]) by {}
    assert forall|t: int| 0 <= t < wa.len() implies !is_ws_char(#[trigger] wa[t]) by {}
    assert forall|t: int| 0 <= t < wf.len() implies !is_ws_char(#[trigger] wf[t]) by {}
}

/// Character-level facts about the rendered field prefixes.
pub proof fn lemma_prefixes()
    ensures
        "machine "@.len() == 8,
        "machine "@.subrange(0, 7) == "machine"@,
        is_ws_char("machine "@[7]) && "machine "@[7] == ' ',
        " login "@.len() == 7,
        " login "@.subrange(1, 6) == "login"@,
        is_ws_char(" login "@[0]) && is_ws_char(" login "@[6]),
        " password "@.len() == 10,
        " password "@.subrange(1, 9) == "password"@,
        is_ws_char(" password "@[0]) && is_ws_char(" password "@[9]),
        " account "@.len() == 9,
        " account "@.subrange(1, 8) == "account"@,
        is_ws_char(" account "@[0]) && is_ws_char(" account "@[8]),
{
    lemma_keywords();
    reveal_strlit("machine");
    reveal_strlit("login");
    reveal_strlit("password");
    reveal_strlit("account");
    reveal_strlit("machine ");
    reveal_strlit(" login ");
    reveal_strlit(" password ");
    reveal_strlit(" account ");
    let pm = "machine "@;
    assert(pm[0] == 'm' && pm[1] == 'a' && pm[2] == 'c' && pm[3] == 'h' && pm[4] == 'i' && pm[5]
        == 'n' && pm[6] == 'e' && pm[7] == ' ');
    assert(pm.subrange(0, 7) =~= "machine"@);
    let pl = " login "@;
    assert(pl[0] == ' ' && pl[1] == 'l' && pl[2] == 'o' && pl[3] == 'g' && pl[4] == 'i' && pl[5]
        == 'n' && pl[6] == ' ');
    assert(pl.subrange(1, 6) =~= "login"@);
    let pp = " password "@;
    assert(pp[0] == ' ' && pp[1] == 'p' && pp[2] == 'a' && pp[3] == 's' && pp[4] == 's' && pp[5]
        == 'w' && pp[6] == 'o' && pp[7] == 'r' && pp[8] == 'd' && pp[9] == ' ');
    assert(pp.subrange(1, 9) =~= "password"@);
    let pa = " account "@;
    assert(pa[0] == ' ' && pa[1] == 'a' && pa[2] == 'c' && pa[3] == 'c' && pa[4] == 'o' && pa[5]
        == 'u' && pa[6] == 'n' && pa[7] == 't' && pa[8] == ' ');
    assert(pa.subrange(1, 8) =~= "account"@);
}

/// A machine record as the `machine`/`default` keyword first creates it:
/// only the name set.
pub open spec fn first_machine(name: Option<Seq<char>>) -> MachineView {
    MachineView { name, login: None, password: None, account: None }
}

/// The text that opens a rendered entry: `machine <name>` or `default`.
pub open spec fn name_text(name: Option<Seq<char>>) -> Seq<char> {
    match name {
        Some(n) => "machine "@ + n,
        None => "default"@,
    }
}

/// Consuming a rendered `machine <name>` or `default` opening (after `d`
/// characters of whitespace) appends one fresh machine record and continues
/// right behind it.
pub proof fn lemma_parse_name_step(
    s: Seq<char>,
    i: int,
    d: int,
    st: ParseState,
    name: Option<Seq<char>>,
    tolerate: bool,
)
    requires
        0 <= i,
        0 <= d,
        occurs_at(s, i + d, name_text(name)),
        forall|t: int| i <= t < i + d ==> is_ws_char(#[trigger] s[t]),
        at_break(s, i + d + name_text(name).len()),
        name matches Some(n) ==> is_word(n),
    ensures
        parse_from(s, i, st, tolerate) == parse_from(
            s,
            i + d + name_text(name).len(),
            ParseState {
                netrc: NetrcView {
                    machines: st.netrc.machines.push(first_machine(name)),
                    ..st.netrc
                },
                row: pos_after(s, i, i + d + name_text(name).len(), st.row, st.col).0,
                col: pos_after(s, i, i + d + name_text(name).len(), st.row, st.col).1,
                ..st
            },
            tolerate,
        ),
{
    lemma_keywords();
    lemma_prefixes();
    let o0 = i + d;
    let end = o0 + name_text(name).len();
    match name {
        Some(n) => {
            lemma_occurs_split(s, o0, "machine "@, n);
            assert forall|t: int| 0 <= t < 7 implies s[o0 + t] == #[trigger] "machine"@[t] by {
                assert(s[o0 + t] == "machine "@[t]);
                assert("machine "@.subrange(0, 7)[t] == "machine "@[t]);
            }
            assert(occurs_at(s, o0, "machine"@));
            assert(s[o0 + 7] == "machine "@[7]);
            lemma_word_token(s, o0, "machine"@);
            lemma_ws_run(s, i, d);
            assert(occurs_at(s, o0 + 8, n));
            assert(s[o0 + 8] == n[0]);
            lemma_skip_ws_idx_complete(s, o0 + 7, o0 + 8);
            lemma_word_token(s, o0 + 8, n);
            lemma_pos_after_concat(s, i, o0 + 7, end, st.row, st.col);
            let p1 = pos_after(s, i, o0 + 7, st.row, st.col);
            let st1 = ParseState { row: p1.0, col: p1.1, ..st };
            let stepped = entry_step(s, o0 + 7, TokenView::Machine, st1, tolerate);
            assert(stepped is Ok);
            let pair = stepped->Ok_0;
            assert(pair.0 == end);
            assert(pair.1 =~= ParseState {
                netrc: NetrcView {
                    machines: st.netrc.machines.push(first_machine(name)),
                    ..st.netrc
                },
                row: pos_after(s, i, end, st.row, st.col).0,
                col: pos_after(s, i, end, st.row, st.col).1,
                ..st
            });
            assert(parse_from(s, i, st, tolerate) == parse_from(s, pair.0, pair.1, tolerate));
        },
        None => {
            lemma_word_token(s, o0, "default"@);
            lemma_ws_run(s, i, d);
            lemma_pos_after_concat(s, i, end, end, st.row, st.col);
            let p1 = pos_after(s, i, end, st.row, st.col);
            let st1 = ParseState { row: p1.0, col: p1.1, ..st };
            let stepped = entry_step(s, end, TokenView::Default, st1, tolerate);
            assert(stepped is Ok);
            let pair = stepped->Ok_0;
            assert(pair.0 == end);
            assert(pair.1 =~= ParseState {
                netrc: NetrcView {
                    machines: st.netrc.machines.push(first_machine(name)),
                    ..st.netrc
                },
                row: pos_after(s, i, end, st.row, st.col).0,
                col: pos_after(s, i, end, st.row, st.col).1,
                ..st
            });
            assert(parse_from(s, i, st, tolerate) == parse_from(s, pair.0, pair.1, tolerate));
        },
    }
}

/// Consuming a rendered ` login <v>` field sets `login` on the last open
/// machine record, bumps the login counter, and continues right behind it.
pub proof fn lemma_parse_login_field(
    s: Seq<char>,
    i: int,
    st: ParseState,
    v: Seq<char>,
    tolerate: bool,
)
    requires
        0 <= i,
        occurs_at(s, i, " login "@ + v),
        is_word(v),
        at_break(s, i + 7 + v.len()),
        0 < st.netrc.machines.len(),
        0 <= st.logins < st.netrc.machines.len(),
    ensures
        parse_from(s, i, st, tolerate) == parse_from(
            s,
            i + 7 + v.len(),
            ParseState {
                netrc: NetrcView {
                    machines: st.netrc.machines.update(
                        st.netrc.machines.len() - 1,
                        MachineView {
                            login: Some(v),
                            ..st.netrc.machines[st.netrc.machines.len() - 1]
                        },
                    ),
                    ..st.netrc
                },
                logins: st.logins + 1,
                row: pos_after(s, i, i + 7 + v.len(), st.row, st.col).0,
                col: pos_after(s, i, i + 7 + v.len(), st.row, st.col).1,
                ..st
            },
            tolerate,
        ),
{
    lemma_keywords();
    lemma_prefixes();
    lemma_occurs_split(s, i, " login "@, v);
    let end = i + 7 + v.len();
    assert forall|t: int| 0 <= t < 5 implies s[i + 1 + t] == #[trigger] "login"@[t] by {
        assert(s[i + (1 + t)] == " login "@[1 + t]);
        assert(" login "@.subrange(1, 6)[t] == " login "@[1 + t]);
    }
    assert(occurs_at(s, i + 1, "login"@));
    assert(s[i + 1] == "login"@[0]);
    assert(!is_ws_char(s[i + 1]));
    assert(s[i + 0] == " login "@[0]);
    assert(s[i + 6] == " login "@[6]);
    lemma_ws_run(s, i, 1);
    lemma_word_token(s, i + 1, "login"@);
    assert(occurs_at(s, i + 7, v));
    assert(s[i + 7] == v[0]);
    lemma_skip_ws_idx_complete(s, i + 6, i + 7);
    lemma_word_token(s, i + 7, v);
    lemma_pos_after_concat(s, i, i + 6, end, st.row, st.col);
    let p1 = pos_after(s, i, i + 6, st.row, st.col);
    let st1 = ParseState { row: p1.0, col: p1.1, ..st };
    let stepped = entry_step(s, i + 6, TokenView::Login, st1, tolerate);
    assert(stepped is Ok);
    let pair = stepped->Ok_0;
    assert(pair.0 == end);
    assert(pair.1 =~= ParseState {
        netrc: NetrcView {
            machines: st.netrc.machines.update(
                st.netrc.machines.len() - 1,
                MachineView { login: Some(v), ..st.netrc.machines[st.netrc.machines.len() - 1] },
            ),
            ..st.netrc
        },
        logins: st.logins + 1,
        row: pos_after(s, i, end, st.row, st.col).0,
        col: pos_after(s, i, end, st.row, st.col).1,
        ..st
    });
    assert(parse_from(s, i, st, tolerate) == parse_from(s, pair.0, pair.1, tolerate));
}

/// Consuming a rendered ` password <v>` field, symmetrically.
pub proof fn lemma_parse_password_field(
    s: Seq<char>,
    i: int,
    st: ParseState,
    v: Seq<char>,
    tolerate: bool,
)
    requires
        0 <= i,
        occurs_at(s, i, " password "@ + v),
        is_word(v),
        at_break(s, i + 10 + v.len()),
        0 < st.netrc.machines.len(),
        0 <= st.passwords < st.netrc.machines.len(),
    ensures
        parse_from(s, i, st, tolerate) == parse_from(
            s,
            i + 10 + v.len(),
            ParseState {
                netrc: NetrcView {
                    machines: st.netrc.machines.update(
                        st.netrc.machines.len() - 1,
                        MachineView {
                            password: Some(v),
                            ..st.netrc.machines[st.netrc.machines.len() - 1]
                        },
                    ),
                    ..st.netrc
                },
                passwords: st.passwords + 1,
                row: pos_after(s, i, i + 10 + v.len(), st.row, st.col).0,
                col: pos_after(s, i, i + 10 + v.len(), st.row, st.col).1,
                ..st
            },
            tolerate,
        ),
{
    lemma_keywords();
    lemma_prefixes();
    lemma_occurs_split(s, i, " password "@, v);
    let end = i + 10 + v.len();
    assert forall|t: int| 0 <= t < 8 implies s[i + 1 + t] == #[trigger] "password"@[t] by {
        assert(s[i + (1 + t)] == " password "@[1 + t]);
        assert(" password "@.subrange(1, 9)[t] == " password "@[1 + t]);
    }
    assert(occurs_at(s, i + 1, "password"@));
    assert(s[i + 1] == "password"@[0]);
    assert(!is_ws_char(s[i + 1]));
    assert(s[i + 0] == " password "@[0]);
    assert(s[i + 9] == " password "@[9]);
    lemma_ws_run(s, i, 1);
    lemma_word_token(s, i + 1, "password"@);
    assert(occurs_at(s, i + 10, v));
    assert(s[i + 10] == v[0]);
    lemma_skip_ws_idx_complete(s, i + 9, i + 10);
    lemma_word_token(s, i + 10, v);
    lemma_pos_after_concat(s, i, i + 9, end, st.row, st.col);
    let p1 = pos_after(s, i, i + 9, st.row, st.col);
    let st1 = ParseState { row: p1.0, col: p1.1, ..st };
    let stepped = entry_step(s, i + 9, TokenView::Password, st1, tolerate);
    assert(stepped is Ok);
    let pair = stepped->Ok_0;
    assert(pair.0 == end);
    assert(pair.1 =~= ParseState {
        netrc: NetrcView {
            machines: st.netrc.machines.update(
                st.netrc.machines.len() - 1,
                MachineView {
                    password: Some(v),
                    ..st.netrc.machines[st.netrc.machines.len() - 1]
                },
            ),
            ..st.netrc
        },
        passwords: st.passwords + 1,
        row: pos_after(s, i, end, st.row, st.col).0,
        col: pos_after(s, i, end, st.row, st.col).1,
        ..st
    });
    assert(parse_from(s, i, st, tolerate) == parse_from(s, pair.0, pair.1, tolerate));
}

/// Consuming a rendered ` account <v>` field, symmetrically.
pub proof fn lemma_parse_account_field(
    s: Seq<char>,
    i: int,
    st: ParseState,
    v: Seq<char>,
    tolerate: bool,
)
    requires
        0 <= i,
        occurs_at(s, i, " account "@ + v),
        is_word(v),
        at_break(s, i + 9 + v.len()),
        0 < st.netrc.machines.len(),
        0 <= st.accounts < st.netrc.machines.len(),
    ensures
        parse_from(s, i, st, tolerate) == parse_from(
            s,
            i + 9 + v.len(),
            ParseState {
                netrc: NetrcView {
                    machines: st.netrc.machines.update(
                        st.netrc.machines.len() - 1,
                        MachineView {
                            account: Some(v),
                            ..st.netrc.machines[st.netrc.machines.len() - 1]
                        },
                    ),
                    ..st.netrc
                },
                accounts: st.accounts + 1,
                row: pos_after(s, i, i + 9 + v.len(), st.row, st.col).0,
                col: pos_after(s, i, i + 9 + v.len(), st.row, st.col).1,
                ..st
            },
            tolerate,
        ),
{
    lemma_keywords();
    lemma_prefixes();
    lemma_occurs_split(s, i, " account "@, v);
    let end = i + 9 + v.len();
    assert forall|t: int| 0 <= t < 7 implies s[i + 1 + t] == #[trigger] "account"@[t] by {
        assert(s[i + (1 + t)] == " account "@[1 + t]);
        assert(" account "@.subrange(1, 8)[t] == " account "@[1 + t]);
    }
    assert(occurs_at(s, i + 1, "account"@));
    assert(s[i + 1] == "account"@[0]);
    assert(!is_ws_char(s[i + 1]));
    assert(s[i + 0] == " account "@[0]);
    assert(s[i + 8] == " account "@[8]);
    lemma_ws_run(s, i, 1);
    lemma_word_token(s, i + 1, "account"@);
    assert(occurs_at(s, i + 9, v));
    assert(s[i + 9] == v[0]);
    lemma_skip_ws_idx_complete(s, i + 8, i + 9);
    lemma_word_token(s, i + 9, v);
    lemma_pos_after_concat(s, i, i + 8, end, st.row, st.col);
    let p1 = pos_after(s, i, i + 8, st.row, st.col);
    let st1 = ParseState { row: p1.0, col: p1.1, ..st };
    let stepped = entry_step(s, i + 8, TokenView::Account, st1, tolerate);
    assert(stepped is Ok);
    let pair = stepped->Ok_0;
    assert(pair.0 == end);
    assert(pair.1 =~= ParseState {
        netrc: NetrcView {
            machines: st.netrc.machines.update(
                st.netrc.machines.len() - 1,
                MachineView {
                    account: Some(v),
                    ..st.netrc.machines[st.netrc.machines.len() - 1]
                },
            ),
            ..st.netrc
        },
        accounts: st.accounts + 1,
        row: pos_after(s, i, end, st.row, st.col).0,
        col: pos_after(s, i, end, st.row, st.col).1,
        ..st
    });
    assert(parse_from(s, i, st, tolerate) == parse_from(s, pair.0, pair.1, tolerate));
}


/// A machine record that rendering and re-parsing can reproduce: every
/// present field value is a non-empty, whitespace-free word.
pub open spec fn renderable(m: MachineView) -> bool {
    &&& (m.name matches Some(n) ==> is_word(n))
    &&& (m.login matches Some(v) ==> is_word(v))
    &&& (m.password matches Some(v) ==> is_word(v))
    &&& (m.account matches Some(v) ==> is_word(v))
}

/// The parse state after one whole rendered entry for `m`, consumed over
/// `s.subrange(i, end)`: `m` appended, one counter bump per present field,
/// and the position tracked through the consumed characters.
pub open spec fn entry_added(s: Seq<char>, i: int, end: int, st: ParseState, m: MachineView)
    -> ParseState {
    ParseState {
        netrc: NetrcView { machines: st.netrc.machines.push(m), ..st.netrc },
        logins: st.logins + (if m.login is Some { 1int } else { 0int }),
        passwords: st.passwords + (if m.password is Some { 1int } else { 0int }),
        accounts: st.accounts + (if m.account is Some { 1int } else { 0int }),
        row: pos_after(s, i, end, st.row, st.col).0,
        col: pos_after(s, i, end, st.row, st.col).1,
    }
}

/// Consuming one whole rendered entry (after `d` characters of whitespace)
/// appends exactly the rendered machine record and continues right behind
/// it.
pub proof fn lemma_parse_rendered_entry(
    s: Seq<char>,
    i: int,
    d: int,
    st: ParseState,
    m: MachineView,
    tolerate: bool,
)
    requires
        0 <= i,
        0 <= d,
        occurs_at(s, i + d, render_view(m)),
        forall|t: int| i <= t < i + d ==> is_ws_char(#[trigger] s[t]),
        at_break(s, i + d + render_view(m).len()),
        renderable(m),
        0 <= st.logins <= st.netrc.machines.len(),
        0 <= st.passwords <= st.netrc.machines.len(),
        0 <= st.accounts <= st.netrc.machines.len(),
    ensures
        parse_from(s, i, st, tolerate) == parse_from(
            s,
            i + d + render_view(m).len(),
            entry_added(s, i, i + d + render_view(m).len(), st, m),
            tolerate,
        ),
{
    lemma_prefixes();
    let r = render_view(m);
    let np = name_text(m.name);
    let lp = opt_field(" login "@, m.login);
    let pp = opt_field(" password "@, m.password);
    let ap = opt_field(" account "@, m.account);
    let o0 = i + d;
    let o1 = o0 + np.len();
    let o2 = o1 + lp.len();
    let o3 = o2 + pp.len();
    let end = o3 + ap.len();
    assert(r == ((np + lp) + pp) + ap);
    lemma_occurs_split(s, o0, (np + lp) + pp, ap);
    lemma_occurs_split(s, o0, np + lp, pp);
    lemma_occurs_split(s, o0, np, lp);
    assert(at_break(s, o3)) by {
        if ap.len() > 0 {
            assert(s[o3 + 0] == ap[0]);
            assert(ap[0] == (" account "@ + m.account->Some_0)[0]);
            assert(ap[0] == " account "@[0]);
        } else {
            assert(o3 == end);
        }
    };
    assert(at_break(s, o2)) by {
        if pp.len() > 0 {
            assert(s[o2 + 0] == pp[0]);
            assert(pp[0] == (" password "@ + m.password->Some_0)[0]);
            assert(pp[0] == " password "@[0]);
        } else {
            assert(o2 == o3);
        }
    };
    assert(at_break(s, o1)) by {
        if lp.len() > 0 {
            assert(s[o1 + 0] == lp[0]);
            assert(lp[0] == (" login "@ + m.login->Some_0)[0]);
            assert(lp[0] == " login "@[0]);
        } else {
            assert(o1 == o2);
        }
    };
    let fm0 = first_machine(m.name);
    let fm1 = MachineView { login: m.login, ..fm0 };
    let fm2 = MachineView { password: m.password, ..fm1 };
    let mlen = st.netrc.machines.len() as int;
    let stA = ParseState {
        netrc: NetrcView { machines: st.netrc.machines.push(fm0), ..st.netrc },
        row: pos_after(s, i, o1, st.row, st.col).0,
        col: pos_after(s, i, o1, st.row, st.col).1,
        ..st
    };
    let stB = ParseState {
        netrc: NetrcView { machines: st.netrc.machines.push(fm1), ..st.netrc },
        logins: st.logins + (if m.login is Some { 1int } else { 0int }),
        row: pos_after(s, i, o2, st.row, st.col).0,
        col: pos_after(s, i, o2, st.row, st.col).1,
        ..st
    };
    let stC = ParseState {
        netrc: NetrcView { machines: st.netrc.machines.push(fm2), ..st.netrc },
        logins: st.logins + (if m.login is Some { 1int } else { 0int }),
        passwords: st.passwords + (if m.password is Some { 1int } else { 0int }),
        row: pos_after(s, i, o3, st.row, st.col).0,
        col: pos_after(s, i, o3, st.row, st.col).1,
        ..st
    };
    lemma_parse_name_step(s, i, d, st, m.name, tolerate);
    assert(parse_from(s, i, st, tolerate) == parse_from(s, o1, stA, tolerate));
    match m.login {
        Some(v) => {
            lemma_parse_login_field(s, o1, stA, v, tolerate);
            lemma_pos_after_concat(s, i, o1, o2, st.row, st.col);
            assert(stA.netrc.machines.update(
                stA.netrc.machines.len() - 1,
                MachineView {
                    login: Some(v),
                    ..stA.netrc.machines[stA.netrc.machines.len() - 1]
                },
            ) =~= st.netrc.machines.push(fm1));
            assert(ParseState {
                netrc: NetrcView {
                    machines: stA.netrc.machines.update(
                        stA.netrc.machines.len() - 1,
                        MachineView {
                            login: Some(v),
                            ..stA.netrc.machines[stA.netrc.machines.len() - 1]
                        },
                    ),
                    ..stA.netrc
                },
                logins: stA.logins + 1,
                row: pos_after(s, o1, o1 + 7 + v.len(), stA.row, stA.col).0,
                col: pos_after(s, o1, o1 + 7 + v.len(), stA.row, stA.col).1,
                ..stA
            } =~= stB);
            assert(parse_from(s, o1, stA, tolerate) == parse_from(s, o2, stB, tolerate));
        },
        None => {
            assert(o1 == o2);
            assert(fm1 =~= fm0);
            assert(stB =~= stA);
        },
    }
    match m.password {
        Some(v) => {
            lemma_parse_password_field(s, o2, stB, v, tolerate);
            lemma_pos_after_concat(s, i, o2, o3, st.row, st.col);
            assert(stB.netrc.machines.update(
                stB.netrc.machines.len() - 1,
                MachineView {
                    password: Some(v),
                    ..stB.netrc.machines[stB.netrc.machines.len() - 1]
                },
            ) =~= st.netrc.machines.push(fm2));
            assert(ParseState {
                netrc: NetrcView {
                    machines: stB.netrc.machines.update(
                        stB.netrc.machines.len() - 1,
                        MachineView {
                            password: Some(v),
                            ..stB.netrc.machines[stB.netrc.machines.len() - 1]
                        },
                    ),
                    ..stB.netrc
                },
                passwords: stB.passwords + 1,
                row: pos_after(s, o2, o2 + 10 + v.len(), stB.row, stB.col).0,
                col: pos_after(s, o2, o2 + 10 + v.len(), stB.row, stB.col).1,
                ..stB
            } =~= stC);
            assert(parse_from(s, o2, stB, tolerate) == parse_from(s, o3, stC, tolerate));
        },
        None => {
            assert(o2 == o3);
            assert(fm2 =~= fm1);
            assert(stC =~= stB);
        },
    }
    let stD = entry_added(s, i, end, st, m);
    match m.account {
        Some(v) => {
            lemma_parse_account_field(s, o3, stC, v, tolerate);
            lemma_pos_after_concat(s, i, o3, end, st.row, st.col);
            assert(stC.netrc.machines.update(
                stC.netrc.machines.len() - 1,
                MachineView {
                    account: Some(v),
                    ..stC.netrc.machines[stC.netrc.machines.len() - 1]
                },
            ) =~= st.netrc.machines.push(m));
            assert(ParseState {
                netrc: NetrcView {
                    machines: stC.netrc.machines.update(
                        stC.netrc.machines.len() - 1,
                        MachineView {
                            account: Some(v),
                            ..stC.netrc.machines[stC.netrc.machines.len() - 1]
                        },
                    ),
                    ..stC.netrc
                },
                accounts: stC.accounts + 1,
                row: pos_after(s, o3, o3 + 9 + v.len(), stC.row, stC.col).0,
                col: pos_after(s, o3, o3 + 9 + v.len(), stC.row, stC.col).1,
                ..stC
            } =~= stD);
            assert(parse_from(s, o3, stC, tolerate) == parse_from(s, end, stD, tolerate));
        },
        None => {
            assert(o3 == end);
            assert(fm2 =~= m);
            assert(stD =~= stC);
        },
    }
}

/// The joined renders of a list of machine records: each followed by one
/// separating space.
pub open spec fn renders_join(ms: Seq<MachineView>) -> Seq<char>
    decreases ms.len(),
{
    if ms.len() == 0 {
        Seq::empty()
    } else {
        (render_view(ms.first()) + seq![' ']) + renders_join(ms.drop_first())
    }
}

/// Parsing a joined render list that reaches the end of the input appends
/// exactly those machine records.
pub proof fn lemma_parse_rendered_list(
    s: Seq<char>,
    i: int,
    d: int,
    st: ParseState,
    ms: Seq<MachineView>,
    tolerate: bool,
)
    requires
        0 <= i,
        0 <= d,
        occurs_at(s, i + d, renders_join(ms)),
        i + d + renders_join(ms).len() == s.len(),
        forall|t: int| i <= t < i + d ==> is_ws_char(#[trigger] s[t]),
        forall|q: int| 0 <= q < ms.len() ==> renderable(#[trigger] ms[q]),
        0 <= st.logins <= st.netrc.machines.len(),
        0 <= st.passwords <= st.netrc.machines.len(),
        0 <= st.accounts <= st.netrc.machines.len(),
    ensures
        parse_from(s, i, st, tolerate) == Ok::<NetrcView, ErrorView>(
            NetrcView { machines: st.netrc.machines + ms, ..st.netrc },
        ),
    decreases ms.len(),
{
    if ms.len() == 0 {
        lemma_ws_run(s, i, d);
        assert(parse_from(s, i, st, tolerate) == Ok::<NetrcView, ErrorView>(st.netrc));
        assert(st.netrc.machines + ms =~= st.netrc.machines);
        assert(NetrcView { machines: st.netrc.machines + ms, ..st.netrc } =~= st.netrc);
    } else {
        let m = ms.first();
        assert(renderable(m));
        let r = render_view(m);
        let rest = renders_join(ms.drop_first());
        lemma_occurs_split(s, i + d, r + seq![' '], rest);
        lemma_occurs_split(s, i + d, r, seq![' ']);
        let end1 = i + d + r.len();
        assert(s[end1 + 0] == seq![' '][0]);
        assert(at_break(s, end1));
        lemma_parse_rendered_entry(s, i, d, st, m, tolerate);
        let st1 = entry_added(s, i, end1, st, m);
        assert forall|q: int| 0 <= q < ms.drop_first().len() implies renderable(
            #[trigger] ms.drop_first()[q],
        ) by {
            assert(ms.drop_first()[q] == ms[q + 1]);
        }
        lemma_parse_rendered_list(s, end1, 1, st1, ms.drop_first(), tolerate);
        assert(st.netrc.machines.push(m) + ms.drop_first() =~= st.netrc.machines + ms);
        assert(NetrcView { machines: st1.netrc.machines + ms.drop_first(), ..st1.netrc } =~= NetrcView {
            machines: st.netrc.machines + ms,
            ..st.netrc
        });
    }
}

/// LAW: for every list of machine records whose present field values are
/// whitespace-free words, parsing the joined renders yields exactly those
/// records, in order, with no macro definitions and no unknown entries —
/// whatever the tolerance switch.  With every field present this is the
/// well-formed `machine <h> login <l> password <p> account <a>` tuple form;
/// with every field absent it shows that `default` entries are all kept,
/// never merged.
pub proof fn lemma_parse_rendered_machines(ms: Seq<MachineView>, tolerate: bool)
    requires
        forall|q: int| 0 <= q < ms.len() ==> renderable(#[trigger] ms[q]),
    ensures
        spec_parse(renders_join(ms), tolerate) == Ok::<NetrcView, ErrorView>(
            NetrcView { machines: ms, macdefs: Seq::empty(), unknown_entries: Seq::empty() },
        ),
{
    let s = renders_join(ms);
    assert(occurs_at(s, 0, s));
    lemma_parse_rendered_list(s, 0, 0, init_state(), ms, tolerate);
    assert(Seq::<MachineView>::empty() + ms =~= ms);
    assert(NetrcView {
        machines: Seq::<MachineView>::empty() + ms,
        ..init_state().netrc
    } =~= NetrcView { machines: ms, macdefs: Seq::empty(), unknown_entries: Seq::empty() });
}

/// LAW: a lone `default` produces a machine record whose name is absent,
/// and any number of `default` entries are all retained, in order.
pub proof fn lemma_defaults_kept(n: nat, tolerate: bool)
    ensures
        ({
            let ms = Seq::new(n, |q: int| empty_machine_view());
            &&& spec_parse(renders_join(ms), tolerate) matches Ok(nv) && nv.machines.len() == n
                && (forall|q: int| 0 <= q < n ==> nv.machines[q].name is None)
        }),
{
    let ms = Seq::new(n, |q: int| empty_machine_view());
    assert forall|q: int| 0 <= q < ms.len() implies renderable(#[trigger] ms[q]) by {}
    lemma_parse_rendered_machines(ms, tolerate);
}

/// LAW: rendering a machine record whose present field values are
/// whitespace-free words and re-parsing that one line yields exactly that
/// record back (the round trip), with nothing else in the result.
pub proof fn lemma_render_round_trip(m: MachineView, tolerate: bool)
    requires
        renderable(m),
    ensures
        spec_parse(render_view(m), tolerate) == Ok::<NetrcView, ErrorView>(
            NetrcView { machines: seq![m], macdefs: Seq::empty(), unknown_entries: Seq::empty() },
        ),
{
    let s = render_view(m);
    assert(occurs_at(s, 0, s));
    lemma_parse_rendered_entry(s, 0, 0, init_state(), m, tolerate);
    let st1 = entry_added(s, 0, s.len() as int, init_state(), m);
    assert(skip_ws_idx(s, s.len() as int) == s.len());
    assert(parse_from(s, s.len() as int, st1, tolerate) == Ok::<NetrcView, ErrorView>(st1.netrc));
    assert(Seq::<MachineView>::empty().push(m) =~= seq![m]);
    assert(st1.netrc =~= NetrcView {
        machines: seq![m],
        macdefs: Seq::empty(),
        unknown_entries: Seq::empty(),
    });
}

/// LAW: a `login`, `password` or `account` keyword as the first word of the
/// input fails — with the positioned format error when a value word
/// follows, and with the end-of-input error when none does.  Verification
/// of the executable parser separately guarantees that no out-of-range
/// access can occur on such input.
pub proof fn lemma_cred_before_machine(s: Seq<char>, tolerate: bool)
    requires
        ({
            let j = skip_ws_idx(s, 0);
            &&& j < s.len()
            &&& {
                let w = s.subrange(j, word_end_idx(s, j));
                w == "login"@ || w == "password"@ || w == "account"@
            }
        }),
    ensures
        spec_parse(s, tolerate) is Err,
        skip_ws_idx(s, word_end_idx(s, skip_ws_idx(s, 0))) < s.len() ==> (spec_parse(s, tolerate)
            matches Err(e) && e is IllegalFormat),
        skip_ws_idx(s, word_end_idx(s, skip_ws_idx(s, 0))) >= s.len() ==> spec_parse(s, tolerate)
            == Err::<NetrcView, ErrorView>(ErrorView::EOF),
{
    lemma_keywords();
    lemma_skip_ws_idx_bounds(s, 0);
    let j = skip_ws_idx(s, 0);
    lemma_word_end_idx_bounds(s, j);
    let k = word_end_idx(s, j);
    lemma_skip_ws_idx_bounds(s, k);
    if skip_ws_idx(s, k) < s.len() {
        lemma_word_end_idx_bounds(s, skip_ws_idx(s, k));
    }
}

/// LAW: input ending right after a `machine`, `login`, `password`,
/// `account` or `macdef` keyword — with only whitespace behind it where a
/// value word was owed — fails with the end-of-input error, from any parse
/// state.
pub proof fn lemma_ends_after_keyword(s: Seq<char>, i: int, st: ParseState, tolerate: bool)
    requires
        0 <= i <= s.len(),
        ({
            let j = skip_ws_idx(s, i);
            &&& j < s.len()
            &&& {
                let w = s.subrange(j, word_end_idx(s, j));
                ||| w == "machine"@
                ||| w == "login"@
                ||| w == "password"@
                ||| w == "account"@
                ||| w == "macdef"@
            }
            &&& skip_ws_idx(s, word_end_idx(s, j)) >= s.len()
        }),
    ensures
        parse_from(s, i, st, tolerate) == Err::<NetrcView, ErrorView>(ErrorView::EOF),
{
    lemma_keywords();
    lemma_skip_ws_idx_bounds(s, i);
    let j = skip_ws_idx(s, i);
    lemma_word_end_idx_bounds(s, j);
}

/// LAW: a bare word that is no keyword, met where an entry may start, is
/// appended to the unknown entries when tolerance is on, and aborts the
/// parse with the positioned format error naming the word when it is off.
pub proof fn lemma_unknown_word(s: Seq<char>, i: int, st: ParseState, tolerate: bool)
    requires
        0 <= i <= s.len(),
        ({
            let j = skip_ws_idx(s, i);
            &&& j < s.len()
            &&& {
                let w = s.subrange(j, word_end_idx(s, j));
                &&& w != "machine"@
                &&& w != "default"@
                &&& w != "login"@
                &&& w != "password"@
                &&& w != "account"@
                &&& w != "macdef"@
            }
        }),
    ensures
        ({
            let j = skip_ws_idx(s, i);
            let k = word_end_idx(s, j);
            let w = s.subrange(j, k);
            let p1 = pos_after(s, i, k, st.row, st.col);
            &&& !tolerate ==> parse_from(s, i, st, tolerate) == Err::<NetrcView, ErrorView>(
                ErrorView::IllegalFormat(p1.0, p1.1, "token: "@ + w),
            )
            &&& tolerate ==> parse_from(s, i, st, tolerate) == parse_from(
                s,
                k,
                ParseState {
                    netrc: NetrcView {
                        unknown_entries: st.netrc.unknown_entries.push(w),
                        ..st.netrc
                    },
                    row: p1.0,
                    col: p1.1,
                    ..st
                },
                tolerate,
            )
        }),
{
    lemma_skip_ws_idx_bounds(s, i);
    let j = skip_ws_idx(s, i);
    lemma_word_end_idx_bounds(s, j);
}


/// Character-level facts about the rendered `macdef ` prefix.
pub proof fn lemma_prefix_macdef()
    ensures
        "macdef "@.len() == 7,
        "macdef "@.subrange(0, 6) == "macdef"@,
        is_ws_char("macdef "@[6]) && "macdef "@[6] == ' ',
{
    lemma_keywords();
    reveal_strlit("macdef");
    reveal_strlit("macdef ");
    let pf = "macdef "@;
    assert(pf[0] == 'm' && pf[1] == 'a' && pf[2] == 'c' && pf[3] == 'd' && pf[4] == 'e' && pf[5]
        == 'f' && pf[6] == ' ');
    assert(pf.subrange(0, 6) =~= "macdef"@);
}

/// LAW, first half: a `macdef <name>` entry appends one macro definition
/// holding exactly the lines that the line-capture model reads behind the
/// name, and parsing resumes right after what that capture consumed.
pub proof fn lemma_parse_macdef_entry(
    s: Seq<char>,
    i: int,
    st: ParseState,
    name: Seq<char>,
    tolerate: bool,
)
    requires
        0 <= i,
        occurs_at(s, i, "macdef "@ + name),
        is_word(name),
        at_break(s, i + 7 + name.len()),
    ensures
        ({
            let k2 = i + 7 + name.len();
            let j3 = skip_ws_idx(s, k2);
            let cmds = cmds_from(s, j3);
            let p2 = pos_after(s, i, k2, st.row, st.col);
            let p3 = pos_after(s, k2, j3, p2.0, p2.1);
            parse_from(s, i, st, tolerate) == parse_from(
                s,
                cmds_end(s, j3),
                ParseState {
                    netrc: NetrcView { macdefs: st.netrc.macdefs.push((name, cmds)), ..st.netrc },
                    row: p3.0 + cmds.len(),
                    col: 1,
                    ..st
                },
                tolerate,
            )
        }),
{
    lemma_keywords();
    lemma_prefix_macdef();
    lemma_occurs_split(s, i, "macdef "@, name);
    let k2 = i + 7 + name.len();
    assert forall|t: int| 0 <= t < 6 implies s[i + t] == #[trigger] "macdef"@[t] by {
        assert(s[i + t] == "macdef "@[t]);
        assert("macdef "@.subrange(0, 6)[t] == "macdef "@[t]);
    }
    assert(occurs_at(s, i, "macdef"@));
    assert(s[i + 6] == "macdef "@[6]);
    lemma_word_token(s, i, "macdef"@);
    assert(occurs_at(s, i + 7, name));
    assert(s[i + 7] == name[0]);
    lemma_skip_ws_idx_complete(s, i + 6, i + 7);
    lemma_word_token(s, i + 7, name);
    lemma_skip_ws_idx_bounds(s, k2);
    lemma_cmds_end_bounds(s, skip_ws_idx(s, k2));
    let p1 = pos_after(s, i, i + 6, st.row, st.col);
    let st1 = ParseState { row: p1.0, col: p1.1, ..st };
    lemma_pos_after_concat(s, i, i + 6, k2, st.row, st.col);
    let stepped = entry_step(s, i + 6, TokenView::MacDef, st1, tolerate);
    assert(stepped is Ok);
    let pair = stepped->Ok_0;
    let j3 = skip_ws_idx(s, k2);
    let cmds = cmds_from(s, j3);
    let p2 = pos_after(s, i, k2, st.row, st.col);
    let p3 = pos_after(s, k2, j3, p2.0, p2.1);
    assert(pair.0 == cmds_end(s, j3));
    assert(pair.1 =~= ParseState {
        netrc: NetrcView { macdefs: st.netrc.macdefs.push((name, cmds)), ..st.netrc },
        row: p3.0 + cmds.len(),
        col: 1,
        ..st
    });
    assert(parse_from(s, i, st, tolerate) == parse_from(s, pair.0, pair.1, tolerate));
}

/// The text of a macro body: each command line followed by its newline.
pub open spec fn lines_join(lines: Seq<Seq<char>>) -> Seq<char>
    decreases lines.len(),
{
    if lines.len() == 0 {
        Seq::empty()
    } else {
        (lines.first() + seq!['\n']) + lines_join(lines.drop_first())
    }
}

/// A capturable command line: free of newlines, and not blank after
/// trimming.
pub open spec fn line_ok(l: Seq<char>) -> bool {
    &&& forall|t: int| 0 <= t < l.len() ==> #[trigger] l[t] != '\n'
    &&& trim_seq(l).len() > 0
}

/// LAW, second half: line capture started on a body of newline-terminated
/// lines followed by a blank line takes exactly those lines, each trimmed,
/// in order — whatever their content, newlines aside — and consumes the
/// body together with the terminating blank line.
pub proof fn lemma_cmds_capture(s: Seq<char>, i: int, lines: Seq<Seq<char>>)
    requires
        0 <= i,
        occurs_at(s, i, lines_join(lines) + seq!['\n']),
        forall|q: int| 0 <= q < lines.len() ==> line_ok(#[trigger] lines[q]),
    ensures
        cmds_from(s, i) == lines.map_values(|l: Seq<char>| trim_seq(l)),
        cmds_end(s, i) == i + lines_join(lines).len() + 1,
    decreases lines.len(),
{
    if lines.len() == 0 {
        assert(s[i + 0] == (lines_join(lines) + seq!['\n'])[0]);
        assert(s[i] == '\n');
        lemma_line_end_idx_complete(s, i, i);
        assert(s.subrange(i, i).len() == 0);
        assert(trim_seq(s.subrange(i, i)).len() == 0);
        assert(cmds_from(s, i) =~= lines.map_values(|l: Seq<char>| trim_seq(l)));
    } else {
        let first = lines.first();
        let rest = lines.drop_first();
        assert(line_ok(first));
        assert(lines_join(lines) + seq!['\n'] == (first + seq!['\n']) + (lines_join(rest)
            + seq!['\n'])) by {
            assert(lines_join(lines) + seq!['\n'] =~= (first + seq!['\n']) + (lines_join(rest)
                + seq!['\n']));
        }
        lemma_occurs_split(s, i, first + seq!['\n'], lines_join(rest) + seq!['\n']);
        lemma_occurs_split(s, i, first, seq!['\n']);
        let e = i + first.len();
        assert(s[e + 0] == seq!['\n'][0]);
        assert forall|t: int| i <= t < e implies #[trigger] s[t] != '\n' by {
            assert(s[i + (t - i)] == first[t - i]);
        }
        lemma_line_end_idx_complete(s, i, e);
        assert(s.subrange(i, e) =~= first);
        let next = e + 1;
        lemma_cmds_capture(s, next, rest);
        assert(cmds_from(s, i) == seq![trim_seq(first)] + cmds_from(s, next));
        assert(seq![trim_seq(first)] + rest.map_values(|l: Seq<char>| trim_seq(l))
            =~= lines.map_values(|l: Seq<char>| trim_seq(l)));
        assert(cmds_end(s, i) == cmds_end(s, next));
    }
}


} // verus!
