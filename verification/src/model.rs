//! The data model: machine records, the aggregate parse result, positions
//! and errors, together with their mathematical views and the canonical
//! one-line rendering of a machine record.

use vstd::prelude::*;
use vstd::string::StringExecFns;

verus! {

/// A (row, column) location in the input, 1-indexed, used only in errors.
#[derive(Debug, Copy, Clone)]
pub struct Position(pub usize, pub usize);

/// One credential record of a `.netrc` file.  `name` absent marks the
/// special `default` entry.  Fields are filled in the order the input names
/// them; a field that the input never names stays absent.
#[derive(Debug, PartialEq, Eq, Clone)]
pub struct Machine {
    /// The remote machine name; absent for a `default` entry.
    pub name: Option<String>,
    /// The user on the remote machine.
    pub login: Option<String>,
    /// The password.
    pub password: Option<String>,
    /// The additional account password.
    pub account: Option<String>,
}

/// The mathematical value of a [`Machine`]: the same four fields over
/// character sequences.
pub struct MachineView {
    pub name: Option<Seq<char>>,
    pub login: Option<Seq<char>>,
    pub password: Option<Seq<char>>,
    pub account: Option<Seq<char>>,
}

impl View for Machine {
    type V = MachineView;

    open spec fn view(&self) -> MachineView {
        MachineView {
            name: self.name.deep_view(),
            login: self.login.deep_view(),
            password: self.password.deep_view(),
            account: self.account.deep_view(),
        }
    }
}

impl DeepView for Machine {
    type V = MachineView;

    open spec fn deep_view(&self) -> MachineView {
        self.view()
    }
}

/// A machine record with every field absent.
pub open spec fn empty_machine_view() -> MachineView {
    MachineView { name: None, login: None, password: None, account: None }
}

impl Default for Machine {
    /// A record with every field absent.
    fn default() -> (m: Machine)
        ensures
            m@ == empty_machine_view(),
    {
        let m = Machine { name: None, login: None, password: None, account: None };
        m
    }
}

/// The keyword-prefix text in front of an optional field value, or nothing
/// when the field is absent.
pub open spec fn opt_field(kw: Seq<char>, v: Option<Seq<char>>) -> Seq<char> {
    match v {
        Some(x) => kw + x,
        None => Seq::<char>::empty(),
    }
}

/// The canonical one-line rendering of a machine record: `machine <name>`
/// (or the bare word `default`), then ` login <v>`, ` password <v>` and
/// ` account <v>` for each present field, in that fixed order.
pub open spec fn render_view(m: MachineView) -> Seq<char> {
    (match m.name {
        Some(n) => "machine "@ + n,
        None => "default"@,
    }) + opt_field(" login "@, m.login) + opt_field(" password "@, m.password) + opt_field(
        " account "@,
        m.account,
    )
}

impl Machine {
    /// Renders this record to its canonical one-line text.
    pub fn render(&self) -> (r: String)
        ensures
            r@ == render_view(self@),
    {
        let mut r = String::new();
        match &self.name {
            Some(n) => {
                r.append("machine ");
                r.append(n.as_str());
            },
            None => {
                r.append("default");
            },
        }
        match &self.login {
            Some(v) => {
                r.append(" login ");
                r.append(v.as_str());
            },
            None => {},
        }
        match &self.password {
            Some(v) => {
                r.append(" password ");
                r.append(v.as_str());
            },
            None => {},
        }
        match &self.account {
            Some(v) => {
                r.append(" account ");
                r.append(v.as_str());
            },
            None => {},
        }
        proof {
            assert(r@ =~= render_view(self@));
        }
        r
    }
}

/// The parsed form of one `.netrc` text.
#[derive(Debug)]
pub struct Netrc {
    /// The machine records, in input order.
    pub machines: Vec<Machine>,
    /// The macro definitions: each a name and its command lines, in order.
    pub macdefs: Vec<(String, Vec<String>)>,
    /// The unrecognized bare words, collected only when tolerance is on.
    pub unknown_entries: Vec<String>,
}

/// The mathematical value of a [`Netrc`].
pub struct NetrcView {
    pub machines: Seq<MachineView>,
    pub macdefs: Seq<(Seq<char>, Seq<Seq<char>>)>,
    pub unknown_entries: Seq<Seq<char>>,
}

impl View for Netrc {
    type V = NetrcView;

    open spec fn view(&self) -> NetrcView {
        NetrcView {
            machines: self.machines.deep_view(),
            macdefs: self.macdefs.deep_view(),
            unknown_entries: self.unknown_entries.deep_view(),
        }
    }
}

/// A parse result with nothing in it yet.
pub open spec fn empty_netrc_view() -> NetrcView {
    NetrcView { machines: Seq::empty(), macdefs: Seq::empty(), unknown_entries: Seq::empty() }
}

impl Default for Netrc {
    /// A result holding no machines, no macro definitions and no unknown
    /// entries.
    fn default() -> (n: Netrc)
        ensures
            n@ == empty_netrc_view(),
    {
        let n = Netrc { machines: Vec::new(), macdefs: Vec::new(), unknown_entries: Vec::new() };
        proof {
            assert(n@.machines =~= empty_netrc_view().machines);
            assert(n@.macdefs =~= empty_netrc_view().macdefs);
            assert(n@.unknown_entries =~= empty_netrc_view().unknown_entries);
        }
        n
    }
}

/// A failure while parsing.
#[derive(Debug)]
pub enum Error {
    /// The input ended where one more word was mandatorily expected.
    EOF,
    /// The input broke an ordering rule, or held an unrecognized word while
    /// tolerance was off; carries the position at the moment of detection and
    /// a descriptive cause.
    IllegalFormat(Position, String),
}

/// The mathematical value of an [`Error`]: the kind, and for the positioned
/// kind the row, the column and the cause text.
pub enum ErrorView {
    EOF,
    IllegalFormat(int, int, Seq<char>),
}

impl View for Error {
    type V = ErrorView;

    open spec fn view(&self) -> ErrorView {
        match self {
            Error::EOF => ErrorView::EOF,
            Error::IllegalFormat(p, m) => ErrorView::IllegalFormat(p.0 as int, p.1 as int, m@),
        }
    }
}

/// Writing one slot of a vector updates the same slot of the deep view.
pub proof fn lemma_vec_deep_view_update<T: DeepView>(pre: Vec<T>, post: Vec<T>, i: int, x: T)
    requires
        0 <= i < pre@.len(),
        post@ == pre@.update(i, x),
    ensures
        post.deep_view() == pre.deep_view().update(i, x.deep_view()),
{
    assert(post.deep_view() =~= pre.deep_view().update(i, x.deep_view()));
}

/// Pushing onto a vector appends the element's value to the deep view.
pub proof fn lemma_vec_deep_view_push<T: DeepView>(pre: Vec<T>, post: Vec<T>, x: T)
    requires
        post@ == pre@.push(x),
    ensures
        post.deep_view() == pre.deep_view().push(x.deep_view()),
{
    assert(post.deep_view() =~= pre.deep_view().push(x.deep_view()));
}

} // verus!
