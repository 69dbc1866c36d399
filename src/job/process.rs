use vstd::prelude::*;
use vstd::slice::slice_subrange;

use crate::text::texts;
use crate::context::ShellContext;

verus! {

/// A redirection of one output descriptor of a stage to a file.
#[derive(Debug, PartialEq, Eq)]
pub enum Redirect {
    Write { fd: usize, target: String },
    Append { fd: usize, target: String },
}

/// The value of a [`Redirect`].
pub struct Route {
    pub fd: usize,
    pub target: Seq<char>,
    pub append: bool,
}

impl View for Redirect {
    type V = Route;

    open spec fn view(&self) -> Route {
        match self {
            Redirect::Write { fd, target } => Route { fd: *fd, target: target@, append: false },
            Redirect::Append { fd, target } => Route { fd: *fd, target: target@, append: true },
        }
    }
}

pub open spec fn routes(v: Seq<Redirect>) -> Seq<Route> {
    v.map_values(|r: Redirect| r@)
}

/// The value of a [`Process`]: its argument vector and its redirections, in order.
pub struct Stage {
    pub argv: Seq<Seq<char>>,
    pub redirects: Seq<Route>,
}

pub open spec fn empty_stage() -> Stage {
    Stage { argv: Seq::empty(), redirects: Seq::empty() }
}

/// One stage of a pipeline: a program with its arguments and redirections.
pub struct Process {
    argv: Vec<String>,
    redirects: Vec<Redirect>,
}

impl View for Process {
    type V = Stage;

    closed spec fn view(&self) -> Stage {
        Stage { argv: texts(self.argv@), redirects: routes(self.redirects@) }
    }
}

impl Process {
    pub fn new() -> (r: Process)
        ensures
            r@ == empty_stage(),
    {
        let r = Process { argv: Vec::new(), redirects: Vec::new() };
        assert(r@.argv =~= Seq::<Seq<char>>::empty());
        assert(r@.redirects =~= Seq::<Route>::empty());
        r
    }

    pub fn push_arg(&mut self, arg: String)
        ensures
            final(self)@ == (Stage { argv: old(self)@.argv.push(arg@), ..old(self)@ }),
    {
        self.argv.push(arg);
        assert(self@.argv =~= old(self)@.argv.push(arg@));
    }

    pub fn push_output(&mut self, output: Redirect)
        ensures
            final(self)@ == (Stage { redirects: old(self)@.redirects.push(output@), ..old(self)@ }),
    {
        self.redirects.push(output);
        assert(self@.redirects =~= old(self)@.redirects.push(output@));
    }

    /// The program's name: the first word, if there is one.
    pub fn name(&self) -> (r: Option<&String>)
        ensures
            r matches Some(n) ==> self@.argv.len() > 0 && n@ == self@.argv[0],
            r is None ==> self@.argv.len() == 0,
    {
        if self.argv.len() > 0 {
            Some(&self.argv[0])
        } else {
            None
        }
    }

    /// The arguments after the program's name.
    pub fn args(&self) -> (r: &[String])
        ensures
            texts(r@) == (if self@.argv.len() > 0 {
                self@.argv.skip(1)
            } else {
                Seq::<Seq<char>>::empty()
            }),
    {
        if self.argv.len() > 0 {
            let r = slice_subrange(self.argv.as_slice(), 1, self.argv.len());
            assert(texts(r@) =~= self@.argv.skip(1));
            r
        } else {
            let r = self.argv.as_slice();
            assert(texts(r@) =~= Seq::<Seq<char>>::empty());
            r
        }
    }

    /// The redirections, in the order they are applied.
    pub fn redirects(&self) -> (r: &[Redirect])
        ensures
            routes(r@) == self@.redirects,
    {
        self.redirects.as_slice()
    }

    /// Whether the program is a builtin of the shell.
    pub fn is_builtin(&self, ctx: &ShellContext) -> (r: bool)
        requires
            ctx.wf(),
        ensures
            r == (self@.argv.len() > 0 && ctx.registry_map().contains_key(self@.argv[0])),
    {
        match self.name() {
            Some(n) => ctx.registry().check_builtin(n.as_str()),
            None => false,
        }
    }
}

} // verus!
