use vstd::prelude::*;

use super::Command;
use crate::text::{str_eq, texts};
use crate::lexer::{all_digits, decimal, is_digit, parse_decimal};

verus! {

/// A command that the shell runs inside its own process.
pub trait BuiltinCommand {
    spec fn spec_name(&self) -> Seq<char>;

    fn name(&self) -> (r: &'static str)
        ensures
            r@ == self.spec_name(),
    ;
}

pub struct Echo;

pub struct Exit;

pub struct Type;

pub struct Pwd;

pub struct Cd;

pub struct History;

pub struct Cat;

impl BuiltinCommand for Echo {
    open spec fn spec_name(&self) -> Seq<char> {
        "echo"@
    }

    fn name(&self) -> (r: &'static str) {
        "echo"
    }
}

impl BuiltinCommand for Exit {
    open spec fn spec_name(&self) -> Seq<char> {
        "exit"@
    }

    fn name(&self) -> (r: &'static str) {
        "exit"
    }
}

impl BuiltinCommand for Type {
    open spec fn spec_name(&self) -> Seq<char> {
        "type"@
    }

    fn name(&self) -> (r: &'static str) {
        "type"
    }
}

impl BuiltinCommand for Pwd {
    open spec fn spec_name(&self) -> Seq<char> {
        "pwd"@
    }

    fn name(&self) -> (r: &'static str) {
        "pwd"
    }
}

impl BuiltinCommand for Cd {
    open spec fn spec_name(&self) -> Seq<char> {
        "cd"@
    }

    fn name(&self) -> (r: &'static str) {
        "cd"
    }
}

impl BuiltinCommand for History {
    open spec fn spec_name(&self) -> Seq<char> {
        "history"@
    }

    fn name(&self) -> (r: &'static str) {
        "history"
    }
}

impl Command for Cat {
    open spec fn spec_name(&self) -> Seq<char> {
        "cat"@
    }

    fn name(&self) -> (r: &'static str) {
        "cat"
    }
}

/// The builtins that the registry can hold, one variant per command.
#[derive(Clone, Copy, Debug, PartialEq, Eq, Structural)]
pub enum Builtin {
    Echo,
    Exit,
    Type,
    Pwd,
    Cd,
    History,
}

impl Builtin {
    pub open spec fn spec_name(self) -> Seq<char> {
        match self {
            Builtin::Echo => Echo.spec_name(),
            Builtin::Exit => Exit.spec_name(),
            Builtin::Type => Type.spec_name(),
            Builtin::Pwd => Pwd.spec_name(),
            Builtin::Cd => Cd.spec_name(),
            Builtin::History => History.spec_name(),
        }
    }

    pub fn name(&self) -> (r: &'static str)
        ensures
            r@ == self.spec_name(),
    {
        match self {
            Builtin::Echo => Echo.name(),
            Builtin::Exit => Exit.name(),
            Builtin::Type => Type.name(),
            Builtin::Pwd => Pwd.name(),
            Builtin::Cd => Cd.name(),
            Builtin::History => History.name(),
        }
    }
}

/// No two builtins share a name.
pub proof fn lemma_builtin_names_distinct(a: Builtin, b: Builtin)
    ensures
        a.spec_name() == b.spec_name() ==> a == b,
{
    reveal_strlit("echo");
    reveal_strlit("exit");
    reveal_strlit("type");
    reveal_strlit("pwd");
    reveal_strlit("cd");
    reveal_strlit("history");
    if a.spec_name() == b.spec_name() {
        assert(a.spec_name().len() == b.spec_name().len());
        assert(a.spec_name()[0] == b.spec_name()[0]);
        assert(a.spec_name()[1] == b.spec_name()[1]);
    }
}

fn is_all_digits(s: &str) -> (r: bool)
    ensures
        r == all_digits(s@),
{
    let n = s.unicode_len();
    let mut i: usize = 0;
    while i < n
        invariant
            n == s@.len(),
            0 <= i <= n,
            forall|k: int| 0 <= k < i ==> is_digit(#[trigger] s@[k]),
        decreases n - i,
    {
        let c = s.get_char(i);
        if !('0' <= c && c <= '9') {
            return false;
        }
        i = i + 1;
    }
    true
}

/// The builtin commands, by name.
pub struct Registry {
    commands: Vec<Builtin>,
}

pub open spec fn names_unique(cmds: Seq<Builtin>) -> bool {
    forall|i: int, j: int|
        0 <= i < cmds.len() && 0 <= j < cmds.len() && i != j ==> cmds[i].spec_name()
            != cmds[j].spec_name()
}

/// The builtins of a list, by name.
pub open spec fn table(cmds: Seq<Builtin>) -> Map<Seq<char>, Builtin> {
    Map::new(
        |k: Seq<char>| exists|i: int| 0 <= i < cmds.len() && cmds[i].spec_name() == k,
        |k: Seq<char>| cmds[choose|i: int| 0 <= i < cmds.len() && cmds[i].spec_name() == k],
    )
}

proof fn lemma_table_at(cmds: Seq<Builtin>, i: int)
    requires
        names_unique(cmds),
        0 <= i < cmds.len(),
    ensures
        table(cmds).contains_key(cmds[i].spec_name()),
        table(cmds)[cmds[i].spec_name()] == cmds[i],
{
    let k = cmds[i].spec_name();
    assert(0 <= i < cmds.len() && cmds[i].spec_name() == k);
    let c = choose|j: int| 0 <= j < cmds.len() && cmds[j].spec_name() == k;
    assert(c == i);
}

proof fn lemma_table_update(before: Seq<Builtin>, after: Seq<Builtin>, command: Builtin)
    requires
        names_unique(before),
        names_unique(after),
        forall|j: int|
            0 <= j < after.len() && after[j].spec_name() != command.spec_name() ==> j
                < before.len() && after[j] == before[j],
        forall|j: int|
            0 <= j < before.len() && before[j].spec_name() != command.spec_name() ==> j
                < after.len() && after[j] == before[j],
        exists|j: int| 0 <= j < after.len() && after[j] == command,
    ensures
        table(after) == table(before).insert(command.spec_name(), command),
{
    let t = table(before).insert(command.spec_name(), command);
    assert forall|k: Seq<char>| #[trigger] table(after).contains_key(k) == t.contains_key(k) && (
    table(after).contains_key(k) ==> table(after)[k] == t[k]) by {
        if k == command.spec_name() {
            let j = choose|j: int| 0 <= j < after.len() && after[j] == command;
            lemma_table_at(after, j);
        } else if table(before).contains_key(k) {
            let c = choose|j: int| 0 <= j < before.len() && before[j].spec_name() == k;
            lemma_table_at(before, c);
            lemma_table_at(after, c);
        } else if table(after).contains_key(k) {
            let j = choose|j: int| 0 <= j < after.len() && after[j].spec_name() == k;
            assert(0 <= j < before.len() && before[j].spec_name() == k);
        }
    }
    assert(table(after) =~= t);
}

impl View for Registry {
    type V = Map<Seq<char>, Builtin>;

    closed spec fn view(&self) -> Map<Seq<char>, Builtin> {
        table(self.commands@)
    }
}

impl Registry {
    /// Each name is registered once.
    pub closed spec fn wf(&self) -> bool {
        names_unique(self.commands@)
    }

    pub fn new() -> (r: Registry)
        ensures
            r.wf(),
            r@ == Map::<Seq<char>, Builtin>::empty(),
    {
        let r = Registry { commands: Vec::new() };
        assert(r@ =~= Map::<Seq<char>, Builtin>::empty());
        r
    }

    /// Registers a builtin under its name, replacing one registered before under it.
    fn register(&mut self, command: Builtin)
        requires
            old(self).wf(),
        ensures
            final(self).wf(),
            final(self)@ == old(self)@.insert(command.spec_name(), command),
    {
        let ghost before = self.commands@;
        let name = command.name();
        let n = self.commands.len();
        let mut i: usize = 0;
        while i < n
            invariant
                self.commands@ == before,
                old(self).commands@ == before,
                name@ == command.spec_name(),
                names_unique(before),
                n == before.len(),
                0 <= i <= n,
                forall|j: int| 0 <= j < i ==> before[j].spec_name() != command.spec_name(),
            decreases n - i,
        {
            if str_eq(self.commands[i].name(), name) {
                self.commands[i] = command;
                proof {
                    let after = self.commands@;
                    assert(after == before.update(i as int, command));
                    assert(after[i as int] == command);
                    assert(names_unique(after));
                    lemma_table_update(before, after, command);

                }
                return;
            }
            i = i + 1;
        }
        self.commands.push(command);
        proof {
            let after = self.commands@;
            assert(after[n as int] == command);
            lemma_table_update(before, after, command);
        }
    }

    /// The builtin registered under `name`, if any.
    pub fn get_command(&self, name: &str) -> (r: Option<Builtin>)
        requires
            self.wf(),
        ensures
            r == (if self@.contains_key(name@) {
                Some(self@[name@])
            } else {
                None
            }),
    {
        let n = self.commands.len();
        let mut i: usize = 0;
        while i < n
            invariant
                self.wf(),
                n == self.commands.len(),
                0 <= i <= n,
                forall|j: int| 0 <= j < i ==> self.commands[j].spec_name() != name@,
            decreases n - i,
        {
            if str_eq(self.commands[i].name(), name) {
                proof {
                    lemma_table_at(self.commands@, i as int);
                }
                return Some(self.commands[i]);
            }
            i = i + 1;
        }
        None
    }

    /// Whether a builtin is registered under `name`.
    pub fn check_builtin(&self, name: &str) -> (r: bool)
        requires
            self.wf(),
        ensures
            r == self@.contains_key(name@),
    {
        self.get_command(name).is_some()
    }

    /// The registered names, each once.
    pub fn command_names(&self) -> (r: Vec<String>)
        requires
            self.wf(),
        ensures
            texts(r@).no_duplicates(),
            forall|k: Seq<char>| self@.contains_key(k) <==> texts(r@).contains(k),
    {
        let n = self.commands.len();
        let mut names: Vec<String> = Vec::new();
        let mut i: usize = 0;
        while i < n
            invariant
                n == self.commands.len(),
                0 <= i <= n,
                names@.len() == i,
                forall|j: int| 0 <= j < i ==> (#[trigger] names@[j])@ == self.commands[j].spec_name(),
            decreases n - i,
        {
            names.push(self.commands[i].name().to_owned());
            i = i + 1;
        }
        assert forall|k: Seq<char>| self@.contains_key(k) <==> texts(names@).contains(k) by {
            if self@.contains_key(k) {
                let c = choose|j: int| 0 <= j < n && self.commands[j].spec_name() == k;
                assert(texts(names@)[c] == k);
            }
            if texts(names@).contains(k) {
                let c = choose|j: int| 0 <= j < texts(names@).len() && texts(names@)[j] == k;
                assert(self.commands[c].spec_name() == k);
            }
        }
        names
    }
}

/// The registry of every builtin command.
pub fn init_registry() -> (r: Registry)
    ensures
        r.wf(),
        forall|k: Seq<char>| r@.contains_key(k) <==> exists|b: Builtin| b.spec_name() == k,
        forall|b: Builtin| #[trigger] r@[b.spec_name()] == b,
{
    let mut reg = Registry::new();
    reg.register(Builtin::Echo);
    reg.register(Builtin::Exit);
    reg.register(Builtin::Type);
    reg.register(Builtin::Pwd);
    reg.register(Builtin::Cd);
    reg.register(Builtin::History);
    proof {
        assert forall|b: Builtin| #[trigger] reg@[b.spec_name()] == b by {
            lemma_builtin_names_distinct(b, Builtin::Echo);
            lemma_builtin_names_distinct(b, Builtin::Exit);
            lemma_builtin_names_distinct(b, Builtin::Type);
            lemma_builtin_names_distinct(b, Builtin::Pwd);
            lemma_builtin_names_distinct(b, Builtin::Cd);
            lemma_builtin_names_distinct(b, Builtin::History);
        }
        assert forall|k: Seq<char>| reg@.contains_key(k) <==> exists|b: Builtin| b.spec_name() == k by {
            if exists|b: Builtin| b.spec_name() == k {
                let b = choose|b: Builtin| b.spec_name() == k;
                assert(reg@.contains_key(b.spec_name()));
            }
            if reg@.contains_key(k) {
                if k == Builtin::Echo.spec_name() {
                } else if k == Builtin::Exit.spec_name() {
                } else if k == Builtin::Type.spec_name() {
                } else if k == Builtin::Pwd.spec_name() {
                } else if k == Builtin::Cd.spec_name() {
                } else {
                    assert(k == Builtin::History.spec_name());
                }
            }
        }
    }
    reg
}

/// Joins words with single spaces.
pub open spec fn join_words(words: Seq<Seq<char>>) -> Seq<char>
    decreases words.len(),
{
    if words.len() == 0 {
        Seq::empty()
    } else if words.len() == 1 {
        words[0]
    } else {
        join_words(words.drop_last()) + " "@ + words.last()
    }
}

impl Echo {
    /// The line that `echo` prints: its arguments joined by single spaces.
    pub fn line(args: &[String]) -> (r: String)
        ensures
            r@ == join_words(texts(args@)),
    {
        let mut out = String::new();
        let mut i: usize = 0;
        while i < args.len()
            invariant
                0 <= i <= args@.len(),
                out@ == join_words(texts(args@).take(i as int)),
            decreases args@.len() - i,
        {
            assert(texts(args@).take(i + 1).drop_last() =~= texts(args@).take(i as int));
            if i > 0 {
                out.append(" ");
            } else {
                assert(texts(args@).take(0) =~= Seq::<Seq<char>>::empty());
            }
            out.append(args[i].as_str());
            i = i + 1;
        }
        assert(texts(args@).take(args@.len() as int) =~= texts(args@));
        out
    }
}

/// What an invocation of `history` asks for.
#[derive(Debug, PartialEq, Eq)]
pub enum HistoryAction {
    Clear,
    Read(String),
    Write(String),
    Append(String),
    List { limit: Option<usize> },
}

/// The value of a [`HistoryAction`]: its file name as a sequence of characters.
pub enum HistoryRequest {
    Clear,
    Read(Seq<char>),
    Write(Seq<char>),
    Append(Seq<char>),
    List(Option<usize>),
}

impl View for HistoryAction {
    type V = HistoryRequest;

    open spec fn view(&self) -> HistoryRequest {
        match self {
            HistoryAction::Clear => HistoryRequest::Clear,
            HistoryAction::Read(f) => HistoryRequest::Read(f@),
            HistoryAction::Write(f) => HistoryRequest::Write(f@),
            HistoryAction::Append(f) => HistoryRequest::Append(f@),
            HistoryAction::List { limit } => HistoryRequest::List(*limit),
        }
    }
}

pub open spec fn too_many_arguments() -> Seq<char> {
    "history: too many arguments"@
}

/// A flag that takes one file name, with the request it makes of that file.
pub open spec fn file_request(flag: Seq<char>, file: Seq<char>) -> Option<HistoryRequest> {
    if flag == "-r"@ {
        Some(HistoryRequest::Read(file))
    } else if flag == "-w"@ {
        Some(HistoryRequest::Write(file))
    } else if flag == "-a"@ {
        Some(HistoryRequest::Append(file))
    } else {
        None
    }
}

/// The meaning of `history`'s arguments, or the message for arguments it rejects.
pub open spec fn history_request(args: Seq<Seq<char>>) -> Result<HistoryRequest, Seq<char>> {
    if args.len() == 0 {
        Ok(HistoryRequest::List(None))
    } else if args[0] == "-c"@ {
        if args.len() > 1 {
            Err(too_many_arguments())
        } else {
            Ok(HistoryRequest::Clear)
        }
    } else if file_request(args[0], Seq::empty()) is Some {
        if args.len() < 2 {
            Err("history: "@ + args[0] + " requires a filename"@)
        } else if args.len() > 2 {
            Err(too_many_arguments())
        } else {
            Ok(file_request(args[0], args[1]).unwrap())
        }
    } else if args.len() > 1 && all_digits(args[0]) {
        Err(too_many_arguments())
    } else if args.len() == 1 && decimal(args[0]) is Some {
        Ok(HistoryRequest::List(decimal(args[0])))
    } else {
        Err("history: unknown argument "@ + args[0])
    }
}

impl History {
    /// Reads the arguments of `history`.
    pub fn parse_history_args(args: &[String]) -> (r: Result<HistoryAction, String>)
        ensures
            match r {
                Ok(a) => history_request(texts(args@)) == Ok::<HistoryRequest, Seq<char>>(a@),
                Err(e) => history_request(texts(args@)) == Err::<HistoryRequest, Seq<char>>(e@),
            },
    {
        let ghost t = texts(args@);
        if args.len() == 0 {
            return Ok(HistoryAction::List { limit: None });
        }
        let first = args[0].as_str();
        assert(t[0] == first@);
        if str_eq(first, "-c") {
            if args.len() > 1 {
                return Err(String::from_str("history: too many arguments"));
            }
            return Ok(HistoryAction::Clear);
        }
        let is_read = str_eq(first, "-r");
        let is_write = str_eq(first, "-w");
        let is_append = str_eq(first, "-a");
        if is_read || is_write || is_append {
            if args.len() < 2 {
                let msg = String::from_str("history: ").concat(first).concat(" requires a filename");
                return Err(msg);
            }
            if args.len() > 2 {
                return Err(String::from_str("history: too many arguments"));
            }
            let file = args[1].clone();
            assert(t[1] == file@);
            if is_read {
                return Ok(HistoryAction::Read(file));
            } else if is_write {
                return Ok(HistoryAction::Write(file));
            } else {
                return Ok(HistoryAction::Append(file));
            }
        }
        let all_digit = is_all_digits(first);
        if args.len() > 1 && all_digit {
            return Err(String::from_str("history: too many arguments"));
        }
        if args.len() == 1 {
            if let Some(n) = parse_decimal(first) {
                return Ok(HistoryAction::List { limit: Some(n) });
            }
        }
        Err(String::from_str("history: unknown argument ").concat(first))
    }

    /// The index of the first entry that `history` lists, out of `len`, when
    /// asked for the last `limit` (all of them when there is no limit).
    pub fn list_start(len: usize, limit: Option<usize>) -> (r: usize)
        ensures
            r == (match limit {
                Some(k) => if k < len {
                    len - k
                } else {
                    0
                },
                None => 0,
            }),
    {
        match limit {
            Some(k) => len.saturating_sub(k),
            None => 0,
        }
    }
}

pub open spec fn str_option(s: Option<&str>) -> Option<Seq<char>> {
    match s {
        Some(t) => Some(t@),
        None => None,
    }
}

/// The directory that `cd` goes to: its first argument, or the home directory
/// when there is none or it is `~`.
pub open spec fn cd_target(args: Seq<Seq<char>>, home: Option<Seq<char>>) -> Option<Seq<char>> {
    if args.len() == 0 || args[0] == "~"@ {
        home
    } else {
        Some(args[0])
    }
}

impl Cd {
    /// Where `cd` goes, given its arguments and the value of `HOME`; `None` when
    /// it needs `HOME` and that is not set.
    pub fn target(args: &[String], home: Option<&str>) -> (r: Option<String>)
        ensures
            r matches Some(t) ==> cd_target(texts(args@), str_option(home)) == Some(t@),
            r is None ==> cd_target(texts(args@), str_option(home)) is None,
    {
        if args.len() == 0 || str_eq(args[0].as_str(), "~") {
            match home {
                Some(h) => Some(h.to_owned()),
                None => None,
            }
        } else {
            Some(args[0].clone())
        }
    }
}

} // verus!
