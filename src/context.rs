use vstd::prelude::*;
use vstd::slice::slice_subrange;

use crate::text::{push_char, str_eq, texts};
use crate::commands::Registry;
use crate::commands::init_registry;

verus! {

/// The value bound to `key` in a list of bindings: the last binding of it wins.
pub open spec fn lookup(vars: Seq<(String, String)>, key: Seq<char>) -> Option<Seq<char>>
    decreases vars.len(),
{
    if vars.len() == 0 {
        None
    } else if vars.last().0@ == key {
        Some(vars.last().1@)
    } else {
        lookup(vars.drop_last(), key)
    }
}

/// The map that a list of bindings denotes.
pub open spec fn bindings(vars: Seq<(String, String)>) -> Map<Seq<char>, Seq<char>> {
    Map::new(|k: Seq<char>| lookup(vars, k) is Some, |k: Seq<char>| lookup(vars, k)->0)
}

proof fn lemma_bindings_eq(
    a: Seq<(String, String)>,
    m: Map<Seq<char>, Seq<char>>,
)
    requires
        forall|k: Seq<char>|
            #[trigger] lookup(a, k) == (if m.contains_key(k) {
                Some(m[k])
            } else {
                None
            }),
    ensures
        bindings(a) == m,
{
    assert forall|k: Seq<char>| #[trigger] bindings(a).contains_key(k) == m.contains_key(k) by {
        assert(lookup(a, k) == (if m.contains_key(k) { Some(m[k]) } else { None }));
    }
    assert forall|k: Seq<char>| m.contains_key(k) implies #[trigger] bindings(a)[k] == m[k] by {
        assert(lookup(a, k) == Some(m[k]));
    }
    assert(bindings(a) =~= m);
}

/// The environment variables of the shell.
pub struct Env {
    vars: Vec<(String, String)>,
}

impl View for Env {
    type V = Map<Seq<char>, Seq<char>>;

    closed spec fn view(&self) -> Map<Seq<char>, Seq<char>> {
        bindings(self.vars@)
    }
}

impl Env {
    pub fn new() -> (r: Env)
        ensures
            r@ == Map::<Seq<char>, Seq<char>>::empty(),
    {
        let r = Env { vars: Vec::new() };
        assert(r@ =~= Map::<Seq<char>, Seq<char>>::empty());
        r
    }

    /// The environment that a list of bindings gives, later ones overriding
    /// earlier ones of the same name.
    pub fn from_pairs(pairs: Vec<(String, String)>) -> (r: Env)
        ensures
            r@ == bindings(pairs@),
    {
        let mut env = Env::new();
        let mut i: usize = 0;
        while i < pairs.len()
            invariant
                0 <= i <= pairs@.len(),
                env@ == bindings(pairs@.take(i as int)),
            decreases pairs@.len() - i,
        {
            let _ = env.set(pairs[i].0.as_str(), pairs[i].1.as_str());
            proof {
                let t = pairs@.take(i + 1);
                assert(t.drop_last() =~= pairs@.take(i as int));
                assert forall|k: Seq<char>| #[trigger] lookup(t, k) == (if env@.contains_key(k) {
                    Some(env@[k])
                } else {
                    None
                }) by {}
                lemma_bindings_eq(t, env@);
            }
            i = i + 1;
        }
        assert(pairs@.take(pairs@.len() as int) =~= pairs@);
        env
    }

    pub fn get(&self, key: &str) -> (r: Option<&str>)
        ensures
            r matches Some(v) ==> self@.contains_key(key@) && self@[key@] == v@,
            r is None ==> !self@.contains_key(key@),
    {
        let mut i: usize = self.vars.len();
        assert(self.vars@.take(i as int) =~= self.vars@);
        while i > 0
            invariant
                0 <= i <= self.vars@.len(),
                lookup(self.vars@, key@) == lookup(self.vars@.take(i as int), key@),
            decreases i,
        {
            i = i - 1;
            assert(self.vars@.take(i + 1).drop_last() =~= self.vars@.take(i as int));
            if str_eq(self.vars[i].0.as_str(), key) {
                return Some(self.vars[i].1.as_str());
            }
        }
        None
    }

    /// Binds `key` to `value`; returns the value it replaced.
    pub fn set(&mut self, key: &str, value: &str) -> (r: Option<String>)
        ensures
            final(self)@ == old(self)@.insert(key@, value@),
            r matches Some(v) ==> old(self)@.contains_key(key@) && old(self)@[key@] == v@,
            r is None ==> !old(self)@.contains_key(key@),
    {
        let previous = self.unset(key);
        let ghost cleared = self.vars@;
        assert(bindings(cleared) == old(self)@.remove(key@));
        self.vars.push((key.to_owned(), value.to_owned()));
        proof {
            let m = old(self)@.insert(key@, value@);
            assert forall|k: Seq<char>| #[trigger] lookup(self.vars@, k) == (if m.contains_key(k) {
                Some(m[k])
            } else {
                None
            }) by {
                assert(self.vars@.drop_last() == cleared);
                if k != key@ {
                    assert(bindings(cleared).contains_key(k) == (lookup(cleared, k) is Some));
                    if lookup(cleared, k) is Some {
                        assert(bindings(cleared)[k] == lookup(cleared, k)->0);
                    }
                }
            }
            lemma_bindings_eq(self.vars@, m);
        }
        previous
    }

    /// Removes the binding of `key`; returns the value it had.
    pub fn unset(&mut self, key: &str) -> (r: Option<String>)
        ensures
            final(self)@ == old(self)@.remove(key@),
            r matches Some(v) ==> old(self)@.contains_key(key@) && old(self)@[key@] == v@,
            r is None ==> !old(self)@.contains_key(key@),
    {
        let ghost before = self.vars@;
        let mut kept: Vec<(String, String)> = Vec::new();
        let mut found: Option<String> = None;
        let mut i: usize = 0;
        while i < self.vars.len()
            invariant
                self.vars@ == before,
                0 <= i <= before.len(),
                forall|k: Seq<char>|
                    #[trigger] lookup(kept@, k) == (if k == key@ {
                        None
                    } else {
                        lookup(before.take(i as int), k)
                    }),
                match found {
                    Some(v) => lookup(before.take(i as int), key@) == Some(v@),
                    None => lookup(before.take(i as int), key@) is None,
                },
            decreases before.len() - i,
        {
            let ghost prev_kept = kept@;
            let ghost t = before.take(i + 1);
            assert(t.drop_last() =~= before.take(i as int));
            assert(t.last() == before[i as int]);
            if str_eq(self.vars[i].0.as_str(), key) {
                found = Some(self.vars[i].1.clone());
                assert forall|k: Seq<char>|
                    #[trigger] lookup(kept@, k) == (if k == key@ {
                        None
                    } else {
                        lookup(t, k)
                    }) by {}
            } else {
                let name = self.vars[i].0.clone();
                let value = self.vars[i].1.clone();
                kept.push((name, value));
                assert(kept@.drop_last() == prev_kept);
                assert(kept@.last().0@ == t.last().0@);
                assert(kept@.last().1@ == t.last().1@);
                assert(t.last().0@ != key@);
                assert forall|k: Seq<char>|
                    #[trigger] lookup(kept@, k) == (if k == key@ {
                        None
                    } else {
                        lookup(t, k)
                    }) by {
                    assert(lookup(prev_kept, k) == (if k == key@ {
                        None
                    } else {
                        lookup(before.take(i as int), k)
                    }));
                }
            }
            i = i + 1;
        }
        assert(before.take(before.len() as int) =~= before);
        self.vars = kept;
        proof {
            let m = old(self)@.remove(key@);
            assert forall|k: Seq<char>| #[trigger] lookup(self.vars@, k) == (if m.contains_key(k) {
                Some(m[k])
            } else {
                None
            }) by {}
            lemma_bindings_eq(self.vars@, m);
        }
        found
    }
}

/// The lines of a history file that become entries: the non-empty ones.
pub open spec fn non_empty(lines: Seq<Seq<char>>) -> Seq<Seq<char>>
    decreases lines.len(),
{
    if lines.len() == 0 {
        Seq::empty()
    } else if lines.last().len() == 0 {
        non_empty(lines.drop_last())
    } else {
        non_empty(lines.drop_last()).push(lines.last())
    }
}

/// The command history: its entries, and how many of them a history file holds already.
pub struct History {
    entries: Vec<String>,
    flush_index: usize,
}

impl History {
    pub closed spec fn entries(&self) -> Seq<Seq<char>> {
        texts(self.entries@)
    }

    pub closed spec fn flushed(&self) -> nat {
        self.flush_index as nat
    }

    pub closed spec fn wf(&self) -> bool {
        self.flush_index <= self.entries@.len()
    }

    pub fn new() -> (r: History)
        ensures
            r.wf(),
            r.entries() == Seq::<Seq<char>>::empty(),
            r.flushed() == 0,
    {
        let r = History { entries: Vec::new(), flush_index: 0 };
        assert(r.entries() =~= Seq::<Seq<char>>::empty());
        r
    }

    pub fn push(&mut self, entry: &str)
        requires
            old(self).wf(),
        ensures
            final(self).wf(),
            final(self).entries() == old(self).entries().push(entry@),
            final(self).flushed() == old(self).flushed(),
    {
        self.entries.push(entry.to_owned());
        assert(self.entries() =~= old(self).entries().push(entry@));
    }

    pub fn clear(&mut self)
        ensures
            final(self).wf(),
            final(self).entries() == Seq::<Seq<char>>::empty(),
            final(self).flushed() == 0,
    {
        self.entries = Vec::new();
        self.flush_index = 0;
        assert(self.entries() =~= Seq::<Seq<char>>::empty());
    }

    /// Records that every entry is in the history file.
    pub fn mark_flushed(&mut self)
        ensures
            final(self).wf(),
            final(self).entries() == old(self).entries(),
            final(self).flushed() == old(self).entries().len(),
    {
        self.flush_index = self.entries.len();
    }

    /// The entries that the history file does not hold yet.
    pub fn unflushed_history(&self) -> (r: &[String])
        requires
            self.wf(),
        ensures
            texts(r@) == self.entries().skip(self.flushed() as int),
    {
        let r = slice_subrange(self.entries.as_slice(), self.flush_index, self.entries.len());
        assert(texts(r@) =~= self.entries().skip(self.flushed() as int));
        r
    }

    /// Appends the non-empty lines of a history file as entries.
    pub fn read(&mut self, lines: &[String])
        requires
            old(self).wf(),
        ensures
            final(self).wf(),
            final(self).entries() == old(self).entries() + non_empty(texts(lines@)),
            final(self).flushed() == old(self).flushed(),
    {
        let mut i: usize = 0;
        assert(texts(lines@).take(0) =~= Seq::<Seq<char>>::empty());
        while i < lines.len()
            invariant
                0 <= i <= lines@.len(),
                self.wf(),
                self.entries() == old(self).entries() + non_empty(texts(lines@).take(i as int)),
                self.flushed() == old(self).flushed(),
            decreases lines@.len() - i,
        {
            assert(texts(lines@).take(i + 1).drop_last() =~= texts(lines@).take(i as int));
            if !lines[i].as_str().is_empty() {
                self.push(lines[i].as_str());
            }
            i = i + 1;
        }
        assert(texts(lines@).take(lines@.len() as int) =~= texts(lines@));
    }

    pub fn entries_slice(&self) -> (r: &[String])
        ensures
            texts(r@) == self.entries(),
    {
        self.entries.as_slice()
    }
}

/// The pieces of `s` between occurrences of `sep`, empty ones included.
pub open spec fn split_on(s: Seq<char>, sep: char) -> Seq<Seq<char>>
    decreases s.len(),
{
    if s.len() == 0 {
        seq![Seq::<char>::empty()]
    } else {
        let rest = split_on(s.drop_last(), sep);
        if s.last() == sep {
            rest.push(Seq::empty())
        } else {
            rest.update(rest.len() - 1, rest.last().push(s.last()))
        }
    }
}

proof fn lemma_split_on_not_empty(s: Seq<char>, sep: char)
    ensures
        split_on(s, sep).len() >= 1,
    decreases s.len(),
{
    if s.len() > 0 {
        lemma_split_on_not_empty(s.drop_last(), sep);
    }
}

/// Splits `s` at every `:`.
pub fn split_colons(s: &str) -> (r: Vec<String>)
    ensures
        texts(r@) == split_on(s@, ':'),
{
    let n = s.unicode_len();
    let mut parts: Vec<String> = Vec::new();
    let mut cur = String::new();
    let mut i: usize = 0;
    assert(s@.take(0) =~= Seq::<char>::empty());
    assert(texts(parts@).push(cur@) =~= split_on(s@.take(0), ':'));
    while i < n
        invariant
            n == s@.len(),
            0 <= i <= n,
            texts(parts@).push(cur@) == split_on(s@.take(i as int), ':'),
        decreases n - i,
    {
        let c = s.get_char(i);
        let ghost t = s@.take(i + 1);
        assert(t.drop_last() =~= s@.take(i as int));
        assert(t.last() == c);
        proof {
            lemma_split_on_not_empty(s@.take(i as int), ':');
        }
        if c == ':' {
            let ghost old_parts = texts(parts@);
            parts.push(cur);
            cur = String::new();
            assert(texts(parts@).push(cur@) =~= split_on(t, ':'));
        } else {
            let ghost old_parts = texts(parts@);
            push_char(&mut cur, c);
            assert(texts(parts@).push(cur@) =~= split_on(t, ':'));
        }
        i = i + 1;
    }
    assert(s@.take(n as int) =~= s@);
    parts.push(cur);
    assert(texts(parts@) =~= split_on(s@, ':'));
    parts
}

/// The state that the shell keeps between commands.
pub struct ShellContext {
    registry: Registry,
    env: Env,
    cwd: String,
    history: History,
}

impl ShellContext {
    pub closed spec fn wf(&self) -> bool {
        self.registry.wf() && self.history.wf()
    }

    pub closed spec fn env_map(&self) -> Map<Seq<char>, Seq<char>> {
        self.env@
    }

    pub closed spec fn registry_map(&self) -> Map<Seq<char>, crate::commands::builtins::Builtin> {
        self.registry@
    }

    pub closed spec fn cwd_path(&self) -> Seq<char> {
        self.cwd@
    }

    pub closed spec fn history_entries(&self) -> Seq<Seq<char>> {
        self.history.entries()
    }

    pub closed spec fn history_flushed(&self) -> nat {
        self.history.flushed()
    }

    /// A context with every builtin registered, the given environment and
    /// working directory, and no history.
    pub fn new(vars: Vec<(String, String)>, cwd: String) -> (r: ShellContext)
        ensures
            r.wf(),
            r.env_map() == bindings(vars@),
            r.cwd_path() == cwd@,
            r.history_entries() == Seq::<Seq<char>>::empty(),
            r.history_flushed() == 0,
            forall|k: Seq<char>|
                r.registry_map().contains_key(k) <==> exists|b: crate::commands::builtins::Builtin|
                    b.spec_name() == k,
    {
        ShellContext {
            registry: init_registry(),
            env: Env::from_pairs(vars),
            cwd,
            history: History::new(),
        }
    }

    pub fn registry(&self) -> (r: &Registry)
        ensures
            r@ == self.registry_map(),
            self.wf() ==> r.wf(),
    {
        &self.registry
    }

    /// The names of the builtins, each once.
    pub fn builtin_names_iter(&self) -> (r: Vec<String>)
        requires
            self.wf(),
        ensures
            texts(r@).no_duplicates(),
            forall|k: Seq<char>| self.registry_map().contains_key(k) <==> texts(r@).contains(k),
    {
        self.registry.command_names()
    }

    pub fn env(&self, key: &str) -> (r: Option<&str>)
        ensures
            r matches Some(v) ==> self.env_map().contains_key(key@) && self.env_map()[key@] == v@,
            r is None ==> !self.env_map().contains_key(key@),
    {
        self.env.get(key)
    }

    pub fn set_env(&mut self, key: &str, value: &str) -> (r: Option<String>)
        ensures
            final(self).env_map() == old(self).env_map().insert(key@, value@),
            r matches Some(v) ==> old(self).env_map().contains_key(key@) && old(self).env_map()[key@] == v@,
            r is None ==> !old(self).env_map().contains_key(key@),
            final(self).wf() == old(self).wf(),
            final(self).registry_map() == old(self).registry_map(),
            final(self).cwd_path() == old(self).cwd_path(),
            final(self).history_entries() == old(self).history_entries(),
            final(self).history_flushed() == old(self).history_flushed(),
    {
        self.env.set(key, value)
    }

    pub fn unset_env(&mut self, key: &str) -> (r: Option<String>)
        ensures
            final(self).env_map() == old(self).env_map().remove(key@),
            r matches Some(v) ==> old(self).env_map().contains_key(key@) && old(self).env_map()[key@] == v@,
            r is None ==> !old(self).env_map().contains_key(key@),
            final(self).wf() == old(self).wf(),
            final(self).registry_map() == old(self).registry_map(),
            final(self).cwd_path() == old(self).cwd_path(),
            final(self).history_entries() == old(self).history_entries(),
            final(self).history_flushed() == old(self).history_flushed(),
    {
        self.env.unset(key)
    }

    /// The directories of `PATH`, in order; none when it is not set.
    pub fn paths(&self) -> (r: Vec<String>)
        ensures
            texts(r@) == (if self.env_map().contains_key("PATH"@) {
                split_on(self.env_map()["PATH"@], ':')
            } else {
                Seq::<Seq<char>>::empty()
            }),
    {
        match self.env.get("PATH") {
            Some(p) => split_colons(p),
            None => {
                let r: Vec<String> = Vec::new();
                assert(texts(r@) =~= Seq::<Seq<char>>::empty());
                r
            },
        }
    }

    pub fn cwd(&self) -> (r: &str)
        ensures
            r@ == self.cwd_path(),
    {
        self.cwd.as_str()
    }

    pub fn set_cwd(&mut self, path: &str)
        ensures
            final(self).cwd_path() == path@,
            final(self).wf() == old(self).wf(),
            final(self).env_map() == old(self).env_map(),
            final(self).registry_map() == old(self).registry_map(),
            final(self).history_entries() == old(self).history_entries(),
            final(self).history_flushed() == old(self).history_flushed(),
    {
        self.cwd = path.to_owned();
    }

    /// Every history entry, oldest first.
    pub fn historys(&self) -> (r: &[String])
        ensures
            texts(r@) == self.history_entries(),
    {
        self.history.entries_slice()
    }

    pub fn push_history(&mut self, entry: &str)
        requires
            old(self).wf(),
        ensures
            final(self).wf(),
            final(self).history_entries() == old(self).history_entries().push(entry@),
            final(self).history_flushed() == old(self).history_flushed(),
            final(self).env_map() == old(self).env_map(),
            final(self).registry_map() == old(self).registry_map(),
            final(self).cwd_path() == old(self).cwd_path(),
    {
        self.history.push(entry);
    }

    pub fn clear_history(&mut self)
        requires
            old(self).wf(),
        ensures
            final(self).wf(),
            final(self).history_entries() == Seq::<Seq<char>>::empty(),
            final(self).history_flushed() == 0,
            final(self).env_map() == old(self).env_map(),
            final(self).registry_map() == old(self).registry_map(),
            final(self).cwd_path() == old(self).cwd_path(),
    {
        self.history.clear();
    }

    /// Loads the lines of the history file at start-up: they become entries
    /// that the file already holds.
    pub fn preload_history(&mut self, lines: &[String])
        requires
            old(self).wf(),
        ensures
            final(self).wf(),
            final(self).history_entries() == old(self).history_entries() + non_empty(texts(lines@)),
            final(self).history_flushed() == final(self).history_entries().len(),
            final(self).env_map() == old(self).env_map(),
            final(self).registry_map() == old(self).registry_map(),
            final(self).cwd_path() == old(self).cwd_path(),
    {
        self.history.read(lines);
        self.history.mark_flushed();
    }

    /// Appends the non-empty lines of a history file as entries.
    pub fn read_history(&mut self, lines: &[String])
        requires
            old(self).wf(),
        ensures
            final(self).wf(),
            final(self).history_entries() == old(self).history_entries() + non_empty(texts(lines@)),
            final(self).history_flushed() == old(self).history_flushed(),
            final(self).env_map() == old(self).env_map(),
            final(self).registry_map() == old(self).registry_map(),
            final(self).cwd_path() == old(self).cwd_path(),
    {
        self.history.read(lines);
    }

    /// The entries that have not been appended to a history file yet.
    pub fn unflushed_history(&self) -> (r: &[String])
        requires
            self.wf(),
        ensures
            texts(r@) == self.history_entries().skip(self.history_flushed() as int),
    {
        self.history.unflushed_history()
    }

    /// Records that the unflushed entries were appended to the history file.
    pub fn flush_history(&mut self)
        requires
            old(self).wf(),
        ensures
            final(self).wf(),
            final(self).history_entries() == old(self).history_entries(),
            final(self).history_flushed() == old(self).history_entries().len(),
            final(self).env_map() == old(self).env_map(),
            final(self).registry_map() == old(self).registry_map(),
            final(self).cwd_path() == old(self).cwd_path(),
    {
        self.history.mark_flushed();
    }
}

} // verus!
