use vstd::prelude::*;

use crate::text::{push_char, str_eq, texts};
use crate::context::ShellContext;

verus! {

/// Strict lexicographic order on texts, character by character: the order of
/// `String`'s `<`.
pub open spec fn text_lt(a: Seq<char>, b: Seq<char>) -> bool
    decreases a.len(),
{
    if b.len() == 0 {
        false
    } else if a.len() == 0 {
        true
    } else if a[0] != b[0] {
        a[0] < b[0]
    } else {
        text_lt(a.drop_first(), b.drop_first())
    }
}

pub open spec fn strictly_sorted(v: Seq<Seq<char>>) -> bool {
    forall|i: int, j: int| 0 <= i < j < v.len() ==> text_lt(#[trigger] v[i], #[trigger] v[j])
}

/// Whether `p` begins `s`.
pub open spec fn is_prefix(p: Seq<char>, s: Seq<char>) -> bool {
    p.len() <= s.len() && s.take(p.len() as int) == p
}

proof fn lemma_text_lt_transitive(a: Seq<char>, b: Seq<char>, c: Seq<char>)
    requires
        text_lt(a, b),
        text_lt(b, c),
    ensures
        text_lt(a, c),
    decreases a.len(),
{
    if a.len() > 0 && b.len() > 0 && c.len() > 0 && a[0] == b[0] && b[0] == c[0] {
        lemma_text_lt_transitive(a.drop_first(), b.drop_first(), c.drop_first());
    }
}

proof fn lemma_text_lt_total(a: Seq<char>, b: Seq<char>)
    ensures
        a == b || text_lt(a, b) || text_lt(b, a),
    decreases a.len(),
{
    if a.len() > 0 && b.len() > 0 && a[0] == b[0] {
        lemma_text_lt_total(a.drop_first(), b.drop_first());
        if a.drop_first() == b.drop_first() {
            assert(a =~= seq![a[0]] + a.drop_first());
            assert(b =~= seq![b[0]] + b.drop_first());
        }
    } else if a.len() == 0 && b.len() == 0 {
        assert(a =~= b);
    }
}

/// Whether `a` comes strictly before `b`.
fn str_lt(a: &str, b: &str) -> (r: bool)
    ensures
        r == text_lt(a@, b@),
{
    let n = a.unicode_len();
    let m = b.unicode_len();
    let mut k: usize = 0;
    assert(a@.skip(0) =~= a@ && b@.skip(0) =~= b@);
    while k < n && k < m
        invariant
            n == a@.len(),
            m == b@.len(),
            0 <= k <= n,
            k <= m,
            text_lt(a@, b@) == text_lt(a@.skip(k as int), b@.skip(k as int)),
        decreases n - k,
    {
        let x = a.get_char(k);
        let y = b.get_char(k);
        assert(a@.skip(k as int)[0] == x && b@.skip(k as int)[0] == y);
        if x != y {
            return x < y;
        }
        assert(a@.skip(k as int).drop_first() =~= a@.skip(k + 1));
        assert(b@.skip(k as int).drop_first() =~= b@.skip(k + 1));
        k = k + 1;
    }
    k < m
}

/// Whether `p` begins `s`.
fn starts_with(s: &str, p: &str) -> (r: bool)
    ensures
        r == is_prefix(p@, s@),
{
    let n = p.unicode_len();
    if n > s.unicode_len() {
        return false;
    }
    let mut k: usize = 0;
    while k < n
        invariant
            n == p@.len(),
            n <= s@.len(),
            0 <= k <= n,
            forall|j: int| 0 <= j < k ==> s@[j] == p@[j],
        decreases n - k,
    {
        if s.get_char(k) != p.get_char(k) {
            assert(s@.take(n as int)[k as int] != p@[k as int]);
            return false;
        }
        k = k + 1;
    }
    assert(s@.take(n as int) =~= p@);
    true
}

/// The texts of `v`, each once, in increasing order.
pub fn sorted_unique(v: Vec<String>) -> (r: Vec<String>)
    ensures
        strictly_sorted(texts(r@)),
        texts(r@).to_set() == texts(v@).to_set(),
{
    let mut out: Vec<String> = Vec::new();
    let mut i: usize = 0;
    assert(texts(out@).to_set() =~= texts(v@).take(0).to_set());
    while i < v.len()
        invariant
            0 <= i <= v@.len(),
            strictly_sorted(texts(out@)),
            texts(out@).to_set() == texts(v@).take(i as int).to_set(),
        decreases v@.len() - i,
    {
        let x = v[i].as_str();
        let ghost xs = x@;
        let mut p: usize = 0;
        while p < out.len() && str_lt(out[p].as_str(), x)
            invariant
                0 <= p <= out@.len(),
                0 <= i < v@.len(),
                xs == x@,
                x@ == v@[i as int]@,
                strictly_sorted(texts(out@)),
                texts(out@).to_set() == texts(v@).take(i as int).to_set(),
                forall|j: int| 0 <= j < p ==> text_lt(#[trigger] texts(out@)[j], xs),
            decreases out@.len() - p,
        {
            p = p + 1;
        }
        let ghost before = texts(out@);
        let ghost seen = texts(v@).take(i as int);
        assert(texts(v@).take(i + 1) =~= seen.push(xs));
        assert(seen.push(xs).to_set() =~= seen.to_set().insert(xs)) by {
            assert forall|t: Seq<char>| seen.push(xs).contains(t) <==> seen.to_set().insert(xs).contains(t) by {
                if seen.push(xs).contains(t) {
                    let j = choose|j: int| 0 <= j < seen.len() + 1 && seen.push(xs)[j] == t;
                    if j < seen.len() {
                        assert(seen[j] == t);
                    }
                }
                if seen.contains(t) {
                    let j = choose|j: int| 0 <= j < seen.len() && seen[j] == t;
                    assert(seen.push(xs)[j] == t);
                }
                if t == xs {
                    assert(seen.push(xs)[seen.len() as int] == t);
                }
            }
        }
        if p < out.len() && str_eq(out[p].as_str(), x) {
            assert(texts(out@).to_set() =~= texts(v@).take(i + 1).to_set()) by {
                assert(before[p as int] == xs);
                assert(before.contains(xs));
            }
        } else {
            if p < out.len() {
                proof {
                    lemma_text_lt_total(before[p as int], xs);
                }
                assert(text_lt(xs, before[p as int]));
            }
            out.insert(p, x.to_owned());
            let ghost after = texts(out@);
            assert(after =~= before.insert(p as int, xs));
            assert forall|a: int, b: int| 0 <= a < b < after.len() implies text_lt(
                #[trigger] after[a],
                #[trigger] after[b],
            ) by {
                if b < p {
                    assert(after[a] == before[a] && after[b] == before[b]);
                } else if b == p {
                    assert(after[a] == before[a]);
                } else if a == p {
                    assert(after[b] == before[b - 1]);
                    if b - 1 > p {
                        lemma_text_lt_transitive(xs, before[p as int], before[b - 1]);
                    }
                } else if a < p {
                    assert(after[a] == before[a] && after[b] == before[b - 1]);
                } else {
                    assert(after[a] == before[a - 1] && after[b] == before[b - 1]);
                }
            }
            assert(after.to_set() =~= before.to_set().insert(xs)) by {
                assert forall|t: Seq<char>| after.contains(t) <==> before.to_set().insert(xs).contains(t) by {
                    if after.contains(t) {
                        let j = choose|j: int| 0 <= j < after.len() && after[j] == t;
                        if j < p {
                            assert(before[j] == t);
                        } else if j > p {
                            assert(before[j - 1] == t);
                        }
                    }
                    if before.contains(t) {
                        let j = choose|j: int| 0 <= j < before.len() && before[j] == t;
                        if j < p {
                            assert(after[j] == t);
                        } else {
                            assert(after[j + 1] == t);
                        }
                    }
                    if t == xs {
                        assert(after[p as int] == t);
                    }
                }
            }
            assert(texts(out@).to_set() =~= texts(v@).take(i + 1).to_set());
        }
        i = i + 1;
    }
    assert(texts(v@).take(v@.len() as int) =~= texts(v@));
    out
}

/// The texts of `names` that `prefix` begins, in their order.
pub fn matching(names: &[String], prefix: &str) -> (r: Vec<String>)
    ensures
        texts(r@) == texts(names@).filter(|n: Seq<char>| is_prefix(prefix@, n)),
{
    let mut out: Vec<String> = Vec::new();
    let mut i: usize = 0;
    let ghost keep = |n: Seq<char>| is_prefix(prefix@, n);
    assert(texts(names@).take(0).filter(keep) =~= Seq::<Seq<char>>::empty());
    assert(texts(out@) =~= Seq::<Seq<char>>::empty());
    while i < names.len()
        invariant
            0 <= i <= names@.len(),
            keep == (|n: Seq<char>| is_prefix(prefix@, n)),
            texts(out@) == texts(names@).take(i as int).filter(keep),
        decreases names@.len() - i,
    {
        let ghost t = texts(names@).take(i + 1);
        assert(t.drop_last() =~= texts(names@).take(i as int));
        let ghost before = texts(out@);
        if starts_with(names[i].as_str(), prefix) {
            out.push(names[i].clone());
            assert(texts(out@) =~= before.push(names@[i as int]@));
        } else {
            assert(texts(out@) =~= before);
        }
        assert(t.filter(keep) == t.drop_last().filter(keep) + (if keep(t.last()) {
            seq![t.last()]
        } else {
            Seq::<Seq<char>>::empty()
        })) by {
            reveal(Seq::filter);
        }
        i = i + 1;
    }
    assert(texts(names@).take(names@.len() as int) =~= texts(names@));
    out
}

/// The position of the last `/` in `s`, if there is one.
pub open spec fn last_slash(s: Seq<char>) -> Option<int> {
    if exists|i: int| 0 <= i < s.len() && s[i] == '/' {
        Some(choose|i: int| 0 <= i < s.len() && s[i] == '/' && forall|j: int| i < j < s.len() ==> s[j] != '/')
    } else {
        None
    }
}

/// The candidates that the completer offers for the command word, from the
/// names `found`: each once, in increasing order; a single one gets a space
/// after it.
pub open spec fn finished(found: Seq<Seq<char>>, r: Seq<Seq<char>>) -> bool {
    if r.len() == 1 {
        &&& found.to_set() == set![r[0].drop_last()]
        &&& r[0].len() > 0
        &&& r[0].last() == ' '
    } else {
        &&& strictly_sorted(r)
        &&& r.to_set() == found.to_set()
    }
}

/// What the completer knows: the builtin names and the directories of `PATH`.
pub struct ReadlineHelper {
    builtin_names: Vec<String>,
    paths: Vec<String>,
}

impl ReadlineHelper {
    pub closed spec fn names(&self) -> Seq<Seq<char>> {
        texts(self.builtin_names@)
    }

    pub closed spec fn dirs(&self) -> Seq<Seq<char>> {
        texts(self.paths@)
    }

    pub fn builtin_names(&self) -> (r: &[String])
        ensures
            texts(r@) == self.names(),
    {
        self.builtin_names.as_slice()
    }

    pub fn paths(&self) -> (r: &[String])
        ensures
            texts(r@) == self.dirs(),
    {
        self.paths.as_slice()
    }

    /// Whether a word is completed with file names: when it is not the first
    /// word of the line, or holds a `/`.
    pub fn uses_file_completion(prefix: &str, only_file_path: bool) -> (r: bool)
        ensures
            r == (only_file_path || prefix@.contains('/')),
    {
        only_file_path || Self::split_path(prefix).2
    }

    /// Splits a word at its last `/`: the directory part with the `/`, the
    /// file-name part, and whether there was a `/`. Without one the directory is `.`.
    pub fn split_path(prefix: &str) -> (r: (String, String, bool))
        ensures
            r.2 == prefix@.contains('/'),
            r.2 ==> ({
                let i = last_slash(prefix@)->0;
                &&& r.0@ == prefix@.take(i + 1)
                &&& r.1@ == prefix@.skip(i + 1)
            }),
            !r.2 ==> r.0@ == "."@ && r.1@ == prefix@,
    {
        let n = prefix.unicode_len();
        let mut k: usize = n;
        while k > 0
            invariant
                n == prefix@.len(),
                0 <= k <= n,
                forall|j: int| k <= j < n ==> prefix@[j] != '/',
            decreases k,
        {
            if prefix.get_char(k - 1) == '/' {
                let i = k - 1;
                proof {
                    assert(0 <= i < n && prefix@[i as int] == '/');
                    let c = last_slash(prefix@)->0;
                    assert(prefix@[c] == '/');
                    assert(c == i);
                }
                let dir = prefix.substring_char(0, k);
                let file = prefix.substring_char(k, n);
                assert(prefix@.contains('/'));
                return (dir.to_owned(), file.to_owned(), true);
            }
            k = k - 1;
        }
        assert(!prefix@.contains('/'));
        (String::from_str("."), prefix.to_owned(), false)
    }

    /// The builtin names that `prefix` begins, each once, in order.
    pub fn search_builtin(&self, prefix: &str) -> (r: Vec<String>)
        ensures
            strictly_sorted(texts(r@)),
            forall|n: Seq<char>| #[trigger] texts(r@).contains(n) <==> (self.names().contains(n) && is_prefix(prefix@, n)),
    {
        let found = matching(self.builtin_names.as_slice(), prefix);
        let r = sorted_unique(found);
        proof {
            let keep = |n: Seq<char>| is_prefix(prefix@, n);
            let names = self.names();
            assert forall|n: Seq<char>| #[trigger] texts(r@).contains(n) <==> (names.contains(n)
                && is_prefix(prefix@, n)) by {
                if texts(r@).contains(n) {
                    assert(texts(r@).to_set().contains(n));
                    assert(names.filter(keep).contains(n));
                    names.lemma_filter_contains_rev(keep, n);
                    let j = choose|j: int| 0 <= j < names.filter(keep).len() && names.filter(keep)[j] == n;
                    names.lemma_filter_pred(keep, j);
                }
                if names.contains(n) && is_prefix(prefix@, n) {
                    let j = choose|j: int| 0 <= j < names.len() && names[j] == n;
                    names.lemma_filter_contains(keep, j);
                    assert(names.filter(keep).to_set().contains(n));
                    assert(texts(r@).to_set().contains(n));
                }
            }
        }
        r
    }

    /// The candidates for the command word `prefix`: builtin names and the
    /// names found in the `PATH` directories (`path_entries`) that it begins,
    /// each once, in order; a single candidate gets a space after it.
    pub fn complete_command(&self, prefix: &str, path_entries: &[String]) -> (r: Vec<String>)
        ensures
            finished(
                self.names().filter(|n: Seq<char>| is_prefix(prefix@, n)) + texts(path_entries@).filter(
                    |n: Seq<char>| is_prefix(prefix@, n),
                ),
                texts(r@),
            ),
    {
        let mut found = matching(self.builtin_names.as_slice(), prefix);
        let mut bins = matching(path_entries, prefix);
        let ghost a = texts(found@);
        let ghost b = texts(bins@);
        found.append(&mut bins);
        assert(texts(found@) =~= a + b);
        let mut r = sorted_unique(found);
        if r.len() == 1 {
            let ghost only = texts(r@)[0];
            assert(texts(r@) =~= seq![only]);
            assert(seq![only].to_set() =~= set![only]);
            let mut first = r.remove(0);
            push_char(&mut first, ' ');
            assert(first@.drop_last() =~= only);
            r.push(first);
            assert(texts(r@) =~= seq![first@]);
        }
        r
    }
}

/// The completer for the current builtins and `PATH`.
pub fn make_readline_helper(ctx: &ShellContext) -> (r: ReadlineHelper)
    requires
        ctx.wf(),
    ensures
        forall|k: Seq<char>| ctx.registry_map().contains_key(k) <==> r.names().contains(k),
        r.dirs() == (if ctx.env_map().contains_key("PATH"@) {
            crate::context::split_on(ctx.env_map()["PATH"@], ':')
        } else {
            Seq::<Seq<char>>::empty()
        }),
{
    ReadlineHelper { builtin_names: ctx.builtin_names_iter(), paths: ctx.paths() }
}

} // verus!
