use vstd::prelude::*;

verus! {

/// The descriptors that a scope has redirected, each with the backup that holds
/// what it referred to before the scope first touched it.
pub struct FdGuard {
    saved: Vec<(i32, i32)>,
}

/// The map from descriptor to backup that a list of saved pairs denotes.
pub open spec fn backups(entries: Seq<(i32, i32)>) -> Map<i32, i32> {
    Map::new(
        |fd: i32| exists|i: int| 0 <= i < entries.len() && entries[i].0 == fd,
        |fd: i32| entries[choose|i: int| 0 <= i < entries.len() && entries[i].0 == fd].1,
    )
}

/// No descriptor is saved twice.
pub open spec fn fds_unique(entries: Seq<(i32, i32)>) -> bool {
    forall|i: int, j: int|
        0 <= i < entries.len() && 0 <= j < entries.len() && i != j ==> entries[i].0 != entries[j].0
}

proof fn lemma_backups_at(entries: Seq<(i32, i32)>, i: int)
    requires
        fds_unique(entries),
        0 <= i < entries.len(),
    ensures
        backups(entries).contains_key(entries[i].0),
        backups(entries)[entries[i].0] == entries[i].1,
{
    let fd = entries[i].0;
    assert(0 <= i < entries.len() && entries[i].0 == fd);
    let c = choose|j: int| 0 <= j < entries.len() && entries[j].0 == fd;
    assert(c == i);
}

impl View for FdGuard {
    type V = Map<i32, i32>;

    closed spec fn view(&self) -> Map<i32, i32> {
        backups(self.saved@)
    }
}

impl FdGuard {
    pub closed spec fn wf(&self) -> bool {
        fds_unique(self.saved@)
    }

    pub fn new() -> (r: FdGuard)
        ensures
            r.wf(),
            r@ == Map::<i32, i32>::empty(),
    {
        let r = FdGuard { saved: Vec::new() };
        assert(r@ =~= Map::<i32, i32>::empty());
        r
    }

    /// Whether `fd` has a backup already.
    pub fn is_saved(&self, fd: i32) -> (r: bool)
        requires
            self.wf(),
        ensures
            r == self@.contains_key(fd),
    {
        let mut i: usize = 0;
        while i < self.saved.len()
            invariant
                self.wf(),
                0 <= i <= self.saved@.len(),
                forall|k: int| 0 <= k < i ==> self.saved@[k].0 != fd,
            decreases self.saved@.len() - i,
        {
            if self.saved[i].0 == fd {
                proof {
                    lemma_backups_at(self.saved@, i as int);
                }
                return true;
            }
            i = i + 1;
        }
        false
    }

    /// Records `backup` as the copy of what `fd` referred to. The first save of
    /// a descriptor wins: a later one leaves the guard as it is.
    pub fn save(&mut self, fd: i32, backup: i32)
        requires
            old(self).wf(),
        ensures
            final(self).wf(),
            final(self)@ == (if old(self)@.contains_key(fd) {
                old(self)@
            } else {
                old(self)@.insert(fd, backup)
            }),
    {
        if self.is_saved(fd) {
            return;
        }
        let ghost before = self.saved@;
        self.saved.push((fd, backup));
        proof {
            let after = self.saved@;
            assert(after.last() == (fd, backup));
            assert forall|i: int, j: int|
                0 <= i < after.len() && 0 <= j < after.len() && i != j implies after[i].0
                != after[j].0 by {
                if i < before.len() && j < before.len() {
                    assert(after[i] == before[i] && after[j] == before[j]);
                } else if i < before.len() {
                    assert(after[i] == before[i]);
                    assert(!backups(before).contains_key(fd));
                } else {
                    assert(after[j] == before[j]);
                    assert(!backups(before).contains_key(fd));
                }
            }
            let m = old(self)@.insert(fd, backup);
            assert forall|k: i32| #[trigger] backups(after).contains_key(k) == m.contains_key(k) && (
            backups(after).contains_key(k) ==> backups(after)[k] == m[k]) by {
                if k == fd {
                    lemma_backups_at(after, before.len() as int);
                } else if backups(before).contains_key(k) {
                    let c = choose|j: int| 0 <= j < before.len() && before[j].0 == k;
                    lemma_backups_at(before, c);
                    assert(after[c] == before[c]);
                    lemma_backups_at(after, c);
                } else if backups(after).contains_key(k) {
                    let c = choose|j: int| 0 <= j < after.len() && after[j].0 == k;
                    assert(c < before.len());
                    assert(after[c] == before[c]);
                }
            }
            assert(backups(after) =~= m);
        }
    }

    /// Empties the guard and hands back each saved descriptor with its backup,
    /// once each: the caller restores every descriptor from its backup and
    /// closes the backup.
    pub fn release(&mut self) -> (r: Vec<(i32, i32)>)
        requires
            old(self).wf(),
        ensures
            fds_unique(r@),
            backups(r@) == old(self)@,
            final(self).wf(),
            final(self)@ == Map::<i32, i32>::empty(),
    {
        let mut taken: Vec<(i32, i32)> = Vec::new();
        std::mem::swap(&mut taken, &mut self.saved);
        assert(self@ =~= Map::<i32, i32>::empty());
        taken
    }
}

/// A model of a process's descriptor table: what open file each descriptor
/// refers to.
pub type FdTable = Map<i32, int>;

/// The table after `dup2(src, dst)`.
pub open spec fn dup2_into(t: FdTable, src: i32, dst: i32) -> FdTable {
    t.insert(dst, t[src])
}

/// The table after restoring each saved descriptor from its backup and closing
/// the backup, in list order.
pub open spec fn restore_all(t: FdTable, entries: Seq<(i32, i32)>) -> FdTable
    decreases entries.len(),
{
    if entries.len() == 0 {
        t
    } else {
        let (fd, backup) = entries[0];
        restore_all(dup2_into(t, backup, fd).remove(backup), entries.drop_first())
    }
}

/// What a guard holds in table `t`: each backup is open, refers to what its
/// descriptor referred to before the scope (`before`), and is neither a saved
/// descriptor nor another's backup.
pub open spec fn guards(saved: Map<i32, i32>, before: FdTable, t: FdTable) -> bool {
    &&& forall|fd: i32| #[trigger] saved.contains_key(fd) ==> before.contains_key(fd)
    &&& forall|fd: i32|
        #[trigger] saved.contains_key(fd) ==> t.contains_key(saved[fd]) && t[saved[fd]]
            == before[fd] && !saved.contains_key(saved[fd])
    &&& forall|a: i32, b: i32|
        #[trigger] saved.contains_key(a) && #[trigger] saved.contains_key(b) && a != b ==> saved[a]
            != saved[b]
}

proof fn lemma_restore_all(t: FdTable, entries: Seq<(i32, i32)>, before: FdTable)
    requires
        fds_unique(entries),
        guards(backups(entries), before, t),
    ensures
        forall|i: int|
            0 <= i < entries.len() ==> #[trigger] restore_all(t, entries)[entries[i].0]
                == before[entries[i].0] && restore_all(t, entries).contains_key(entries[i].0),
    decreases entries.len(),
{
    if entries.len() > 0 {
        let (fd, backup) = entries[0];
        let rest = entries.drop_first();
        let t1 = dup2_into(t, backup, fd).remove(backup);
        lemma_backups_at(entries, 0);
        assert(fds_unique(rest));
        assert forall|j: int| 0 <= j < rest.len() implies #[trigger] backups(rest).contains_key(
            rest[j].0,
        ) && backups(rest)[rest[j].0] == backups(entries)[rest[j].0] by {
            lemma_backups_at(rest, j);
            lemma_backups_at(entries, j + 1);
        }
        assert forall|k: i32| #[trigger] backups(rest).contains_key(k) implies backups(
            entries,
        ).contains_key(k) && k != fd && backups(rest)[k] == backups(entries)[k] by {
            let j = choose|j: int| 0 <= j < rest.len() && rest[j].0 == k;
            lemma_backups_at(rest, j);
            lemma_backups_at(entries, j + 1);
        }
        assert(guards(backups(rest), before, t1));
        lemma_restore_all(t1, rest, before);
        assert forall|i: int|
            0 <= i < entries.len() implies #[trigger] restore_all(t, entries)[entries[i].0]
            == before[entries[i].0] && restore_all(t, entries).contains_key(entries[i].0) by {
            if i == 0 {
                assert forall|j: int| 0 <= j < rest.len() implies rest[j].0 != fd && rest[j].1
                    != fd by {
                    assert(rest[j] == entries[j + 1]);
                    lemma_backups_at(entries, j + 1);
                    assert(!backups(entries).contains_key(backups(entries)[rest[j].0]));
                }
                assert(backups(entries)[fd] == backup);
                assert(!backups(entries).contains_key(backup));
                assert(backup != fd);
                assert(t1.contains_key(fd) && t1[fd] == before[fd]);
                lemma_restore_keeps(t1, rest, fd);
                assert(restore_all(t, entries) == restore_all(t1, rest));
            } else {
                assert(restore_all(t, entries) == restore_all(t1, rest));
                assert(entries[i] == rest[i - 1]);
            }
        }
    }
}

proof fn lemma_restore_keeps(t: FdTable, entries: Seq<(i32, i32)>, fd: i32)
    requires
        t.contains_key(fd),
        forall|i: int| 0 <= i < entries.len() ==> entries[i].0 != fd && entries[i].1 != fd,
    ensures
        restore_all(t, entries).contains_key(fd),
        restore_all(t, entries)[fd] == t[fd],
    decreases entries.len(),
{
    if entries.len() > 0 {
        let (a, b) = entries[0];
        let rest = entries.drop_first();
        assert forall|i: int| 0 <= i < rest.len() implies rest[i].0 != fd && rest[i].1 != fd by {
            assert(rest[i] == entries[i + 1]);
        }
        lemma_restore_keeps(dup2_into(t, b, a).remove(b), rest, fd);
    }
}

/// Releasing a guard restores every descriptor it saved to what that
/// descriptor referred to before the scope, whatever the scope did since to
/// descriptors that are not backups.
pub proof fn lemma_release_restores(
    entries: Seq<(i32, i32)>,
    before: FdTable,
    t: FdTable,
)
    requires
        fds_unique(entries),
        guards(backups(entries), before, t),
    ensures
        forall|fd: i32|
            #[trigger] backups(entries).contains_key(fd) ==> restore_all(t, entries).contains_key(fd)
                && restore_all(t, entries)[fd] == before[fd],
{
    lemma_restore_all(t, entries, before);
    assert forall|fd: i32| #[trigger] backups(entries).contains_key(fd) implies restore_all(
        t,
        entries,
    ).contains_key(fd) && restore_all(t, entries)[fd] == before[fd] by {
        let i = choose|i: int| 0 <= i < entries.len() && entries[i].0 == fd;
        assert(restore_all(t, entries)[entries[i].0] == before[entries[i].0]);
    }
}

/// Saving a descriptor the guard does not hold yet, into a backup that `dup`
/// just opened, keeps the guard's promise; the descriptor's value before the
/// scope is its value now.
pub proof fn lemma_first_save(
    saved: Map<i32, i32>,
    before: FdTable,
    t: FdTable,
    fd: i32,
    backup: i32,
)
    requires
        guards(saved, before, t),
        !saved.contains_key(fd),
        t.contains_key(fd),
        !t.contains_key(backup),
        forall|k: i32| #[trigger] saved.contains_key(k) ==> k != backup && saved[k] != fd,
    ensures
        guards(saved.insert(fd, backup), before.insert(fd, t[fd]), t.insert(backup, t[fd])),
{
    let s2 = saved.insert(fd, backup);
    let b2 = before.insert(fd, t[fd]);
    let t2 = t.insert(backup, t[fd]);
    assert forall|k: i32| #[trigger] s2.contains_key(k) implies t2.contains_key(s2[k]) && t2[s2[k]]
        == b2[k] && !s2.contains_key(s2[k]) by {
        if k != fd {
            assert(t.contains_key(saved[k]));
            assert(saved[k] != backup);
            assert(saved[k] != fd);
        } else {
            assert(backup != fd);
        }
    }
    assert forall|a: i32, b: i32|
        #[trigger] s2.contains_key(a) && #[trigger] s2.contains_key(b) && a != b implies s2[a]
        != s2[b] by {
        if a == fd && b != fd {
            assert(t.contains_key(saved[b]));
        } else if b == fd && a != fd {
            assert(t.contains_key(saved[a]));
        }
    }
}

/// Pointing a saved descriptor at another open file keeps the guard's promise.
pub proof fn lemma_redirect_saved(
    saved: Map<i32, i32>,
    before: FdTable,
    t: FdTable,
    src: i32,
    dst: i32,
)
    requires
        guards(saved, before, t),
        saved.contains_key(dst),
    ensures
        guards(saved, before, dup2_into(t, src, dst)),
{
    let t2 = dup2_into(t, src, dst);
    assert forall|k: i32| #[trigger] saved.contains_key(k) implies t2.contains_key(saved[k])
        && t2[saved[k]] == before[k] by {
        assert(saved[k] != dst);
    }
}

/// Saving descriptor `fd` into a fresh backup, pointing it elsewhere, saving it
/// again into another backup, and then releasing the guard, leaves `fd`
/// referring to what it referred to before the first save.
pub proof fn lemma_second_save_restores_first(
    t0: FdTable,
    fd: i32,
    first: i32,
    second: i32,
    src: i32,
)
    requires
        t0.contains_key(fd),
        !t0.contains_key(first),
        t0.contains_key(src),
    ensures
        ({
            let g1 = Map::<i32, i32>::empty().insert(fd, first);
            let t1 = t0.insert(first, t0[fd]);
            let t2 = dup2_into(t1, src, fd);
            let g2 = if g1.contains_key(fd) {
                g1
            } else {
                g1.insert(fd, second)
            };
            let entries = seq![(fd, first)];
            &&& g2 == g1
            &&& backups(entries) == g2
            &&& restore_all(t2, entries).contains_key(fd)
            &&& restore_all(t2, entries)[fd] == t0[fd]
        }),
{
    let empty = Map::<i32, i32>::empty();
    let g1 = empty.insert(fd, first);
    let t1 = t0.insert(first, t0[fd]);
    let t2 = dup2_into(t1, src, fd);
    let entries = seq![(fd, first)];
    assert(guards(empty, Map::<i32, int>::empty(), t0));
    lemma_first_save(empty, Map::<i32, int>::empty(), t0, fd, first);
    let before = Map::<i32, int>::empty().insert(fd, t0[fd]);
    lemma_redirect_saved(g1, before, t1, src, fd);
    lemma_backups_at(entries, 0);
    assert(backups(entries) =~= g1);
    lemma_release_restores(entries, before, t2);
}

/// The table after pointing `fds[k]` at open file `files[k]`, for each `k` in order.
pub open spec fn apply_redirects(t: FdTable, fds: Seq<i32>, files: Seq<int>) -> FdTable
    decreases fds.len(),
{
    if fds.len() == 0 || files.len() == 0 {
        t
    } else {
        apply_redirects(t.insert(fds[0], files[0]), fds.drop_first(), files.drop_first())
    }
}

/// Two tables that agree on every descriptor but `x` and `y` still agree on
/// them after the same redirections, when none of those redirects `x` or `y`.
proof fn lemma_apply_redirects_agree(
    t1: FdTable,
    t2: FdTable,
    fds: Seq<i32>,
    files: Seq<int>,
    x: i32,
    y: i32,
)
    requires
        forall|fd: i32| fd != x && fd != y ==> (#[trigger] t1.contains_key(fd) == t2.contains_key(fd)
            && (t1.contains_key(fd) ==> t1[fd] == t2[fd])),
        forall|k: int| 0 <= k < fds.len() ==> #[trigger] fds[k] != x && fds[k] != y,
    ensures
        forall|fd: i32|
            fd != x && fd != y ==> (#[trigger] apply_redirects(t1, fds, files).contains_key(fd)
                == apply_redirects(t2, fds, files).contains_key(fd) && (apply_redirects(
                t1,
                fds,
                files,
            ).contains_key(fd) ==> apply_redirects(t1, fds, files)[fd] == apply_redirects(
                t2,
                fds,
                files,
            )[fd])),
    decreases fds.len(),
{
    if fds.len() > 0 && files.len() > 0 {
        let rest = fds.drop_first();
        assert forall|k: int| 0 <= k < rest.len() implies #[trigger] rest[k] != x && rest[k] != y by {
            assert(rest[k] == fds[k + 1]);
        }
        assert(fds[0] != x && fds[0] != y);
        let u1 = t1.insert(fds[0], files[0]);
        let u2 = t2.insert(fds[0], files[0]);
        assert(apply_redirects(t1, fds, files) == apply_redirects(u1, rest, files.drop_first()));
        assert(apply_redirects(t2, fds, files) == apply_redirects(u2, rest, files.drop_first()));
        assert forall|fd: i32| fd != x && fd != y implies (#[trigger] u1.contains_key(fd)
            == u2.contains_key(fd) && (u1.contains_key(fd) ==> u1[fd] == u2[fd])) by {
            if fd != fds[0] {
                assert(t1.contains_key(fd) == t2.contains_key(fd));
            }
        }
        lemma_apply_redirects_agree(u1, u2, rest, files.drop_first(), x, y);
    }
}

/// A lone builtin writes to the same files whether the shell runs it in its
/// own process, after saving standard output and error into two fresh
/// backups, or in a forked child that applies the same redirections: the two
/// tables differ at most at the backups.
pub proof fn lemma_in_process_matches_forked(
    t: FdTable,
    out_backup: i32,
    err_backup: i32,
    fds: Seq<i32>,
    files: Seq<int>,
)
    requires
        t.contains_key(1),
        t.contains_key(2),
        !t.contains_key(out_backup),
        !t.contains_key(err_backup),
        forall|k: int| 0 <= k < fds.len() ==> #[trigger] fds[k] != out_backup && fds[k] != err_backup,
    ensures
        ({
            let in_process = apply_redirects(
                t.insert(out_backup, t[1]).insert(err_backup, t[2]),
                fds,
                files,
            );
            let forked = apply_redirects(t, fds, files);
            forall|fd: i32|
                fd != out_backup && fd != err_backup ==> (#[trigger] in_process.contains_key(fd)
                    == forked.contains_key(fd) && (in_process.contains_key(fd) ==> in_process[fd]
                    == forked[fd]))
        }),
{
    let saved = t.insert(out_backup, t[1]).insert(err_backup, t[2]);
    lemma_apply_redirects_agree(saved, t, fds, files, out_backup, err_backup);
}

} // verus!
