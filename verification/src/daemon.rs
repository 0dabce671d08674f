//! Decisions of the watcher daemon, and the summary table it prints.
use vstd::prelude::*;

use crate::config::{Folder, FolderView};
use crate::path::{file_name, file_name_of, path_starts_with, paths_equal, same_path, starts_with_path};
use crate::rules::FolderRules;
use crate::text::{from_chars, to_chars};

verus! {

/// `p` is the rule destination `to`, lies inside it, or holds it.
pub open spec fn guards(p: Seq<char>, to: Seq<char>) -> bool {
    same_path(p, to) || path_starts_with(p, to) || path_starts_with(to, p)
}

/// `p` is the watched folder `f` itself, or guarded by one of its rules'
/// destinations.
pub open spec fn folder_protects(p: Seq<char>, f: FolderView) -> bool {
    same_path(p, f.path) || exists|j: int|
        0 <= j < f.rules.len() && #[trigger] guards(p, f.rules[j].to)
}

/// A path the daemon must leave alone: a watched folder itself, or a rule
/// destination, anything inside one, or any directory that holds one.
pub open spec fn protected_spec(p: Seq<char>, folders: Seq<FolderView>) -> bool {
    exists|i: int| 0 <= i < folders.len() && #[trigger] folder_protects(p, folders[i])
}

/// The views of a list of folders.
pub open spec fn folder_views(folders: Seq<Folder>) -> Seq<FolderView> {
    folders.map_values(|f: Folder| f@)
}

/// Whether the daemon must leave `p` alone (see `protected_spec`).
pub fn is_protected_dir(p: &str, folders: &[Folder]) -> (res: bool)
    ensures
        res == protected_spec(p@, folder_views(folders@)),
{
    let pc = to_chars(p);
    let ghost fv = folder_views(folders@);
    let mut i: usize = 0;
    while i < folders.len()
        invariant
            i <= folders.len(),
            pc@ == p@,
            fv == folder_views(folders@),
            forall|k: int| 0 <= k < i ==> !#[trigger] folder_protects(p@, fv[k]),
        decreases folders.len() - i,
    {
        let f = &folders[i];
        assert(fv[i as int] == f@);
        let fp = to_chars(f.path.as_str());
        if paths_equal(pc.as_slice(), fp.as_slice()) {
            assert(folder_protects(p@, fv[i as int]));
            return true;
        }
        let mut j: usize = 0;
        while j < f.rules.len()
            invariant
                j <= f.rules.len(),
                pc@ == p@,
                i < folders.len(),
                fv == folder_views(folders@),
                fv[i as int] == f@,
                forall|m: int| 0 <= m < j ==> !#[trigger] guards(p@, fv[i as int].rules[m].to),
            decreases f.rules.len() - j,
        {
            let to = to_chars(f.rules[j].to.as_str());
            assert(fv[i as int].rules[j as int].to == f.rules@[j as int].to@);
            if paths_equal(pc.as_slice(), to.as_slice()) || starts_with_path(
                pc.as_slice(),
                to.as_slice(),
            ) || starts_with_path(to.as_slice(), pc.as_slice()) {
                assert(guards(p@, fv[i as int].rules[j as int].to));
                assert(folder_protects(p@, fv[i as int]));
                return true;
            }
            j = j + 1;
        }
        assert(!same_path(p@, fv[i as int].path));
        assert(!folder_protects(p@, fv[i as int]));
        i = i + 1;
    }
    false
}

/// Index of the first watched folder that holds `p` (`Path::starts_with`).
pub open spec fn folder_index_spec(p: Seq<char>, folders: Seq<FolderView>) -> Option<int>
    decreases folders.len(),
{
    if folders.len() == 0 {
        None
    } else if path_starts_with(p, folders[0].path) {
        Some(0)
    } else {
        match folder_index_spec(p, folders.skip(1)) {
            Some(i) => Some(i + 1),
            None => None,
        }
    }
}

/// The first watched folder that holds `p`, computed.
pub fn folder_index(p: &str, folders: &[Folder]) -> (res: Option<usize>)
    ensures
        match folder_index_spec(p@, folder_views(folders@)) {
            Some(i) => res == Some(i as usize),
            None => res.is_none(),
        },
{
    let pc = to_chars(p);
    let ghost fv = folder_views(folders@);
    let mut i: usize = 0;
    assert(fv.skip(0) =~= fv);
    while i < folders.len()
        invariant
            i <= folders.len(),
            pc@ == p@,
            fv == folder_views(folders@),
            folder_index_spec(p@, fv) == match folder_index_spec(p@, fv.skip(i as int)) {
                Some(k) => Some(k + i),
                None => None,
            },
        decreases folders.len() - i,
    {
        assert(fv.skip(i as int)[0] == folders@[i as int]@);
        let fp = to_chars(folders[i].path.as_str());
        if starts_with_path(pc.as_slice(), fp.as_slice()) {
            return Some(i);
        }
        assert(fv.skip(i as int).skip(1) =~= fv.skip(i + 1));
        i = i + 1;
    }
    None
}

/// What the daemon does with a path reported by a folder watcher.
#[derive(Debug, Clone, PartialEq, Eq)]
pub enum FileDecision {
    /// A watched folder or rule destination: left alone.
    Protected,
    /// Already being handled.
    AlreadyPending,
    /// Outside every watched folder.
    NoFolder,
    /// Without a usable file name.
    NoName,
    /// Matched by an ignore pattern.
    Ignored,
    /// To be handled with the rules of folder `folder`; `name` is its file
    /// name.
    Process { folder: usize, name: String },
}

/// The decision for a reported path `p`, given whether it is already being
/// handled; `names_ignored(k, n)` says whether folder `k` ignores name `n`.
pub open spec fn decision_spec(
    p: Seq<char>,
    folders: Seq<FolderView>,
    pending: bool,
    ignored: spec_fn(int, Seq<char>) -> bool,
) -> FileDecisionView {
    if protected_spec(p, folders) {
        FileDecisionView::Protected
    } else if pending {
        FileDecisionView::AlreadyPending
    } else {
        match folder_index_spec(p, folders) {
            None => FileDecisionView::NoFolder,
            Some(k) => match file_name(p) {
                None => FileDecisionView::NoName,
                Some(n) => if ignored(k, n) {
                    FileDecisionView::Ignored
                } else {
                    FileDecisionView::Process { folder: k, name: n }
                },
            },
        }
    }
}

/// The mathematical content of a `FileDecision`.
pub enum FileDecisionView {
    Protected,
    AlreadyPending,
    NoFolder,
    NoName,
    Ignored,
    Process { folder: int, name: Seq<char> },
}

impl View for FileDecision {
    type V = FileDecisionView;

    open spec fn view(&self) -> FileDecisionView {
        match self {
            FileDecision::Protected => FileDecisionView::Protected,
            FileDecision::AlreadyPending => FileDecisionView::AlreadyPending,
            FileDecision::NoFolder => FileDecisionView::NoFolder,
            FileDecision::NoName => FileDecisionView::NoName,
            FileDecision::Ignored => FileDecisionView::Ignored,
            FileDecision::Process { folder, name } => FileDecisionView::Process {
                folder: *folder as int,
                name: name@,
            },
        }
    }
}

/// Whether folder `k`'s compiled rules ignore file name `n`.
pub open spec fn ignores(compiled: Seq<FolderRules>, k: int, n: Seq<char>) -> bool {
    exists|j: int|
        0 <= j < compiled[k]@.ignore.len() && crate::glob::glob_matches(
            #[trigger] compiled[k]@.ignore[j],
            n,
        )
}

/// `ignores` for the compiled rules of every folder, as a function.
pub open spec fn ignore_fn(compiled: Seq<FolderRules>) -> spec_fn(int, Seq<char>) -> bool {
    |k: int, n: Seq<char>| ignores(compiled, k, n)
}

/// Decides what to do with a path that a folder watcher reported:
/// protected paths are left alone; a path already being handled is
/// skipped; otherwise it is handled by the first watched folder that holds
/// it, unless it has no file name or its name is ignored there.
pub fn classify_event(
    p: &str,
    folders: &[Folder],
    compiled: &[FolderRules],
    pending: bool,
) -> (d: FileDecision)
    requires
        compiled@.len() == folders@.len(),
    ensures
        d@ == decision_spec(
            p@,
            folder_views(folders@),
            pending,
            ignore_fn(compiled@),
        ),
{
    if is_protected_dir(p, folders) {
        return FileDecision::Protected;
    }
    if pending {
        return FileDecision::AlreadyPending;
    }
    let idx = match folder_index(p, folders) {
        Some(i) => i,
        None => return FileDecision::NoFolder,
    };
    proof {
        lemma_folder_index_bound(p@, folder_views(folders@));
    }
    let pc = to_chars(p);
    let name = match file_name_of(pc.as_slice()) {
        Some(n) => n,
        None => return FileDecision::NoName,
    };
    let name_s = from_chars(name.as_slice());
    if compiled[idx].ignored(name_s.as_str()) {
        return FileDecision::Ignored;
    }
    FileDecision::Process { folder: idx, name: name_s }
}

/// A found folder index lies inside the list.
pub proof fn lemma_folder_index_bound(p: Seq<char>, folders: Seq<FolderView>)
    ensures
        folder_index_spec(p, folders) matches Some(i) ==> 0 <= i < folders.len(),
    decreases folders.len(),
{
    if folders.len() > 0 && !path_starts_with(p, folders[0].path) {
        lemma_folder_index_bound(p, folders.skip(1));
    }
}

/// The kinds of change a folder watcher reports, as far as the daemon
/// tells them apart.
#[derive(Debug, Clone, Copy, PartialEq, Eq, Structural)]
pub enum ChangeKind {
    /// An entry was created.
    Create,
    /// An entry's contents changed.
    ModifyData,
    /// An entry was renamed (a move into the folder arrives as this).
    ModifyName,
    /// Anything else: access, metadata, removal, unknown.
    Other,
}

/// The kinds of change that may bring a new entry.
pub open spec fn announces_entry_spec(kind: ChangeKind) -> bool {
    kind == ChangeKind::Create || kind == ChangeKind::ModifyData || kind == ChangeKind::ModifyName
}

/// Whether a change of this kind may bring a new entry to handle: a
/// creation, a write, or a rename.
pub fn announces_entry(kind: ChangeKind) -> (b: bool)
    ensures
        b == announces_entry_spec(kind),
{
    match kind {
        ChangeKind::Create => true,
        ChangeKind::ModifyData => true,
        ChangeKind::ModifyName => true,
        ChangeKind::Other => false,
    }
}

/// Whether an entry is one the daemon organizes: a regular file, or a
/// directory when the folder's `include_dirs` option is on.
pub fn handles_entry(is_file: bool, is_dir: bool, include_dirs: bool) -> (b: bool)
    ensures
        b == (is_file || (include_dirs && is_dir)),
{
    is_file || (include_dirs && is_dir)
}

/// Whether a watcher report about an entry is queued: the change may bring
/// a new entry, and the entry is one the daemon organizes.
pub fn queues_report(kind: ChangeKind, is_file: bool, is_dir: bool, include_dirs: bool) -> (b:
    bool)
    ensures
        b == (announces_entry_spec(kind) && (is_file || (include_dirs && is_dir))),
{
    announces_entry(kind) && handles_entry(is_file, is_dir, include_dirs)
}

/// What a file looks like at one moment: its size and modification time
/// (seconds and nanoseconds from the Unix epoch, after or before it).
#[derive(Debug, Clone, Copy, PartialEq, Eq, Structural)]
pub struct EntrySig {
    pub len: u64,
    pub after_epoch: bool,
    pub secs: u64,
    pub nanos: u32,
}

/// Where waiting for a file to settle stands.
#[derive(Debug, Clone, Copy, PartialEq, Eq, Structural)]
pub enum Stability {
    /// The file is gone (or could not be seen): give up.
    Vanished,
    /// The file has not changed for the whole cooldown: handle it.
    Stable,
    /// Look again in a second; `stable` seconds have passed unchanged since
    /// `last` was seen.
    Waiting { last: EntrySig, stable: u64 },
}

/// The first step of waiting for a file to settle: with no cooldown the
/// file is handled at once if it exists; otherwise waiting starts from its
/// first look (and gives up if it cannot be seen).
pub fn stability_start(cooldown: u64, exists: bool, first: Option<EntrySig>) -> (st: Stability)
    ensures
        cooldown == 0 ==> st == (if exists {
            Stability::Stable
        } else {
            Stability::Vanished
        }),
        cooldown > 0 ==> st == match first {
            Some(s) => Stability::Waiting { last: s, stable: 0 },
            None => Stability::Vanished,
        },
        st matches Stability::Waiting { stable, .. } ==> stable < cooldown,
{
    if cooldown == 0 {
        if exists {
            Stability::Stable
        } else {
            Stability::Vanished
        }
    } else {
        match first {
            Some(s) => Stability::Waiting { last: s, stable: 0 },
            None => Stability::Vanished,
        }
    }
}

/// The state one second later (see `stability_step`).
pub open spec fn step_spec(cooldown: u64, last: EntrySig, stable: u64, now: Option<EntrySig>) -> Stability {
    match now {
        None => Stability::Vanished,
        Some(s) => if s == last {
            if stable + 1 >= cooldown {
                Stability::Stable
            } else {
                Stability::Waiting { last: last, stable: (stable + 1) as u64 }
            }
        } else {
            Stability::Waiting { last: s, stable: 0 }
        },
    }
}

/// One second later: gone means give up; unchanged adds a second, and a
/// full cooldown of unchanged seconds means settled; a change starts the
/// count again from the new look.
pub fn stability_step(cooldown: u64, last: EntrySig, stable: u64, now: Option<EntrySig>) -> (st:
    Stability)
    requires
        stable < cooldown,
    ensures
        st == step_spec(cooldown, last, stable, now),
        st matches Stability::Waiting { stable: s2, .. } ==> s2 < cooldown,
{
    match now {
        None => Stability::Vanished,
        Some(s) => {
            if s == last {
                if stable + 1 >= cooldown {
                    Stability::Stable
                } else {
                    Stability::Waiting { last, stable: stable + 1 }
                }
            } else {
                Stability::Waiting { last: s, stable: 0 }
            }
        },
    }
}

/// The daemon never handles its own targets: every watched folder and
/// every rule destination is protected.
pub proof fn lemma_targets_protected(folders: Seq<FolderView>, i: int, j: int)
    requires
        0 <= i < folders.len(),
    ensures
        protected_spec(folders[i].path, folders),
        0 <= j < folders[i].rules.len() ==> protected_spec(folders[i].rules[j].to, folders),
{
    assert(folder_protects(folders[i].path, folders[i]));
    if 0 <= j < folders[i].rules.len() {
        let to = folders[i].rules[j].to;
        assert(guards(to, folders[i].rules[j].to));
        assert(folder_protects(to, folders[i]));
    }
}

/// Where waiting stands after the looks `looks`, one a second, from state
/// `st`: it stops at the first settled or vanished state.
pub open spec fn settle(cooldown: u64, st: Stability, looks: Seq<Option<EntrySig>>) -> Stability
    decreases looks.len(),
{
    if looks.len() == 0 {
        st
    } else {
        match st {
            Stability::Waiting { last, stable } => settle(
                cooldown,
                step_spec(cooldown, last, stable, looks[0]),
                looks.skip(1),
            ),
            _ => st,
        }
    }
}

/// The last `n + 1` observations of `obs` are one and the same signature:
/// the file stayed unchanged over `n` one-second intervals.
pub open spec fn unchanged_for(obs: Seq<Option<EntrySig>>, n: nat) -> bool {
    &&& obs.len() >= n + 1
    &&& obs.last() is Some
    &&& forall|k: int| obs.len() - (n + 1) <= k < obs.len() ==> #[trigger] obs[k] == obs.last()
}

proof fn lemma_settle_quiet(
    cooldown: u64,
    hist: Seq<Option<EntrySig>>,
    last: EntrySig,
    stable: u64,
    looks: Seq<Option<EntrySig>>,
)
    requires
        stable < cooldown,
        hist.len() >= stable + 1,
        forall|k: int| hist.len() - (stable + 1) <= k < hist.len() ==> #[trigger] hist[k] == Some(
            last,
        ),
        settle(cooldown, Stability::Waiting { last, stable }, looks) == Stability::Stable,
    ensures
        exists|t: int|
            1 <= t <= looks.len() && unchanged_for(
                #[trigger] (hist + looks).take(hist.len() + t),
                cooldown as nat,
            ),
    decreases looks.len(),
{
    let next = step_spec(cooldown, last, stable, looks[0]);
    let h2 = hist.push(looks[0]);
    assert((hist + looks).take(hist.len() as int + 1) =~= h2);
    match looks[0] {
        None => {
            assert(settle(cooldown, next, looks.skip(1)) == Stability::Vanished) by {
                if looks.skip(1).len() > 0 {
                }
            }
        },
        Some(s) => {
            if s == last && stable + 1 >= cooldown {
                assert(unchanged_for(h2, cooldown as nat)) by {
                    assert forall|k: int| h2.len() - (cooldown + 1) <= k < h2.len() implies #[trigger] h2[k]
                        == h2.last() by {
                        if k < hist.len() {
                            assert(h2[k] == hist[k]);
                        }
                    }
                }
                assert(unchanged_for((hist + looks).take(hist.len() as int + 1), cooldown as nat));
            } else {
                let (l2, st2) = if s == last {
                    (last, (stable + 1) as u64)
                } else {
                    (s, 0u64)
                };
                assert(next == Stability::Waiting { last: l2, stable: st2 });
                assert(settle(cooldown, next, looks.skip(1)) == Stability::Stable);
                assert forall|k: int| h2.len() - (st2 + 1) <= k < h2.len() implies #[trigger] h2[k]
                    == Some(l2) by {
                    if k < hist.len() {
                        assert(h2[k] == hist[k]);
                    }
                }
                lemma_settle_quiet(cooldown, h2, l2, st2, looks.skip(1));
                let t2 = choose|t: int|
                    1 <= t <= looks.skip(1).len() && unchanged_for(
                        #[trigger] (h2 + looks.skip(1)).take(h2.len() + t),
                        cooldown as nat,
                    );
                assert(h2 + looks.skip(1) =~= hist + looks);
                assert((hist + looks).take(hist.len() + (t2 + 1)) == (h2 + looks.skip(1)).take(
                    h2.len() + t2,
                ));
            }
        },
    }
}

/// No half-written file is handled: waiting settles only after the file
/// was seen unchanged over `cooldown` one-second intervals in a row. The
/// observations are the first look followed by one look a second; when
/// waiting settles, some prefix of them ends in `cooldown + 1` identical
/// signatures.
pub proof fn lemma_settled_means_unchanged(
    cooldown: u64,
    first: EntrySig,
    looks: Seq<Option<EntrySig>>,
)
    requires
        cooldown > 0,
        settle(cooldown, Stability::Waiting { last: first, stable: 0 }, looks)
            == Stability::Stable,
    ensures
        exists|t: int|
            1 <= t <= looks.len() && unchanged_for(
                #[trigger] (seq![Some(first)] + looks).take(1 + t),
                cooldown as nat,
            ),
{
    lemma_settle_quiet(cooldown, seq![Some(first)], first, 0, looks);
}

/// A file that stays unchanged is handled: from the first look, `cooldown`
/// further looks that all see the same signature settle the wait.
pub proof fn lemma_unchanged_settles(cooldown: u64, first: EntrySig)
    requires
        cooldown > 0,
    ensures
        settle(
            cooldown,
            Stability::Waiting { last: first, stable: 0 },
            Seq::new(cooldown as nat, |i: int| Some(first)),
        ) == Stability::Stable,
{
    lemma_unchanged_settles_from(cooldown, first, 0);
}

proof fn lemma_unchanged_settles_from(cooldown: u64, x: EntrySig, stable: u64)
    requires
        stable < cooldown,
    ensures
        settle(
            cooldown,
            Stability::Waiting { last: x, stable },
            Seq::new((cooldown - stable) as nat, |i: int| Some(x)),
        ) == Stability::Stable,
    decreases cooldown - stable,
{
    let looks = Seq::new((cooldown - stable) as nat, |i: int| Some(x));
    assert(looks[0] == Some(x));
    let next = step_spec(cooldown, x, stable, looks[0]);
    assert(settle(cooldown, Stability::Waiting { last: x, stable }, looks) == settle(
        cooldown,
        next,
        looks.skip(1),
    ));
    if stable + 1 < cooldown {
        assert(next == Stability::Waiting { last: x, stable: (stable + 1) as u64 });
        lemma_unchanged_settles_from(cooldown, x, (stable + 1) as u64);
        assert(looks.skip(1) =~= Seq::new((cooldown - (stable + 1)) as nat, |i: int| Some(x)));
    } else {
        assert(next == Stability::Stable);
        assert(looks.skip(1).len() == 0);
    }
}

/// The folder index is the first watched folder that holds the path.
proof fn lemma_folder_index_first(p: Seq<char>, folders: Seq<FolderView>, k: int)
    requires
        0 <= k < folders.len(),
        path_starts_with(p, folders[k].path),
        forall|j: int| 0 <= j < k ==> !path_starts_with(p, #[trigger] folders[j].path),
    ensures
        folder_index_spec(p, folders) == Some(k),
    decreases k,
{
    if k > 0 {
        let t = folders.skip(1);
        assert forall|j: int| 0 <= j < k - 1 implies !path_starts_with(p, #[trigger] t[j].path) by {
            assert(t[j] == folders[j + 1]);
        }
        assert(t[k - 1] == folders[k]);
        assert(!path_starts_with(p, folders[0].path));
        lemma_folder_index_first(p, t, k - 1);
    }
}

/// No watched folder holds the path: no folder index.
proof fn lemma_folder_index_none(p: Seq<char>, folders: Seq<FolderView>)
    requires
        forall|j: int| 0 <= j < folders.len() ==> !path_starts_with(p, #[trigger] folders[j].path),
    ensures
        folder_index_spec(p, folders) is None,
    decreases folders.len(),
{
    if folders.len() > 0 {
        let t = folders.skip(1);
        assert forall|j: int| 0 <= j < t.len() implies !path_starts_with(p, #[trigger] t[j].path) by {
            assert(t[j] == folders[j + 1]);
        }
        assert(!path_starts_with(p, folders[0].path));
        lemma_folder_index_none(p, t);
    }
}

/// What happens to a reported path, over its parts: a protected path is
/// left alone; otherwise one already being handled is skipped; otherwise a
/// path that no watched folder holds is dropped; otherwise, in the first
/// watched folder `k` that holds it and with file name `n`, it is ignored
/// exactly when folder `k`'s own ignore patterns take `n`, and handled
/// with folder `k`'s rules otherwise.
pub proof fn lemma_decision_law(
    p: Seq<char>,
    folders: Seq<FolderView>,
    pending: bool,
    ignored: spec_fn(int, Seq<char>) -> bool,
)
    ensures
        protected_spec(p, folders) ==> decision_spec(p, folders, pending, ignored)
            == FileDecisionView::Protected,
        (!protected_spec(p, folders) && pending) ==> decision_spec(p, folders, pending, ignored)
            == FileDecisionView::AlreadyPending,
        (!protected_spec(p, folders) && !pending && forall|j: int|
            0 <= j < folders.len() ==> !path_starts_with(p, #[trigger] folders[j].path))
            ==> decision_spec(p, folders, pending, ignored) == FileDecisionView::NoFolder,
        forall|k: int, n: Seq<char>|
            #![trigger ignored(k, n)]
            (!protected_spec(p, folders) && !pending && 0 <= k < folders.len() && path_starts_with(
                p,
                folders[k].path,
            ) && (forall|j: int| 0 <= j < k ==> !path_starts_with(p, #[trigger] folders[j].path))
                && file_name(p) == Some(n)) ==> {
                &&& (decision_spec(p, folders, pending, ignored) == FileDecisionView::Ignored
                    <==> ignored(k, n))
                &&& !ignored(k, n) ==> decision_spec(p, folders, pending, ignored)
                    == FileDecisionView::Process { folder: k, name: n }
            },
{
    if forall|j: int| 0 <= j < folders.len() ==> !path_starts_with(p, #[trigger] folders[j].path) {
        lemma_folder_index_none(p, folders);
    }
    assert forall|k: int, n: Seq<char>|
        (!protected_spec(p, folders) && !pending && 0 <= k < folders.len() && path_starts_with(
            p,
            folders[k].path,
        ) && (forall|j: int| 0 <= j < k ==> !path_starts_with(p, #[trigger] folders[j].path))
            && file_name(p) == Some(n)) implies {
            &&& (decision_spec(p, folders, pending, ignored) == FileDecisionView::Ignored
                <==> ignored(k, n))
            &&& !ignored(k, n) ==> decision_spec(p, folders, pending, ignored)
                == FileDecisionView::Process { folder: k, name: n }
        } by {
        lemma_folder_index_first(p, folders, k);
    }
}

/// Folder `k`'s ignore test is its own: `ignore_fn` applied to `k` and a
/// name holds exactly when one of folder `k`'s compiled ignore patterns
/// matches that name.
pub proof fn lemma_ignore_fn_is_per_folder(compiled: Seq<FolderRules>, k: int, n: Seq<char>)
    ensures
        ignore_fn(compiled)(k, n) <==> exists|j: int|
            0 <= j < compiled[k]@.ignore.len() && crate::glob::glob_matches(
                #[trigger] compiled[k]@.ignore[j],
                n,
            ),
{
}

} // verus!
