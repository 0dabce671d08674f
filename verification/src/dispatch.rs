//! The daemon's main loop as a state machine: what each incoming event
//! does to the batch of organized files and to the set of paths being
//! handled, and what the loop must do next.
use vstd::prelude::*;

use crate::config::{string_views, Folder, FolderView};
use crate::daemon::{classify_event, decision_spec, folder_views, ignore_fn, FileDecision, FileDecisionView};
use crate::path::{paths_equal, same_path};
use crate::rules::{build_spec, globs_fit, FolderRules};
use crate::table::{flush_text, record_row, row_views, summary_spec, Row, RowView, FLUSH_BATCH};
use crate::text::to_chars;

verus! {

/// Something the main loop receives.
pub enum Event {
    /// A folder watcher (or the startup sweep) reported a path.
    Reported(String),
    /// A worker organized a file.
    Moved(Row),
    /// The worker for a path is done.
    Finished(String),
    /// Nothing arrived for a whole flush interval.
    Quiet,
    /// No sender is left.
    Closed,
}

/// What the main loop does next.
pub enum Action {
    /// Nothing.
    Nothing,
    /// Start a worker for `path`, with the rules of folder `folder`, for
    /// the file named `name`.
    Spawn { path: String, folder: usize, name: String },
    /// Print a report.
    Print(String),
    /// Print the final report, if any, and stop.
    Stop(Option<String>),
}

/// No two entries name the same location.
pub open spec fn distinct_paths(s: Seq<Seq<char>>) -> bool {
    forall|i: int, j: int| 0 <= i < j < s.len() ==> !same_path(#[trigger] s[i], #[trigger] s[j])
}

/// Some entry names the same location as `p`.
pub open spec fn holds_path(s: Seq<Seq<char>>, p: Seq<char>) -> bool {
    exists|i: int| 0 <= i < s.len() && same_path(#[trigger] s[i], p)
}

/// The entries of `s` that do not name the same location as `p`, in order.
pub open spec fn without_path(s: Seq<Seq<char>>, p: Seq<char>) -> Seq<Seq<char>>
    decreases s.len(),
{
    if s.len() == 0 {
        seq![]
    } else {
        let w = without_path(s.drop_last(), p);
        if same_path(s.last(), p) {
            w
        } else {
            w.push(s.last())
        }
    }
}

/// Whether a row's texts are short enough for the report to lay out.
pub open spec fn row_fits(r: RowView) -> bool {
    r.rule.len() < usize::MAX / 2 && r.file.len() < usize::MAX / 2
}

/// The mathematical content of the loop's state: the organized files not
/// yet reported, the paths whose worker has not finished, and the watched
/// folders with their compiled rules.
#[verifier::ext_equal]
pub struct DispatcherView {
    pub rows: Seq<RowView>,
    pub pending: Seq<Seq<char>>,
    pub folders: Seq<FolderView>,
    pub compiled: Seq<FolderRules>,
}

/// The state `o` with the batch `rows` and the pending paths `pending`.
pub open spec fn with_state(o: DispatcherView, rows: Seq<RowView>, pending: Seq<Seq<char>>) -> DispatcherView {
    DispatcherView { rows, pending, folders: o.folders, compiled: o.compiled }
}

/// The state of the daemon's main loop.
pub struct Dispatcher {
    rows: Vec<Row>,
    pending: Vec<String>,
    folders: Vec<Folder>,
    compiled: Vec<FolderRules>,
}

impl View for Dispatcher {
    type V = DispatcherView;

    closed spec fn view(&self) -> DispatcherView {
        DispatcherView {
            rows: row_views(self.rows@),
            pending: string_views(self.pending@),
            folders: folder_views(self.folders@),
            compiled: self.compiled@,
        }
    }
}

/// What one event does: the state `o` becomes `n` and the loop performs
/// `act`.
/// - A reported path is decided by `decision_spec` (with "already being
///   handled" meaning a pending entry names the same location); a path to
///   handle becomes pending and gets a worker, anything else is dropped.
/// - An organized file joins the batch (`record_row`); a row too long to
///   lay out is dropped.
/// - A finished worker's path stops being pending.
/// - A quiet interval reports and empties the batch.
/// - When no sender is left, the batch is reported and the loop stops.
pub open spec fn step_spec(o: DispatcherView, ev: Event, n: DispatcherView, act: Action) -> bool {
    match ev {
        Event::Reported(p) => match decision_spec(
            p@,
            o.folders,
            holds_path(o.pending, p@),
            ignore_fn(o.compiled),
        ) {
            FileDecisionView::Process { folder, name } => {
                &&& act matches Action::Spawn { path, folder: f, name: nm } && path@ == p@ && f
                    == folder && nm@ == name
                &&& n == with_state(o, o.rows, o.pending.push(p@))
            },
            _ => act is Nothing && n == o,
        },
        Event::Moved(r) => if !row_fits(r@) {
            act is Nothing && n == o
        } else if o.rows.len() + 1 >= FLUSH_BATCH {
            &&& act matches Action::Print(t) && t@ == summary_spec(o.rows.push(r@))
            &&& n == with_state(o, seq![], o.pending)
        } else {
            act is Nothing && n == with_state(o, o.rows.push(r@), o.pending)
        },
        Event::Finished(p) => {
            &&& act is Nothing
            &&& n == with_state(o, o.rows, without_path(o.pending, p@))
        },
        Event::Quiet => {
            &&& (if o.rows.len() == 0 {
                act is Nothing
            } else {
                act matches Action::Print(t) && t@ == summary_spec(o.rows)
            })
            &&& n == with_state(o, seq![], o.pending)
        },
        Event::Closed => {
            &&& (if o.rows.len() == 0 {
                act matches Action::Stop(None)
            } else {
                act matches Action::Stop(Some(t)) && t@ == summary_spec(o.rows)
            })
            &&& n == with_state(o, seq![], o.pending)
        },
    }
}

proof fn lemma_without_path_members(s: Seq<Seq<char>>, p: Seq<char>)
    ensures
        forall|k: int|
            0 <= k < without_path(s, p).len() ==> exists|m: int|
                0 <= m < s.len() && s[m] == #[trigger] without_path(s, p)[k],
        forall|k: int|
            0 <= k < without_path(s, p).len() ==> !same_path(#[trigger] without_path(s, p)[k], p),
        distinct_paths(s) ==> distinct_paths(without_path(s, p)),
    decreases s.len(),
{
    if s.len() > 0 {
        let prev = s.drop_last();
        lemma_without_path_members(prev, p);
        let w = without_path(prev, p);
        assert forall|k: int| 0 <= k < without_path(s, p).len() implies exists|m: int|
            0 <= m < s.len() && s[m] == #[trigger] without_path(s, p)[k] by {
            if k < w.len() {
                let m = choose|m: int| 0 <= m < prev.len() && prev[m] == w[k];
                assert(s[m] == prev[m]);
            } else {
                assert(s[s.len() - 1] == without_path(s, p)[k]);
            }
        }
        if distinct_paths(s) {
            assert(distinct_paths(prev)) by {
                assert forall|i: int, j: int| 0 <= i < j < prev.len() implies !same_path(
                    #[trigger] prev[i],
                    #[trigger] prev[j],
                ) by {
                    assert(prev[i] == s[i] && prev[j] == s[j]);
                }
            }
            if !same_path(s.last(), p) {
                let r = w.push(s.last());
                assert forall|i: int, j: int| 0 <= i < j < r.len() implies !same_path(
                    #[trigger] r[i],
                    #[trigger] r[j],
                ) by {
                    if j == r.len() - 1 {
                        let m = choose|m: int| 0 <= m < prev.len() && prev[m] == w[i];
                        assert(s[m] == prev[m]);
                        assert(!same_path(s[m], s[s.len() - 1]));
                    } else {
                        assert(r[i] == w[i] && r[j] == w[j]);
                    }
                }
            }
        }
    }
}

impl Dispatcher {
    #[verifier::type_invariant]
    spec fn inv(&self) -> bool {
        &&& self.rows@.len() < FLUSH_BATCH
        &&& forall|k: int| 0 <= k < self.rows@.len() ==> row_fits(#[trigger] self.rows@[k]@)
        &&& distinct_paths(string_views(self.pending@))
        &&& self.compiled@.len() == self.folders@.len()
        &&& forall|k: int|
            0 <= k < self.folders@.len() ==> (#[trigger] self.compiled@[k])@ == build_spec(
                self.folders@[k]@,
            )
    }

    /// A loop over the watched folders `folders`, with nothing batched and
    /// nothing being handled, and each folder's rules compiled; `None` when
    /// some folder has a glob too large to compile.
    pub fn new(folders: Vec<Folder>) -> (res: Option<Dispatcher>)
        ensures
            res.is_some() == forall|k: int| 0 <= k < folders@.len() ==> globs_fit(#[trigger] folders@[k]@),
            res matches Some(d) ==> {
                &&& d@.rows.len() == 0
                &&& d@.pending.len() == 0
                &&& d@.folders == folder_views(folders@)
                &&& d@.compiled.len() == folders@.len()
                &&& forall|k: int| 0 <= k < folders@.len() ==> (#[trigger] d@.compiled[k])@ == build_spec(folders@[k]@)
            },
    {
        let mut compiled: Vec<FolderRules> = Vec::new();
        let mut i: usize = 0;
        while i < folders.len()
            invariant
                i <= folders.len(),
                compiled@.len() == i,
                forall|k: int| 0 <= k < i ==> globs_fit(#[trigger] folders@[k]@),
                forall|k: int| 0 <= k < i ==> (#[trigger] compiled@[k])@ == build_spec(folders@[k]@),
            decreases folders.len() - i,
        {
            if !FolderRules::can_build(&folders[i]) {
                return None;
            }
            compiled.push(FolderRules::build(&folders[i]));
            i = i + 1;
        }
        Some(Dispatcher { rows: Vec::new(), pending: Vec::new(), folders, compiled })
    }

    /// Handles one event (see `step_spec`).
    pub fn step(&mut self, ev: Event) -> (act: Action)
        ensures
            step_spec(old(self)@, ev, final(self)@, act),
            final(self)@.rows.len() < FLUSH_BATCH,
            distinct_paths(final(self)@.pending),
            act matches Action::Spawn { path, .. } ==> !holds_path(old(self)@.pending, path@)
                && holds_path(final(self)@.pending, path@),
            ev is Quiet || ev is Closed ==> final(self)@.rows.len() == 0,
    {
        proof {
            use_type_invariant(&*self);
        }
        let ghost o = self@;
        let ghost ev_g = ev;
        let ghost old_rows = self.rows@;
        let mut rows: Vec<Row> = Vec::new();
        std::mem::swap(&mut rows, &mut self.rows);
        let mut pending: Vec<String> = Vec::new();
        std::mem::swap(&mut pending, &mut self.pending);
        assert(row_views(rows@) == o.rows);
        assert(rows@ == old_rows);
        assert forall|k: int| 0 <= k < rows@.len() implies (#[trigger] rows@[k]).rule@.len()
            < usize::MAX / 2 && rows@[k].file@.len() < usize::MAX / 2 by {
            assert(row_fits(old_rows[k]@));
        }
        assert(string_views(pending@) == o.pending);
        let act = match ev {
            Event::Reported(p) => {
                let already = holds(&pending, p.as_str());
                let d = classify_event(p.as_str(), self.folders.as_slice(), self.compiled.as_slice(), already);
                match d {
                    FileDecision::Process { folder, name } => {
                        proof {
                            assert(!holds_path(o.pending, p@));
                            assert forall|i: int, j: int|
                                0 <= i < j < o.pending.push(p@).len() implies !same_path(
                                #[trigger] o.pending.push(p@)[i],
                                #[trigger] o.pending.push(p@)[j],
                            ) by {
                                if j == o.pending.len() {
                                    assert(o.pending.push(p@)[i] == o.pending[i]);
                                    if same_path(o.pending[i], p@) {
                                        assert(holds_path(o.pending, p@));
                                    }
                                } else {
                                    assert(o.pending.push(p@)[i] == o.pending[i]);
                                    assert(o.pending.push(p@)[j] == o.pending[j]);
                                }
                            }
                        }
                        let path = p.clone();
                        pending.push(p);
                        assert(string_views(pending@) =~= o.pending.push(path@));
                        Action::Spawn { path, folder, name }
                    },
                    _ => Action::Nothing,
                }
            },
            Event::Moved(r) => {
                let fits = to_chars(r.rule.as_str()).len() < usize::MAX / 2 && to_chars(
                    r.file.as_str(),
                ).len() < usize::MAX / 2;
                if !fits {
                    Action::Nothing
                } else {
                    let ghost rv = r@;
                    assert(row_views(rows@.push(r)) =~= o.rows.push(rv));
                    let res = record_row(&mut rows, r);
                    assert(row_views(rows@) =~= if o.rows.len() + 1 >= FLUSH_BATCH {
                        seq![]
                    } else {
                        o.rows.push(rv)
                    });
                    match res {
                        Some(t) => Action::Print(t),
                        None => Action::Nothing,
                    }
                }
            },
            Event::Finished(p) => {
                pending = remove_path(&pending, p.as_str());
                Action::Nothing
            },
            Event::Quiet => {
                let res = flush_text(&mut rows);
                assert(row_views(rows@) =~= seq![]);
                match res {
                    Some(t) => Action::Print(t),
                    None => Action::Nothing,
                }
            },
            Event::Closed => {
                let res = flush_text(&mut rows);
                assert(row_views(rows@) =~= seq![]);
                Action::Stop(res)
            },
        };
        proof {
            let n = with_state(o, row_views(rows@), string_views(pending@));
            match ev_g {
                Event::Finished(p) => {
                    lemma_without_path_members(o.pending, p@);
                },
                _ => {},
            }
            assert(step_spec(o, ev_g, n, act));
            if act is Spawn {
                assert(n.pending[n.pending.len() - 1] == act->path@);
                assert(holds_path(n.pending, act->path@));
            }
            assert forall|k: int| 0 <= k < rows@.len() implies row_fits(#[trigger] rows@[k]@) by {
                assert(row_views(rows@)[k] == rows@[k]@);
                match ev_g {
                    Event::Moved(r) => {
                        if k < old_rows.len() {
                            assert(row_fits(old_rows[k]@));
                            assert(o.rows[k] == old_rows[k]@);
                        }
                    },
                    _ => {
                        assert(o.rows[k] == old_rows[k]@);
                        assert(row_fits(old_rows[k]@));
                    },
                }
            }
        }
        self.rows = rows;
        self.pending = pending;
        act
    }
}

/// Whether some entry of `pending` names the same location as `p`.
fn holds(pending: &Vec<String>, p: &str) -> (b: bool)
    ensures
        b == holds_path(string_views(pending@), p@),
{
    let pc = to_chars(p);
    let mut i: usize = 0;
    while i < pending.len()
        invariant
            i <= pending.len(),
            pc@ == p@,
            forall|k: int| 0 <= k < i ==> !same_path(#[trigger] string_views(pending@)[k], p@),
        decreases pending.len() - i,
    {
        let q = to_chars(pending[i].as_str());
        assert(string_views(pending@)[i as int] == pending@[i as int]@);
        if paths_equal(q.as_slice(), pc.as_slice()) {
            return true;
        }
        i = i + 1;
    }
    false
}

/// The entries of `pending` that do not name the same location as `p`.
fn remove_path(pending: &Vec<String>, p: &str) -> (out: Vec<String>)
    ensures
        string_views(out@) == without_path(string_views(pending@), p@),
{
    let pc = to_chars(p);
    let ghost s = string_views(pending@);
    let mut out: Vec<String> = Vec::new();
    let mut i: usize = 0;
    while i < pending.len()
        invariant
            i <= pending.len(),
            pc@ == p@,
            s == string_views(pending@),
            string_views(out@) == without_path(s.take(i as int), p@),
        decreases pending.len() - i,
    {
        assert(s.take(i + 1).drop_last() =~= s.take(i as int));
        assert(s.take(i + 1).last() == pending@[i as int]@);
        let q = to_chars(pending[i].as_str());
        if !paths_equal(q.as_slice(), pc.as_slice()) {
            let e = pending[i].clone();
            out.push(e);
            assert(string_views(out@) =~= without_path(s.take(i as int), p@).push(s[i as int]));
        }
        i = i + 1;
    }
    assert(s.take(pending.len() as int) =~= s);
    out
}

} // verus!
