use vstd::prelude::*;

use crate::entry::{copy_bytes, keeps_entry, Entry, EntryKind};
use crate::ordering::{display_order, keep_pred, order_entries};
use vstd::relations::sorted_by;

verus! {

/// Which widget the next key strokes go to.
#[derive(Clone, Copy, PartialEq, Eq, Structural, Debug)]
pub enum Focus {
    List,
    FilterBox,
}

/// What the surrounding user interface must do next. The controller
/// itself touches no filesystem: every mutation and every dialog is
/// requested through one of these.
#[derive(PartialEq, Debug)]
pub enum Action {
    /// Nothing beyond re-rendering the view.
    Idle,
    /// Remove the file at the path.
    DeleteFile(Vec<u8>),
    /// Remove the directory at the path, non-recursively.
    DeleteDir(Vec<u8>),
    /// Remove the directory at the path with all of its contents.
    DeleteDirRecursive(Vec<u8>),
    /// Re-list the current directory, then report it via `on_listing`.
    Refresh,
    /// Show the "No name to remove" information dialog.
    ShowNoSelection,
    /// Show that the entry at the path has a kind this tool does not
    /// delete.
    ShowUnsupported(Vec<u8>),
    /// Ask for confirmation before removing the non-empty directory at
    /// the path, with a "Delete Anyway" choice.
    ShowConfirm(Vec<u8>),
    /// Show that removing the entry at the path failed, with the error
    /// text.
    ShowError(Vec<u8>, Vec<u8>),
}

/// What the filesystem said to a requested removal.
#[derive(PartialEq, Debug)]
pub enum DeleteOutcome {
    /// The entry is gone.
    Removed,
    /// A non-recursive directory removal hit a non-empty directory.
    DirNotEmpty,
    /// The removal failed for another reason, with the error text.
    Failed(Vec<u8>),
}

/// Where a best-effort restored selection lands: the old index if it
/// still exists, else the last valid index, else the top.
pub open spec fn clamp_index(sel: int, n: int) -> int {
    if n == 0 {
        0
    } else if sel < n {
        sel
    } else {
        n - 1
    }
}

/// The event-driven core of the tool. It owns the view state — the
/// last listing in display order, the filter text, the selection and
/// the focus — and turns each incoming event into the next state and
/// an `Action` for the surrounding user interface to carry out.
pub struct Controller {
    /// Path of the current directory, which the self-entry carries.
    pub cwd: Vec<u8>,
    /// The last listing, in display order.
    pub ordered: Vec<Entry>,
    /// Positions into `ordered` of the entries the filter keeps, in
    /// display order: the displayed sequence.
    pub displayed: Vec<usize>,
    /// The live filter prefix.
    pub filter_text: Vec<u8>,
    /// Position of the selection in the displayed sequence; meaningful
    /// only while that sequence is non-empty.
    pub selected: usize,
    /// Which widget is focused.
    pub focus: Focus,
    /// The path of the entry whose removal is in flight or awaiting
    /// confirmation, if any.
    pub pending: Option<Vec<u8>>,
}

impl Controller {
    /// The displayed sequence: the entries of the last listing that
    /// the filter keeps, in display order.
    pub open spec fn displayed_seq(self) -> Seq<Entry> {
        self.displayed@.map_values(|i: usize| self.ordered@[i as int])
    }

    /// The entry the selection rests on.
    pub open spec fn selected_entry(self) -> Entry {
        self.displayed_seq()[self.selected as int]
    }

    /// The pending removal's path, as a byte string.
    pub open spec fn pending_path(self) -> Option<Seq<u8>> {
        match self.pending {
            Some(p) => Some(p@),
            None => None,
        }
    }

    /// The view state is well formed: the listing is in display
    /// order, the displayed sequence is exactly the filtered listing,
    /// and the selection is in bounds.
    pub open spec fn inv(self) -> bool {
        &&& forall|k: int|
            0 <= k < self.displayed@.len() ==> (#[trigger] self.displayed@[k]) < self.ordered@.len()
        &&& self.displayed_seq() == self.ordered@.filter(
            keep_pred(self.filter_text@, self.cwd@),
        )
        &&& sorted_by(self.ordered@, display_order(self.cwd@))
        &&& self.displayed@.len() > 0 ==> self.selected < self.displayed@.len()
        &&& self.displayed@.len() == 0 ==> self.selected == 0
    }
}

/// The directory, the filter text and the selection are as they were.
pub open spec fn same_listing(a: Controller, b: Controller) -> bool {
    &&& a.cwd@ == b.cwd@
    &&& a.ordered@ == b.ordered@
    &&& a.displayed@ == b.displayed@
    &&& a.filter_text@ == b.filter_text@
    &&& a.selected == b.selected
}

/// The positions into `ordered` of the entries the filter keeps, in
/// order.
fn build_displayed(ordered: &Vec<Entry>, f: &Vec<u8>, cwd: &Vec<u8>) -> (r: Vec<usize>)
    ensures
        forall|k: int| 0 <= k < r@.len() ==> (#[trigger] r@[k]) < ordered@.len(),
        r@.map_values(|i: usize| ordered@[i as int]) == ordered@.filter(keep_pred(f@, cwd@)),
{
    let ghost pred = keep_pred(f@, cwd@);
    let ghost g = |i: usize| ordered@[i as int];
    let mut r: Vec<usize> = Vec::new();
    let mut i: usize = 0;
    proof {
        reveal(Seq::filter);
        assert(ordered@.take(0) =~= Seq::<Entry>::empty());
        assert(r@.map_values(g) =~= ordered@.take(0).filter(pred));
    }
    while i < ordered.len()
        invariant
            i <= ordered@.len(),
            pred == keep_pred(f@, cwd@),
            g == (|i: usize| ordered@[i as int]),
            forall|k: int| 0 <= k < r@.len() ==> (#[trigger] r@[k]) < i,
            r@.map_values(g) == ordered@.take(i as int).filter(pred),
        decreases ordered@.len() - i,
    {
        proof {
            broadcast use vstd::prelude::Seq::lemma_filter_push;

            assert(ordered@.take(i + 1) =~= ordered@.take(i as int).push(ordered@[i as int]));
        }
        let ghost r0 = r@;
        if keeps_entry(&ordered[i], f, cwd) {
            r.push(i);
            proof {
                assert(r@.map_values(g) =~= r0.map_values(g).push(ordered@[i as int]));
            }
        }
        i += 1;
    }
    proof {
        assert(ordered@.take(ordered@.len() as int) =~= ordered@);
    }
    r
}

impl Controller {
    /// The startup state over a fresh raw listing of the current
    /// directory: empty filter, selection at the top, the list
    /// focused, nothing pending.
    pub fn new(cwd: Vec<u8>, entries: Vec<Entry>) -> (c: Controller)
        ensures
            c.inv(),
            c.cwd@ == cwd@,
            c.ordered@.to_multiset() == entries@.to_multiset(),
            c.filter_text@.len() == 0,
            c.selected == 0,
            c.focus == Focus::List,
            c.pending_path() is None,
    {
        let ordered = order_entries(entries, &cwd);
        let filter_text: Vec<u8> = Vec::new();
        let displayed = build_displayed(&ordered, &filter_text, &cwd);
        let c = Controller {
            cwd,
            ordered,
            displayed,
            filter_text,
            selected: 0,
            focus: Focus::List,
            pending: None,
        };
        proof {
            assert(c.displayed_seq() =~= c.ordered@.filter(keep_pred(c.filter_text@, c.cwd@)));
        }
        c
    }

    /// The user edited the filter text: re-filter the listing already
    /// in hand (typing mutates no file, so no re-listing), and clamp
    /// the selection to the new displayed sequence's bounds.
    pub fn on_text_changed(&mut self, text: Vec<u8>)
        requires
            old(self).inv(),
        ensures
            final(self).inv(),
            final(self).cwd@ == old(self).cwd@,
            final(self).ordered@ == old(self).ordered@,
            final(self).filter_text@ == text@,
            final(self).focus == old(self).focus,
            final(self).pending_path() == old(self).pending_path(),
            final(self).displayed_seq() == final(self).ordered@.filter(
                keep_pred(text@, old(self).cwd@),
            ),
            final(self).selected == clamp_index(
                old(self).selected as int,
                final(self).displayed@.len() as int,
            ),
    {
        self.filter_text = text;
        let d = build_displayed(&self.ordered, &self.filter_text, &self.cwd);
        self.displayed = d;
        let n = self.displayed.len();
        if n == 0 {
            self.selected = 0;
        } else if self.selected >= n {
            self.selected = n - 1;
        }
        proof {
            assert(self.displayed_seq() =~= self.ordered@.filter(
                keep_pred(self.filter_text@, self.cwd@),
            ));
        }
    }

    /// The user moved the selection in the list to position `i`. A
    /// position outside the displayed sequence leaves the selection
    /// where it was.
    pub fn on_select(&mut self, i: usize)
        requires
            old(self).inv(),
        ensures
            final(self).inv(),
            final(self).cwd@ == old(self).cwd@,
            final(self).ordered@ == old(self).ordered@,
            final(self).displayed@ == old(self).displayed@,
            final(self).filter_text@ == old(self).filter_text@,
            final(self).focus == old(self).focus,
            final(self).pending_path() == old(self).pending_path(),
            final(self).selected == (if i < old(self).displayed@.len() {
                i as int
            } else {
                old(self).selected as int
            }),
    {
        if i < self.displayed.len() {
            self.selected = i;
        }
    }

    /// Flip focus between the filter box and the list; the filter text
    /// and the selection stay as they are.
    pub fn on_toggle_focus(&mut self)
        requires
            old(self).inv(),
        ensures
            final(self).inv(),
            same_listing(*final(self), *old(self)),
            final(self).pending_path() == old(self).pending_path(),
            final(self).focus == (if old(self).focus == Focus::List {
                Focus::FilterBox
            } else {
                Focus::List
            }),
    {
        self.focus = match self.focus {
            Focus::List => Focus::FilterBox,
            Focus::FilterBox => Focus::List,
        };
    }

    /// A submit from the filter box only moves focus to the list; it
    /// deletes nothing.
    pub fn on_submit_from_filter(&mut self)
        requires
            old(self).inv(),
        ensures
            final(self).inv(),
            same_listing(*final(self), *old(self)),
            final(self).pending_path() == old(self).pending_path(),
            final(self).focus == Focus::List,
    {
        self.focus = Focus::List;
    }

    /// The user activated the selected entry: request its removal.
    /// With nothing selected, only the "No name to remove" dialog is
    /// shown and no filesystem action is requested. A file gets a file
    /// removal, a directory a non-recursive removal; an entry of
    /// another kind is refused with a dialog rather than guessed at.
    pub fn on_submit_selected(&mut self) -> (a: Action)
        requires
            old(self).inv(),
        ensures
            final(self).inv(),
            same_listing(*final(self), *old(self)),
            final(self).focus == old(self).focus,
            old(self).displayed@.len() == 0 ==> a == Action::ShowNoSelection
                && final(self).pending_path() == old(self).pending_path(),
            old(self).displayed@.len() > 0 && old(self).selected_entry().kind == EntryKind::File
                ==> (a matches Action::DeleteFile(p) && p@ == old(self).selected_entry().path@)
                && final(self).pending_path() == Some(old(self).selected_entry().path@),
            old(self).displayed@.len() > 0 && old(self).selected_entry().kind
                == EntryKind::Directory
                ==> (a matches Action::DeleteDir(p) && p@ == old(self).selected_entry().path@)
                && final(self).pending_path() == Some(old(self).selected_entry().path@),
            old(self).displayed@.len() > 0 && old(self).selected_entry().kind == EntryKind::Other
                ==> (a matches Action::ShowUnsupported(p)
                && p@ == old(self).selected_entry().path@)
                && final(self).pending_path() == old(self).pending_path(),
    {
        if self.displayed.len() == 0 {
            return Action::ShowNoSelection;
        }
        let idx = self.displayed[self.selected];
        proof {
            assert(self.selected_entry() == self.ordered@[idx as int]);
        }
        let path = copy_bytes(&self.ordered[idx].path);
        match self.ordered[idx].kind {
            EntryKind::File => {
                self.pending = Some(copy_bytes(&self.ordered[idx].path));
                Action::DeleteFile(path)
            },
            EntryKind::Directory => {
                self.pending = Some(copy_bytes(&self.ordered[idx].path));
                Action::DeleteDir(path)
            },
            EntryKind::Other => Action::ShowUnsupported(path),
        }
    }

    /// The filesystem answered a requested removal. Success calls for
    /// a refresh; a non-empty directory calls for confirmation and
    /// mutates nothing; any other failure is surfaced with the path
    /// and the error text, and the view state is left as it was so the
    /// user can retry.
    pub fn on_delete_result(&mut self, outcome: DeleteOutcome) -> (a: Action)
        requires
            old(self).inv(),
        ensures
            final(self).inv(),
            same_listing(*final(self), *old(self)),
            final(self).focus == old(self).focus,
            old(self).pending_path() is None ==> a == Action::Idle && final(self).pending_path()
                is None,
            old(self).pending_path() matches Some(pp) ==> {
                &&& outcome matches DeleteOutcome::Removed ==> a == Action::Refresh
                    && final(self).pending_path() is None
                &&& outcome matches DeleteOutcome::DirNotEmpty
                    ==> (a matches Action::ShowConfirm(q) && q@ == pp)
                    && final(self).pending_path() == Some(pp)
                &&& outcome matches DeleteOutcome::Failed(err)
                    ==> (a matches Action::ShowError(q, m) && q@ == pp && m@ == err@)
                    && final(self).pending_path() is None
            },
    {
        if self.pending.is_none() {
            return Action::Idle;
        }
        match outcome {
            DeleteOutcome::Removed => {
                self.pending = None;
                Action::Refresh
            },
            DeleteOutcome::DirNotEmpty => {
                let p = copy_bytes(self.pending.as_ref().unwrap());
                Action::ShowConfirm(p)
            },
            DeleteOutcome::Failed(err) => {
                let p = copy_bytes(self.pending.as_ref().unwrap());
                self.pending = None;
                Action::ShowError(p, err)
            },
        }
    }

    /// The user chose "Delete Anyway": request the recursive removal
    /// of the pending directory. The outcome comes back through
    /// `on_delete_result`.
    pub fn on_confirm_delete(&mut self) -> (a: Action)
        requires
            old(self).inv(),
        ensures
            final(self).inv(),
            same_listing(*final(self), *old(self)),
            final(self).focus == old(self).focus,
            final(self).pending_path() == old(self).pending_path(),
            old(self).pending_path() is None ==> a == Action::Idle,
            old(self).pending_path() matches Some(pp) ==> (a matches Action::DeleteDirRecursive(q)
                && q@ == pp),
    {
        match &self.pending {
            Some(p) => Action::DeleteDirRecursive(copy_bytes(p)),
            None => Action::Idle,
        }
    }

    /// The user declined the confirmation: forget the pending removal
    /// and leave everything else — and the filesystem — untouched.
    pub fn on_dismiss_confirm(&mut self)
        requires
            old(self).inv(),
        ensures
            final(self).inv(),
            same_listing(*final(self), *old(self)),
            final(self).focus == old(self).focus,
            final(self).pending_path() is None,
    {
        self.pending = None;
    }

    /// A fresh raw listing after a successful removal: re-order it,
    /// clear the filter, and restore the selection to the old index if
    /// it still exists, else to the last valid index.
    pub fn on_listing(&mut self, entries: Vec<Entry>)
        requires
            old(self).inv(),
        ensures
            final(self).inv(),
            final(self).cwd@ == old(self).cwd@,
            final(self).focus == old(self).focus,
            final(self).pending_path() == old(self).pending_path(),
            final(self).ordered@.to_multiset() == entries@.to_multiset(),
            sorted_by(final(self).ordered@, display_order(old(self).cwd@)),
            final(self).filter_text@.len() == 0,
            final(self).displayed_seq() == final(self).ordered@,
            final(self).selected == clamp_index(
                old(self).selected as int,
                final(self).displayed@.len() as int,
            ),
    {
        let ordered = order_entries(entries, &self.cwd);
        self.ordered = ordered;
        self.filter_text = Vec::new();
        let d = build_displayed(&self.ordered, &self.filter_text, &self.cwd);
        self.displayed = d;
        let n = self.displayed.len();
        if n == 0 {
            self.selected = 0;
        } else if self.selected >= n {
            self.selected = n - 1;
        }
        proof {
            assert(self.displayed_seq() =~= self.ordered@.filter(
                keep_pred(self.filter_text@, self.cwd@),
            ));
            crate::ordering::lemma_empty_filter_keeps_all(
                self.ordered@,
                self.filter_text@,
                self.cwd@,
            );
        }
    }
}

} // verus!
