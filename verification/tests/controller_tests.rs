use dirsweep::controller::{Action, Controller, DeleteOutcome, Focus};
use dirsweep::entry::{Entry, EntryKind};

fn mk(name: &str, path: &str, kind: EntryKind) -> Entry {
    Entry {
        name: name.as_bytes().to_vec(),
        path: path.as_bytes().to_vec(),
        kind,
    }
}

fn listing() -> Vec<Entry> {
    vec![
        mk("a.txt", "./a.txt", EntryKind::File),
        mk("docs", "./docs", EntryKind::Directory),
        mk(".", ".", EntryKind::Directory),
        mk("b.txt", "./b.txt", EntryKind::File),
        mk("src", "./src", EntryKind::Directory),
    ]
}

fn fresh() -> Controller {
    Controller::new(b".".to_vec(), listing())
}

fn displayed_names(c: &Controller) -> Vec<String> {
    c.displayed
        .iter()
        .map(|&i| String::from_utf8(c.ordered[i].name.clone()).unwrap())
        .collect()
}

#[test]
fn startup_lists_everything_in_order() {
    let c = fresh();
    assert_eq!(
        displayed_names(&c),
        vec![".", "docs", "src", "a.txt", "b.txt"]
    );
    assert_eq!(c.selected, 0);
    assert_eq!(c.focus, Focus::List);
    assert!(c.filter_text.is_empty());
    assert!(c.pending.is_none());
}

#[test]
fn typing_refilters_without_relisting() {
    let mut c = fresh();
    c.on_select(3);
    c.on_text_changed(b"s".to_vec());
    assert_eq!(displayed_names(&c), vec!["src"]);
    assert_eq!(c.selected, 0);
    c.on_text_changed(b"".to_vec());
    assert_eq!(
        displayed_names(&c),
        vec![".", "docs", "src", "a.txt", "b.txt"]
    );
}

#[test]
fn submit_file_requests_file_removal() {
    let mut c = fresh();
    c.on_select(3);
    let a = c.on_submit_selected();
    assert_eq!(a, Action::DeleteFile(b"./a.txt".to_vec()));
    assert_eq!(c.pending, Some(b"./a.txt".to_vec()));
}

#[test]
fn submit_directory_requests_non_recursive_removal() {
    let mut c = fresh();
    c.on_select(1);
    let a = c.on_submit_selected();
    assert_eq!(a, Action::DeleteDir(b"./docs".to_vec()));
}

#[test]
fn submit_other_kind_is_refused() {
    let entries = vec![mk("link", "/d/link", EntryKind::Other)];
    let mut c = Controller::new(b"/d".to_vec(), entries);
    let a = c.on_submit_selected();
    assert_eq!(a, Action::ShowUnsupported(b"/d/link".to_vec()));
    assert!(c.pending.is_none());
}

#[test]
fn no_selection_guard() {
    let mut c = Controller::new(b".".to_vec(), Vec::new());
    let a = c.on_submit_selected();
    assert_eq!(a, Action::ShowNoSelection);
    assert!(c.pending.is_none());
    assert!(c.displayed.is_empty());
}

#[test]
fn nonempty_directory_asks_for_confirmation() {
    let mut c = fresh();
    c.on_select(1);
    let a = c.on_submit_selected();
    assert_eq!(a, Action::DeleteDir(b"./docs".to_vec()));
    let before = displayed_names(&c);
    let a = c.on_delete_result(DeleteOutcome::DirNotEmpty);
    assert_eq!(a, Action::ShowConfirm(b"./docs".to_vec()));
    assert_eq!(displayed_names(&c), before);
    let a = c.on_confirm_delete();
    assert_eq!(a, Action::DeleteDirRecursive(b"./docs".to_vec()));
    let a = c.on_delete_result(DeleteOutcome::Removed);
    assert_eq!(a, Action::Refresh);
    let refreshed: Vec<Entry> = listing()
        .into_iter()
        .filter(|e| e.name != b"docs".to_vec())
        .collect();
    c.on_listing(refreshed);
    assert_eq!(displayed_names(&c), vec![".", "src", "a.txt", "b.txt"]);
}

#[test]
fn declining_confirmation_changes_nothing() {
    let mut c = fresh();
    c.on_select(1);
    c.on_submit_selected();
    let before = displayed_names(&c);
    c.on_delete_result(DeleteOutcome::DirNotEmpty);
    c.on_dismiss_confirm();
    assert!(c.pending.is_none());
    assert_eq!(displayed_names(&c), before);
    assert_eq!(c.on_confirm_delete(), Action::Idle);
}

#[test]
fn selection_stays_at_index_after_delete() {
    let mut c = fresh();
    c.on_select(2);
    let a = c.on_submit_selected();
    assert_eq!(a, Action::DeleteDir(b"./src".to_vec()));
    assert_eq!(c.on_delete_result(DeleteOutcome::Removed), Action::Refresh);
    let refreshed: Vec<Entry> = listing()
        .into_iter()
        .filter(|e| e.name != b"src".to_vec())
        .collect();
    c.on_listing(refreshed);
    assert_eq!(c.selected, 2);
    assert_eq!(displayed_names(&c), vec![".", "docs", "a.txt", "b.txt"]);
    assert_eq!(displayed_names(&c)[c.selected], "a.txt");
}

#[test]
fn selection_clamps_to_last_valid_index() {
    let mut c = fresh();
    c.on_select(4);
    let a = c.on_submit_selected();
    assert_eq!(a, Action::DeleteFile(b"./b.txt".to_vec()));
    c.on_delete_result(DeleteOutcome::Removed);
    let refreshed: Vec<Entry> = listing()
        .into_iter()
        .filter(|e| e.name != b"b.txt".to_vec())
        .collect();
    c.on_listing(refreshed);
    assert_eq!(c.selected, 3);
}

#[test]
fn failed_delete_shows_error_and_preserves_state() {
    let mut c = fresh();
    c.on_select(3);
    c.on_submit_selected();
    let before = displayed_names(&c);
    let a = c.on_delete_result(DeleteOutcome::Failed(b"permission denied".to_vec()));
    assert_eq!(
        a,
        Action::ShowError(b"./a.txt".to_vec(), b"permission denied".to_vec())
    );
    assert_eq!(displayed_names(&c), before);
    assert!(c.pending.is_none());
    assert_eq!(c.on_delete_result(DeleteOutcome::Removed), Action::Idle);
}

#[test]
fn refresh_clears_the_filter() {
    let mut c = fresh();
    c.on_text_changed(b"a".to_vec());
    assert_eq!(displayed_names(&c), vec!["a.txt"]);
    c.on_select(0);
    c.on_submit_selected();
    c.on_delete_result(DeleteOutcome::Removed);
    let refreshed: Vec<Entry> = listing()
        .into_iter()
        .filter(|e| e.name != b"a.txt".to_vec())
        .collect();
    c.on_listing(refreshed);
    assert!(c.filter_text.is_empty());
    assert_eq!(displayed_names(&c), vec![".", "docs", "src", "b.txt"]);
}

#[test]
fn focus_toggles_and_filter_submit_returns_to_list() {
    let mut c = fresh();
    assert_eq!(c.focus, Focus::List);
    c.on_toggle_focus();
    assert_eq!(c.focus, Focus::FilterBox);
    c.on_toggle_focus();
    assert_eq!(c.focus, Focus::List);
    c.on_toggle_focus();
    c.on_submit_from_filter();
    assert_eq!(c.focus, Focus::List);
}
