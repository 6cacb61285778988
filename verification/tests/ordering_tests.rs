use dirsweep::entry::{Entry, EntryKind};
use dirsweep::ordering::{filter_entries, order_entries};

fn mk(name: &str, path: &str, kind: EntryKind) -> Entry {
    Entry {
        name: name.as_bytes().to_vec(),
        path: path.as_bytes().to_vec(),
        kind,
    }
}

fn names(v: &[Entry]) -> Vec<String> {
    v.iter()
        .map(|e| String::from_utf8(e.name.clone()).unwrap())
        .collect()
}

fn sample() -> Vec<Entry> {
    vec![
        mk("zeta", "./zeta", EntryKind::File),
        mk("beta", "./beta", EntryKind::Directory),
        mk(".", ".", EntryKind::Directory),
        mk("alpha", "./alpha", EntryKind::File),
        mk("delta", "./delta", EntryKind::Directory),
        mk(".hidden", "./.hidden", EntryKind::File),
    ]
}

#[test]
fn orders_self_then_dirs_then_files() {
    let cwd = b".".to_vec();
    let r = order_entries(sample(), &cwd);
    assert_eq!(
        names(&r),
        vec![".", "beta", "delta", ".hidden", "alpha", "zeta"]
    );
}

#[test]
fn order_ignores_input_permutation() {
    let cwd = b".".to_vec();
    let mut reversed = sample();
    reversed.reverse();
    let a = order_entries(sample(), &cwd);
    let b = order_entries(reversed, &cwd);
    assert_eq!(a, b);
}

#[test]
fn empty_filter_keeps_self_and_all() {
    let cwd = b".".to_vec();
    let r = order_entries(sample(), &cwd);
    let f = filter_entries(r.clone(), &b"".to_vec(), &cwd);
    assert_eq!(f, r);
}

#[test]
fn dot_filter_keeps_self() {
    let cwd = b".".to_vec();
    let r = order_entries(sample(), &cwd);
    let f = filter_entries(r, &b".".to_vec(), &cwd);
    assert_eq!(names(&f), vec![".", ".hidden"]);
}

#[test]
fn prefix_filter_excludes_self_and_matches_byte_for_byte() {
    let cwd = b".".to_vec();
    let r = order_entries(sample(), &cwd);
    let f = filter_entries(r, &b"de".to_vec(), &cwd);
    assert_eq!(names(&f), vec!["delta"]);
}

#[test]
fn prefix_filter_keeps_every_match_in_order() {
    let cwd = b".".to_vec();
    let mut entries = sample();
    entries.push(mk("alps", "./alps", EntryKind::File));
    let r = order_entries(entries, &cwd);
    let f = filter_entries(r, &b"al".to_vec(), &cwd);
    assert_eq!(names(&f), vec!["alpha", "alps"]);
}

#[test]
fn unmatched_filter_yields_nothing() {
    let cwd = b".".to_vec();
    let r = order_entries(sample(), &cwd);
    let f = filter_entries(r, &b"zz".to_vec(), &cwd);
    assert!(f.is_empty());
}

#[test]
fn delete_then_refresh_removes_exactly_one() {
    let cwd = b".".to_vec();
    let before = order_entries(sample(), &cwd);
    let after_raw: Vec<Entry> = sample()
        .into_iter()
        .filter(|e| e.name != b"delta".to_vec())
        .collect();
    let after = order_entries(after_raw, &cwd);
    let mut expected = before.clone();
    expected.remove(2);
    assert_eq!(after, expected);
}

#[test]
fn case_sensitive_name_order() {
    let cwd = b"/d".to_vec();
    let entries = vec![
        mk("Beta", "/d/Beta", EntryKind::File),
        mk("alpha", "/d/alpha", EntryKind::File),
    ];
    let r = order_entries(entries, &cwd);
    assert_eq!(names(&r), vec!["Beta", "alpha"]);
}
