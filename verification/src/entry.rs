use vstd::prelude::*;

verus! {

/// The byte of the ASCII dot, the filter string that (like the empty
/// string) keeps the self-entry visible.
pub const DOT: u8 = 46;

/// The kind of a filesystem entry shown in the listing. It determines
/// the delete strategy and the sort bucket: directories sort before
/// files and other entries.
#[derive(Clone, Copy, PartialEq, Eq, Structural, Debug)]
pub enum EntryKind {
    File,
    Directory,
    Other,
}

/// One filesystem child (or the current directory itself as the
/// synthetic self-entry), an immutable snapshot: base name, path used
/// for filesystem operations, and kind. Names and paths are byte
/// strings, matching the case-sensitive byte-level comparisons that
/// ordering and filtering use.
#[derive(Clone, PartialEq, Debug)]
pub struct Entry {
    pub name: Vec<u8>,
    pub path: Vec<u8>,
    pub kind: EntryKind,
}

impl Entry {
    /// An entry is the self-entry exactly when its path equals the
    /// current directory's path.
    pub open spec fn is_self(self, cwd: Seq<u8>) -> bool {
        self.path@ == cwd
    }
}

/// The sort bucket of a non-self entry: directories first, then files
/// and other entries together.
pub open spec fn rank(e: Entry) -> int {
    match e.kind {
        EntryKind::Directory => 0,
        _ => 1,
    }
}

/// Case-sensitive lexicographic order on byte strings: `a <= b`.
pub open spec fn lex_le(a: Seq<u8>, b: Seq<u8>) -> bool
    decreases a.len(),
{
    if a.len() == 0 {
        true
    } else if b.len() == 0 {
        false
    } else if a[0] < b[0] {
        true
    } else if a[0] > b[0] {
        false
    } else {
        lex_le(a.drop_first(), b.drop_first())
    }
}

/// `f` is a byte-for-byte prefix of `s`.
pub open spec fn is_prefix(f: Seq<u8>, s: Seq<u8>) -> bool {
    f.len() <= s.len() && forall|k: int| 0 <= k < f.len() ==> s[k] == f[k]
}

/// The total display order: the self-entry first, then directories
/// before files and other entries, and within a bucket by
/// case-sensitive lexicographic comparison of names.
pub open spec fn entry_le(cwd: Seq<u8>, a: Entry, b: Entry) -> bool {
    if a.is_self(cwd) {
        true
    } else if b.is_self(cwd) {
        false
    } else if rank(a) != rank(b) {
        rank(a) < rank(b)
    } else {
        lex_le(a.name@, b.name@)
    }
}

/// Two entries tie in the display order: each sorts at or before the
/// other. Distinct children of one directory never tie, since their
/// names differ.
pub open spec fn key_eq(cwd: Seq<u8>, a: Entry, b: Entry) -> bool {
    entry_le(cwd, a, b) && entry_le(cwd, b, a)
}

/// No two entries at distinct positions tie in the display order.
/// A real directory listing satisfies this: names are unique and there
/// is at most one self-entry.
pub open spec fn no_dup_keys(s: Seq<Entry>, cwd: Seq<u8>) -> bool {
    forall|i: int, j: int|
        0 <= i < j < s.len() ==> !key_eq(cwd, #[trigger] s[i], #[trigger] s[j])
}

/// Whether an entry stays in the displayed sequence under the given
/// filter text: the self-entry stays only when the filter is empty or
/// the literal dot; every other entry stays when its name starts with
/// the filter text.
pub open spec fn keeps(e: Entry, f: Seq<u8>, cwd: Seq<u8>) -> bool {
    if e.is_self(cwd) {
        f.len() == 0 || (f.len() == 1 && f[0] == DOT)
    } else {
        is_prefix(f, e.name@)
    }
}

/// Byte-string equality.
pub fn bytes_eq(a: &Vec<u8>, b: &Vec<u8>) -> (r: bool)
    ensures
        r == (a@ == b@),
{
    if a.len() != b.len() {
        assert(a@ != b@);
        return false;
    }
    let mut i: usize = 0;
    while i < a.len()
        invariant
            i <= a.len(),
            a@.len() == b@.len(),
            forall|k: int| 0 <= k < i ==> a@[k] == b@[k],
        decreases a.len() - i,
    {
        if a[i] != b[i] {
            return false;
        }
        i += 1;
    }
    proof {
        assert(a@ =~= b@);
    }
    true
}

/// A copy of a byte string, used to hand an owned path or message out
/// of the view state.
pub fn copy_bytes(v: &Vec<u8>) -> (r: Vec<u8>)
    ensures
        r@ == v@,
{
    let mut r: Vec<u8> = Vec::new();
    let mut i: usize = 0;
    while i < v.len()
        invariant
            i <= v.len(),
            r@ =~= v@.take(i as int),
        decreases v.len() - i,
    {
        r.push(v[i]);
        proof {
            assert(v@.take(i + 1) =~= v@.take(i as int).push(v@[i as int]));
        }
        i += 1;
    }
    proof {
        assert(v@.take(v@.len() as int) =~= v@);
    }
    r
}

/// If the first bytes of `a` and `b` agree, dropping them changes
/// neither direction of the lexicographic comparison.
proof fn lemma_lex_le_skip(a: Seq<u8>, b: Seq<u8>, i: int)
    requires
        0 <= i <= a.len(),
        i <= b.len(),
        forall|k: int| 0 <= k < i ==> a[k] == b[k],
    ensures
        lex_le(a, b) == lex_le(a.skip(i), b.skip(i)),
    decreases i,
{
    if i > 0 {
        assert(a.len() > 0 && b.len() > 0);
        assert(a[0] == b[0]);
        assert(a.drop_first() =~= a.skip(1));
        assert(b.drop_first() =~= b.skip(1));
        lemma_lex_le_skip(a.skip(1), b.skip(1), i - 1);
        assert(a.skip(1).skip(i - 1) =~= a.skip(i));
        assert(b.skip(1).skip(i - 1) =~= b.skip(i));
    } else {
        assert(a.skip(0) =~= a);
        assert(b.skip(0) =~= b);
    }
}

/// Lexicographic comparison of byte strings: `a <= b`.
pub fn lex_le_bytes(a: &Vec<u8>, b: &Vec<u8>) -> (r: bool)
    ensures
        r == lex_le(a@, b@),
{
    let mut i: usize = 0;
    while i < a.len() && i < b.len()
        invariant
            i <= a.len(),
            i <= b.len(),
            forall|k: int| 0 <= k < i ==> a@[k] == b@[k],
        decreases a.len() - i,
    {
        let x = a[i];
        let y = b[i];
        if x < y {
            proof {
                lemma_lex_le_skip(a@, b@, i as int);
            }
            return true;
        }
        if x > y {
            proof {
                lemma_lex_le_skip(a@, b@, i as int);
            }
            return false;
        }
        i += 1;
    }
    proof {
        lemma_lex_le_skip(a@, b@, i as int);
    }
    i == a.len()
}

/// `f` is a byte-for-byte prefix of `s`.
pub fn is_prefix_bytes(f: &Vec<u8>, s: &Vec<u8>) -> (r: bool)
    ensures
        r == is_prefix(f@, s@),
{
    if f.len() > s.len() {
        return false;
    }
    let mut i: usize = 0;
    while i < f.len()
        invariant
            i <= f.len(),
            f@.len() <= s@.len(),
            forall|k: int| 0 <= k < i ==> s@[k] == f@[k],
        decreases f.len() - i,
    {
        if s[i] != f[i] {
            return false;
        }
        i += 1;
    }
    true
}

/// Whether an entry stays in the displayed sequence under the given
/// filter text.
pub fn keeps_entry(e: &Entry, f: &Vec<u8>, cwd: &Vec<u8>) -> (r: bool)
    ensures
        r == keeps(*e, f@, cwd@),
{
    if bytes_eq(&e.path, cwd) {
        f.len() == 0 || (f.len() == 1 && f[0] == DOT)
    } else {
        is_prefix_bytes(f, &e.name)
    }
}

/// The display order, decided executably.
pub fn entry_le_bytes(a: &Entry, b: &Entry, cwd: &Vec<u8>) -> (r: bool)
    ensures
        r == entry_le(cwd@, *a, *b),
{
    if bytes_eq(&a.path, cwd) {
        true
    } else if bytes_eq(&b.path, cwd) {
        false
    } else {
        let ra: u8 = match a.kind {
            EntryKind::Directory => 0,
            _ => 1,
        };
        let rb: u8 = match b.kind {
            EntryKind::Directory => 0,
            _ => 1,
        };
        if ra != rb {
            ra < rb
        } else {
            lex_le_bytes(&a.name, &b.name)
        }
    }
}

} // verus!
