use vstd::prelude::*;

use crate::entry::{
    entry_le, is_prefix, keeps, key_eq, lex_le, no_dup_keys, rank, Entry, DOT,
};
use crate::entry::entry_le_bytes;
use crate::entry::keeps_entry;
use vstd::multiset::Multiset;
use vstd::relations::sorted_by;

verus! {

/// The display order on entries of one directory, as a relation:
/// the self-entry first, then directories, then files and other
/// entries, each bucket by case-sensitive lexicographic name order.
pub open spec fn display_order(cwd: Seq<u8>) -> spec_fn(Entry, Entry) -> bool {
    |a: Entry, b: Entry| entry_le(cwd, a, b)
}

/// The filter predicate: which entries the given filter text keeps.
pub open spec fn keep_pred(f: Seq<u8>, cwd: Seq<u8>) -> spec_fn(Entry) -> bool {
    |e: Entry| keeps(e, f, cwd)
}

/// Lexicographic byte order is total.
pub proof fn lemma_lex_le_total(a: Seq<u8>, b: Seq<u8>)
    ensures
        lex_le(a, b) || lex_le(b, a),
    decreases a.len(),
{
    if a.len() > 0 && b.len() > 0 && a[0] == b[0] {
        lemma_lex_le_total(a.drop_first(), b.drop_first());
    }
}

/// Lexicographic byte order is transitive.
pub proof fn lemma_lex_le_trans(a: Seq<u8>, b: Seq<u8>, c: Seq<u8>)
    requires
        lex_le(a, b),
        lex_le(b, c),
    ensures
        lex_le(a, c),
    decreases a.len(),
{
    if a.len() > 0 && b.len() > 0 && c.len() > 0 && a[0] == b[0] && b[0] == c[0] {
        lemma_lex_le_trans(a.drop_first(), b.drop_first(), c.drop_first());
    }
}

/// Byte strings that compare at-or-before each other are equal.
pub proof fn lemma_lex_le_antisym(a: Seq<u8>, b: Seq<u8>)
    requires
        lex_le(a, b),
        lex_le(b, a),
    ensures
        a == b,
    decreases a.len(),
{
    if a.len() == 0 {
        assert(b.len() == 0);
        assert(a =~= b);
    } else {
        assert(b.len() > 0);
        assert(a[0] == b[0]);
        lemma_lex_le_antisym(a.drop_first(), b.drop_first());
        assert forall|i: int| 0 <= i < a.len() implies a[i] == b[i] by {
            if i > 0 {
                assert(a.drop_first()[i - 1] == b.drop_first()[i - 1]);
            }
        }
        assert(a =~= b);
    }
}

/// The display order is total.
pub proof fn lemma_entry_le_total(cwd: Seq<u8>, a: Entry, b: Entry)
    ensures
        entry_le(cwd, a, b) || entry_le(cwd, b, a),
{
    lemma_lex_le_total(a.name@, b.name@);
}

/// The display order is transitive.
pub proof fn lemma_entry_le_trans(cwd: Seq<u8>, a: Entry, b: Entry, c: Entry)
    requires
        entry_le(cwd, a, b),
        entry_le(cwd, b, c),
    ensures
        entry_le(cwd, a, c),
{
    if !a.is_self(cwd) && !b.is_self(cwd) && !c.is_self(cwd) && rank(a) == rank(b) && rank(b)
        == rank(c) {
        lemma_lex_le_trans(a.name@, b.name@, c.name@);
    }
}

/// Entries that tie in the display order are either both the
/// self-entry or share a bucket and a name.
pub proof fn lemma_key_eq_same_name(cwd: Seq<u8>, a: Entry, b: Entry)
    requires
        key_eq(cwd, a, b),
    ensures
        (a.is_self(cwd) && b.is_self(cwd)) || (!a.is_self(cwd) && !b.is_self(cwd) && rank(a)
            == rank(b) && a.name@ == b.name@),
{
    if !a.is_self(cwd) && !b.is_self(cwd) {
        lemma_lex_le_antisym(a.name@, b.name@);
    }
}

/// Produce the display sequence of a raw listing: a permutation of the
/// input, sorted so that the self-entry comes first, then directories,
/// then files and other entries, each bucket in case-sensitive
/// lexicographic name order.
pub fn order_entries(entries: Vec<Entry>, cwd: &Vec<u8>) -> (r: Vec<Entry>)
    ensures
        r@.to_multiset() == entries@.to_multiset(),
        sorted_by(r@, display_order(cwd@)),
{
    let ghost orig = entries@;
    let ghost le = display_order(cwd@);
    let mut rest = entries;
    let mut r: Vec<Entry> = Vec::new();
    proof {
        broadcast use vstd::seq_lib::group_to_multiset_ensures;
        broadcast use vstd::multiset::group_multiset_axioms;

        assert(r@.to_multiset().add(rest@.to_multiset()) =~= orig.to_multiset());
    }
    while rest.len() > 0
        invariant
            le == display_order(cwd@),
            sorted_by(r@, le),
            r@.to_multiset().add(rest@.to_multiset()) == orig.to_multiset(),
        decreases rest.len(),
    {
        let ghost rest0 = rest@;
        let e = rest.remove(0);
        let mut j: usize = r.len();
        while j > 0 && !entry_le_bytes(&r[j - 1], &e, cwd)
            invariant
                le == display_order(cwd@),
                j <= r.len(),
                forall|k: int| j <= k < r@.len() ==> !entry_le(cwd@, #[trigger] r@[k], e),
            decreases j,
        {
            j -= 1;
        }
        let ghost rold = r@;
        proof {
            assert forall|k: int| 0 <= k < j implies entry_le(cwd@, rold[k], e) by {
                assert(entry_le(cwd@, rold[j - 1], e));
                if k < j - 1 {
                    assert(le(rold[k], rold[j - 1]));
                    lemma_entry_le_trans(cwd@, rold[k], rold[j - 1], e);
                }
            }
            assert forall|k: int| j <= k < rold.len() implies entry_le(cwd@, e, rold[k]) by {
                lemma_entry_le_total(cwd@, e, rold[k]);
            }
        }
        r.insert(j, e);
        proof {
            broadcast use vstd::seq_lib::group_to_multiset_ensures;
            broadcast use vstd::multiset::group_multiset_axioms;

            let rnew = r@;
            assert(rnew == rold.insert(j as int, e));
            assert forall|p: int| 0 <= p < rnew.len() implies (if p < j {
                rnew[p] == rold[p]
            } else if p == j {
                rnew[p] == e
            } else {
                rnew[p] == rold[p - 1]
            }) by {
                assert(rnew == rold.subrange(0, j as int).push(e) + rold.subrange(
                    j as int,
                    rold.len() as int,
                ));
            }
            assert forall|p: int, q: int| 0 <= p < q < rnew.len() implies #[trigger] le(
                rnew[p],
                rnew[q],
            ) by {
                if p < j && q < j {
                    assert(le(rold[p], rold[q]));
                } else if p < j && q == j {
                    assert(entry_le(cwd@, rold[p], e));
                } else if p < j && q > j {
                    assert(le(rold[p], rold[q - 1]));
                } else if p == j {
                    assert(entry_le(cwd@, e, rold[q - 1]));
                } else {
                    assert(le(rold[p - 1], rold[q - 1]));
                }
            }
            assert(sorted_by(rnew, le));
            assert(rest0.remove(0) == rest@);
            assert(rest0[0] == e);
            assert(rnew.to_multiset() =~= rold.to_multiset().insert(e));
            assert(rest@.to_multiset() =~= rest0.to_multiset().remove(e));
            assert(rnew.to_multiset().add(rest@.to_multiset()) =~= orig.to_multiset());
        }
    }
    proof {
        broadcast use vstd::seq_lib::group_to_multiset_ensures;
        broadcast use vstd::multiset::group_multiset_axioms;

        assert(rest@.to_multiset().len() == 0);
        assert(rest@.to_multiset() =~= Multiset::<Entry>::empty());
        assert(r@.to_multiset() =~= orig.to_multiset());
    }
    r
}

/// Keep, in order, exactly the entries that the filter text keeps:
/// the self-entry only under the empty or the literal dot filter, and
/// every other entry whose name starts with the filter text.
pub fn filter_entries(entries: Vec<Entry>, f: &Vec<u8>, cwd: &Vec<u8>) -> (r: Vec<Entry>)
    ensures
        r@ == entries@.filter(keep_pred(f@, cwd@)),
{
    let ghost orig = entries@;
    let ghost pred = keep_pred(f@, cwd@);
    let mut rest = entries;
    let mut r: Vec<Entry> = Vec::new();
    proof {
        assert(orig.take(0) =~= Seq::<Entry>::empty());
        reveal(Seq::filter);
        assert(r@ =~= orig.take(0).filter(pred));
    }
    while rest.len() > 0
        invariant
            pred == keep_pred(f@, cwd@),
            rest@.len() <= orig.len(),
            rest@ == orig.skip(orig.len() - rest@.len()),
            r@ == orig.take(orig.len() - rest@.len()).filter(pred),
        decreases rest.len(),
    {
        let ghost k = orig.len() - rest@.len();
        let ghost rest0 = rest@;
        let e = rest.remove(0);
        proof {
            assert(rest0[0] == orig[k]);
            assert(rest@ =~= orig.skip(k + 1));
            broadcast use vstd::prelude::Seq::lemma_filter_push;

            assert(orig.take(k + 1) =~= orig.take(k).push(orig[k]));
        }
        if keeps_entry(&e, f, cwd) {
            r.push(e);
        }
    }
    proof {
        assert(orig.take(orig.len() as int) =~= orig);
    }
    r
}

/// The empty filter text keeps every entry, the self-entry among
/// them: filtering with it returns the sequence unchanged.
pub proof fn lemma_empty_filter_keeps_all(s: Seq<Entry>, f: Seq<u8>, cwd: Seq<u8>)
    requires
        f.len() == 0,
    ensures
        s.filter(keep_pred(f, cwd)) == s,
    decreases s.len(),
{
    reveal(Seq::filter);
    if s.len() > 0 {
        lemma_empty_filter_keeps_all(s.drop_last(), f, cwd);
        assert(keep_pred(f, cwd)(s.last()));
        assert(s.drop_last().push(s.last()) =~= s);
    } else {
        assert(s.filter(keep_pred(f, cwd)) =~= s);
    }
}

/// The self-entry survives exactly the empty and the literal dot
/// filter: under those two it stays in the filtered sequence, under
/// every other filter text the filtered sequence holds no self-entry.
pub proof fn lemma_filter_self_entry(s: Seq<Entry>, f: Seq<u8>, cwd: Seq<u8>)
    ensures
        (f.len() == 0 || (f.len() == 1 && f[0] == DOT)) ==> forall|i: int|
            0 <= i < s.len() && (#[trigger] s[i]).is_self(cwd) ==> s.filter(
                keep_pred(f, cwd),
            ).contains(s[i]),
        !(f.len() == 0 || (f.len() == 1 && f[0] == DOT)) ==> forall|i: int|
            0 <= i < s.filter(keep_pred(f, cwd)).len() ==> !(#[trigger] s.filter(
                keep_pred(f, cwd),
            )[i]).is_self(cwd),
{
    broadcast use vstd::seq_lib::group_filter_ensures;
    broadcast use vstd::prelude::Seq::lemma_filter_contains_rev;

    let pred = keep_pred(f, cwd);
    if f.len() == 0 || (f.len() == 1 && f[0] == DOT) {
        assert forall|i: int|
            0 <= i < s.len() && (#[trigger] s[i]).is_self(cwd) implies s.filter(pred).contains(
            s[i],
        ) by {
            assert(pred(s[i]));
        }
    }
}

/// For a filter text that is neither empty nor the literal dot, an
/// entry stands in the filtered sequence exactly when it stands in the
/// input, is not the self-entry, and its name starts with the filter
/// text, byte for byte.
pub proof fn lemma_filter_membership(s: Seq<Entry>, f: Seq<u8>, cwd: Seq<u8>)
    requires
        f.len() > 0,
        !(f.len() == 1 && f[0] == DOT),
    ensures
        forall|e: Entry| #[trigger]
            s.filter(keep_pred(f, cwd)).contains(e) <==> s.contains(e) && !e.is_self(cwd)
                && is_prefix(f, e.name@),
{
    broadcast use vstd::seq_lib::group_filter_ensures;
    broadcast use vstd::prelude::Seq::lemma_filter_contains_rev;

    let pred = keep_pred(f, cwd);
    assert forall|e: Entry| #[trigger]
        s.filter(pred).contains(e) implies s.contains(e) && !e.is_self(cwd) && is_prefix(
        f,
        e.name@,
    ) by {
        let i = choose|i: int| 0 <= i < s.filter(pred).len() && s.filter(pred)[i] == e;
        assert(pred(s.filter(pred)[i]));
        assert(s.contains(s.filter(pred)[i]));
    }
    assert forall|e: Entry|
        s.contains(e) && !e.is_self(cwd) && is_prefix(f, e.name@) implies #[trigger] s.filter(
        pred,
    ).contains(e) by {
        assert(pred(e));
    }
}

/// In a sequence sorted by the display order, the self-entry stands
/// first; among the rest, directories stand before files and other
/// entries, and entries of one bucket stand in case-sensitive
/// lexicographic name order.
pub proof fn lemma_sorted_shape(s: Seq<Entry>, cwd: Seq<u8>)
    requires
        sorted_by(s, display_order(cwd)),
    ensures
        forall|i: int| 0 <= i < s.len() && (#[trigger] s[i]).is_self(cwd) ==> s[0].is_self(cwd),
        forall|i: int, j: int|
            0 <= i < j < s.len() && !(#[trigger] s[i]).is_self(cwd) && !(#[trigger] s[j]).is_self(
                cwd,
            ) ==> rank(s[i]) <= rank(s[j]),
        forall|i: int, j: int|
            0 <= i < j < s.len() && !(#[trigger] s[i]).is_self(cwd) && !(#[trigger] s[j]).is_self(
                cwd,
            ) && rank(s[i]) == rank(s[j]) ==> lex_le(s[i].name@, s[j].name@),
{
    let le = display_order(cwd);
    assert forall|i: int|
        0 <= i < s.len() && (#[trigger] s[i]).is_self(cwd) implies s[0].is_self(cwd) by {
        if i > 0 {
            assert(le(s[0], s[i]));
        }
    }
    assert forall|i: int, j: int|
        0 <= i < j < s.len() && !(#[trigger] s[i]).is_self(cwd) && !(#[trigger] s[j]).is_self(
            cwd,
        ) implies rank(s[i]) <= rank(s[j]) && (rank(s[i]) == rank(s[j]) ==> lex_le(
        s[i].name@,
        s[j].name@,
    )) by {
        assert(le(s[i], s[j]));
    }
}

/// Two sequences sorted by the display order with the same entries are
/// the same sequence, provided no two distinct positions tie. The
/// display sequence is therefore one and the same for every input
/// order of the raw listing.
pub proof fn lemma_sorted_unique_no_ties(x: Seq<Entry>, y: Seq<Entry>, cwd: Seq<u8>)
    requires
        sorted_by(x, display_order(cwd)),
        sorted_by(y, display_order(cwd)),
        no_dup_keys(x, cwd),
        x.to_multiset() == y.to_multiset(),
    ensures
        x == y,
    decreases x.len(),
{
    broadcast use vstd::seq_lib::group_to_multiset_ensures;
    broadcast use vstd::multiset::group_multiset_axioms;

    let le = display_order(cwd);
    if x.len() == 0 || y.len() == 0 {
        assert(x.len() == y.len());
        assert(x =~= y);
    } else {
        assert(y.to_multiset().contains(y[0]));
        assert(x.to_multiset().count(y[0]) > 0);
        assert(x.contains(y[0]));
        let i = choose|i: int| 0 <= i < x.len() && x[i] == y[0];
        assert(x.to_multiset().contains(x[0]));
        assert(y.contains(x[0]));
        let j = choose|j: int| 0 <= j < y.len() && y[j] == x[0];
        if i == 0 {
            assert(x[0] == y[0]);
        } else if j == 0 {
            assert(x[0] == y[0]);
        } else {
            assert(le(x[0], x[i]));
            assert(le(y[0], y[j]));
            assert(key_eq(cwd, x[0], x[i]));
            assert(false);
        }
        assert(x.remove(0).to_multiset() == x.to_multiset().remove(x[0]));
        assert(y.remove(0).to_multiset() == y.to_multiset().remove(y[0]));
        let xr = x.drop_first();
        let yr = y.drop_first();
        assert(x.remove(0) =~= xr);
        assert(y.remove(0) =~= yr);
        assert forall|p: int, q: int| 0 <= p < q < xr.len() implies #[trigger] le(xr[p], xr[q]) by {
            assert(le(x[p + 1], x[q + 1]));
        }
        assert forall|p: int, q: int| 0 <= p < q < yr.len() implies #[trigger] le(yr[p], yr[q]) by {
            assert(le(y[p + 1], y[q + 1]));
        }
        assert forall|p: int, q: int|
            0 <= p < q < xr.len() implies !key_eq(cwd, #[trigger] xr[p], #[trigger] xr[q]) by {
            assert(!key_eq(cwd, x[p + 1], x[q + 1]));
        }
        lemma_sorted_unique_no_ties(xr, yr, cwd);
        assert forall|p: int| 0 <= p < x.len() implies x[p] == y[p] by {
            if p > 0 {
                assert(xr[p - 1] == yr[p - 1]);
            }
        }
        assert(x =~= y);
    }
}

/// A real directory listing never ties: with at most one self-entry
/// and pairwise distinct names among the rest, no two positions hold
/// entries that sort at-or-before each other both ways.
pub proof fn lemma_unique_names_no_ties(s: Seq<Entry>, cwd: Seq<u8>)
    requires
        forall|i: int, j: int|
            0 <= i < j < s.len() ==> !((#[trigger] s[i]).is_self(cwd) && (#[trigger] s[j]).is_self(
                cwd,
            )),
        forall|i: int, j: int|
            0 <= i < j < s.len() && !(#[trigger] s[i]).is_self(cwd) && !(#[trigger] s[j]).is_self(
                cwd,
            ) ==> s[i].name@ != s[j].name@,
    ensures
        no_dup_keys(s, cwd),
{
    assert forall|i: int, j: int|
        0 <= i < j < s.len() implies !key_eq(cwd, #[trigger] s[i], #[trigger] s[j]) by {
        if key_eq(cwd, s[i], s[j]) {
            lemma_key_eq_same_name(cwd, s[i], s[j]);
        }
    }
}

/// Every element of a filtered sequence stands in the sequence it was
/// filtered from.
proof fn lemma_filter_elem_in_parent(s: Seq<Entry>, pred: spec_fn(Entry) -> bool, i: int)
    requires
        0 <= i < s.filter(pred).len(),
    ensures
        s.contains(s.filter(pred)[i]),
    decreases s.len(),
{
    reveal(Seq::filter);
    if s.len() > 0 {
        let head = s.drop_last();
        if pred(s.last()) && i == s.filter(pred).len() - 1 {
            assert(s.filter(pred)[i] == s.last());
            assert(s[s.len() - 1] == s.last());
        } else {
            assert(s.filter(pred)[i] == head.filter(pred)[i]);
            lemma_filter_elem_in_parent(head, pred, i);
            let w = choose|w: int| 0 <= w < head.len() && head[w] == head.filter(pred)[i];
            assert(s[w] == head[w]);
        }
    }
}

/// Filtering keeps the display order: the displayed sequence of a
/// sorted listing is itself sorted, each kept entry in its old place
/// relative to the others.
pub proof fn lemma_filter_keeps_sorted(s: Seq<Entry>, f: Seq<u8>, cwd: Seq<u8>)
    requires
        sorted_by(s, display_order(cwd)),
    ensures
        sorted_by(s.filter(keep_pred(f, cwd)), display_order(cwd)),
    decreases s.len(),
{
    reveal(Seq::filter);
    broadcast use vstd::seq_lib::group_filter_ensures;
    broadcast use vstd::prelude::Seq::lemma_filter_contains_rev;

    let le = display_order(cwd);
    let pred = keep_pred(f, cwd);
    if s.len() > 0 {
        let head = s.drop_last();
        assert forall|p: int, q: int|
            0 <= p < q < head.len() implies #[trigger] le(head[p], head[q]) by {
            assert(le(s[p], s[q]));
        }
        lemma_filter_keeps_sorted(head, f, cwd);
        let t = s.filter(pred);
        if pred(s.last()) {
            assert(t == head.filter(pred).push(s.last()));
            assert forall|p: int, q: int| 0 <= p < q < t.len() implies #[trigger] le(t[p], t[q]) by {
                if q == t.len() - 1 {
                    assert(t[p] == head.filter(pred)[p]);
                    lemma_filter_elem_in_parent(head, pred, p);
                    let w = choose|w: int| 0 <= w < head.len() && head[w] == t[p];
                    assert(le(s[w], s.last()));
                } else {
                    assert(le(head.filter(pred)[p], head.filter(pred)[q]));
                }
            }
        }
    }
}

/// Removing one entry from a sequence sorted by the display order
/// leaves the rest sorted, in their old relative order.
pub proof fn lemma_sorted_remove(s: Seq<Entry>, cwd: Seq<u8>, i: int)
    requires
        sorted_by(s, display_order(cwd)),
        0 <= i < s.len(),
    ensures
        sorted_by(s.remove(i), display_order(cwd)),
{
    let le = display_order(cwd);
    let t = s.remove(i);
    assert forall|p: int, q: int| 0 <= p < q < t.len() implies #[trigger] le(t[p], t[q]) by {
        let p0: int = if p < i { p } else { p + 1 };
        let q0: int = if q < i { q } else { q + 1 };
        assert(t[p] == s[p0]);
        assert(t[q] == s[q0]);
        assert(le(s[p0], s[q0]));
    }
}

/// Deleting one entry, then listing and ordering again, yields exactly
/// the old display sequence with that entry removed: no other entry's
/// relative order changes. `s` is the old display sequence, `t` any
/// sorting of the new listing, whose entries are the old ones without
/// the entry at `i`.
pub proof fn lemma_delete_then_refresh(s: Seq<Entry>, t: Seq<Entry>, cwd: Seq<u8>, i: int)
    requires
        sorted_by(s, display_order(cwd)),
        no_dup_keys(s, cwd),
        0 <= i < s.len(),
        sorted_by(t, display_order(cwd)),
        t.to_multiset() == s.remove(i).to_multiset(),
    ensures
        t == s.remove(i),
{
    lemma_sorted_remove(s, cwd, i);
    let u = s.remove(i);
    assert forall|p: int, q: int|
        0 <= p < q < u.len() implies !key_eq(cwd, #[trigger] u[p], #[trigger] u[q]) by {
        let p0: int = if p < i { p } else { p + 1 };
        let q0: int = if q < i { q } else { q + 1 };
        assert(u[p] == s[p0]);
        assert(u[q] == s[q0]);
        assert(!key_eq(cwd, s[p0], s[q0]));
    }
    lemma_sorted_unique_no_ties(u, t, cwd);
}

} // verus!
