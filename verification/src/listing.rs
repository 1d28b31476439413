//! Directory listings.
//!
//! A raw snapshot of a directory's children is filtered (hidden names
//! dropped), classified, and sorted by stable insertion under the
//! listing order.  The result is a function of the snapshot alone.

use vstd::prelude::*;
use vstd::seq_lib::group_to_multiset_ensures;
use vstd::multiset::group_multiset_axioms;
use crate::entry::FileEntry;
use crate::entry::RawEntry;
use crate::entry::classify;
use crate::entry::spec_entry_of;
use crate::entry::spec_is_hidden;
use crate::order::entry_le;
use crate::order::entry_le_exec;
use crate::order::lemma_entry_le_total;
use crate::order::lemma_entry_le_trans;

verus! {

/// The visible entries of a raw snapshot, in scan order: hidden names
/// dropped, the rest classified.
pub open spec fn visible_entries(s: Seq<RawEntry>) -> Seq<FileEntry>
    decreases s.len(),
{
    if s.len() == 0 {
        Seq::empty()
    } else if spec_is_hidden(s.first().name@) {
        visible_entries(s.drop_first())
    } else {
        seq![spec_entry_of(s.first())] + visible_entries(s.drop_first())
    }
}

/// Where a stable insertion puts `x` in `s`: after every entry that
/// compares at-or-before `x`, before the first that does not.
pub open spec fn insert_sorted(x: FileEntry, s: Seq<FileEntry>) -> Seq<FileEntry>
    decreases s.len(),
{
    if s.len() == 0 {
        seq![x]
    } else if entry_le(s.first(), x) {
        seq![s.first()] + insert_sorted(x, s.drop_first())
    } else {
        seq![x] + s
    }
}

/// The listing order applied by stable insertion, element by element.
pub open spec fn sort_entries_spec(s: Seq<FileEntry>) -> Seq<FileEntry>
    decreases s.len(),
{
    if s.len() == 0 {
        Seq::empty()
    } else {
        insert_sorted(s.last(), sort_entries_spec(s.drop_last()))
    }
}

/// Sortedness under the listing order.
pub open spec fn entries_sorted(s: Seq<FileEntry>) -> bool {
    forall|i: int, j: int| 0 <= i < j < s.len() ==> entry_le(s[i], s[j])
}

/// A sorted sequence stays sorted with its first entry dropped.
proof fn lemma_sorted_drop_first(s: Seq<FileEntry>)
    requires
        entries_sorted(s),
        s.len() > 0,
    ensures
        entries_sorted(s.drop_first()),
{
    assert forall|i: int, j: int| 0 <= i < j < s.drop_first().len() implies entry_le(
        s.drop_first()[i],
        s.drop_first()[j],
    ) by {
        assert(entry_le(s[i + 1], s[j + 1]));
    }
}

/// Prepending one entry inserts it into the multiset of the rest.
proof fn lemma_cons_to_multiset(x: FileEntry, s: Seq<FileEntry>)
    ensures
        (seq![x] + s).to_multiset() =~= s.to_multiset().insert(x),
    decreases s.len(),
{
    broadcast use group_to_multiset_ensures;
    broadcast use group_multiset_axioms;

    if s.len() == 0 {
        assert(seq![x] + s =~= s.push(x));
    } else {
        lemma_cons_to_multiset(x, s.drop_last());
        assert(seq![x] + s =~= (seq![x] + s.drop_last()).push(s.last()));
        assert(s =~= s.drop_last().push(s.last()));
        assert(s.to_multiset() =~= s.drop_last().to_multiset().insert(s.last()));
    }
}

/// Stable insertion adds exactly the inserted entry.
pub proof fn lemma_insert_sorted_multiset(x: FileEntry, s: Seq<FileEntry>)
    ensures
        insert_sorted(x, s).to_multiset() =~= s.to_multiset().insert(x),
    decreases s.len(),
{
    broadcast use group_to_multiset_ensures;
    broadcast use group_multiset_axioms;

    if s.len() == 0 {
        lemma_cons_to_multiset(x, s);
    } else if entry_le(s.first(), x) {
        let s1 = s.drop_first();
        lemma_insert_sorted_multiset(x, s1);
        lemma_cons_to_multiset(s.first(), insert_sorted(x, s1));
        lemma_cons_to_multiset(s.first(), s1);
        assert(seq![s.first()] + s1 =~= s);
    } else {
        lemma_cons_to_multiset(x, s);
    }
}

/// Stable insertion into a sorted sequence keeps it sorted.
pub proof fn lemma_insert_sorted_sorted(x: FileEntry, s: Seq<FileEntry>)
    requires
        entries_sorted(s),
    ensures
        entries_sorted(insert_sorted(x, s)),
    decreases s.len(),
{
    broadcast use group_to_multiset_ensures;
    broadcast use group_multiset_axioms;

    if s.len() == 0 {
    } else if entry_le(s.first(), x) {
        let s1 = s.drop_first();
        lemma_sorted_drop_first(s);
        lemma_insert_sorted_sorted(x, s1);
        lemma_insert_sorted_multiset(x, s1);
        let r1 = insert_sorted(x, s1);
        let r = seq![s.first()] + r1;
        assert forall|j: int| 0 <= j < r1.len() implies entry_le(s.first(), r1[j]) by {
            assert(r1.contains(r1[j]));
            assert(r1.to_multiset().count(r1[j]) > 0);
            if r1[j] == x {
            } else {
                assert(s1.to_multiset().count(r1[j]) > 0);
                assert(s1.contains(r1[j]));
                let k = choose|k: int| 0 <= k < s1.len() && s1[k] == r1[j];
                assert(entry_le(s[0], s[k + 1]));
            }
        }
        assert forall|i: int, j: int| 0 <= i < j < r.len() implies entry_le(
            r[i],
            r[j],
        ) by {
            if i == 0 {
                assert(r[j] == r1[j - 1]);
            } else {
                assert(r[i] == r1[i - 1] && r[j] == r1[j - 1]);
            }
        }
    } else {
        lemma_entry_le_total(s.first(), x);
        let r = seq![x] + s;
        assert forall|i: int, j: int| 0 <= i < j < r.len() implies entry_le(
            r[i],
            r[j],
        ) by {
            if i == 0 {
                if j - 1 > 0 {
                    lemma_entry_le_trans(x, s[0], s[j - 1]);
                }
            } else {
                assert(entry_le(s[i - 1], s[j - 1]));
            }
        }
    }
}

/// The full sort is sorted under the listing order.
pub proof fn lemma_sort_sorted(s: Seq<FileEntry>)
    ensures
        entries_sorted(sort_entries_spec(s)),
    decreases s.len(),
{
    if s.len() > 0 {
        lemma_sort_sorted(s.drop_last());
        lemma_insert_sorted_sorted(s.last(), sort_entries_spec(s.drop_last()));
    }
}

/// The full sort is a permutation: no entry appears or disappears.
pub proof fn lemma_sort_permutes(s: Seq<FileEntry>)
    ensures
        sort_entries_spec(s).to_multiset() =~= s.to_multiset(),
    decreases s.len(),
{
    broadcast use group_to_multiset_ensures;

    if s.len() > 0 {
        lemma_sort_permutes(s.drop_last());
        lemma_insert_sorted_multiset(s.last(), sort_entries_spec(s.drop_last()));
        assert(s =~= s.drop_last().push(s.last()));
        assert(s.to_multiset() =~= s.drop_last().to_multiset().insert(s.last()));
    }
}

/// No visible entry keeps a hidden name.
pub proof fn lemma_visible_not_hidden(s: Seq<RawEntry>)
    ensures
        forall|k: int|
            0 <= k < visible_entries(s).len() ==> !spec_is_hidden(
                (#[trigger] visible_entries(s)[k]).name@,
            ),
    decreases s.len(),
{
    if s.len() > 0 {
        lemma_visible_not_hidden(s.drop_first());
        let v = visible_entries(s);
        let v1 = visible_entries(s.drop_first());
        assert forall|k: int| 0 <= k < v.len() implies !spec_is_hidden(
            (#[trigger] v[k]).name@,
        ) by {
            if spec_is_hidden(s.first().name@) {
                assert(v[k] == v1[k]);
            } else if k == 0 {
                assert(v[0] == spec_entry_of(s.first()));
            } else {
                assert(v[k] == v1[k - 1]);
            }
        }
    }
}

/// An empty snapshot lists as an empty sequence, not an error.
pub proof fn lemma_empty_listing(s: Seq<RawEntry>)
    requires
        s.len() == 0,
    ensures
        sort_entries_spec(visible_entries(s)).len() == 0,
{
}

/// Two entries the listing order ties: each compares at-or-before the
/// other.
pub open spec fn entry_tied(a: FileEntry, b: FileEntry) -> bool {
    entry_le(a, b) && entry_le(b, a)
}

/// The entries of `s` the listing order ties with `e`, in their order
/// in `s`.
pub open spec fn tie_class(s: Seq<FileEntry>, e: FileEntry) -> Seq<FileEntry> {
    s.filter(|x: FileEntry| entry_tied(x, e))
}

/// A sequence with no entry tied with `e` has an empty tie class.
proof fn lemma_tie_class_empty(s: Seq<FileEntry>, e: FileEntry)
    requires
        forall|k: int| 0 <= k < s.len() ==> !entry_tied(#[trigger] s[k], e),
    ensures
        tie_class(s, e) == Seq::<FileEntry>::empty(),
    decreases s.len(),
{
    reveal(Seq::filter);
    if s.len() > 0 {
        assert forall|k: int| 0 <= k < s.drop_last().len() implies !entry_tied(
            #[trigger] s.drop_last()[k],
            e,
        ) by {
            assert(s.drop_last()[k] == s[k]);
        }
        lemma_tie_class_empty(s.drop_last(), e);
        assert(!entry_tied(s.last(), e));
    }
}

/// Stable insertion appends `x` to its own tie class and leaves every
/// other tie class unchanged.
pub proof fn lemma_insert_sorted_stable(x: FileEntry, s: Seq<FileEntry>, e: FileEntry)
    requires
        entries_sorted(s),
    ensures
        entry_tied(x, e) ==> tie_class(insert_sorted(x, s), e) == tie_class(s, e).push(x),
        !entry_tied(x, e) ==> tie_class(insert_sorted(x, s), e) == tie_class(s, e),
    decreases s.len(),
{
    reveal_with_fuel(Seq::filter, 3);
    broadcast use Seq::filter_distributes_over_add;

    if s.len() == 0 {
        assert(seq![x].drop_last() =~= Seq::<FileEntry>::empty());
        assert(tie_class(s, e) == Seq::<FileEntry>::empty());
    } else if entry_le(s.first(), x) {
        let s1 = s.drop_first();
        lemma_sorted_drop_first(s);
        lemma_insert_sorted_stable(x, s1, e);
        let head = seq![s.first()];
        let ins1 = insert_sorted(x, s1);
        assert(s =~= head + s1);
        assert(tie_class(head + ins1, e) == tie_class(head, e) + tie_class(ins1, e));
        assert(tie_class(head + s1, e) == tie_class(head, e) + tie_class(s1, e));
        if entry_tied(x, e) {
            assert(tie_class(head, e) + tie_class(s1, e).push(x) =~= (tie_class(head, e)
                + tie_class(s1, e)).push(x));
        }
    } else {
        lemma_entry_le_total(s.first(), x);
        assert(seq![x].drop_last() =~= Seq::<FileEntry>::empty());
        assert(tie_class(seq![x] + s, e) == tie_class(seq![x], e) + tie_class(s, e));
        if entry_tied(x, e) {
            assert forall|k: int| 0 <= k < s.len() implies !entry_tied(
                #[trigger] s[k],
                e,
            ) by {
                if entry_tied(s[k], e) {
                    lemma_entry_le_trans(s[k], e, x);
                    if k > 0 {
                        lemma_entry_le_trans(s[0], s[k], x);
                    }
                }
            }
            lemma_tie_class_empty(s, e);
            assert(tie_class(seq![x], e) =~= Seq::<FileEntry>::empty().push(x));
            assert(tie_class(seq![x], e) + tie_class(s, e) =~= tie_class(s, e).push(x));
        } else {
            assert(tie_class(seq![x], e) =~= Seq::<FileEntry>::empty());
            assert(tie_class(seq![x], e) + tie_class(s, e) =~= tie_class(s, e));
        }
    }
}

/// The sort is stable: each tie class of the result reads exactly as it
/// does in the input, so entries the order ties keep their scan order.
pub proof fn lemma_sort_stable(s: Seq<FileEntry>, e: FileEntry)
    ensures
        tie_class(sort_entries_spec(s), e) == tie_class(s, e),
    decreases s.len(),
{
    reveal(Seq::filter);
    if s.len() > 0 {
        lemma_sort_stable(s.drop_last(), e);
        lemma_sort_sorted(s.drop_last());
        lemma_insert_sorted_stable(s.last(), sort_entries_spec(s.drop_last()), e);
    }
}

/// The position stable insertion picks is the first one whose entry does
/// not compare at-or-before the inserted one.
proof fn lemma_insert_sorted_at(s: Seq<FileEntry>, x: FileEntry, p: int)
    requires
        0 <= p <= s.len(),
        forall|k: int| 0 <= k < p ==> entry_le(#[trigger] s[k], x),
        p < s.len() ==> !entry_le(s[p], x),
    ensures
        insert_sorted(x, s) == s.insert(p, x),
    decreases s.len(),
{
    if s.len() == 0 {
        assert(seq![x] =~= s.insert(0, x));
    } else if p == 0 {
        assert(seq![x] + s =~= s.insert(0, x));
    } else {
        let s1 = s.drop_first();
        assert(entry_le(s[0], x));
        assert forall|k: int| 0 <= k < p - 1 implies entry_le(#[trigger] s1[k], x) by {
            assert(s1[k] == s[k + 1]);
        }
        assert(p - 1 < s1.len() ==> !entry_le(s1[p - 1], x));
        lemma_insert_sorted_at(s1, x, p - 1);
        assert(seq![s.first()] + s1.insert(p - 1, x) =~= s.insert(p, x));
    }
}

/// Inserts one entry into a vector at its stable-insertion position.
fn insert_entry(out: &mut Vec<FileEntry>, x: FileEntry)
    ensures
        final(out)@ == insert_sorted(x, old(out)@),
{
    let mut p: usize = 0;
    loop
        invariant
            p <= out@.len(),
            out@ == old(out)@,
            forall|k: int| 0 <= k < p ==> entry_le(#[trigger] out@[k], x),
        ensures
            p <= out@.len(),
            out@ == old(out)@,
            forall|k: int| 0 <= k < p ==> entry_le(#[trigger] out@[k], x),
            p == out@.len() || !entry_le(out@[p as int], x),
        decreases out@.len() - p,
    {
        if p == out.len() {
            break;
        }
        if !entry_le_exec(&out[p], &x) {
            break;
        }
        p = p + 1;
    }
    proof {
        lemma_insert_sorted_at(out@, x, p as int);
    }
    out.insert(p, x);
}

/// Sorts entries by stable insertion under the listing order: the
/// result is sorted and is a permutation of the input.
pub fn sort_entries(v: Vec<FileEntry>) -> (r: Vec<FileEntry>)
    ensures
        r@ == sort_entries_spec(v@),
        entries_sorted(r@),
        r@.to_multiset() == v@.to_multiset(),
        forall|e: FileEntry| #[trigger] tie_class(r@, e) == tie_class(v@, e),
{
    proof {
        lemma_sort_sorted(v@);
        lemma_sort_permutes(v@);
        assert forall|e: FileEntry| #[trigger] tie_class(sort_entries_spec(v@), e) == tie_class(
            v@,
            e,
        ) by {
            lemma_sort_stable(v@, e);
        }
    }
    let mut v = v;
    let ghost orig = v@;
    let ghost mut i: int = 0;
    let mut out: Vec<FileEntry> = Vec::new();
    proof {
        assert(orig.subrange(0, 0) =~= Seq::<FileEntry>::empty());
        assert(v@ =~= orig.subrange(0, orig.len() as int));
    }
    while v.len() != 0
        invariant
            0 <= i <= orig.len(),
            v@ == orig.subrange(i, orig.len() as int),
            out@ == sort_entries_spec(orig.subrange(0, i)),
        decreases v@.len(),
    {
        let x = v.remove(0);
        proof {
            assert(x == orig[i]);
            assert(orig.subrange(0, i + 1).drop_last() =~= orig.subrange(0, i));
            assert(orig.subrange(0, i + 1).last() == orig[i]);
        }
        insert_entry(&mut out, x);
        proof {
            i = i + 1;
            assert(v@ =~= orig.subrange(i, orig.len() as int));
        }
    }
    proof {
        assert(orig.subrange(0, orig.len() as int) =~= orig);
    }
    out
}

/// Classifies a raw snapshot, keeping scan order.
fn classify_all(raw: Vec<RawEntry>) -> (r: Vec<FileEntry>)
    ensures
        r@ == visible_entries(raw@),
{
    let mut raw = raw;
    let ghost orig = raw@;
    let mut items: Vec<FileEntry> = Vec::new();
    proof {
        assert(items@ + visible_entries(raw@) =~= visible_entries(orig));
    }
    while raw.len() != 0
        invariant
            visible_entries(orig) == items@ + visible_entries(raw@),
        decreases raw@.len(),
    {
        let ghost before = raw@;
        let x = raw.remove(0);
        proof {
            assert(x == before.first());
            assert(raw@ =~= before.drop_first());
        }
        match classify(x) {
            None => {
            }
            Some(e) => {
                let ghost items_before = items@;
                items.push(e);
                proof {
                    assert(items_before + (seq![e] + visible_entries(raw@))
                        =~= (items_before + seq![e]) + visible_entries(raw@));
                }
            }
        }
    }
    proof {
        assert(visible_entries(raw@) =~= Seq::<FileEntry>::empty());
        assert(items@ + visible_entries(raw@) =~= items@);
    }
    items
}

/// Turns a raw directory snapshot into the listing: hidden names
/// dropped, the survivors classified and sorted under the listing
/// order.  The result is a function of the snapshot alone, and no
/// hidden name survives into it.
pub fn list_entries(raw: Vec<RawEntry>) -> (r: Vec<FileEntry>)
    ensures
        r@ == sort_entries_spec(visible_entries(raw@)),
        entries_sorted(r@),
        r@.to_multiset() == visible_entries(raw@).to_multiset(),
        forall|e: FileEntry| #[trigger] tie_class(r@, e) == tie_class(visible_entries(raw@), e),
        forall|k: int| 0 <= k < r@.len() ==> !spec_is_hidden(#[trigger] r@[k].name@),
{
    let ghost snapshot = raw@;
    let items = classify_all(raw);
    let r = sort_entries(items);
    proof {
        broadcast use group_to_multiset_ensures;

        lemma_visible_not_hidden(snapshot);
        lemma_sort_permutes(visible_entries(snapshot));
        assert forall|k: int| 0 <= k < r@.len() implies !spec_is_hidden(
            #[trigger] r@[k].name@,
        ) by {
            assert(r@.contains(r@[k]));
            assert(r@.to_multiset().count(r@[k]) > 0);
            assert(visible_entries(snapshot).to_multiset().count(r@[k]) > 0);
            assert(visible_entries(snapshot).contains(r@[k]));
            let m = choose|m: int|
                0 <= m < visible_entries(snapshot).len() && visible_entries(snapshot)[m]
                    == r@[k];
            assert(!spec_is_hidden(visible_entries(snapshot)[m].name@));
        }
    }
    r
}

} // verus!
