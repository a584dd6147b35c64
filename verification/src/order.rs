//! The total order a local view is kept in, and a verified sort for it.
//!
//! A comparator orders rows by a chosen field and always falls back to the
//! key, so that on distinct keys it is a strict total order; the sorted
//! arrangement of a view is then unique.

use vstd::prelude::*;

use crate::text::{
    lemma_lex_irrefl, lemma_lex_total, lemma_lex_trans, lex_lt, str_lt,
};
use crate::{distinct_keys, Record, RecordV};

verus! {

/// Which field orders the rows; the key breaks ties.
#[derive(Clone, Copy, Debug, PartialEq, Eq, Structural)]
pub enum SortBy {
    /// Ascending by key.
    Key,
    /// Ascending by text, then by key.
    Val,
}

/// Two texts that neither orders before the other (equal code points).
pub open spec fn lex_equiv(a: Seq<char>, b: Seq<char>) -> bool {
    !lex_lt(a, b) && !lex_lt(b, a)
}

/// The strict order a comparator induces on rows.
pub open spec fn rec_lt(sb: SortBy, a: RecordV, b: RecordV) -> bool {
    match sb {
        SortBy::Key => a.key < b.key,
        SortBy::Val => lex_lt(a.val, b.val) || (lex_equiv(a.val, b.val) && a.key < b.key),
    }
}

/// The sequence is strictly sorted under the comparator.
pub open spec fn sorted_by(s: Seq<RecordV>, sb: SortBy) -> bool {
    forall|i: int, j: int| 0 <= i < j < s.len() ==> rec_lt(sb, s[i], s[j])
}

proof fn lemma_lex_equiv_subst_right(a: Seq<char>, b: Seq<char>, c: Seq<char>)
    requires
        lex_lt(a, b),
        lex_equiv(b, c),
    ensures
        lex_lt(a, c),
{
    lemma_lex_total(b, c);
    if b == c {
    } else {
        assert(false);
    }
}

proof fn lemma_lex_equiv_subst_left(a: Seq<char>, b: Seq<char>, c: Seq<char>)
    requires
        lex_equiv(a, b),
        lex_lt(b, c),
    ensures
        lex_lt(a, c),
{
    lemma_lex_total(a, b);
    if a == b {
    } else {
        assert(false);
    }
}

/// The row order is irreflexive.
pub proof fn lemma_rec_irrefl(sb: SortBy, a: RecordV)
    ensures
        !rec_lt(sb, a, a),
{
    lemma_lex_irrefl(a.val);
}

/// The row order is transitive.
pub proof fn lemma_rec_trans(sb: SortBy, a: RecordV, b: RecordV, c: RecordV)
    requires
        rec_lt(sb, a, b),
        rec_lt(sb, b, c),
    ensures
        rec_lt(sb, a, c),
{
    if sb is Val {
        if lex_lt(a.val, b.val) {
            if lex_lt(b.val, c.val) {
                lemma_lex_trans(a.val, b.val, c.val);
            } else {
                lemma_lex_equiv_subst_right(a.val, b.val, c.val);
            }
        } else {
            if lex_lt(b.val, c.val) {
                lemma_lex_equiv_subst_left(a.val, b.val, c.val);
            } else {
                lemma_lex_total(a.val, b.val);
                lemma_lex_total(b.val, c.val);
                assert(a.val == b.val && b.val == c.val);
            }
        }
    }
}

/// On rows with different keys the order is total.
pub proof fn lemma_rec_connected(sb: SortBy, a: RecordV, b: RecordV)
    requires
        a.key != b.key,
    ensures
        rec_lt(sb, a, b) || rec_lt(sb, b, a),
{
}

/// Compares two rows under the comparator.
pub fn record_lt(sb: &SortBy, a: &Record, b: &Record) -> (r: bool)
    ensures
        r == rec_lt(*sb, a@, b@),
{
    match sb {
        SortBy::Key => a.key < b.key,
        SortBy::Val => {
            if str_lt(a.val.as_str(), b.val.as_str()) {
                true
            } else if str_lt(b.val.as_str(), a.val.as_str()) {
                false
            } else {
                a.key < b.key
            }
        },
    }
}

/// Inserting an element into a sequence adds it to the multiset.
proof fn lemma_insert_to_multiset(s: Seq<RecordV>, i: int, a: RecordV)
    requires
        0 <= i <= s.len(),
    ensures
        s.insert(i, a).to_multiset() == s.to_multiset().insert(a),
{
    broadcast use vstd::seq_lib::group_to_multiset_ensures;

    let s2 = s.insert(i, a);
    assert(s2.remove(i) =~= s);
    assert(s2.remove(i).to_multiset() =~= s2.to_multiset().remove(s2[i]));
    assert(s2[i] == a);
    assert(s2.to_multiset().count(a) > 0) by {
        assert(s2.contains(a));
    }
    assert(s2.to_multiset() =~= s.to_multiset().insert(a)) by {
        assert(s.to_multiset() == s2.to_multiset().remove(a));
    }
}

/// Sorts the rows by the comparator.  Requires pairwise distinct keys, which
/// make the order strict and total; the result is the unique strictly sorted
/// arrangement of the same rows.
pub fn sort_records(rows: &mut Vec<Record>, sb: &SortBy)
    requires
        distinct_keys(old(rows).deep_view()),
    ensures
        sorted_by(final(rows).deep_view(), *sb),
        final(rows).deep_view().to_multiset() == old(rows).deep_view().to_multiset(),
        distinct_keys(final(rows).deep_view()),
{
    broadcast use vstd::seq_lib::group_to_multiset_ensures;

    let ghost input = rows.deep_view();
    let mut out: Vec<Record> = Vec::new();
    proof {
        assert(out.deep_view() =~= Seq::<RecordV>::empty());
        assert(out.deep_view().to_multiset() =~= input.take(0).to_multiset());
    }
    let mut i: usize = 0;
    while i < rows.len()
        invariant
            i <= rows.len(),
            rows.deep_view() == input,
            distinct_keys(input),
            distinct_keys(out.deep_view()),
            sorted_by(out.deep_view(), *sb),
            out.deep_view().to_multiset() == input.take(i as int).to_multiset(),
        decreases rows.len() - i,
    {
        let row = rows[i].clone();
        proof {
            broadcast use vstd::seq_lib::group_to_multiset_ensures;

            assert(row@ == input[i as int]);
            // The new row's key differs from every key already placed.
            assert forall|t: int| 0 <= t < out.deep_view().len() implies out.deep_view()[t].key
                != row@.key by {
                let o = out.deep_view()[t];
                assert(out.deep_view().contains(o));
                assert(out.deep_view().to_multiset().count(o) > 0);
                assert(input.take(i as int).to_multiset().count(o) > 0);
                assert(input.take(i as int).contains(o));
                let u = choose|u: int|
                    0 <= u < i && #[trigger] input.take(i as int)[u] == o;
                assert(input[u] == o);
                if o.key == row@.key {
                    assert(input[u].key == input[i as int].key);
                }
            }
        }
        let mut pos: usize = 0;
        while pos < out.len() && record_lt(sb, &out[pos], &row)
            invariant
                pos <= out.len(),
                forall|t: int| 0 <= t < pos ==> rec_lt(*sb, out.deep_view()[t], row@),
            decreases out.len() - pos,
        {
            pos += 1;
        }
        let ghost pre = out.deep_view();
        proof {
            if pos < out.len() {
                assert(!rec_lt(*sb, pre[pos as int], row@));
            }
        }
        out.insert(pos, row);
        proof {
            broadcast use vstd::seq_lib::group_to_multiset_ensures;

            assert(out.deep_view() =~= pre.insert(pos as int, row@));
            lemma_insert_to_multiset(pre, pos as int, row@);
            assert(input.take(i + 1).drop_last() =~= input.take(i as int));
            assert(input.take(i + 1) =~= input.take(i as int).push(input[i as int]));
            assert(input.take(i + 1).to_multiset() =~= input.take(
                i as int,
            ).to_multiset().insert(row@));
            // Sortedness: entries before `pos` stay below the row, entries
            // moved up behind it stay above it.
            let s2 = out.deep_view();
            assert forall|x: int, y: int| 0 <= x < y < s2.len() implies rec_lt(
                *sb,
                s2[x],
                s2[y],
            ) by {
                if y < pos {
                    assert(s2[x] == pre[x] && s2[y] == pre[y]);
                } else if x < pos && y == pos {
                    assert(s2[x] == pre[x] && s2[y] == row@);
                } else if x < pos && y > pos {
                    assert(s2[x] == pre[x] && s2[y] == pre[y - 1]);
                    if y - 1 > x {
                        assert(rec_lt(*sb, pre[x], pre[y - 1]));
                    } else {
                        assert(pre[y - 1] == pre[x]);
                        assert(rec_lt(*sb, pre[x], row@));
                        assert(!rec_lt(*sb, pre[pos as int], row@));
                        assert(y - 1 == x && x == pos);
                    }
                } else if x == pos {
                    assert(s2[x] == row@ && s2[y] == pre[y - 1]);
                    let o = pre[y - 1];
                    assert(o.key != row@.key);
                    lemma_rec_connected(*sb, row@, o);
                    if rec_lt(*sb, o, row@) {
                        assert(pos <= y - 1 < pre.len());
                        assert(!rec_lt(*sb, pre[pos as int], row@));
                        if y - 1 > pos {
                            assert(rec_lt(*sb, pre[pos as int], o));
                            lemma_rec_trans(*sb, pre[pos as int], o, row@);
                        }
                        assert(false);
                    }
                } else {
                    assert(s2[x] == pre[x - 1] && s2[y] == pre[y - 1]);
                }
            }
            assert forall|x: int, y: int| 0 <= x < y < s2.len() implies s2[x].key != s2[y].key by {
                if x == pos {
                    assert(s2[x] == row@ && s2[y] == pre[y - 1]);
                } else if y == pos {
                    assert(s2[x] == pre[x] && s2[y] == row@);
                } else {
                    let px: int = if x < pos {
                        x
                    } else {
                        x - 1
                    };
                    let py: int = if y < pos {
                        y
                    } else {
                        y - 1
                    };
                    assert(s2[x] == pre[px] && s2[y] == pre[py]);
                    assert(px < py);
                }
            }
        }
        i += 1;
    }
    *rows = out;
    proof {
        assert(input.take(input.len() as int) =~= input);
    }
}

/// Two strictly sorted arrangements of the same rows are identical: sorting
/// is deterministic, so sorting twice with one comparator changes nothing
/// the second time.
pub proof fn lemma_sorted_unique(s1: Seq<RecordV>, s2: Seq<RecordV>, sb: SortBy)
    requires
        sorted_by(s1, sb),
        sorted_by(s2, sb),
        s1.to_multiset() == s2.to_multiset(),
    ensures
        s1 == s2,
    decreases s1.len(),
{
    broadcast use vstd::seq_lib::group_to_multiset_ensures;

    if s1.len() == 0 {
        assert(s2.to_multiset().len() == 0);
        assert(s1 =~= s2);
    } else {
        assert(s2.to_multiset().len() == s1.len());
        assert(s2.len() == s1.len());
        // The heads are equal: each occurs in the other sequence, and any
        // later position would contradict sortedness.
        let a = s1[0];
        let b = s2[0];
        assert(s1.contains(a));
        assert(s2.to_multiset().count(a) > 0);
        assert(s2.contains(a));
        let ia = choose|t: int| 0 <= t < s2.len() && s2[t] == a;
        assert(s1.to_multiset().count(b) > 0);
        assert(s1.contains(b));
        let ib = choose|t: int| 0 <= t < s1.len() && s1[t] == b;
        if a != b {
            assert(ia > 0 && ib > 0);
            assert(rec_lt(sb, s2[0], s2[ia]));
            assert(rec_lt(sb, s1[0], s1[ib]));
            lemma_rec_trans(sb, a, b, a);
            lemma_rec_irrefl(sb, a);
            assert(false);
        }
        let t1 = s1.drop_first();
        let t2 = s2.drop_first();
        assert(s1 =~= seq![a] + t1);
        assert(s2 =~= seq![b] + t2);
        assert(t1 =~= s1.remove(0));
        assert(t2 =~= s2.remove(0));
        assert(t1.to_multiset() =~= s1.to_multiset().remove(a));
        assert(t2.to_multiset() =~= s2.to_multiset().remove(b));
        assert(sorted_by(t1, sb)) by {
            assert forall|x: int, y: int| 0 <= x < y < t1.len() implies rec_lt(
                sb,
                t1[x],
                t1[y],
            ) by {
                assert(t1[x] == s1[x + 1] && t1[y] == s1[y + 1]);
            }
        }
        assert(sorted_by(t2, sb)) by {
            assert forall|x: int, y: int| 0 <= x < y < t2.len() implies rec_lt(
                sb,
                t2[x],
                t2[y],
            ) by {
                assert(t2[x] == s2[x + 1] && t2[y] == s2[y + 1]);
            }
        }
        lemma_sorted_unique(t1, t2, sb);
        assert(s1 =~= s2);
    }
}

} // verus!
