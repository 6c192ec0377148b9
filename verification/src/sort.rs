//! The sort stage: orders an output file's rows by the rule's sort columns.
//!
//! The sort columns are resolved against the output file's own header row —
//! not the input file's — and the rows are compared by a total, multi-key,
//! lexicographic comparator: by the first sort column, on a tie by the
//! second, and so on. The sort is stable, so a file already in order is left
//! byte-identical.

use core::cmp::Ordering;

use vstd::prelude::*;

use crate::text::{
    lemma_lex_le_antisymmetric, lemma_lex_le_reflexive, lemma_lex_le_total,
    lemma_lex_le_transitive, lex_le, str_le,
};

verus! {

/// Multi-key comparison of two records: walk the key positions in order and
/// answer with the first position whose fields differ; records equal on
/// every key compare equal.
pub open spec fn rec_cmp(a: Seq<Seq<char>>, b: Seq<Seq<char>>, order: Seq<usize>) -> Ordering
    decreases order.len(),
{
    if order.len() == 0 {
        Ordering::Equal
    } else {
        let i = order[0] as int;
        if a[i] == b[i] {
            rec_cmp(a, b, order.drop_first())
        } else if lex_le(a[i], b[i]) {
            Ordering::Less
        } else {
            Ordering::Greater
        }
    }
}

/// `a` comes no later than `b` under the multi-key comparison.
pub open spec fn rec_le(a: Seq<Seq<char>>, b: Seq<Seq<char>>, order: Seq<usize>) -> bool {
    rec_cmp(a, b, order) != Ordering::Greater
}

/// Records are ordered pairwise: what the sort stage guarantees of a file's
/// rows.
pub open spec fn sorted_by(rs: Seq<Seq<Seq<char>>>, order: Seq<usize>) -> bool {
    forall|p: int, q: int| 0 <= p < q < rs.len() ==> rec_le(#[trigger] rs[p], #[trigger] rs[q], order)
}

/// The multi-key comparison is total: of any two records, one comes no later
/// than the other.
pub proof fn lemma_rec_le_total(a: Seq<Seq<char>>, b: Seq<Seq<char>>, order: Seq<usize>)
    ensures
        rec_le(a, b, order) || rec_le(b, a, order),
    decreases order.len(),
{
    if order.len() != 0 {
        let i = order[0] as int;
        if a[i] == b[i] {
            lemma_rec_le_total(a, b, order.drop_first());
        } else {
            lemma_lex_le_total(a[i], b[i]);
        }
    }
}

/// The multi-key comparison is reflexive.
pub proof fn lemma_rec_le_reflexive(a: Seq<Seq<char>>, order: Seq<usize>)
    ensures
        rec_le(a, a, order),
    decreases order.len(),
{
    if order.len() != 0 {
        lemma_rec_le_reflexive(a, order.drop_first());
    }
}

/// The multi-key comparison is transitive.
pub proof fn lemma_rec_le_transitive(
    a: Seq<Seq<char>>,
    b: Seq<Seq<char>>,
    c: Seq<Seq<char>>,
    order: Seq<usize>,
)
    requires
        rec_le(a, b, order),
        rec_le(b, c, order),
    ensures
        rec_le(a, c, order),
    decreases order.len(),
{
    if order.len() != 0 {
        let i = order[0] as int;
        if a[i] == b[i] && b[i] == c[i] {
            lemma_rec_le_transitive(a, b, c, order.drop_first());
        } else if a[i] != b[i] && b[i] != c[i] {
            lemma_lex_le_transitive(a[i], b[i], c[i]);
            if a[i] == c[i] {
                lemma_lex_le_antisymmetric(a[i], b[i]);
            }
        }
    }
}

/// Compares two records by the fields at the given key positions: the first
/// differing key decides, lexicographically; records equal on every key are
/// equal for the sort.
pub fn record_comparator(a: &Vec<String>, b: &Vec<String>, order: &Vec<usize>) -> (r: Ordering)
    requires
        forall|j: int| 0 <= j < order@.len() ==> (#[trigger] order@[j]) < a@.len(),
        forall|j: int| 0 <= j < order@.len() ==> (#[trigger] order@[j]) < b@.len(),
    ensures
        r == rec_cmp(a.deep_view(), b.deep_view(), order@),
{
    let ghost adv = a.deep_view();
    let ghost bdv = b.deep_view();
    proof {
        assert(order@.skip(0) =~= order@);
    }
    let mut j: usize = 0;
    while j < order.len()
        invariant
            adv == a.deep_view(),
            bdv == b.deep_view(),
            forall|k: int| 0 <= k < order@.len() ==> (#[trigger] order@[k]) < a@.len(),
            forall|k: int| 0 <= k < order@.len() ==> (#[trigger] order@[k]) < b@.len(),
            j <= order@.len(),
            rec_cmp(adv, bdv, order@) == rec_cmp(adv, bdv, order@.skip(j as int)),
        decreases order@.len() - j,
    {
        let idx = order[j];
        proof {
            assert(order@.skip(j as int)[0] == order@[j as int]);
            assert(adv[idx as int] == a@[idx as int]@);
            assert(bdv[idx as int] == b@[idx as int]@);
        }
        if a[idx] == b[idx] {
            proof {
                assert(order@.skip(j as int).drop_first() =~= order@.skip(j + 1int));
            }
            j += 1;
        } else if str_le(a[idx].as_str(), b[idx].as_str()) {
            return Ordering::Less;
        } else {
            return Ordering::Greater;
        }
    }
    proof {
        assert(order@.skip(order@.len() as int) =~= Seq::<usize>::empty());
    }
    Ordering::Equal
}

/// The key positions a rule's sort columns resolve to in a header row: for
/// each sort column in order, the positions of every header cell of that
/// name, in ascending order.
pub open spec fn positions_of(header: Seq<Seq<char>>, name: Seq<char>) -> Seq<usize>
    decreases header.len(),
{
    if header.len() == 0 {
        Seq::empty()
    } else if header.last() == name {
        positions_of(header.drop_last(), name).push((header.len() - 1) as usize)
    } else {
        positions_of(header.drop_last(), name)
    }
}

/// See [`positions_of`]: the concatenation over the sort columns.
pub open spec fn sort_positions(header: Seq<Seq<char>>, sort_columns: Seq<Seq<char>>) -> Seq<usize>
    decreases sort_columns.len(),
{
    if sort_columns.len() == 0 {
        Seq::empty()
    } else {
        sort_positions(header, sort_columns.drop_last()) + positions_of(
            header,
            sort_columns.last(),
        )
    }
}

/// Resolves sort column names to key positions in a header row: for each
/// sort column in order, the position of every header cell with that name.
pub fn get_sort_order(header_row: &Vec<String>, sort_columns: &Vec<String>) -> (r: Vec<usize>)
    ensures
        r@ == sort_positions(header_row.deep_view(), sort_columns.deep_view()),
        forall|k: int| 0 <= k < r@.len() ==> (#[trigger] r@[k]) < header_row@.len(),
{
    let ghost hdv = header_row.deep_view();
    let ghost scdv = sort_columns.deep_view();
    let mut sort_order: Vec<usize> = Vec::new();
    let mut j: usize = 0;
    while j < sort_columns.len()
        invariant
            hdv == header_row.deep_view(),
            scdv == sort_columns.deep_view(),
            j <= sort_columns@.len(),
            sort_order@ == sort_positions(hdv, scdv.take(j as int)),
            forall|k: int| 0 <= k < sort_order@.len() ==> (#[trigger] sort_order@[k])
                < header_row@.len(),
        decreases sort_columns@.len() - j,
    {
        let sort_column = &sort_columns[j];
        proof {
            assert(sort_column@ == scdv[j as int]);
        }
        let mut index: usize = 0;
        while index < header_row.len()
            invariant
                hdv == header_row.deep_view(),
                scdv == sort_columns.deep_view(),
                j < sort_columns@.len(),
                sort_column@ == scdv[j as int],
                index <= header_row@.len(),
                sort_order@ == sort_positions(hdv, scdv.take(j as int)) + positions_of(
                    hdv.take(index as int),
                    scdv[j as int],
                ),
                forall|k: int| 0 <= k < sort_order@.len() ==> (#[trigger] sort_order@[k])
                    < header_row@.len(),
            decreases header_row@.len() - index,
        {
            let h = &header_row[index];
            proof {
                assert(h@ == hdv[index as int]);
                let next = hdv.take(index + 1int);
                assert(next.drop_last() =~= hdv.take(index as int));
                assert(next.last() == hdv[index as int]);
            }
            if *sort_column == *h {
                sort_order.push(index);
            }
            index += 1;
        }
        proof {
            assert(hdv.take(header_row@.len() as int) =~= hdv);
            let next = scdv.take(j + 1int);
            assert(next.drop_last() =~= scdv.take(j as int));
            assert(next.last() == scdv[j as int]);
        }
        j += 1;
    }
    proof {
        assert(scdv.take(sort_columns@.len() as int) =~= scdv);
    }
    sort_order
}

/// Places a record into an ordered sequence, after every record that does
/// not compare greater: the position that keeps a stable sort stable.
pub open spec fn insert_ordered(
    s: Seq<Seq<Seq<char>>>,
    x: Seq<Seq<char>>,
    order: Seq<usize>,
) -> Seq<Seq<Seq<char>>>
    decreases s.len(),
{
    if s.len() == 0 {
        seq![x]
    } else if rec_le(s.last(), x, order) {
        s.push(x)
    } else {
        insert_ordered(s.drop_last(), x, order).push(s.last())
    }
}

/// The stable sort of a sequence of records: each record, in input order, is
/// placed after every already placed record that does not compare greater,
/// so records that compare equal keep their relative order.
pub open spec fn insertion_sorted(
    rs: Seq<Seq<Seq<char>>>,
    order: Seq<usize>,
) -> Seq<Seq<Seq<char>>>
    decreases rs.len(),
{
    if rs.len() == 0 {
        Seq::empty()
    } else {
        insert_ordered(insertion_sorted(rs.drop_last(), order), rs.last(), order)
    }
}

/// Placing a record at a position below which nothing is greater and above
/// which everything is greater is what [`insert_ordered`] does.
proof fn lemma_insert_ordered_at(
    s: Seq<Seq<Seq<char>>>,
    x: Seq<Seq<char>>,
    order: Seq<usize>,
    j: int,
)
    requires
        0 <= j <= s.len(),
        j > 0 ==> rec_le(s[j - 1], x, order),
        forall|k: int| j <= k < s.len() ==> !rec_le(#[trigger] s[k], x, order),
    ensures
        insert_ordered(s, x, order) == s.insert(j, x),
    decreases s.len(),
{
    if s.len() == 0 {
        assert(insert_ordered(s, x, order) =~= s.insert(0, x));
    } else if j == s.len() {
        assert(rec_le(s.last(), x, order));
        assert(insert_ordered(s, x, order) =~= s.insert(j, x));
    } else {
        assert(!rec_le(s.last(), x, order));
        lemma_insert_ordered_at(s.drop_last(), x, order, j);
        assert(insert_ordered(s.drop_last(), x, order).push(s.last()) =~= s.insert(j, x));
    }
}

/// The position [`insert_ordered`] places a record at: everything below it
/// compares no greater, everything it displaces compares greater.
proof fn lemma_insert_ordered_position(
    s: Seq<Seq<Seq<char>>>,
    x: Seq<Seq<char>>,
    order: Seq<usize>,
) -> (j: int)
    ensures
        0 <= j <= s.len(),
        insert_ordered(s, x, order) == s.insert(j, x),
        j > 0 ==> rec_le(s[j - 1], x, order),
        forall|k: int| j <= k < s.len() ==> !rec_le(#[trigger] s[k], x, order),
    decreases s.len(),
{
    if s.len() == 0 {
        assert(insert_ordered(s, x, order) =~= s.insert(0, x));
        0
    } else if rec_le(s.last(), x, order) {
        assert(insert_ordered(s, x, order) =~= s.insert(s.len() as int, x));
        s.len() as int
    } else {
        let j = lemma_insert_ordered_position(s.drop_last(), x, order);
        assert(insert_ordered(s, x, order) =~= s.insert(j, x));
        assert forall|k: int| j <= k < s.len() implies !rec_le(#[trigger] s[k], x, order) by {
            if k < s.len() - 1 {
                assert(s.drop_last()[k] == s[k]);
            }
        }
        j
    }
}

/// Placing a record with [`insert_ordered`] keeps the sequence ordered.
proof fn lemma_insert_ordered_keeps_sorted(
    s: Seq<Seq<Seq<char>>>,
    x: Seq<Seq<char>>,
    order: Seq<usize>,
)
    requires
        sorted_by(s, order),
    ensures
        sorted_by(insert_ordered(s, x, order), order),
{
    let j = lemma_insert_ordered_position(s, x, order);
    let t = s.insert(j, x);
    assert forall|p: int, q: int| 0 <= p < q < t.len() implies rec_le(
        #[trigger] t[p],
        #[trigger] t[q],
        order,
    ) by {
        if q < j {
            assert(t[p] == s[p] && t[q] == s[q]);
        } else if q == j {
            assert(t[p] == s[p]);
            assert(rec_le(s[j - 1], x, order));
            if p < j - 1 {
                lemma_rec_le_transitive(s[p], s[j - 1], x, order);
            }
        } else {
            assert(t[q] == s[q - 1]);
            assert(j <= q - 1 < s.len());
            lemma_rec_le_total(s[q - 1], x, order);
            if p == j {
                assert(t[p] == x);
            } else if p < j {
                assert(t[p] == s[p]);
                assert(rec_le(s[p], s[q - 1], order));
            } else {
                assert(t[p] == s[p - 1]);
                assert(rec_le(s[p - 1], s[q - 1], order));
            }
        }
    }
}

/// What the sort yields is ordered.
pub proof fn lemma_insertion_sorted_is_sorted(rs: Seq<Seq<Seq<char>>>, order: Seq<usize>)
    ensures
        sorted_by(insertion_sorted(rs, order), order),
    decreases rs.len(),
{
    if rs.len() != 0 {
        lemma_insertion_sorted_is_sorted(rs.drop_last(), order);
        lemma_insert_ordered_keeps_sorted(insertion_sorted(rs.drop_last(), order), rs.last(), order);
    }
}

/// A sequence already in order is the sort's fixed point: sorting it changes
/// nothing.
pub proof fn lemma_sorted_fixed_point(rs: Seq<Seq<Seq<char>>>, order: Seq<usize>)
    requires
        sorted_by(rs, order),
    ensures
        insertion_sorted(rs, order) == rs,
    decreases rs.len(),
{
    if rs.len() != 0 {
        let init = rs.drop_last();
        assert(sorted_by(init, order)) by {
            assert forall|p: int, q: int| 0 <= p < q < init.len() implies rec_le(
                #[trigger] init[p],
                #[trigger] init[q],
                order,
            ) by {
                assert(init[p] == rs[p] && init[q] == rs[q]);
            }
        }
        lemma_sorted_fixed_point(init, order);
        if rs.len() == 1 {
            assert(insert_ordered(init, rs.last(), order) =~= rs);
        } else {
            assert(rec_le(rs[rs.len() - 2], rs.last(), order));
            assert(init.last() == rs[rs.len() - 2]);
            assert(insert_ordered(init, rs.last(), order) =~= rs);
        }
    }
}

/// Sorting is idempotent: what a sort yields is ordered, and sorting an
/// ordered sequence gives it back unchanged.
pub proof fn lemma_sort_idempotent(rs: Seq<Seq<Seq<char>>>, order: Seq<usize>)
    ensures
        insertion_sorted(insertion_sorted(rs, order), order) == insertion_sorted(rs, order),
{
    lemma_insertion_sorted_is_sorted(rs, order);
    lemma_sorted_fixed_point(insertion_sorted(rs, order), order);
}

/// Every key position lies inside every record: what a file of uniform
/// width, read back for sorting, guarantees.
pub open spec fn keys_in_width(rs: Seq<Seq<Seq<char>>>, order: Seq<usize>) -> bool {
    forall|k: int, j: int|
        0 <= k < rs.len() && 0 <= j < order.len() ==> (#[trigger] order[j]) < (#[trigger] rs[k]).len()
}

/// Whether `a` must come after `b`: the insertion sort's probe.
fn is_greater(a: &Vec<String>, b: &Vec<String>, order: &Vec<usize>) -> (r: bool)
    requires
        forall|j: int| 0 <= j < order@.len() ==> (#[trigger] order@[j]) < a@.len(),
        forall|j: int| 0 <= j < order@.len() ==> (#[trigger] order@[j]) < b@.len(),
    ensures
        r == !rec_le(a.deep_view(), b.deep_view(), order@),
{
    let c = record_comparator(a, b, order);
    matches!(c, Ordering::Greater)
}

/// Sorts the records in place by the multi-key comparison over the given key
/// positions: a stable insertion sort. The result is the same records,
/// pairwise ordered; records that compare equal keep their relative order,
/// so a sequence already in order comes back unchanged.
#[verifier::rlimit(50)]
pub fn sort_records(records: &mut Vec<Vec<String>>, order: &Vec<usize>)
    requires
        keys_in_width(old(records).deep_view(), order@),
    ensures
        final(records)@.len() == old(records)@.len(),
        keys_in_width(final(records).deep_view(), order@),
        final(records).deep_view().to_multiset() == old(records).deep_view().to_multiset(),
        sorted_by(final(records).deep_view(), order@),
        sorted_by(old(records).deep_view(), order@) ==> final(records).deep_view() == old(
            records,
        ).deep_view(),
        final(records).deep_view() == insertion_sorted(old(records).deep_view(), order@),
{
    let ghost orig = old(records).deep_view();
    proof {
        if orig.len() > 0 {
            assert(orig.take(1).drop_last() =~= Seq::<Seq<Seq<char>>>::empty());
            assert(orig.take(1).last() == orig[0]);
            assert(insertion_sorted(Seq::<Seq<Seq<char>>>::empty(), order@)
                =~= Seq::<Seq<Seq<char>>>::empty());
            assert(insert_ordered(Seq::<Seq<Seq<char>>>::empty(), orig[0], order@) =~= seq![
                orig[0],
            ]);
            assert(orig.take(1) =~= seq![orig[0]]);
            assert(insertion_sorted(orig.take(1), order@) =~= orig.take(1));
            assert(records.deep_view().take(1) =~= orig.take(1));
            assert(records.deep_view().skip(1) =~= orig.skip(1));
        }
    }
    let mut i: usize = 1;
    while i < records.len()
        invariant
            keys_in_width(orig, order@),
            1 <= i,
            records@.len() == orig.len(),
            i <= records@.len() || records@.len() <= 1,
            keys_in_width(records.deep_view(), order@),
            records.deep_view().to_multiset() == orig.to_multiset(),
            forall|p: int, q: int|
                0 <= p < q < i && q < records.deep_view().len() ==> rec_le(
                    #[trigger] records.deep_view()[p],
                    #[trigger] records.deep_view()[q],
                    order@,
                ),
            sorted_by(orig, order@) ==> records.deep_view() == orig,
            orig.len() > 0 ==> records.deep_view().take(i as int) == insertion_sorted(
                orig.take(i as int),
                order@,
            ),
            orig.len() > 0 ==> records.deep_view().skip(i as int) == orig.skip(i as int),
        decreases records@.len() - i,
    {
        let ghost pre = records.deep_view();
        let x = records.remove(i);
        let ghost mid = records.deep_view();
        let ghost xdv = x.deep_view();
        proof {
            assert(mid =~= pre.remove(i as int));
            assert(xdv == pre[i as int]);
            assert(pre.skip(i as int)[0] == pre[i as int]);
            assert(xdv == orig[i as int]);
            assert forall|k: int, t: int|
                0 <= k < records@.len() && 0 <= t < order@.len() implies (#[trigger] order@[t]) < (
            #[trigger] records@[k])@.len() by {
                assert(mid[k] == records@[k].deep_view());
                assert(mid[k].len() == records@[k]@.len());
            }
            assert forall|t: int| 0 <= t < order@.len() implies (#[trigger] order@[t])
                < x@.len() by {
                assert(order@[t] < pre[i as int].len());
                assert(xdv.len() == x@.len());
            }
        }
        let mut j: usize = i;
        while j > 0 && is_greater(&records[j - 1], &x, order)
            invariant
                keys_in_width(orig, order@),
                1 <= i < pre.len(),
                pre.len() == orig.len(),
                records@.len() == pre.len() - 1,
                records.deep_view() == mid,
                mid == pre.remove(i as int),
                x.deep_view() == xdv,
                xdv == pre[i as int],
                keys_in_width(mid, order@),
                forall|t: int| 0 <= t < order@.len() ==> (#[trigger] order@[t]) < xdv.len(),
                j <= i,
                forall|k: int, t: int|
                    0 <= k < records@.len() && 0 <= t < order@.len() ==> (#[trigger] order@[t]) < (
                #[trigger] records@[k])@.len(),
                forall|t: int| 0 <= t < order@.len() ==> (#[trigger] order@[t]) < x@.len(),
                forall|k: int| j <= k < i ==> !rec_le(#[trigger] mid[k], xdv, order@),
                forall|p: int, q: int|
                    0 <= p < q < i && q < mid.len() ==> rec_le(
                        #[trigger] mid[p],
                        #[trigger] mid[q],
                        order@,
                    ),
                sorted_by(orig, order@) ==> j == i && pre == orig,
            decreases j,
        {
            proof {
                if sorted_by(orig, order@) {
                    assert(mid[j - 1] == pre[j - 1]);
                    assert(rec_le(orig[i - 1], orig[i as int], order@));
                    assert(false);
                }
            }
            j -= 1;
        }
        let ghost jg = j as int;
        records.insert(j, x);
        proof {
            let post = records.deep_view();
            assert(post =~= mid.insert(jg, xdv));
            broadcast use vstd::seq_lib::group_to_multiset_ensures;
            broadcast use vstd::multiset::group_multiset_axioms;

            vstd::seq_lib::to_multiset_remove(pre, i as int);
            vstd::seq_lib::to_multiset_insert(mid, jg, xdv);
            assert(pre.contains(pre[i as int]));
            assert(post.to_multiset() =~= pre.to_multiset());

            assert forall|k: int, t: int|
                0 <= k < post.len() && 0 <= t < order@.len() implies (#[trigger] order@[t])
                < (#[trigger] post[k]).len() by {
                if k < jg {
                    assert(post[k] == mid[k]);
                } else if k == jg {
                    assert(post[k] == xdv);
                } else {
                    assert(post[k] == mid[k - 1]);
                }
            }

            assert forall|p: int, q: int| 0 <= p < q < i + 1 && q < post.len() implies rec_le(
                #[trigger] post[p],
                #[trigger] post[q],
                order@,
            ) by {
                if q < jg {
                    assert(post[p] == mid[p] && post[q] == mid[q]);
                } else if q == jg {
                    assert(post[p] == mid[p]);
                    assert(rec_le(mid[jg - 1], xdv, order@));
                    if p < jg - 1 {
                        assert(rec_le(mid[p], mid[jg - 1], order@));
                        lemma_rec_le_transitive(mid[p], mid[jg - 1], xdv, order@);
                    }
                } else {
                    assert(post[q] == mid[q - 1]);
                    assert(jg <= q - 1 < i);
                    assert(!rec_le(mid[q - 1], xdv, order@));
                    lemma_rec_le_total(mid[q - 1], xdv, order@);
                    if p == jg {
                        assert(post[p] == xdv);
                    } else if p < jg {
                        assert(post[p] == mid[p]);
                        assert(rec_le(mid[p], mid[q - 1], order@));
                    } else {
                        assert(post[p] == mid[p - 1]);
                        assert(rec_le(mid[p - 1], mid[q - 1], order@));
                    }
                }
            }

            if sorted_by(orig, order@) {
                assert(post =~= pre);
            }

            assert(mid.take(i as int) =~= pre.take(i as int));
            assert forall|k: int| jg <= k < i implies !rec_le(
                #[trigger] mid.take(i as int)[k],
                xdv,
                order@,
            ) by {
                assert(mid.take(i as int)[k] == mid[k]);
            }
            if jg > 0 {
                assert(mid.take(i as int)[jg - 1] == mid[jg - 1]);
            }
            lemma_insert_ordered_at(mid.take(i as int), xdv, order@, jg);
            assert(orig.take(i + 1).drop_last() =~= orig.take(i as int));
            assert(orig.take(i + 1).last() == orig[i as int]);
            assert(insertion_sorted(orig.take(i + 1), order@) == insert_ordered(
                insertion_sorted(orig.take(i as int), order@),
                xdv,
                order@,
            ));
            assert(post.take(i + 1) =~= mid.take(i as int).insert(jg, xdv));
            assert forall|k: int| 0 <= k < orig.len() - i - 1 implies #[trigger] post.skip(
                i + 1,
            )[k] == orig.skip(i + 1)[k] by {
                assert(post[k + i + 1] == mid[k + i]);
                assert(mid[k + i] == pre[k + i + 1]);
                assert(pre.skip(i as int)[k + 1] == pre[k + i + 1]);
                assert(orig.skip(i as int)[k + 1] == orig[k + i + 1]);
            }
            assert(post.skip(i + 1) =~= orig.skip(i + 1));
        }
        i += 1;
    }
    proof {
        if orig.len() == 0 {
            assert(records.deep_view() =~= insertion_sorted(orig, order@));
        } else {
            assert(records.deep_view().take(orig.len() as int) =~= records.deep_view());
            assert(orig.take(orig.len() as int) =~= orig);
        }
    }
}

/// Sorts one output file's data rows by the rule's sort columns, resolved
/// against the file's own header row. The rows come back pairwise ordered
/// under the multi-key comparison; rows already in order come back
/// unchanged, so sorting a sorted file is idempotent.
pub fn sort_csv_rows(
    header_row: &Vec<String>,
    records: Vec<Vec<String>>,
    sort_columns: &Vec<String>,
) -> (r: Vec<Vec<String>>)
    requires
        forall|k: int| 0 <= k < records@.len() ==> (#[trigger] records@[k])@.len()
            == header_row@.len(),
    ensures
        r@.len() == records@.len(),
        r.deep_view().to_multiset() == records.deep_view().to_multiset(),
        sorted_by(r.deep_view(), sort_positions(header_row.deep_view(), sort_columns.deep_view())),
        sorted_by(
            records.deep_view(),
            sort_positions(header_row.deep_view(), sort_columns.deep_view()),
        ) ==> r.deep_view() == records.deep_view(),
        r.deep_view() == insertion_sorted(
            records.deep_view(),
            sort_positions(header_row.deep_view(), sort_columns.deep_view()),
        ),
{
    let order = get_sort_order(header_row, sort_columns);
    proof {
        assert forall|k: int, j: int|
            0 <= k < records.deep_view().len() && 0 <= j < order@.len() implies (
        #[trigger] order@[j]) < (#[trigger] records.deep_view()[k]).len() by {
            assert(records.deep_view()[k].len() == records@[k]@.len());
        }
    }
    let mut rs = records;
    sort_records(&mut rs, &order);
    rs
}

/// A sequence sorted by the two key columns `[ka, kb]` is non-decreasing in
/// the `ka` field, and on runs whose `ka` fields are equal it is
/// non-decreasing in the `kb` field, in lexicographic string order.
pub proof fn lemma_sorted_two_keys(rs: Seq<Seq<Seq<char>>>, ka: usize, kb: usize, p: int, q: int)
    requires
        sorted_by(rs, seq![ka, kb]),
        0 <= p <= q < rs.len(),
    ensures
        lex_le(rs[p][ka as int], rs[q][ka as int]),
        rs[p][ka as int] == rs[q][ka as int] ==> lex_le(rs[p][kb as int], rs[q][kb as int]),
{
    let order = seq![ka, kb];
    if p == q {
        lemma_lex_le_reflexive(rs[p][ka as int]);
        lemma_lex_le_reflexive(rs[p][kb as int]);
    } else {
        assert(rec_le(rs[p], rs[q], order));
        assert(order.drop_first() =~= seq![kb]);
        if rs[p][ka as int] == rs[q][ka as int] {
            lemma_lex_le_reflexive(rs[p][ka as int]);
            assert(rec_cmp(rs[p], rs[q], order) == rec_cmp(rs[p], rs[q], seq![kb]));
            if rs[p][kb as int] == rs[q][kb as int] {
                lemma_lex_le_reflexive(rs[p][kb as int]);
            }
        }
    }
}

} // verus!
