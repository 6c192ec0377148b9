//! The header index of an input file.
//!
//! Built once from the first record of the file, it maps each column name to
//! its zero-based position in that record. When a name repeats, the later
//! occurrence wins, as inserting into a map in encounter order makes it.
//! The index is read-only afterwards and shared by every worker.

use vstd::prelude::*;

use crate::collections::{empty_entries, entry_map, map_get, map_insert, map_new, HeaderMap};

verus! {

/// The name-to-position map that a header row builds: each name is bound to
/// its position, in encounter order, so a repeated name keeps its last
/// position.
pub open spec fn header_positions(row: Seq<Seq<char>>) -> Map<Seq<char>, usize>
    decreases row.len(),
{
    if row.len() == 0 {
        empty_entries()
    } else {
        header_positions(row.drop_last()).insert(row.last(), (row.len() - 1) as usize)
    }
}

/// Every position a header row's map binds lies inside the row, names the
/// bound column, and is the column name's last occurrence: a repeated name's
/// later position wins.
pub proof fn lemma_header_positions_in_row(row: Seq<Seq<char>>)
    requires
        row.len() <= usize::MAX,
    ensures
        forall|k: Seq<char>| #[trigger] header_positions(row).dom().contains(k)
            ==> header_positions(row)[k] < row.len()
                && row[header_positions(row)[k] as int] == k,
        forall|k: Seq<char>, j: int|
            #[trigger] header_positions(row).dom().contains(k)
                && header_positions(row)[k] < j < row.len() ==> #[trigger] row[j] != k,
    decreases row.len(),
{
    if row.len() != 0 {
        lemma_header_positions_in_row(row.drop_last());
        let m = header_positions(row);
        let prev = header_positions(row.drop_last());
        assert(m == prev.insert(row.last(), (row.len() - 1) as usize));
        assert forall|k: Seq<char>| #[trigger] m.dom().contains(k) implies m[k] < row.len()
            && row[m[k] as int] == k by {
            if k == row.last() {
                assert(row[(row.len() - 1) as int] == row.last());
            } else {
                assert(prev.dom().contains(k));
                assert(row.drop_last()[prev[k] as int] == row[prev[k] as int]);
            }
        }
        assert forall|k: Seq<char>, j: int|
            #[trigger] m.dom().contains(k) && m[k] < j < row.len() implies #[trigger] row[j]
            != k by {
            if k == row.last() {
                assert(m[k] == row.len() - 1);
            } else {
                assert(prev.dom().contains(k));
                if j < row.len() - 1 {
                    assert(row.drop_last()[j] == row[j]);
                } else {
                    assert(row[j] == row.last());
                }
            }
        }
    }
}

/// A name is in the map exactly when the row holds it.
pub proof fn lemma_header_positions_dom(row: Seq<Seq<char>>)
    requires
        row.len() <= usize::MAX,
    ensures
        forall|k: Seq<char>| #[trigger] header_positions(row).dom().contains(k) <==> exists|i: int|
            0 <= i < row.len() && row[i] == k,
    decreases row.len(),
{
    if row.len() != 0 {
        lemma_header_positions_dom(row.drop_last());
        let m = header_positions(row);
        let prev = header_positions(row.drop_last());
        assert(m == prev.insert(row.last(), (row.len() - 1) as usize));
        assert forall|k: Seq<char>| #[trigger] m.dom().contains(k) implies exists|i: int|
            0 <= i < row.len() && row[i] == k by {
            if k == row.last() {
                assert(row[row.len() - 1] == k);
            } else {
                assert(prev.dom().contains(k));
                let i = choose|i: int| 0 <= i < row.drop_last().len() && row.drop_last()[i] == k;
                assert(row[i] == row.drop_last()[i]);
            }
        }
        assert forall|k: Seq<char>| (exists|i: int| 0 <= i < row.len() && row[i] == k)
            implies #[trigger] m.dom().contains(k) by {
            let i = choose|i: int| 0 <= i < row.len() && row[i] == k;
            if i < row.len() - 1 {
                assert(row.drop_last()[i] == k);
                assert(prev.dom().contains(k));
            } else {
                assert(k == row.last());
            }
        }
    }
}

/// Maps input column names to their position in the input file, built from
/// the file's header row and shared read-only by all workers.
pub struct HeaderIndex {
    map: HeaderMap,
    width: usize,
}

impl HeaderIndex {
    /// The entries of the index: column name to position.
    pub closed spec fn entries(self) -> Map<Seq<char>, usize> {
        entry_map(self.map)
    }

    /// The number of columns of the header row the index was built from.
    pub closed spec fn width_spec(self) -> usize {
        self.width
    }

    /// Every bound position lies inside a row of the file's width.
    pub open spec fn wf(self) -> bool {
        forall|k: Seq<char>| #[trigger] self.entries().dom().contains(k) ==> self.entries()[k]
            < self.width_spec()
    }

    /// The position of a column, if the input file has it.
    pub fn get(&self, name: &String) -> (r: Option<usize>)
        ensures
            r == if self.entries().dom().contains(name@) {
                Some(self.entries()[name@])
            } else {
                None::<usize>
            },
    {
        map_get(&self.map, name)
    }

    /// The number of fields a record of the indexed file has.
    pub fn width(&self) -> (r: usize)
        ensures
            r == self.width_spec(),
    {
        self.width
    }
}

/// Builds the header index from the input file's header row: each column
/// name is bound to its zero-based position, and a repeated name keeps the
/// later position.
pub fn create_headers_map(row: &Vec<String>) -> (r: HeaderIndex)
    ensures
        r.wf(),
        r.width_spec() == row@.len(),
        r.entries() == header_positions(row.deep_view()),
        forall|k: Seq<char>| #[trigger] r.entries().dom().contains(k) <==> exists|i: int|
            0 <= i < row@.len() && row.deep_view()[i] == k,
        forall|k: Seq<char>| #[trigger] r.entries().dom().contains(k)
            ==> row.deep_view()[r.entries()[k] as int] == k,
        forall|k: Seq<char>, j: int|
            #[trigger] r.entries().dom().contains(k) && r.entries()[k] < j < row@.len()
                ==> #[trigger] row.deep_view()[j] != k,
{
    let n = row.len();
    proof {
        assert(row.deep_view().len() == n);
        lemma_header_positions_in_row(row.deep_view());
        lemma_header_positions_dom(row.deep_view());
    }
    let mut map = map_new();
    let mut index: usize = 0;
    while index < row.len()
        invariant
            index <= row@.len(),
            entry_map(map) == header_positions(row.deep_view().take(index as int)),
            forall|k: Seq<char>| #[trigger] entry_map(map).dom().contains(k) ==> entry_map(map)[k]
                < index,
        decreases row@.len() - index,
    {
        let ghost prefix = row.deep_view().take(index as int);
        map_insert(&mut map, row[index].clone(), index);
        proof {
            let next = row.deep_view().take(index + 1int);
            assert(next.drop_last() =~= prefix);
            assert(next.last() == row.deep_view()[index as int]);
        }
        index += 1;
    }
    proof {
        assert(row.deep_view().take(row@.len() as int) =~= row.deep_view());
    }
    HeaderIndex { map, width: n }
}

} // verus!
