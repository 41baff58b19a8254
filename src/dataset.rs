use crate::seller::SellerSet;
use std::collections::HashMap;
use vstd::prelude::*;

verus! {

broadcast use vstd::std_specs::hash::group_hash_axioms;

/// Identifies a row within one source table.
#[derive(Debug, Clone, Copy, PartialEq, Eq, Structural, Hash)]
pub struct RowId(pub u64);

/// A source table's ownership mapping: for each row identifier, the sellers
/// who must all be in a coalition for the row to be usable.
#[derive(Debug)]
pub struct Table {
    pub name: String,
    pub seller_map: HashMap<u64, SellerSet>,
}

/// The tables of a dataset and the union of their sellers.
#[derive(Debug)]
pub struct DataSet {
    pub name: String,
    pub tables: Vec<Table>,
    pub sellers: SellerSet,
}

/// Why a computation could not be carried out.
#[derive(Debug, Clone, Copy, PartialEq, Eq, Structural)]
pub enum ShapleyError {
    /// A joined row refers to a row of table `table` (by position) that has
    /// no ownership entry.
    MissingSellerMapping { table: usize, row: RowId },
}

/// The owners of each joined row's source rows, one coalition per table.
pub open spec fn owner_views(rows: Seq<Vec<SellerSet>>) -> Seq<Seq<Set<u64>>> {
    rows.map_values(|r: Vec<SellerSet>| r@.map_values(|s: SellerSet| s@))
}

/// Whether table `t` has an ownership entry for `row`.
pub open spec fn has_owner(tables: Seq<Table>, t: int, row: u64) -> bool {
    tables[t].seller_map@.contains_key(row)
}

/// Every row identifier in the join's columns has an ownership entry.
pub open spec fn all_owned(tables: Seq<Table>, columns: Seq<Vec<u64>>) -> bool {
    forall|t: int, r: int|
        0 <= t < tables.len() && 0 <= r < columns[t]@.len() ==> has_owner(
            tables,
            t,
            #[trigger] columns[t]@[r],
        )
}

/// Resolves the join's row identifiers (one column per table, in the order of
/// `tables`) into the owners of every joined row.
pub fn row_owners(tables: &Vec<Table>, columns: &Vec<Vec<u64>>, rows: usize) -> (r: Result<
    Vec<Vec<SellerSet>>,
    ShapleyError,
>)
    requires
        columns@.len() == tables@.len(),
        forall|t: int| 0 <= t < columns@.len() ==> (#[trigger] columns@[t])@.len() == rows,
    ensures
        r is Ok <==> all_owned(tables@, columns@),
        r matches Ok(o) ==> o@.len() == rows && forall|i: int|
            0 <= i < rows ==> (#[trigger] o@[i])@.len() == tables@.len() && forall|t: int|
                0 <= t < tables@.len() ==> (#[trigger] o@[i]@[t])@ == tables@[t].seller_map@[columns@[t]@[i]]@,
        r matches Err(ShapleyError::MissingSellerMapping { table, row }) ==> table < tables@.len()
            && !has_owner(tables@, table as int, row.0) && columns@[table as int]@.contains(row.0),
{
    let mut out: Vec<Vec<SellerSet>> = Vec::new();
    let mut i: usize = 0;
    while i < rows
        invariant
            i <= rows,
            columns@.len() == tables@.len(),
            forall|t: int| 0 <= t < columns@.len() ==> (#[trigger] columns@[t])@.len() == rows,
            out@.len() == i,
            forall|a: int, t: int|
                0 <= a < i && 0 <= t < tables@.len() ==> has_owner(tables@, t, #[trigger] columns@[t]@[a]),
            forall|a: int|
                0 <= a < i ==> (#[trigger] out@[a])@.len() == tables@.len() && forall|t: int|
                    0 <= t < tables@.len() ==> (#[trigger] out@[a]@[t])@ == tables@[t].seller_map@[columns@[t]@[a]]@,
        decreases rows - i,
    {
        let mut row: Vec<SellerSet> = Vec::new();
        let mut t: usize = 0;
        while t < tables.len()
            invariant
                i < rows,
                t <= tables@.len(),
                columns@.len() == tables@.len(),
                forall|tt: int| 0 <= tt < columns@.len() ==> (#[trigger] columns@[tt])@.len() == rows,
                row@.len() == t,
                forall|tt: int| 0 <= tt < t ==> has_owner(tables@, tt, #[trigger] columns@[tt]@[i as int]),
                forall|tt: int|
                    0 <= tt < t ==> (#[trigger] row@[tt])@ == tables@[tt].seller_map@[columns@[tt]@[i as int]]@,
            decreases tables.len() - t,
        {
            let id = columns[t][i];
            match tables[t].seller_map.get(&id) {
                Some(s) => {
                    row.push(s.copy());
                },
                None => {
                    assert(columns@[t as int]@[i as int] == id);
                    return Err(ShapleyError::MissingSellerMapping { table: t, row: RowId(id) });
                },
            }
            t += 1;
        }
        out.push(row);
        i += 1;
    }
    Ok(out)
}

} // verus!
