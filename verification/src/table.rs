//! Tables in plain text, with columns that line up.

use vstd::prelude::*;

verus! {

/// `tabular::Table`, a table in the making.
#[verifier::external_type_specification]
#[verifier::external_body]
pub struct ExTable(tabular::Table);

/// `tabular::Row`, a row in the making.
#[verifier::external_type_specification]
#[verifier::external_body]
pub struct ExRow(tabular::Row);

/// The cells of a row.
pub uninterp spec fn cells(row: tabular::Row) -> Seq<Seq<char>>;

/// The rows of a table, none of which is a heading.
pub uninterp spec fn rows(table: tabular::Table) -> Seq<Seq<Seq<char>>>;

/// The format that a table was made with.
pub uninterp spec fn format(table: tabular::Table) -> Seq<char>;

/// How many columns a table has.
pub uninterp spec fn columns(table: tabular::Table) -> nat;

/// The text of a table with a format and rows.
pub uninterp spec fn rendered(format: Seq<char>, rows: Seq<Seq<Seq<char>>>) -> Seq<char>;

/// The format for columns that are aligned to the left, each with a text behind it.
pub open spec fn left_aligned(behind: Seq<Seq<char>>) -> Seq<char>
    decreases behind.len(),
{
    if behind.len() == 0 {
        Seq::empty()
    } else {
        left_aligned(behind.drop_last()) + "{:<}"@ + behind.last()
    }
}

/// The texts can stand in a format as they are.
pub open spec fn without_braces(behind: Seq<Seq<char>>) -> bool {
    forall|i: int, j: int|
        0 <= i < behind.len() && 0 <= j < behind[i].len() ==> #[trigger] behind[i][j] != '{'
            && behind[i][j] != '}'
}

/// `tabular::Row::new`: a row without cells.
pub assume_specification[ tabular::Row::new ]() -> (row: tabular::Row)
    ensures
        cells(row) == Seq::<Seq<char>>::empty(),
;

/// `tabular::Row::add_cell`: one more cell, with that text.
#[verifier::external_body]
pub(crate) fn add_cell(row: &mut tabular::Row, text: &str)
    ensures
        cells(*final(row)) == cells(*old(row)).push(text@),
{
    row.add_cell(text);
}

/// `tabular::Table::new`: a table without rows, with a column for each `{:<}` in the format. It
/// panics on a format that it cannot read, so only formats with nothing else in braces are let in.
#[verifier::external_body]
pub(crate) fn new_table(format: &str) -> (table: tabular::Table)
    requires
        exists|behind: Seq<Seq<char>>| #[trigger]
            without_braces(behind) && format@ == left_aligned(behind),
    ensures
        self::format(table) == format@,
        rows(table) == Seq::<Seq<Seq<char>>>::empty(),
        forall|behind: Seq<Seq<char>>| #[trigger]
            without_braces(behind) && format@ == left_aligned(behind) ==> columns(table)
                == behind.len(),
{
    tabular::Table::new(format)
}

/// `tabular::Table::add_row`: one more row at the end. It panics on a row with more or fewer cells
/// than there are columns.
#[verifier::external_body]
pub(crate) fn add_row(table: &mut tabular::Table, row: tabular::Row)
    requires
        cells(row).len() == columns(*old(table)),
    ensures
        rows(*final(table)) == rows(*old(table)).push(cells(row)),
        format(*final(table)) == format(*old(table)),
        columns(*final(table)) == columns(*old(table)),
{
    table.add_row(row);
}

/// The `Display` form of a `tabular::Table`: its rows in lines, each column as wide as its widest
/// cell. How wide a cell is, and how it is filled up, is not stated.
#[verifier::external_body]
pub(crate) fn render(table: &tabular::Table) -> (text: String)
    ensures
        text@ == rendered(format(*table), rows(*table)),
{
    table.to_string()
}

/// The format of the list of devices has six columns.
pub(crate) proof fn lemma_listing_format()
    ensures
        exists|behind: Seq<Seq<char>>| #[trigger]
            without_braces(behind) && "{:<} | {:<}:{:<} | {:<} | {:<} | {:<}"@ == left_aligned(
                behind,
            ) && behind.len() == 6,
{
    reveal_strlit("{:<} | {:<}:{:<} | {:<} | {:<} | {:<}");
    reveal_strlit("{:<}");
    reveal_strlit(" | ");
    reveal_strlit(":");
    reveal_strlit("");
    let bar = " | "@;
    let behind = seq![bar, ":"@, bar, bar, bar, ""@];
    reveal_with_fuel(left_aligned, 7);
    assert(behind.drop_last() =~= seq![bar, ":"@, bar, bar, bar]);
    assert(behind.drop_last().drop_last() =~= seq![bar, ":"@, bar, bar]);
    assert(behind.drop_last().drop_last().drop_last() =~= seq![bar, ":"@, bar]);
    assert(seq![bar, ":"@, bar].drop_last() =~= seq![bar, ":"@]);
    assert(seq![bar, ":"@].drop_last() =~= seq![bar]);
    assert(seq![bar].drop_last() =~= Seq::empty());
    assert("{:<} | {:<}:{:<} | {:<} | {:<} | {:<}"@ =~= left_aligned(behind));
    assert(without_braces(behind));
}

} // verus!
