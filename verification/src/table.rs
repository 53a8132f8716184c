//! Trusted boundary to `comfy_table`, which draws the tabular form of a clue
//! collection. The table value is opaque to verification, so what it holds is
//! tracked through three names: the texts of its header cells, the texts of
//! its row cells, and whether its style draws an outer frame. The drawn text
//! itself depends on the terminal width and carries no name.

use vstd::prelude::*;

verus! {

#[verifier::external_type_specification]
#[verifier::external_body]
pub struct ExTable(comfy_table::Table);

#[verifier::external_type_specification]
#[verifier::external_body]
pub struct ExCell(comfy_table::Cell);

/// The text a cell holds: its lines joined back with `'\n'`, as
/// `comfy_table::Cell::content` returns them.
pub uninterp spec fn cell_text(cell: comfy_table::Cell) -> Seq<char>;

/// The texts of the header cells of a table, in column order; empty when no
/// header was set.
pub uninterp spec fn table_header(table: comfy_table::Table) -> Seq<Seq<char>>;

/// The cell texts of the rows of a table, in insertion order.
pub uninterp spec fn table_contents(table: comfy_table::Table) -> Seq<Seq<Seq<char>>>;

/// Whether the table's style draws a visible top border with a left edge, as
/// the full presets do.
pub uninterp spec fn table_framed(table: comfy_table::Table) -> bool;

/// Relies on `comfy_table::Table::new`: a fresh table with no header, no
/// rows, and the default full ASCII style, which draws an outer frame.
#[verifier::external_body]
pub(crate) fn table_new() -> (t: comfy_table::Table)
    ensures
        table_header(t) == Seq::<Seq<char>>::empty(),
        table_contents(t) == Seq::<Seq<Seq<char>>>::empty(),
        table_framed(t),
{
    comfy_table::Table::new()
}

/// Relies on `comfy_table::Table::load_style`, applied to the `UTF8_FULL`
/// preset with rounded corners: replaces the style, which keeps the outer
/// frame, and touches no content.
#[verifier::external_body]
pub(crate) fn table_load_rounded_style(table: &mut comfy_table::Table)
    ensures
        table_header(*final(table)) == table_header(*old(table)),
        table_contents(*final(table)) == table_contents(*old(table)),
        table_framed(*final(table)),
{
    table.load_style(comfy_table::presets::UTF8_FULL.with_rounded_corners());
}

/// Relies on `comfy_table::Table::set_content_arrangement` with the dynamic
/// arrangement: layout only, no content or style change.
#[verifier::external_body]
pub(crate) fn table_set_dynamic(table: &mut comfy_table::Table)
    ensures
        table_header(*final(table)) == table_header(*old(table)),
        table_contents(*final(table)) == table_contents(*old(table)),
        table_framed(*final(table)) == table_framed(*old(table)),
{
    table.set_content_arrangement(comfy_table::ContentArrangement::Dynamic);
}

/// Relies on `comfy_table::Cell::new`: a cell holding exactly the given
/// text.
#[verifier::external_body]
pub(crate) fn cell_new(text: &str) -> (c: comfy_table::Cell)
    ensures
        cell_text(c) == text@,
{
    comfy_table::Cell::new(text)
}

/// Relies on `comfy_table::Cell::add_attribute` with the bold attribute:
/// styling only, the text is untouched.
#[verifier::external_body]
pub(crate) fn cell_bold(cell: comfy_table::Cell) -> (c: comfy_table::Cell)
    ensures
        cell_text(c) == cell_text(cell),
{
    cell.add_attribute(comfy_table::Attribute::Bold)
}

/// Relies on `comfy_table::Cell::set_alignment` with center alignment:
/// styling only, the text is untouched.
#[verifier::external_body]
pub(crate) fn cell_centered(cell: comfy_table::Cell) -> (c: comfy_table::Cell)
    ensures
        cell_text(c) == cell_text(cell),
{
    cell.set_alignment(comfy_table::CellAlignment::Center)
}

/// Relies on `comfy_table::Table::set_header`: the header becomes exactly
/// the given cells; the rows and the style stay.
#[verifier::external_body]
pub(crate) fn table_set_header(table: &mut comfy_table::Table, header: Vec<comfy_table::Cell>)
    ensures
        table_header(*final(table)) == header@.map_values(|c: comfy_table::Cell| cell_text(c)),
        table_contents(*final(table)) == table_contents(*old(table)),
        table_framed(*final(table)) == table_framed(*old(table)),
{
    table.set_header(header);
}

/// Relies on `comfy_table::Table::add_row`: appends one row holding exactly
/// the given cell texts; the header and the style stay.
#[verifier::external_body]
pub(crate) fn table_add_row(table: &mut comfy_table::Table, row: Vec<String>)
    ensures
        table_contents(*final(table)) == table_contents(*old(table)).push(row.deep_view()),
        table_header(*final(table)) == table_header(*old(table)),
        table_framed(*final(table)) == table_framed(*old(table)),
{
    table.add_row(row);
}

/// Relies on `comfy_table::Table::column_mut` and
/// `comfy_table::Column::set_cell_alignment`: centers one column if it
/// exists, and does nothing otherwise; alignment only, no content or style
/// change.
#[verifier::external_body]
pub(crate) fn table_center_column(table: &mut comfy_table::Table, index: usize)
    ensures
        table_header(*final(table)) == table_header(*old(table)),
        table_contents(*final(table)) == table_contents(*old(table)),
        table_framed(*final(table)) == table_framed(*old(table)),
{
    if let Some(column) = table.column_mut(index) {
        column.set_cell_alignment(comfy_table::CellAlignment::Center);
    }
}

/// Relies on the `Display` implementation of `comfy_table::Table`: the drawn
/// table as text. How content is wrapped or truncated depends on the
/// terminal width, so only this much holds of every outcome: a framed table
/// begins with its top border line, which is never empty.
#[verifier::external_body]
pub(crate) fn table_render(table: &comfy_table::Table) -> (r: String)
    ensures
        table_framed(*table) ==> r@.len() > 0,
{
    table.to_string()
}

} // verus!
