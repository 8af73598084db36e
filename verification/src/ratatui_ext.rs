//! Ratatui buffer integration for [`SafeIcon`].
//!
//! All writes are single-cell and bounds-checked: clipping against the buffer
//! edge is a no-op, never a panic.
use crate::SafeIcon;
use ratatui::buffer::{Buffer, Cell};
use ratatui::layout::Position;
use ratatui::style::{Color, Style};
use vstd::prelude::*;

verus! {

/// A ratatui buffer: an area of the screen, and its cells.
#[verifier::external_type_specification]
#[verifier::external_body]
pub struct ExBuffer(ratatui::buffer::Buffer);

/// One cell of a ratatui buffer.
#[verifier::external_type_specification]
#[verifier::external_body]
pub struct ExCell(ratatui::buffer::Cell);

/// A ratatui style.
#[verifier::external_type_specification]
#[verifier::external_body]
pub struct ExStyle(ratatui::style::Style);

/// A ratatui color.
#[verifier::external_type_specification]
#[verifier::external_body]
pub struct ExColor(ratatui::style::Color);

/// The area of a buffer: x, y, width and height.
pub uninterp spec fn area_of(b: Buffer) -> (u16, u16, u16, u16);

/// The cells of a buffer, row by row.
pub uninterp spec fn cells_of(b: Buffer) -> Seq<Cell>;

/// The symbol that a cell holds.
pub uninterp spec fn symbol_of(c: Cell) -> Seq<char>;

/// The foreground color of a cell.
pub uninterp spec fn foreground_of(c: Cell) -> Color;

/// The background color of a cell.
pub uninterp spec fn background_of(c: Cell) -> Color;

/// The bits of a cell's modifier.
pub uninterp spec fn modifier_of(c: Cell) -> u16;

/// The foreground color that a style sets, if any.
pub uninterp spec fn foreground_set(s: Style) -> Option<Color>;

/// The background color that a style sets, if any.
pub uninterp spec fn background_set(s: Style) -> Option<Color>;

/// The bits of the modifiers that a style adds.
pub uninterp spec fn modifier_added(s: Style) -> u16;

/// The bits of the modifiers that a style removes.
pub uninterp spec fn modifier_removed(s: Style) -> u16;

/// The colors and modifiers are those of `before` with the style laid over them.
pub open spec fn wears(after: Cell, before: Cell, style: Style) -> bool {
    &&& foreground_of(after) == (match foreground_set(style) {
        Some(color) => color,
        None => foreground_of(before),
    })
    &&& background_of(after) == (match background_set(style) {
        Some(color) => color,
        None => background_of(before),
    })
    &&& modifier_of(after) == (modifier_of(before) | modifier_added(style)) & !modifier_removed(
        style,
    )
}

/// A cell after it was given a symbol.
pub uninterp spec fn with_symbol(c: Cell, symbol: Seq<char>) -> Cell;

/// A cell after a style was laid over it.
pub uninterp spec fn styled(c: Cell, style: Style) -> Cell;

/// The first coordinate behind a side that starts at `start`.
pub open spec fn edge(start: u16, extent: u16) -> int {
    if start + extent > u16::MAX {
        u16::MAX as int
    } else {
        start + extent
    }
}

/// The position lies inside the area.
pub open spec fn inside(area: (u16, u16, u16, u16), x: u16, y: u16) -> bool {
    &&& area.0 <= x < edge(area.0, area.2)
    &&& area.1 <= y < edge(area.1, area.3)
}

/// Where the cell of a position stands among the cells of the area.
pub open spec fn cell_index(area: (u16, u16, u16, u16), x: u16, y: u16) -> int {
    (y - area.1) * area.2 + (x - area.0)
}

/// The buffer has a cell at the position.
pub open spec fn has_cell(b: Buffer, x: u16, y: u16) -> bool {
    inside(area_of(b), x, y) && cell_index(area_of(b), x, y) < cells_of(b).len()
}

/// The public field `Buffer::area`, as its four numbers.
#[verifier::external_body]
fn buffer_area(b: &Buffer) -> (a: (u16, u16, u16, u16))
    ensures
        a == area_of(*b),
{
    (b.area.x, b.area.y, b.area.width, b.area.height)
}

/// `Buffer::cell_mut`: hands out the cell of a position inside the area, for
/// change in place, and nothing elsewhere or where the buffer holds fewer cells
/// than its area.
#[verifier::external_body]
fn buffer_cell_mut(b: &mut Buffer, x: u16, y: u16) -> (r: Option<&mut Cell>)
    ensures
        has_cell(*old(b), x, y) ==> {
            let i = cell_index(area_of(*old(b)), x, y);
            &&& r is Some
            &&& *r.unwrap() == cells_of(*old(b))[i]
            &&& area_of(*final(b)) == area_of(*old(b))
            &&& cells_of(*final(b)) == cells_of(*old(b)).update(i, *final(r.unwrap()))
        },
        !has_cell(*old(b), x, y) ==> r is None && *final(b) == *old(b),
{
    b.cell_mut(Position::new(x, y))
}

/// `Cell::set_symbol`: the cell holds the given symbol; its colors and modifiers
/// stay.
#[verifier::external_body]
fn cell_set_symbol(c: &mut Cell, symbol: &str)
    ensures
        *final(c) == with_symbol(*old(c), symbol@),
        symbol_of(*final(c)) == symbol@,
        foreground_of(*final(c)) == foreground_of(*old(c)),
        background_of(*final(c)) == background_of(*old(c)),
        modifier_of(*final(c)) == modifier_of(*old(c)),
{
    c.set_symbol(symbol);
}

/// `Cell::set_style`: the cell takes the colors that the style sets, gains the
/// modifiers that it adds and then loses those that it removes; its symbol stays.
#[verifier::external_body]
fn cell_set_style(c: &mut Cell, style: Style)
    ensures
        *final(c) == styled(*old(c), style),
        symbol_of(*final(c)) == symbol_of(*old(c)),
        foreground_of(*final(c)) == (match foreground_set(style) {
            Some(color) => color,
            None => foreground_of(*old(c)),
        }),
        background_of(*final(c)) == (match background_set(style) {
            Some(color) => color,
            None => background_of(*old(c)),
        }),
        modifier_of(*final(c)) == (modifier_of(*old(c)) | modifier_added(style))
            & !modifier_removed(style),
{
    c.set_style(style);
}

/// Write verified 1x1 icons into a ratatui [`Buffer`].
pub trait SetSafeIcon {
    /// Write `icon` at `(x, y)` with `style` and return the x coordinate of
    /// the next free column.
    ///
    /// The cursor always advances by exactly [`SafeIcon::CELL_WIDTH`] (== 1)
    /// on success. If the target position lies outside the buffer area the
    /// call is a no-op and `x` is returned unchanged — rendering near a
    /// clipped window edge never panics.
    fn set_safe_icon(&mut self, x: u16, y: u16, icon: &SafeIcon, style: Style) -> u16;
}

impl SetSafeIcon for Buffer {
    fn set_safe_icon(&mut self, x: u16, y: u16, icon: &SafeIcon, style: Style) -> (next: u16)
        ensures
            has_cell(*old(self), x, y) ==> {
                let i = cell_index(area_of(*old(self)), x, y);
                let cell = styled(with_symbol(cells_of(*old(self))[i], icon.glyph@), style);
                &&& next == x + SafeIcon::CELL_WIDTH
                &&& area_of(*final(self)) == area_of(*old(self))
                &&& cells_of(*final(self)) == cells_of(*old(self)).update(i, cell)
                &&& symbol_of(cell) == icon.glyph@
                &&& wears(cell, cells_of(*old(self))[i], style)
            },
            !has_cell(*old(self), x, y) ==> next == x && *final(self) == *old(self),
    {
        let (left, top, width, height) = buffer_area(self);
        let right = left.saturating_add(width);
        let bottom = top.saturating_add(height);
        if x < left || x >= right || y < top || y >= bottom {
            return x;
        }
        assert(cell_index(area_of(*self), x, y) >= 0) by (nonlinear_arith)
            requires
                inside(area_of(*self), x, y),
        ;
        match buffer_cell_mut(self, x, y) {
            Some(cell) => {
                cell_set_symbol(cell, icon.glyph);
                cell_set_style(cell, style);
                x + SafeIcon::CELL_WIDTH
            },
            None => x,
        }
    }
}

/// A buffer has the cells of its area, row by row. An area ends at the last
/// coordinate at the latest.
pub proof fn buffers_have_the_cells_of_their_area(b: Buffer, x: u16, y: u16)
    ensures
        has_cell(b, x, y) <==> {
            let (left, top, width, height) = area_of(b);
            &&& left <= x < left + width
            &&& top <= y < top + height
            &&& x < 65535
            &&& y < 65535
            &&& (y - top) * width + (x - left) < cells_of(b).len()
        },
{
}

} // verus!
