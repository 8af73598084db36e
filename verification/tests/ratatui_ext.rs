use ratatui::buffer::Buffer;
use ratatui::layout::{Position, Rect};
use ratatui::style::{Color, Modifier, Style};
use term_icon::ratatui_ext::SetSafeIcon;
use term_icon::SafeIcon;

fn buf(w: u16, h: u16) -> Buffer {
    Buffer::empty(Rect::new(0, 0, w, h))
}

#[test]
fn writes_glyph_and_advances_one() {
    let mut b = buf(4, 1);
    let next = b.set_safe_icon(0, 0, &SafeIcon::new("│", "|"), Style::default());
    assert_eq!(next, 1);
    assert_eq!(b[(0, 0)].symbol(), "│");
    assert_eq!(b[(1, 0)].symbol(), " ");
}

#[test]
fn clips_right_edge_without_panic() {
    let mut b = buf(2, 1);
    let next = b.set_safe_icon(2, 0, &SafeIcon::new("█", "#"), Style::default());
    assert_eq!(next, 2); // x == area.right(): no mutation, no advance
    // Reading back must also avoid panicking: Option-based access.
    assert!(b.cell(Position::new(2, 0)).is_none());
}

#[test]
fn clips_bottom_edge_without_panic() {
    let mut b = buf(2, 1);
    let next = b.set_safe_icon(0, 1, &SafeIcon::new("⠁", "*"), Style::default());
    assert_eq!(next, 0);
}

#[test]
fn applies_style() {
    let mut b = buf(2, 1);
    b.set_safe_icon(
        0,
        0,
        &SafeIcon::new("─", "-"),
        Style::default().fg(Color::Red).add_modifier(Modifier::BOLD),
    );
    let cell = &b[(0, 0)];
    assert_eq!(cell.symbol(), "─");
    assert_eq!(cell.fg, Color::Red);
}

#[test]
fn offset_areas_address_their_own_cells() {
    let mut b = Buffer::empty(Rect::new(10, 5, 3, 2));
    let icon = SafeIcon::new("█", "#");
    assert_eq!(b.set_safe_icon(12, 6, &icon, Style::default()), 13);
    assert_eq!(b.content()[5].symbol(), "█");
    assert_eq!(b.content().iter().filter(|c| c.symbol() == "█").count(), 1);
    assert_eq!(b.set_safe_icon(9, 5, &icon, Style::default()), 9);
    assert_eq!(b.set_safe_icon(10, 4, &icon, Style::default()), 10);
}

#[test]
fn styles_set_colors_and_change_modifiers() {
    let mut b = buf(1, 1);
    let icon = SafeIcon::new("█", "#");
    b.set_safe_icon(
        0,
        0,
        &icon,
        Style::default()
            .bg(Color::Blue)
            .add_modifier(Modifier::BOLD | Modifier::DIM),
    );
    b.set_safe_icon(0, 0, &icon, Style::default().remove_modifier(Modifier::DIM));
    assert_eq!(b[(0, 0)].fg, Color::Reset);
    assert_eq!(b[(0, 0)].bg, Color::Blue);
    assert_eq!(b[(0, 0)].modifier, Modifier::BOLD);
}

#[test]
fn missing_cells_are_left_alone() {
    let mut b = buf(2, 2);
    b.content.truncate(1);
    let icon = SafeIcon::new("█", "#");
    assert_eq!(b.set_safe_icon(1, 1, &icon, Style::default()), 1);
    assert_eq!(b.set_safe_icon(0, 0, &icon, Style::default()), 1);
}
