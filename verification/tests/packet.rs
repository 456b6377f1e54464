use vitui_engine::packet::{Packet, Run, Surface};
use vitui_engine::restyle::{apply, intern_link, Link, Restyle};
use vitui_engine::style::{Cell, Color, GraphemeId, Style};

/// Write ASCII text into row `y` from column `x`, and return the run it damaged.
fn text(s: &mut Surface, x: u16, y: u16, t: &str, style: Style) -> Run {
    let mut n = 0u16;
    for ch in t.chars() {
        s.set(x + n, y, Cell::new(GraphemeId::scalar(ch), style));
        n += 1;
    }
    Run::new(y, x, x + n - 1)
}

/// Restyle the columns `lo..=hi` of row `y` the way the verb does: intern the URI once, then
/// apply the descriptor to every cell's word.
fn restyle(s: &mut Surface, y: u16, lo: u16, hi: u16, d: &Restyle<'_>) {
    let link = intern_link(s.tables_mut(), d);
    for x in lo..=hi {
        let c = s.cell(x, y);
        let style = apply(s.tables_mut(), d, link, c.style);
        s.set(x, y, Cell::new(c.grapheme, style));
    }
}

fn frame_with_two_spans() -> (Surface, Vec<Run>) {
    let mut s = Surface::new(300, 4);
    let a = text(&mut s, 0, 0, "ab", Style::new());
    let b = text(&mut s, 200, 0, "cd", Style::new());
    (s, vec![a, b])
}

fn hyperlinked_row() -> (Surface, Vec<Run>) {
    let mut s = Surface::new(8, 1);
    let r = text(&mut s, 0, 0, "abcdefgh", Style::new());
    restyle(
        &mut s,
        0,
        0,
        7,
        &Restyle {
            link: Some(Link::Uri("https://example.com/")),
            ul: Some(Color::rgb(1, 2, 3)),
            ..Default::default()
        },
    );
    (s, vec![r])
}

#[test]
fn a_packet_from_an_undamaged_frame_is_empty() {
    let mut p = Packet::new();
    let frame = Surface::new(8, 2);
    p.pack_cells(&[], &frame, frame.tables(), false, 1);
    assert!(p.is_empty());
    assert!(p.cells().is_empty());
}

#[test]
fn a_packet_carries_the_damaged_cells_and_no_others() {
    let mut p = Packet::new();
    let (frame, runs) = frame_with_two_spans();
    p.pack_cells(&runs, &frame, frame.tables(), false, 1);
    assert_eq!(p.runs().len(), 2);
    assert_eq!(p.cells().len(), 4, "not the 300 cells of the row");
}

#[test]
fn the_cells_are_concatenated_in_run_order() {
    let mut p = Packet::new();
    let (frame, runs) = frame_with_two_spans();
    p.pack_cells(&runs, &frame, frame.tables(), false, 1);
    let glyphs: String = p.cells().iter().map(|c| c.grapheme.as_scalar().unwrap()).collect();
    assert_eq!(glyphs, "abcd");
}

#[test]
fn the_packet_carries_the_size_it_was_packed_at() {
    let mut p = Packet::new();
    let frame = Surface::new(300, 80);
    p.pack_cells(&[], &frame, frame.tables(), false, 1);
    assert_eq!(p.size(), (300, 80));
}

#[test]
fn the_packet_carries_the_extended_style_its_cells_name() {
    let mut p = Packet::new();
    let (frame, runs) = hyperlinked_row();
    p.pack_cells(&runs, &frame, frame.tables(), false, 1);
    let handle = p.cells()[0].style.ext_handle().expect("the row is extended");
    let e = p.ext(handle).expect("the packet resolved it");
    assert_eq!(e.ul, Color::rgb(1, 2, 3));
    assert_eq!(p.link(e.link), Some("https://example.com/".as_bytes()));
}

#[test]
fn one_extended_style_is_copied_once_however_many_cells_carry_it() {
    let mut p = Packet::new();
    let (frame, runs) = hyperlinked_row();
    p.pack_cells(&runs, &frame, frame.tables(), false, 1);
    assert_eq!(p.cells().len(), 8);
    assert_eq!(p.exts.len(p.generation), 1);
    assert_eq!(p.links.len(p.generation), 1);
}

#[test]
fn a_uri_named_by_every_cell_of_a_row_is_copied_into_the_arena_once() {
    let mut p = Packet::new();
    let (frame, runs) = hyperlinked_row();
    p.pack_cells(&runs, &frame, frame.tables(), false, 1);
    assert_eq!(p.arena.len(), "https://example.com/".len());
    p.pack_cells(&runs, &frame, frame.tables(), false, 2);
    assert_eq!(p.arena.len(), "https://example.com/".len(), "a second pack starts the arena over");
}

#[test]
fn a_packet_of_inline_cells_carries_no_extended_tables() {
    let mut p = Packet::new();
    let (frame, runs) = frame_with_two_spans();
    p.pack_cells(&runs, &frame, frame.tables(), false, 1);
    assert_eq!(p.exts.len(p.generation), 0, "these cells are not extended");
    assert_eq!(p.links.len(p.generation), 0);
    assert_eq!(p.ext(0), None);
}

#[test]
fn packing_twice_replaces_rather_than_appends() {
    let mut p = Packet::new();
    let (frame, runs) = frame_with_two_spans();
    p.pack_cells(&runs, &frame, frame.tables(), false, 1);
    let mut second = Surface::new(300, 4);
    let r = text(&mut second, 0, 1, "###", Style::new());
    p.pack_cells(&[r], &second, second.tables(), false, 2);
    assert_eq!(p.runs().len(), 1);
    assert_eq!(p.cells().len(), 3);
}

#[test]
fn packing_a_plain_frame_after_an_extended_one_clears_the_side_tables() {
    let mut p = Packet::new();
    let (extended, runs) = hyperlinked_row();
    p.pack_cells(&runs, &extended, extended.tables(), false, 1);
    assert_eq!(p.exts.len(p.generation), 1);
    let (plain, runs) = frame_with_two_spans();
    p.pack_cells(&runs, &plain, plain.tables(), false, 2);
    assert_eq!(p.exts.len(p.generation), 0, "a stale entry would outlive the cell that named it");
    assert_eq!(p.links.len(p.generation), 0);
}

#[test]
fn a_repaint_and_a_generation_travel_with_the_packet() {
    let mut p = Packet::new();
    let (frame, runs) = frame_with_two_spans();
    p.pack_cells(&runs, &frame, frame.tables(), true, 7);
    assert!(p.repaint());
    assert_eq!(p.generation(), 7);
}
