use vitui_engine::caps::{Capabilities, ColorDepth};
use vitui_engine::packet::{Actuation, Packet, Run, Surface};
use vitui_engine::quant::Quantiser;
use vitui_engine::quirks::{Env, Quirks, Underlines};
use vitui_engine::restyle::{apply, intern_link, Link, Restyle};
use vitui_engine::serial::{Filter, Serializer};
use vitui_engine::style::{
    Cell, Color, ExtStyle, GraphemeId, LinkId, Style, BLINK, BOLD, CONCEAL, DIM, ITALIC, OVERLINE, REVERSE,
    STRIKETHROUGH, UNDERLINE_SHIFT,
};
use vitui_engine::tables::Tables;
use vitui_engine::wire::{csi_finals, emit_sgr_delta, push_num};

/// A modern terminal: truecolor, OSC 8, the colon SGR form, the standard underline spelling and
/// no synchronised output.
fn modern() -> Capabilities {
    let mut caps = Capabilities::on_the_wire(ColorDepth::TrueColor, false, Underlines::Standard, false);
    caps.hyperlinks = true;
    caps
}

/// The terminal a version string identifies, with its quirks laid over.
fn identified_as(version: &str) -> Capabilities {
    let mut caps = Capabilities::on_the_wire(ColorDepth::TrueColor, false, Underlines::Standard, false);
    let env = Env { alacritty: None, termux: None, term_program: None, terminal_emulator: None };
    Quirks::lookup(Some(version), &env, false).apply(&mut caps);
    caps
}

/// Write `t` into row `y` from column `x`, one scalar a cell, wide scalars followed by their
/// continuation, and return the columns it damaged.
fn text(s: &mut Surface, x: u16, y: u16, t: &str, style: Style) -> Run {
    let mut at = x;
    for ch in t.chars() {
        if is_wide(ch) {
            s.set(at, y, Cell::new(GraphemeId::wide_scalar(ch), style));
            s.set(at + 1, y, Cell::new(GraphemeId::CONTINUATION, style));
            at += 2;
        } else {
            s.set(at, y, Cell::new(GraphemeId::scalar(ch), style));
            at += 1;
        }
    }
    Run::new(y, x, at - 1)
}

fn is_wide(ch: char) -> bool {
    let c = ch as u32;
    (0x1100..=0x115F).contains(&c) || (0x2E80..=0xA4CF).contains(&c) || (0xAC00..=0xD7A3).contains(&c)
        || (0xF900..=0xFAFF).contains(&c) || (0xFF00..=0xFF60).contains(&c)
}

/// Intern a cluster of several scalars into the surface's tables and write it at `(x, y)`.
fn cluster(s: &mut Surface, x: u16, y: u16, t: &str, style: Style) -> Run {
    let id = s.tables.interner.clusters.len() as u32;
    s.tables.interner.clusters.push(t.as_bytes().to_vec());
    s.set(x, y, Cell::new(GraphemeId::Cluster { id, wide: false }, style));
    Run::new(y, x, x)
}

/// Restyle the columns `lo..=hi` of row `y` the way the verb does.
fn restyle(s: &mut Surface, y: u16, lo: u16, hi: u16, d: &Restyle<'_>) -> Run {
    let link = intern_link(s.tables_mut(), d);
    for x in lo..=hi {
        let c = s.cell(x, y);
        let style = apply(s.tables_mut(), d, link, c.style);
        s.set(x, y, Cell::new(c.grapheme, style));
    }
    Run::new(y, lo, hi)
}

/// What the damage structure reports for a set of writes: runs in row order, overlapping and
/// touching ones merged.
fn damage(mut runs: Vec<Run>) -> Vec<Run> {
    runs.sort_by_key(|r| (r.y, r.lo));
    let mut out: Vec<Run> = Vec::new();
    for r in runs {
        if let Some(last) = out.last_mut() {
            if last.y == r.y && r.lo <= last.hi + 1 {
                last.hi = last.hi.max(r.hi);
                continue;
            }
        }
        out.push(r);
    }
    out
}

fn bytes_with(frame: &Surface, runs: Vec<Run>, caps: &Capabilities) -> Vec<u8> {
    let mut packet = Packet::new();
    packet.pack_cells(&damage(runs), frame, frame.tables(), false, 1);
    let (w, h) = frame.size();
    let mut s = Serializer::new(w, h);
    s.serialize(&packet, caps).to_vec()
}

fn bytes_for(frame: &Surface, runs: Vec<Run>) -> Vec<u8> {
    bytes_with(frame, runs, &modern())
}

fn show(s: &[u8]) -> String {
    String::from_utf8_lossy(s).replace('\x1b', "ESC")
}

/// The SGR one style change spells, on a terminal `caps` describes.
fn sgr(old: Style, new: Style, caps: &Capabilities) -> String {
    let mut out = Vec::new();
    emit_sgr_delta(&mut out, old, new, &Packet::new(), caps, Quantiser::for_terminal(caps));
    show(&out)
}

/// How many cursor-positioning sequences the frame spent.
fn moves(out: &[u8]) -> usize {
    csi_finals(out).iter().filter(|b| matches!(b, b'H' | b'G' | b'C' | b'd' | b'f')).count()
}

/// How many SGR sequences the frame spent, not counting the reset it opens with.
fn style_changes(out: &[u8]) -> usize {
    csi_finals(out).iter().filter(|b| **b == b'm').count() - 1
}

/// A terminal fed the bytes: the cursor moves, the scroll region, SGR in both spellings, OSC 8,
/// and text, segmented the way the frame's own tables were filled.
struct Term {
    w: u16,
    h: u16,
    cells: Vec<Cell>,
    x: u16,
    y: u16,
    top: u16,
    bot: u16,
    attr: u64,
    fg: Color,
    bg: Color,
    ul: Color,
    link: Option<String>,
    unrecognised: usize,
    sync_blocks: usize,
}

impl Term {
    fn new(w: u16, h: u16) -> Term {
        Term {
            w,
            h,
            cells: vec![Cell::blank(); w as usize * h as usize],
            x: 0,
            y: 0,
            top: 0,
            bot: h - 1,
            attr: 0,
            fg: Color::DEFAULT,
            bg: Color::DEFAULT,
            ul: Color::DEFAULT,
            link: None,
            unrecognised: 0,
            sync_blocks: 0,
        }
    }

    fn cell(&self, x: u16, y: u16) -> Cell {
        self.cells[y as usize * self.w as usize + x as usize]
    }

    fn at(&self, x: u16, y: u16) -> char {
        self.cell(x, y).grapheme.as_scalar().unwrap_or('?')
    }

    fn row(&self, y: u16) -> String {
        (0..self.w).map(|x| self.at(x, y)).collect()
    }

    fn put(&mut self, x: u16, y: u16, c: Cell) {
        self.cells[y as usize * self.w as usize + x as usize] = c;
    }

    /// The style word the terminal is painting with, interned the way the frame's was.
    fn style(&self, tables: &mut Tables) -> Style {
        let link = match &self.link {
            Some(uri) => tables.link(uri),
            None => LinkId::none(),
        };
        let key = tables.key(ExtStyle { fg: self.fg, bg: self.bg, ul: self.ul, link });
        if key.is_extended() {
            Style::extended(self.attr, tables.exts.handle(key))
        } else {
            Style::inline(self.attr, self.fg, self.bg)
        }
    }

    fn colour(items: &[Vec<Option<u32>>], i: &mut usize) -> Option<Color> {
        let sub = &items[*i];
        let rest: Vec<Option<u32>> = if sub.len() > 1 {
            sub[1..].to_vec()
        } else {
            let kind = items.get(*i + 1)?.first().copied().flatten()?;
            let n = if kind == 5 { 1 } else { 3 };
            let mut v = vec![Some(kind)];
            for k in 0..n {
                v.push(items.get(*i + 2 + k)?.first().copied().flatten());
            }
            *i += 1 + n;
            v
        };
        match rest.first().copied().flatten()? {
            5 => Some(Color::indexed(rest.get(1).copied().flatten()? as u8)),
            2 => {
                let ch: Vec<u32> = rest[1..].iter().map(|v| v.unwrap_or(0)).collect();
                let ch = if sub.len() > 1 && ch.len() == 4 { ch[1..].to_vec() } else { ch };
                Some(Color::rgb(ch[0] as u8, ch[1] as u8, ch[2] as u8))
            },
            _ => None,
        }
    }

    fn sgr(&mut self, params: &str) {
        let items: Vec<Vec<Option<u32>>> = if params.is_empty() {
            vec![vec![Some(0)]]
        } else {
            params.split(';').map(|p| p.split(':').map(|n| n.parse().ok()).collect()).collect()
        };
        let mut i = 0;
        while i < items.len() {
            let n = items[i][0].unwrap_or(0);
            let u = UNDERLINE_SHIFT;
            match n {
                0 => {
                    self.attr = 0;
                    self.fg = Color::DEFAULT;
                    self.bg = Color::DEFAULT;
                    self.ul = Color::DEFAULT;
                },
                1 => self.attr |= BOLD,
                2 => self.attr |= DIM,
                3 => self.attr |= ITALIC,
                4 => {
                    let style = items[i].get(1).copied().flatten().unwrap_or(1) as u64;
                    self.attr = (self.attr & !(7 << u)) | (style << u);
                },
                5 => self.attr |= BLINK,
                7 => self.attr |= REVERSE,
                8 => self.attr |= CONCEAL,
                9 => self.attr |= STRIKETHROUGH,
                53 => self.attr |= OVERLINE,
                22 => self.attr &= !(BOLD | DIM),
                23 => self.attr &= !ITALIC,
                24 => self.attr &= !(7 << u),
                25 => self.attr &= !BLINK,
                27 => self.attr &= !REVERSE,
                28 => self.attr &= !CONCEAL,
                29 => self.attr &= !STRIKETHROUGH,
                55 => self.attr &= !OVERLINE,
                30..=37 => self.fg = Color::indexed((n - 30) as u8),
                90..=97 => self.fg = Color::indexed((n - 90 + 8) as u8),
                40..=47 => self.bg = Color::indexed((n - 40) as u8),
                100..=107 => self.bg = Color::indexed((n - 100 + 8) as u8),
                39 => self.fg = Color::DEFAULT,
                49 => self.bg = Color::DEFAULT,
                59 => self.ul = Color::DEFAULT,
                38 | 48 | 58 => match Term::colour(&items, &mut i) {
                    Some(c) if n == 38 => self.fg = c,
                    Some(c) if n == 48 => self.bg = c,
                    Some(c) => self.ul = c,
                    None => self.unrecognised += 1,
                },
                _ => self.unrecognised += 1,
            }
            i += 1;
        }
    }

    fn scroll(&mut self, up: bool, by: u16) {
        let (top, bot) = (self.top, self.bot);
        for _ in 0..by {
            if up {
                for y in top..bot {
                    for x in 0..self.w {
                        let c = self.cell(x, y + 1);
                        self.put(x, y, c);
                    }
                }
                for x in 0..self.w {
                    self.put(x, bot, Cell::blank());
                }
            } else {
                for y in (top + 1..=bot).rev() {
                    for x in 0..self.w {
                        let c = self.cell(x, y - 1);
                        self.put(x, y, c);
                    }
                }
                for x in 0..self.w {
                    self.put(x, top, Cell::blank());
                }
            }
        }
    }

    fn csi(&mut self, params: &str, fin: u8) {
        let nums: Vec<u32> = params.split(';').map(|n| n.parse().unwrap_or(0)).collect();
        let first = |d: u32| if nums[0] == 0 { d } else { nums[0] };
        match fin {
            b'H' => {
                self.y = (first(1) - 1) as u16;
                self.x = (nums.get(1).copied().filter(|n| *n > 0).unwrap_or(1) - 1) as u16;
            },
            b'G' => self.x = (first(1) - 1) as u16,
            b'C' => self.x = (self.x + first(1) as u16).min(self.w - 1),
            b'S' => self.scroll(true, first(1) as u16),
            b'T' => self.scroll(false, first(1) as u16),
            b'r' => {
                self.top = if params.is_empty() { 0 } else { (first(1) - 1) as u16 };
                self.bot = nums.get(1).copied().filter(|n| *n > 0).map(|n| (n - 1) as u16).unwrap_or(self.h - 1);
                self.x = 0;
                self.y = 0;
            },
            b'm' => self.sgr(params),
            b'h' if params == "?2026" => self.sync_blocks += 1,
            b'l' if params == "?2026" => {},
            _ => self.unrecognised += 1,
        }
    }

    fn feed(&mut self, bytes: &[u8], tables: &mut Tables) {
        let text = String::from_utf8(bytes.to_vec()).expect("the wire is UTF-8");
        let b = text.as_bytes();
        let mut i = 0;
        while i < b.len() {
            if b[i] == 0x1b && b.get(i + 1) == Some(&b'[') {
                let mut j = i + 2;
                while !(0x40..=0x7e).contains(&b[j]) {
                    j += 1;
                }
                self.csi(&text[i + 2..j], b[j]);
                i = j + 1;
            } else if b[i] == 0x1b && b.get(i + 1) == Some(&b']') {
                let mut j = i + 2;
                while !(b[j] == 0x1b && b.get(j + 1) == Some(&b'\\')) {
                    j += 1;
                }
                let body = &text[i + 2..j];
                match body.strip_prefix("8;;") {
                    Some("") => self.link = None,
                    Some(uri) => self.link = Some(uri.to_string()),
                    None => self.unrecognised += 1,
                }
                i = j + 2;
            } else if b[i] == b'\r' {
                self.x = 0;
                i += 1;
            } else if b[i] == b'\n' {
                self.y += 1;
                i += 1;
            } else {
                let mut chars = text[i..].chars();
                let ch = chars.next().unwrap();
                let mut end = i + ch.len_utf8();
                for next in chars {
                    if !('\u{300}'..='\u{36f}').contains(&next) {
                        break;
                    }
                    end += next.len_utf8();
                }
                let glyph = &text[i..end];
                let wide = is_wide(ch);
                let g = if end > i + ch.len_utf8() {
                    let id = tables.interner.clusters.iter().position(|c| c.as_slice() == glyph.as_bytes()).expect("interned") as u32;
                    GraphemeId::Cluster { id, wide }
                } else if wide {
                    GraphemeId::wide_scalar(ch)
                } else {
                    GraphemeId::scalar(ch)
                };
                let style = self.style(tables);
                self.put(self.x, self.y, Cell::new(g, style));
                if wide {
                    self.put(self.x + 1, self.y, Cell::new(GraphemeId::CONTINUATION, style));
                }
                self.x = (self.x + if wide { 2 } else { 1 }).min(self.w - 1);
                i = end;
            }
        }
    }
}

fn replay(frame: &Surface, runs: Vec<Run>) -> Term {
    let (w, h) = frame.size();
    let mut term = Term::new(w, h);
    let mut tables = Tables::new();
    term.feed(&bytes_for(frame, runs), &mut tables);
    assert_eq!(term.unrecognised, 0);
    term
}

/// One serializer across frames, the way a screen drives it.
struct Frames {
    serializer: Serializer,
    packet: Packet,
    caps: Capabilities,
    generation: u64,
}

impl Frames {
    fn new(w: u16, h: u16) -> Frames {
        Frames { serializer: Serializer::new(w, h), packet: Packet::new(), caps: modern(), generation: 0 }
    }

    fn with_filter(w: u16, h: u16, filter: Filter) -> Frames {
        let mut f = Frames::new(w, h);
        f.serializer.set_filter(filter);
        f
    }

    fn present(&mut self, frame: &Surface, runs: Vec<Run>) -> Vec<u8> {
        self.present_with(frame, runs, false)
    }

    fn present_with(&mut self, frame: &Surface, runs: Vec<Run>, repaint: bool) -> Vec<u8> {
        self.generation += 1;
        self.packet.pack_cells(&damage(runs), frame, frame.tables(), repaint, self.generation);
        self.serializer.serialize(&self.packet, &self.caps).to_vec()
    }
}

fn hyperlinked(uri: &str) -> (Surface, Vec<Run>) {
    let mut frame = Surface::new(4, 1);
    let a = text(&mut frame, 0, 0, "ab", Style::new());
    let b = restyle(&mut frame, 0, 0, 1, &Restyle { link: Some(Link::Uri(uri)), ..Default::default() });
    (frame, vec![a, b])
}

#[test]
fn an_empty_packet_emits_nothing() {
    assert!(bytes_for(&Surface::new(8, 2), vec![]).is_empty());
}

#[test]
fn a_frame_opens_with_an_sgr_reset() {
    let mut f = Surface::new(8, 2);
    let r = text(&mut f, 0, 0, "a", Style::new());
    assert!(bytes_for(&f, vec![r]).starts_with(b"\x1b[0m"));
}

#[test]
fn a_run_costs_one_cursor_move() {
    let mut f = Surface::new(8, 2);
    let r = text(&mut f, 2, 1, "abc", Style::new());
    assert_eq!(moves(&bytes_for(&f, vec![r])), 1);
    assert_eq!(replay(&f, vec![r]).row(1), "  abc   ");
}

#[test]
fn two_runs_on_one_row_cost_two_moves() {
    let mut f = Surface::new(20, 1);
    let a = text(&mut f, 0, 0, "ab", Style::new());
    let b = text(&mut f, 10, 0, "cd", Style::new());
    assert_eq!(moves(&bytes_for(&f, vec![a, b])), 2);
    assert_eq!(replay(&f, vec![a, b]).row(0), "ab        cd        ");
}

#[test]
fn a_style_change_inside_a_run_emits_one_sgr() {
    let mut f = Surface::new(8, 1);
    let a = text(&mut f, 0, 0, "ab", Style::new());
    let b = text(&mut f, 2, 0, "cd", Style::new().bold());
    let out = bytes_for(&f, vec![a, b]);
    assert_eq!(style_changes(&out), 1);
    assert_eq!(show(&out), "ESC[0mESC[1;1HabESC[1mcd");
}

#[test]
fn one_style_covers_a_whole_run() {
    let mut f = Surface::new(300, 1);
    let r = text(&mut f, 0, 0, &"x".repeat(300), Style::new().bold());
    assert_eq!(style_changes(&bytes_for(&f, vec![r])), 1, "one SGR covers a run, however many cells it has");
}

#[test]
fn removing_bold_reapplies_dim() {
    assert_eq!(sgr(Style::new().bold().dim(), Style::new().dim(), &modern()), "ESC[22;2m");
}

#[test]
fn removing_dim_reapplies_bold() {
    assert_eq!(sgr(Style::new().bold().dim(), Style::new().bold(), &modern()), "ESC[22;1m");
}

#[test]
fn adding_bold_alone_is_one_parameter() {
    assert_eq!(sgr(Style::new(), Style::new().bold(), &modern()), "ESC[1m");
}

#[test]
fn sgr_21_is_never_emitted_for_a_double_underline() {
    assert_eq!(sgr(Style::new(), Style::new().underline_double(), &modern()), "ESC[4:2m");
}

#[test]
fn dropping_an_underline_emits_24() {
    assert_eq!(sgr(Style::new().underline_curly(), Style::new(), &modern()), "ESC[24m");
}

#[test]
fn the_low_sixteen_palette_entries_are_spelled_short() {
    let caps = modern();
    for (style, expected) in [
        (Style::new().fg(Color::indexed(3)), "ESC[33m"),
        (Style::new().fg(Color::indexed(9)), "ESC[91m"),
        (Style::new().bg(Color::indexed(1)), "ESC[41m"),
        (Style::new().bg(Color::indexed(15)), "ESC[107m"),
    ] {
        assert_eq!(sgr(Style::new(), style, &caps), expected);
    }
}

#[test]
fn a_palette_entry_above_fifteen_needs_the_long_form() {
    assert_eq!(sgr(Style::new(), Style::new().fg(Color::indexed(200)), &modern()), "ESC[38:5:200m");
}

#[test]
fn truecolor_is_three_channels() {
    assert_eq!(
        sgr(Style::new(), Style::new().bg(Color::rgb(1, 2, 255)), &modern()),
        "ESC[48:2::1:2:255m",
        "the empty colour-space id is between the 2 and the channels"
    );
    assert_eq!(sgr(Style::new(), Style::new().fg(Color::rgb(3, 4, 5)), &modern()), "ESC[38:2::3:4:5m");
}

#[test]
fn returning_to_the_default_colour_emits_39_and_49() {
    assert_eq!(
        sgr(Style::new().fg(Color::rgb(1, 2, 3)).bg(Color::indexed(4)), Style::new(), &modern()),
        "ESC[39;49m"
    );
}

#[test]
fn an_extended_cell_is_painted_in_the_colours_its_table_entry_names() {
    let mut frame = Surface::new(4, 1);
    let a = text(&mut frame, 0, 0, "ab", Style::new());
    let b = restyle(
        &mut frame,
        0,
        0,
        1,
        &Restyle {
            fg: Some(Color::indexed(3)),
            bg: Some(Color::rgb(1, 2, 255)),
            link: Some(Link::Uri("https://example.com/")),
            ..Default::default()
        },
    );
    let out = show(&bytes_for(&frame, vec![a, b]));
    assert_eq!(
        out,
        "ESC[0mESC[1;1HESC[33;48:2::1:2:255mESC]8;;https://example.com/ESC\\abESC]8;;ESC\\",
        "the entry's colours reached the wire, not its handle"
    );
}

#[test]
fn a_frame_closes_the_hyperlink_it_opened() {
    let (frame, runs) = hyperlinked("https://example.com/");
    let out = show(&bytes_for(&frame, runs));
    assert!(out.ends_with("ESC]8;;ESC\\"), "{out}");
    assert_eq!(out.matches("ESC]8;;").count(), 2, "one open, one close: {out}");
}

#[test]
fn a_terminal_without_osc8_gets_the_colours_and_not_the_link() {
    let (frame, runs) = hyperlinked("https://example.com/");
    let mute = Capabilities::answering(ColorDepth::TrueColor, None, None);
    assert!(!mute.hyperlinks, "kitty answered nothing, so nothing is inferred");
    let out = show(&bytes_with(&frame, runs, &mute));
    assert!(!out.contains("]8;"), "{out}");
    assert!(out.contains("ESC[1;1H"), "the cells still went out: {out}");
}

#[test]
fn dropping_an_underline_colour_is_fifty_nine() {
    let mut frame = Surface::new(4, 1);
    let a = text(&mut frame, 0, 0, "ab", Style::new());
    let b = restyle(&mut frame, 0, 0, 0, &Restyle { ul: Some(Color::rgb(9, 8, 7)), ..Default::default() });
    let with = frame.cell(0, 0).style;
    let mut packet = Packet::new();
    packet.pack_cells(&damage(vec![a, b]), &frame, frame.tables(), false, 1);
    let mut out = Vec::new();
    emit_sgr_delta(&mut out, with, Style::new(), &packet, &modern(), Quantiser::transparent());
    assert_eq!(show(&out), "ESC[59m");
}

#[test]
fn conpty_gets_its_own_underline_colour_spelling() {
    let mut frame = Surface::new(4, 1);
    let a = text(&mut frame, 0, 0, "ab", Style::new());
    let b = restyle(&mut frame, 0, 0, 1, &Restyle { ul: Some(Color::rgb(9, 8, 7)), ..Default::default() });
    let conpty = Capabilities::on_the_wire(ColorDepth::TrueColor, false, Underlines::ConPty, true);
    let out = show(&bytes_with(&frame, vec![a, b], &conpty));
    assert!(out.contains("58;2;9;8;7"), "{out}");
    assert!(!out.contains("58:"), "{out}");
}

#[test]
fn the_round_trip_closes_on_an_underline_colour() {
    let mut frame = Surface::new(4, 1);
    let a = text(&mut frame, 0, 0, "ab", Style::new());
    let b = restyle(&mut frame, 0, 0, 1, &Restyle { ul: Some(Color::rgb(9, 8, 7)), ..Default::default() });
    let out = show(&bytes_for(&frame, vec![a, b]));
    assert!(out.contains("58:2::9:8:7"), "{out}");
}

#[test]
fn legacy_sgr_spells_a_colour_the_way_xterm_did() {
    let legacy = Capabilities::on_the_wire(ColorDepth::TrueColor, false, Underlines::Standard, true);
    assert_eq!(sgr(Style::new(), Style::new().bg(Color::rgb(1, 2, 255)), &legacy), "ESC[48;2;1;2;255m");
    assert_eq!(sgr(Style::new(), Style::new().fg(Color::indexed(200)), &legacy), "ESC[38;5;200m");
}

#[test]
fn an_sgr_that_would_say_nothing_emits_nothing() {
    assert!(
        sgr(Style::new().bold(), Style::new().bold(), &modern()).is_empty(),
        "an empty CSI m is a reset, not a no-op"
    );
}

#[test]
fn the_mirror_records_what_was_emitted() {
    let mut f = Surface::new(8, 2);
    let r = text(&mut f, 3, 1, "z", Style::new().bold());
    let mut packet = Packet::new();
    packet.pack_cells(&[r], &f, f.tables(), false, 1);
    let mut s = Serializer::new(8, 2);
    s.serialize(&packet, &modern());
    assert_eq!(s.mirror().cell(3, 1), f.cell(3, 1));
    assert_eq!(
        s.mirror().cell(0, 0),
        Cell::unknown(),
        "nothing else was emitted, so nothing else is known"
    );
}

#[test]
fn a_continuation_cell_emits_no_glyph() {
    let mut f = Surface::new(6, 1);
    let r = text(&mut f, 0, 0, "ab", Style::new());
    f.set(1, 0, Cell::new(GraphemeId::CONTINUATION, Style::new()));
    assert_eq!(replay(&f, vec![r]).row(0), "a     ", "the `b` was replaced and never printed");
}

#[test]
fn a_run_beginning_on_a_continuation_still_places_the_rest_correctly() {
    let mut f = Surface::new(6, 1);
    let r = text(&mut f, 2, 0, "ab", Style::new());
    f.set(2, 0, Cell::new(GraphemeId::CONTINUATION, Style::new().bold()));
    let term = replay(&f, vec![r]);
    assert_eq!(term.row(0), "   b  ", "skipping the first cell of a run must not shift what follows");
    assert_eq!(term.cell(2, 0), Cell::blank());
}

#[test]
fn a_frame_that_changes_nothing_emits_no_bytes_at_all() {
    let mut frame = Surface::new(8, 2);
    let mut f = Frames::new(8, 2);
    let r = text(&mut frame, 0, 0, "abcdefgh", Style::new());
    assert!(!f.present(&frame, vec![r]).is_empty(), "the first frame writes the row: its mirror row is unknown");
    let r = text(&mut frame, 0, 0, "abcdefgh", Style::new());
    let second = f.present(&frame, vec![r]);
    assert!(second.is_empty(), "eight cells were damaged and none of them changed: {}", show(&second));
}

#[test]
fn a_blank_the_mirror_never_wrote_is_still_written() {
    let mut frame = Surface::new(4, 1);
    let mut f = Frames::new(4, 1);
    let r = text(&mut frame, 0, 0, "    ", Style::new());
    let out = f.present(&frame, vec![r]);
    assert!(out.ends_with(b"    "), "four blanks nobody has written are four blanks to write: {}", show(&out));
}

#[test]
fn a_repaint_forgets_every_cell_and_the_next_frame_emits_them_all() {
    let mut frame = Surface::new(8, 1);
    let mut f = Frames::new(8, 1);
    let r = text(&mut frame, 0, 0, "abcdefgh", Style::new());
    f.present(&frame, vec![r]);
    assert!(f.serializer.mirror().is_known(0), "one frame wrote all of it");
    assert!(f.present(&frame, vec![r]).is_empty(), "nothing changed, so nothing goes out");
    let after = f.present_with(&frame, vec![r], true);
    assert!(after.ends_with(b"abcdefgh"), "a repaint is every cell again: {}", show(&after));
}

#[test]
fn the_filter_that_ships_is_priced_in_bytes() {
    assert_eq!(Serializer::new(8, 2).filter(), Filter::Bytes);
}

/// A row of dots, made known, then its two ends changed with `gap` columns between them.
fn changed_ends(gap: usize) -> (Surface, Frames, Vec<Run>) {
    let width = gap as u16 + 2;
    let mut frame = Surface::new(width, 1);
    let mut f = Frames::new(width, 1);
    let settled: String = std::iter::repeat_n('.', width as usize).collect();
    let r = text(&mut frame, 0, 0, &settled, Style::new());
    f.present(&frame, vec![r]);
    let changed = format!("X{}Y", ".".repeat(gap));
    let r = text(&mut frame, 0, 0, &changed, Style::new());
    (frame, f, vec![r])
}

#[test]
fn a_cheap_gap_is_painted_through_rather_than_moved_over() {
    let (frame, mut f, runs) = changed_ends(2);
    let merged = f.present(&frame, runs);
    assert_eq!(moves(&merged), 1, "one move for the frame: {}", show(&merged));
    assert!(
        merged.ends_with(b"X..Y"),
        "the two unchanged columns went out between the two changed ones: {}",
        show(&merged)
    );

    let (frame, mut f, runs) = changed_ends(2);
    f.serializer.set_filter(Filter::Strict);
    let strict = f.present(&frame, runs);
    assert_eq!(moves(&strict), 2, "strict pays for the move: {}", show(&strict));
    assert!(merged.len() < strict.len(), "merged {} bytes, strict {}", merged.len(), strict.len());
}

#[test]
fn a_gap_of_braille_is_moved_over_and_a_cell_threshold_cannot_tell() {
    let mut frame = Surface::new(4, 1);
    let mut f = Frames::new(4, 1);
    let r = text(&mut frame, 0, 0, ".\u{283F}\u{283F}.", Style::new());
    f.present(&frame, vec![r]);
    let r = text(&mut frame, 0, 0, "X\u{283F}\u{283F}Y", Style::new());
    let priced = f.present(&frame, vec![r]);
    assert_eq!(moves(&priced), 2, "six bytes of braille lose to a four-byte move: {}", show(&priced));

    let mut frame = Surface::new(4, 1);
    let mut f = Frames::with_filter(4, 1, Filter::Cells(6));
    let r = text(&mut frame, 0, 0, ".\u{283F}\u{283F}.", Style::new());
    f.present(&frame, vec![r]);
    let r = text(&mut frame, 0, 0, "X\u{283F}\u{283F}Y", Style::new());
    let counted = f.present(&frame, vec![r]);
    assert_eq!(moves(&counted), 1, "a cell count sees two cells and merges");
    assert!(
        counted.len() > priced.len(),
        "the threshold spent bytes to save an escape: {} against {}",
        counted.len(),
        priced.len()
    );
}

/// A 300-column row whose changed cells stand 1, 2, 3, ... columns apart, everything else
/// `filler`: every gap width appears once, so a threshold of `n` columns merges exactly the first
/// `n` gaps.
fn triangular_gaps(filler: char, filter: Filter) -> usize {
    const WIDTH: u16 = 300;
    let mut changed = vec![0usize];
    let mut gap = 1usize;
    while changed.last().expect("seeded") + gap + 1 < WIDTH as usize {
        changed.push(changed.last().expect("seeded") + gap + 1);
        gap += 1;
    }
    let settled: String = std::iter::repeat_n(filler, WIDTH as usize).collect();
    let mut frame = Surface::new(WIDTH, 1);
    let mut f = Frames::with_filter(WIDTH, 1, filter);
    let r = text(&mut frame, 0, 0, &settled, Style::new());
    f.present(&frame, vec![r]);
    let mut next: Vec<char> = settled.chars().collect();
    for &at in &changed {
        next[at] = 'X';
    }
    let next: String = next.into_iter().collect();
    let r = text(&mut frame, 0, 0, &next, Style::new());
    f.present(&frame, vec![r]).len()
}

#[test]
fn a_fixed_gap_threshold_is_in_the_wrong_unit_and_the_two_fillers_want_opposite_ones() {
    const THRESHOLDS: [u16; 7] = [0, 4, 8, 12, 16, 20, 24];
    let mut best = Vec::new();
    for (what, filler) in [("one-byte cluster", '.'), ("three-byte cluster", '\u{283F}')] {
        let swept: Vec<usize> = THRESHOLDS.iter().map(|&n| triangular_gaps(filler, Filter::Cells(n))).collect();
        let priced = triangular_gaps(filler, Filter::Bytes);
        let at = swept
            .iter()
            .enumerate()
            .min_by_key(|(_, b)| **b)
            .map(|(i, _)| i)
            .expect("seven points");
        println!(
            "a row of triangular gaps in a {what}, thresholds {THRESHOLDS:?}: {swept:?}; cheapest threshold {} \
             columns; priced in bytes {priced}",
            THRESHOLDS[at]
        );
        assert!(
            priced <= swept[at],
            "pricing each gap on its own can never lose to the best single threshold: {priced} against {}",
            swept[at]
        );
        best.push(THRESHOLDS[at]);
    }
    assert_ne!(
        best[0], best[1],
        "the two fillers want the same threshold, so this fixture no longer says why there is none: {best:?}"
    );
    assert_eq!(
        best[1], 0,
        "a three-byte cluster is never worth painting through: every gap costs three times the columns \
         and a move costs three or four bytes whatever the distance"
    );
}

#[test]
fn without_the_comparison_every_damaged_cell_goes_out_again() {
    let mut frame = Surface::new(8, 1);
    let mut f = Frames::with_filter(8, 1, Filter::Off);
    let r = text(&mut frame, 0, 0, "abcdefgh", Style::new());
    f.present(&frame, vec![r]);
    let r = text(&mut frame, 0, 0, "abcdefgh", Style::new());
    let again = f.present(&frame, vec![r]);
    assert!(again.ends_with(b"abcdefgh"), "nothing is compared, so all eight go out: {}", show(&again));
    assert_eq!(f.serializer.filter(), Filter::Off);
}

#[test]
fn two_runs_on_one_row_are_bridged_out_of_the_mirror() {
    let mut frame = Surface::new(8, 1);
    let mut f = Frames::new(8, 1);
    let r = text(&mut frame, 0, 0, "abcdefgh", Style::new());
    f.present(&frame, vec![r]);
    let a = text(&mut frame, 0, 0, "X", Style::new());
    let b = text(&mut frame, 3, 0, "Y", Style::new());
    let bridged = f.present(&frame, vec![a, b]);
    assert_eq!(moves(&bridged), 1, "one move, not two: {}", show(&bridged));
    assert!(bridged.ends_with(b"XbcY"), "the untouched columns were repainted out of the mirror: {}", show(&bridged));
}

#[test]
fn a_gap_the_mirror_has_never_written_is_never_bridged() {
    let mut frame = Surface::new(8, 1);
    let mut f = Frames::new(8, 1);
    let a = text(&mut frame, 0, 0, "a", Style::new());
    let d = text(&mut frame, 3, 0, "d", Style::new());
    f.present(&frame, vec![a, d]);
    let x = text(&mut frame, 0, 0, "X", Style::new());
    let y = text(&mut frame, 3, 0, "Y", Style::new());
    let out = f.present(&frame, vec![x, y]);
    assert_eq!(moves(&out), 2, "two runs, two moves: {}", show(&out));
    assert!(!out.contains(&b'b') && !out.contains(&b'c'), "an unknown row's mirror is not a fact: {}", show(&out));
}

#[test]
fn a_bridge_is_refused_where_the_packet_cannot_resolve_the_mirrors_handle() {
    fn bridged(gap: &str, as_cluster: bool) -> (usize, String) {
        let mut frame = Surface::new(12, 1);
        let mut f = Frames::new(12, 1);
        let a = text(&mut frame, 0, 0, ".", Style::new());
        let g = if as_cluster { cluster(&mut frame, 1, 0, gap, Style::new()) } else { text(&mut frame, 1, 0, gap, Style::new()) };
        let c = text(&mut frame, 2, 0, &".".repeat(10), Style::new());
        f.present(&frame, vec![a, g, c]);
        let x = text(&mut frame, 0, 0, "⠿", Style::new());
        let z = text(&mut frame, 2, 0, "Z", Style::new());
        let out = f.present(&frame, vec![x, z]);
        (moves(&out), show(&out))
    }

    let (ascii, bytes) = bridged(".", false);
    assert_eq!(ascii, 1, "one ASCII byte beats the four-byte move: {bytes}");
    let (scalar, bytes) = bridged("⠿", false);
    assert_eq!(scalar, 1, "three bytes still beat it, and a scalar handle is its own bytes: {bytes}");
    let (cluster, bytes) = bridged("a\u{300}", true);
    assert_eq!(cluster, 2, "the same three bytes, in a handle this packet does not carry: {bytes}");
}

#[test]
fn a_bridge_is_refused_where_the_packet_cannot_resolve_the_mirrors_extended_style() {
    fn bridged(extend: bool) -> (usize, String) {
        let mut frame = Surface::new(300, 1);
        let mut f = Frames::new(300, 1);
        let r = text(&mut frame, 0, 0, &".".repeat(300), Style::new());
        let mut runs = vec![r];
        if extend {
            runs.push(restyle(&mut frame, 0, 98, 98, &Restyle { ul: Some(Color::rgb(1, 2, 3)), ..Default::default() }));
        }
        f.present(&frame, runs);
        let a = text(&mut frame, 97, 0, "⠿", Style::new());
        let z = text(&mut frame, 99, 0, "Z", Style::new());
        let out = f.present(&frame, vec![a, z]);
        (moves(&out), show(&out))
    }

    let (inline, bytes) = bridged(false);
    assert_eq!(inline, 1, "one inline byte beats the six-byte move: {bytes}");
    let (extended, bytes) = bridged(true);
    assert_eq!(extended, 2, "the same byte, in a style word whose handle this packet does not carry: {bytes}");
}

#[test]
fn a_gap_inside_a_run_carries_its_own_handles() {
    let mut frame = Surface::new(3, 1);
    let mut f = Frames::new(3, 1);
    let a = text(&mut frame, 0, 0, ".", Style::new());
    let b = cluster(&mut frame, 1, 0, "a\u{300}", Style::new());
    let c = text(&mut frame, 2, 0, ".", Style::new());
    f.present(&frame, vec![a, b, c]);
    let a = text(&mut frame, 0, 0, "⠿", Style::new());
    let b = Run::new(0, 1, 1);
    let c = text(&mut frame, 2, 0, "Y", Style::new());
    let out = f.present(&frame, vec![a, b, c]);
    assert_eq!(moves(&out), 1, "three bytes beat a four-byte move: {}", show(&out));
}

#[test]
fn a_style_change_alone_is_a_change() {
    let mut frame = Surface::new(4, 1);
    let mut f = Frames::new(4, 1);
    let r = text(&mut frame, 0, 0, "abcd", Style::new());
    f.present(&frame, vec![r]);
    let r = text(&mut frame, 0, 0, "abcd", Style::new().bold());
    let out = f.present(&frame, vec![r]);
    assert_eq!(style_changes(&out), 1, "{}", show(&out));
    assert!(out.ends_with(b"abcd"), "{}", show(&out));
}

#[test]
fn each_encoding_is_used_where_it_is_the_cheapest() {
    let mut f = Surface::new(20, 3);
    let a = text(&mut f, 0, 0, "a", Style::new());
    let b = text(&mut f, 2, 0, "b", Style::new());
    let out = show(&bytes_for(&f, vec![a, b]));
    assert_eq!(out, "ESC[0mESC[1;1HaESC[Cb", "{out}");

    let mut f = Surface::new(40, 1);
    let a = text(&mut f, 0, 0, "a", Style::new());
    let b = text(&mut f, 20, 0, "b", Style::new());
    let out = show(&bytes_for(&f, vec![a, b]));
    assert!(out.contains("ESC[21G"), "{out}");

    let mut f = Surface::new(20, 1);
    let a = text(&mut f, 6, 0, "ab", Style::new());
    let b = text(&mut f, 10, 0, "cd", Style::new());
    let out = show(&bytes_for(&f, vec![a, b]));
    assert!(out.contains("ESC[2C"), "{out}");

    let mut f = Surface::new(20, 4);
    let a = text(&mut f, 1, 0, "a", Style::new());
    let b = text(&mut f, 0, 1, "b", Style::new());
    let out = show(&bytes_for(&f, vec![a, b]));
    assert!(out.contains("a\r\nb"), "{out}");

    let mut f = Surface::new(20, 4);
    let a = text(&mut f, 0, 0, "a", Style::new());
    let b = text(&mut f, 0, 3, "b", Style::new());
    let out = show(&bytes_for(&f, vec![a, b]));
    assert!(out.contains("a\r\n\n\nb"), "{out}");
}

#[test]
fn shortest_beats_cup_only_on_a_row_of_short_runs() {
    let mut f = Surface::new(300, 1);
    let mut runs = Vec::new();
    for x in (0..300).step_by(3) {
        runs.push(text(&mut f, x, 0, "x", Style::new()));
    }
    let bytes = bytes_for(&f, runs.clone()).len();
    let cup_only = 4 + (0..300u32).step_by(3).map(|x| 4 + 1 + (x + 1).to_string().len() + 1).sum::<usize>();
    assert!(bytes < cup_only, "shortest spent {bytes} where CUP-only spends {cup_only}");
    assert_eq!(replay(&f, runs).at(297, 0), 'x');
}

#[test]
fn a_non_ascii_run_forces_the_next_move_on_its_row_to_be_absolute() {
    let ascii = {
        let mut f = Surface::new(20, 1);
        let a = text(&mut f, 6, 0, "ab", Style::new());
        let b = text(&mut f, 10, 0, "cd", Style::new());
        bytes_for(&f, vec![a, b])
    };
    assert!(csi_finals(&ascii).iter().any(|b| *b == b'C'), "CUF is strictly cheaper here: {}", show(&ascii));

    let mut f = Surface::new(20, 1);
    let a = text(&mut f, 6, 0, "a\u{e9}", Style::new());
    let b = text(&mut f, 10, 0, "cd", Style::new());
    let out = bytes_for(&f, vec![a, b]);
    assert!(csi_finals(&out).iter().all(|b| *b != b'C'), "no CUF after a non-ASCII cluster: {}", show(&out));
    assert!(show(&out).contains("ESC[11G"), "the move is CHA instead: {}", show(&out));
}

#[test]
fn the_rule_is_cleared_by_moving_to_another_row() {
    let mut f = Surface::new(20, 2);
    let a = text(&mut f, 0, 0, "\u{e9}", Style::new());
    let b = text(&mut f, 6, 1, "ab", Style::new());
    let c = text(&mut f, 10, 1, "cd", Style::new());
    let out = show(&bytes_for(&f, vec![a, b, c]));
    assert!(out.contains("ESC[2C"), "row 1 has emitted nothing wide: {out}");
}

#[test]
fn a_width_disagreement_does_not_compound_along_the_row() {
    let mut f = Surface::new(20, 1);
    let a = text(&mut f, 0, 0, "漢", Style::new());
    let b = text(&mut f, 4, 0, "漢", Style::new());
    let c = text(&mut f, 8, 0, "cd", Style::new());
    let bytes = bytes_for(&f, vec![a, b, c]);
    assert!(csi_finals(&bytes).iter().all(|b| *b != b'C'), "the serializer chose absolute moves: {}", show(&bytes));
    let mut term = Term::new(20, 1);
    term.feed(&bytes, &mut Tables::new());
    assert_eq!(term.at(8, 0), 'c');
    assert_eq!(term.at(9, 0), 'd');
}

#[test]
fn the_frame_is_wrapped_in_mode_2026_where_the_terminal_has_it() {
    let mut f = Surface::new(80, 24);
    let r = text(&mut f, 40, 12, "x", Style::new());
    let syncing = Capabilities::on_the_wire(ColorDepth::TrueColor, true, Underlines::Standard, false);
    let out = bytes_with(&f, vec![r], &syncing);
    assert!(out.starts_with(b"\x1b[?2026h\x1b[0m"), "{}", show(&out));
    assert!(out.ends_with(b"\x1b[?2026l"), "{}", show(&out));
    assert_eq!(out.len(), 29, "the 29-byte caret frame: {}", show(&out));
}

#[test]
fn a_terminal_without_mode_2026_is_sent_none() {
    let mut f = Surface::new(8, 1);
    let r = text(&mut f, 0, 0, "a", Style::new());
    assert!(!show(&bytes_for(&f, vec![r])).contains("2026"));
}

#[test]
fn the_flag_tmux_does_not_render_reaches_neither_side_of_the_wire() {
    let tmux = identified_as("tmux 3.7c");
    assert_eq!(tmux.private.attrs_dropped, vitui_engine::style::OVERLINE);
    let all = Style::new().bold().dim().italic().reverse().blink().strikethrough().conceal().overline().underline_double();
    assert_eq!(sgr(Style::new(), all, &tmux), "ESC[1;2;3;5;7;8;9;4:2m", "53 is the only parameter that may be missing");
    assert_eq!(sgr(all, Style::new(), &tmux), "ESC[22;23;25;27;28;29;24m", "and 55 does not turn off a bit the terminal never had");
    let plain = Capabilities::on_the_wire(ColorDepth::TrueColor, false, Underlines::Standard, false);
    assert_eq!(plain.private.attrs_dropped, 0);
    assert_eq!(sgr(Style::new(), all, &plain), "ESC[1;2;3;5;7;8;9;53;4:2m");
    assert_eq!(sgr(all, Style::new(), &plain), "ESC[22;23;25;27;28;29;55;24m");
}

#[test]
fn the_two_flags_kitty_cannot_store_reach_neither_side_of_the_wire() {
    let kitty = identified_as("kitty(0.48.2)");
    assert_eq!(kitty.private.attrs_dropped, vitui_engine::style::CONCEAL | vitui_engine::style::OVERLINE);
    let all = Style::new().bold().dim().italic().reverse().blink().strikethrough().conceal().overline().underline_double();
    assert_eq!(sgr(Style::new(), all, &kitty), "ESC[1;2;3;5;7;9;4:2m", "8 and 53 are the only parameters that may be missing");
    assert_eq!(sgr(all, Style::new(), &kitty), "ESC[22;23;25;27;29;24m", "and neither 28 nor 55 turns off a bit the terminal never had");
}

#[test]
fn the_worst_case_frame() {
    const W: u16 = 300;
    const H: u16 = 80;
    let mut f = Surface::new(W, H);
    let mut runs = Vec::new();
    for y in 0..H {
        for x in 0..W {
            let n = y as u32 * W as u32 + x as u32;
            let rgb = |v: u32| Color::rgb((v >> 16) as u8, (v >> 8) as u8, v as u8);
            runs.push(text(&mut f, x, y, "m", Style::new().fg(rgb(n ^ 0xFF_FFFF)).bg(rgb(n))));
        }
    }
    let mut packet = Packet::new();
    packet.pack_cells(&damage(runs), &f, f.tables(), false, 1);
    let mut s = Serializer::new(W, H);
    let out = s.serialize(&packet, &modern()).to_vec();
    let sgr = csi_finals(&out).iter().filter(|b| **b == b'm').count() - 1;
    let cells = u32::from(W) * u32::from(H);
    assert_eq!(sgr, cells as usize, "one SGR a cell is what makes this the worst case");
}

#[test]
fn push_num_writes_decimal() {
    let mut out = Vec::new();
    for n in [0u32, 1, 9, 10, 255, 4294967295] {
        out.clear();
        push_num(&mut out, n);
        assert_eq!(show(&out), n.to_string());
    }
}

#[test]
fn a_scrolled_list_moves_the_band_instead_of_rewriting_it() {
    let mut frame = Surface::new(6, 4);
    let mut f = Frames::new(6, 4);
    let mut runs = Vec::new();
    for (y, line) in ["aaaaaa", "bbbbbb", "cccccc", "dddddd"].iter().enumerate() {
        runs.push(text(&mut frame, 0, y as u16, line, Style::new()));
    }
    f.present(&frame, runs);
    let mut runs = Vec::new();
    for (y, line) in ["bbbbbb", "cccccc", "dddddd", "eeeeee"].iter().enumerate() {
        runs.push(text(&mut frame, 0, y as u16, line, Style::new()));
    }
    let out = f.present(&frame, runs);
    let shown = show(&out);
    assert!(shown.contains("ESC[S"), "one row up, the whole screen: {shown}");
    assert!(shown.ends_with("eeeeee"), "only the exposed row is written: {shown}");
    for y in 0..4u16 {
        for x in 0..6u16 {
            assert_eq!(f.serializer.mirror().cell(x, y), frame.cell(x, y), "({x}, {y})");
        }
    }
}

#[test]
fn a_scroll_that_would_move_a_column_the_frame_did_not_repaint_is_refused() {
    let mut frame = Surface::new(6, 3);
    let mut f = Frames::new(6, 3);
    let mut runs = Vec::new();
    for (y, line) in ["aaaaa|", "bbbbb|", "ccccc|"].iter().enumerate() {
        runs.push(text(&mut frame, 0, y as u16, line, Style::new()));
    }
    f.present(&frame, runs);
    let mut runs = Vec::new();
    for (y, line) in ["bbbbb", "ccccc", "ddddd"].iter().enumerate() {
        runs.push(text(&mut frame, 0, y as u16, line, Style::new()));
    }
    frame.set(5, 2, Cell::new(GraphemeId::scalar('|'), Style::new()));
    let out = f.present(&frame, runs);
    let shown = show(&out);
    assert!(!shown.contains("ESC[S"), "the last row's gutter is not blank, so nothing may scroll: {shown}");
    for y in 0..3u16 {
        for x in 0..6u16 {
            assert_eq!(f.serializer.mirror().cell(x, y), frame.cell(x, y), "({x}, {y})");
        }
    }
}

#[test]
fn a_frame_on_sixteen_colours_compares_what_was_sent() {
    let mut frame = Surface::new(4, 1);
    let mut f = Frames::new(4, 1);
    f.caps = Capabilities::answering(ColorDepth::Ansi16, None, None);
    let r = text(&mut frame, 0, 0, "abcd", Style::new().fg(Color::rgb(0xcc, 0x02, 0x01)));
    assert!(!f.present(&frame, vec![r]).is_empty());
    let r = text(&mut frame, 0, 0, "abcd", Style::new().fg(Color::rgb(0xcf, 0x00, 0x03)));
    let second = f.present(&frame, vec![r]);
    assert!(second.is_empty(), "two colours the terminal cannot tell apart are no change: {}", show(&second));
}

#[test]
fn the_round_trip_closes_on_a_hyperlinked_cell() {
    let (mut frame, runs) = hyperlinked("https://example.com/");
    assert!(frame.cell(0, 0).style.ext_handle().is_some(), "the cell being compared has to be genuinely extended");
    let expected: Vec<Cell> = (0..4).map(|x| frame.cell(x, 0)).collect();
    let bytes = bytes_for(&frame, runs);
    let mut term = Term::new(4, 1);
    term.feed(&bytes, frame.tables_mut());
    assert_eq!(term.unrecognised, 0);
    for x in 0..4 {
        assert_eq!(term.cell(x, 0), expected[x as usize], "column {x}");
    }
    assert_eq!(term.cell(0, 0).grapheme, GraphemeId::scalar('a'));
}

#[test]
fn a_frame_on_tmux_arrives_with_every_attribute_but_the_dropped_one() {
    let tmux = identified_as("tmux 3.7c");
    let all = Style::new().bold().italic().conceal().overline().fg(Color::rgb(1, 2, 3));
    let mut frame = Surface::new(4, 1);
    let r = text(&mut frame, 0, 0, "ab", all);
    let want = frame.cell(0, 0);
    let bytes = bytes_with(&frame, vec![r], &tmux);
    let mut term = Term::new(4, 1);
    term.feed(&bytes, frame.tables_mut());
    assert_eq!(term.unrecognised, 0, "{}", show(&bytes));
    let got = term.cell(0, 0);
    assert_eq!(got.grapheme, want.grapheme);
    assert_eq!(got.style.attrs(), want.style.attrs() & !OVERLINE, "overline and nothing else: {}", show(&bytes));
    assert_eq!(got.style.foreground(), want.style.foreground(), "a colour was dropped, not an attribute");
    assert!(want.style.attrs() & OVERLINE != 0, "the frame has to be asking for the bit");
}

#[test]
fn the_round_trip_closes_under_every_wire_configuration() {
    fn frame() -> (Surface, Vec<Run>) {
        let mut f = Surface::new(24, 2);
        let a = text(&mut f, 0, 0, "漢", Style::new().bold().dim());
        let b = cluster(&mut f, 2, 0, "a\u{301}", Style::new().bold().dim());
        let c = text(&mut f, 3, 0, "b", Style::new().bold().dim());
        let d = text(&mut f, 0, 1, "cd", Style::new().fg(Color::indexed(3)).bg(Color::indexed(200)).underline_curly());
        let e = text(&mut f, 4, 1, "ef", Style::new().fg(Color::rgb(1, 2, 3)));
        let g = restyle(
            &mut f,
            1,
            0,
            1,
            &Restyle {
                ul: Some(Color::rgb(9, 8, 7)),
                link: Some(Link::Uri("https://example.com/vitui#1")),
                ..Default::default()
            },
        );
        (f, vec![a, b, c, d, e, g])
    }

    fn resolve(cell: Cell, f: &Surface) -> ExtStyle {
        match cell.style.ext_handle() {
            Some(h) => f.tables().exts.get(h).expect("the handle came out of this table"),
            None => ExtStyle { fg: cell.style.foreground(), bg: cell.style.background(), ul: Color::DEFAULT, link: LinkId::none() },
        }
    }

    for legacy in [false, true] {
        for underlines in [Underlines::Standard, Underlines::ConPty] {
            for sync in [false, true] {
                for hyperlinks in [false, true] {
                    let mut caps = Capabilities::on_the_wire(ColorDepth::TrueColor, sync, underlines, legacy);
                    caps.hyperlinks = hyperlinks;
                    let (mut f, runs) = frame();
                    let expected: Vec<Cell> = (0..2).flat_map(|y| (0..24).map(move |x| (x, y))).map(|(x, y)| f.cell(x, y)).collect();
                    let bytes = bytes_with(&f, runs, &caps);
                    let mut term = Term::new(24, 2);
                    term.feed(&bytes, f.tables_mut());
                    let what = format!("legacy {legacy}, {underlines:?}, sync {sync}, hyperlinks {hyperlinks}");
                    assert_eq!(term.unrecognised, 0, "{what}: {}", show(&bytes));
                    assert_eq!(term.sync_blocks, usize::from(sync), "{what}");
                    for y in 0..2u16 {
                        for x in 0..24u16 {
                            let want = expected[y as usize * 24 + x as usize];
                            let got = term.cell(x, y);
                            assert_eq!(got.grapheme, want.grapheme, "{what} at ({x}, {y})");
                            if hyperlinks {
                                assert_eq!(got.style, want.style, "{what} at ({x}, {y})");
                                continue;
                            }
                            assert_eq!(got.style.attr_word(), want.style.attr_word(), "{what} at ({x}, {y})");
                            let (had, has) = (resolve(want, &f), resolve(got, &f));
                            assert_eq!((had.fg, had.bg, had.ul), (has.fg, has.bg, has.ul), "{what} at ({x}, {y}): a colour was dropped, not a link");
                            assert!(has.link.is_none(), "{what} at ({x}, {y})");
                        }
                    }
                    if !hyperlinks {
                        assert!(!show(&bytes).contains("]8;"), "{what}: {}", show(&bytes));
                    }
                }
            }
        }
    }
}

#[test]
fn a_scroll_lands_every_row_where_the_frame_wants_it() {
    let mut frame = Surface::new(5, 5);
    let mut f = Frames::new(5, 5);
    let lines = ["alpha", "bravo", "charl", "delta", "echoo", "foxtr"];
    let mut runs = Vec::new();
    for y in 0..5u16 {
        runs.push(text(&mut frame, 0, y, lines[y as usize], Style::new()));
    }
    let first = f.present(&frame, runs);
    let mut term = Term::new(5, 5);
    term.feed(&first, &mut Tables::new());
    let mut runs = Vec::new();
    for y in 0..5u16 {
        runs.push(text(&mut frame, 0, y, lines[y as usize + 1], Style::new()));
    }
    let second = f.present(&frame, runs);
    assert!(show(&second).contains("ESC[S"), "{}", show(&second));
    term.feed(&second, &mut Tables::new());
    for y in 0..5u16 {
        assert_eq!(term.row(y), lines[y as usize + 1], "row {y}");
    }
}

#[test]
fn the_finals_are_read_off_every_csi_and_nothing_else() {
    let out = b"\x1b[0m\x1b[1;2Habc\x1b[5C\x1b]8;;\x1b\\x\x1b[?2026l";
    assert_eq!(csi_finals(out), vec![b'm', b'H', b'C', b'l']);
    assert_eq!(csi_finals(b"plain [m text"), Vec::<u8>::new());
}

/// A model that reads only the form the serializer emits would agree with a wrong one, so it reads
/// both.
#[test]
fn the_model_reads_a_colour_in_either_spelling() {
    for bytes in [&b"\x1b[48:2::1:2:255mx"[..], &b"\x1b[48;2;1;2;255mx"[..], &b"\x1b[48:2:1:2:255mx"[..]] {
        let mut t = Term::new(4, 1);
        let mut tables = Tables::new();
        t.feed(bytes, &mut tables);
        assert_eq!(t.unrecognised, 0, "{:?}", show(bytes));
        assert_eq!(t.cell(0, 0).style, Style::new().bg(Color::rgb(1, 2, 255)), "{:?}", show(bytes));
    }
}

#[test]
fn the_mouse_change_goes_before_the_frame_and_the_caret_after_its_last_write() {
    let mut frame = Surface::new(8, 2);
    let r = text(&mut frame, 0, 0, "ab", Style::new());
    let mut packet = Packet::new();
    packet.pack_cells(&damage(vec![r]), &frame, frame.tables(), false, 1);
    packet.actuation = Actuation {
        mouse: b"<mouse>".to_vec(),
        shape: b"<shape>".to_vec(),
        caret: Some((5, 1)),
        moved: false,
        show: None,
        visibility: b"<show>".to_vec(),
    };
    let mut s = Serializer::new(8, 2);
    let out = s.serialize(&packet, &modern()).to_vec();
    assert_eq!(show(&out), "<mouse>ESC[0mESC[1;1Hab<shape>ESC[2;6H<show>");
}

#[test]
fn a_caret_that_neither_moved_nor_appeared_on_a_frame_that_wrote_nothing_is_left_alone() {
    let frame = Surface::new(8, 2);
    let mut packet = Packet::new();
    packet.pack_cells(&[], &frame, frame.tables(), false, 1);
    packet.actuation = Actuation {
        mouse: Vec::new(),
        shape: Vec::new(),
        caret: Some((5, 1)),
        moved: false,
        show: None,
        visibility: Vec::new(),
    };
    let mut s = Serializer::new(8, 2);
    assert!(s.serialize(&packet, &modern()).is_empty());
    packet.actuation.moved = true;
    packet.generation = 2;
    assert_eq!(show(s.serialize(&packet, &modern())), "ESC[2;6H", "a caret that moved is placed, absolutely");
}

/// The round trip: serialise a frame, replay the bytes through the terminal model, and hold the
/// replayed screen to the frame, cell for cell, glyph and style, after every present.
struct RoundTrip {
    f: Surface,
    frames: Frames,
    term: Term,
    runs: Vec<Run>,
    writes: usize,
    bytes: usize,
}

impl RoundTrip {
    fn new(w: u16, h: u16) -> RoundTrip {
        RoundTrip { f: Surface::new(w, h), frames: Frames::new(w, h), term: Term::new(w, h), runs: Vec::new(), writes: 0, bytes: 0 }
    }

    fn text(&mut self, x: u16, y: u16, t: &str, style: Style) {
        let r = text(&mut self.f, x, y, t, style);
        self.runs.push(r);
    }

    fn fill(&mut self, x: u16, y: u16, w: u16, h: u16, g: &str, style: Style) {
        let row: String = std::iter::repeat_n(g, w as usize).collect();
        for j in y..y + h {
            self.text(x, j, &row, style);
        }
    }

    /// Whether anything was damaged; the bytes, if any, are replayed and the screen compared.
    fn present(&mut self) -> bool {
        let runs = std::mem::take(&mut self.runs);
        if runs.is_empty() {
            return false;
        }
        let out = self.frames.present(&self.f, runs);
        if !out.is_empty() {
            self.writes += 1;
            self.bytes += out.len();
            self.term.feed(&out, self.f.tables_mut());
            assert_eq!(self.term.unrecognised, 0, "{}", show(&out));
        }
        let (w, h) = self.f.size();
        for y in 0..h {
            for x in 0..w {
                let (want, got) = (self.f.cell(x, y), self.term.cell(x, y));
                assert_eq!(got.grapheme, want.grapheme, "glyph at ({x}, {y}): {}", show(&out));
                assert_eq!(got.style, want.style, "style at ({x}, {y}): {}", show(&out));
            }
        }
        true
    }
}

#[test]
fn a_screen_with_no_layers_presents_nothing() {
    let mut h = RoundTrip::new(80, 24);
    assert!(!h.present());
    assert_eq!(h.bytes, 0);
    assert_eq!(h.writes, 0);
}

#[test]
fn one_line_of_text_survives_the_round_trip() {
    let mut h = RoundTrip::new(80, 24);
    h.text(3, 1, "hello", Style::new());
    assert!(h.present());
}

#[test]
fn cjk_survives_the_round_trip() {
    let mut h = RoundTrip::new(20, 2);
    h.text(2, 0, "\u{6F22}\u{5B57}\u{30C6}\u{30B9}\u{30C8}", Style::new());
    assert!(h.present());
}

#[test]
fn every_attribute_survives_the_round_trip() {
    let mut h = RoundTrip::new(40, 2);
    let styles = [
        Style::new().bold(),
        Style::new().dim(),
        Style::new().bold().dim(),
        Style::new().italic(),
        Style::new().reverse(),
        Style::new().blink(),
        Style::new().strikethrough(),
        Style::new().conceal(),
        Style::new().overline(),
        Style::new().underline(),
        Style::new().underline_double(),
        Style::new().underline_curly(),
        Style::new().underline_dotted(),
        Style::new().underline_dashed(),
    ];
    for (i, st) in styles.iter().enumerate() {
        h.text(i as u16, 0, "x", *st);
    }
    h.present();
}

#[test]
fn every_colour_form_survives_the_round_trip() {
    let mut h = RoundTrip::new(40, 2);
    let colours = [
        Color::DEFAULT,
        Color::indexed(0),
        Color::indexed(7),
        Color::indexed(8),
        Color::indexed(15),
        Color::indexed(16),
        Color::indexed(255),
        Color::rgb(0, 0, 0),
        Color::rgb(255, 255, 255),
        Color::rgb(0x12, 0x34, 0x56),
    ];
    for (i, c) in colours.iter().enumerate() {
        h.text(i as u16, 0, "f", Style::new().fg(*c));
        h.text(i as u16, 1, "b", Style::new().bg(*c));
    }
    h.present();
}

#[test]
fn dropping_bold_while_keeping_dim_survives_the_round_trip() {
    let mut h = RoundTrip::new(8, 1);
    h.text(0, 0, "ab", Style::new().bold().dim());
    h.text(2, 0, "cd", Style::new().dim());
    h.present();
}

#[test]
fn two_spans_on_one_row_survive_the_round_trip() {
    let mut h = RoundTrip::new(300, 4);
    h.text(0, 0, "left", Style::new());
    h.text(150, 0, "middle", Style::new());
    h.text(290, 0, "right", Style::new());
    h.present();
}

#[test]
fn a_sparse_scatter_survives_the_round_trip() {
    let mut h = RoundTrip::new(300, 80);
    for i in 0..400u32 {
        let x = (i * 7) % 300;
        let y = (i * 13) % 80;
        h.text(x as u16, y as u16, "*", Style::new().fg(Color::indexed(i as u8 % 16)));
    }
    h.present();
}

#[test]
fn a_full_screen_survives_the_round_trip() {
    let mut h = RoundTrip::new(300, 80);
    let row: String = (0..300).map(|i| char::from(b'!' + (i % 90) as u8)).collect();
    for y in 0..80u16 {
        h.text(0, y, &row, Style::new().fg(Color::rgb(y as u8, 128, 32)));
    }
    h.present();
}

#[test]
fn a_fill_survives_the_round_trip() {
    let mut h = RoundTrip::new(40, 8);
    h.fill(2, 1, 20, 4, "#", Style::new().bg(Color::indexed(4)));
    h.present();
}

#[test]
fn a_layer_hanging_off_an_edge_survives_the_round_trip() {
    // A 10x3 layer at (-3, -1): what reaches the screen is its 7x2 corner.
    let mut h = RoundTrip::new(20, 4);
    h.fill(0, 0, 7, 2, "#", Style::new());
    h.present();
}

#[test]
fn a_write_in_the_last_column_survives_the_round_trip() {
    let mut h = RoundTrip::new(8, 2);
    h.text(7, 0, "x", Style::new());
    h.text(7, 1, "y", Style::new());
    h.present();
}

#[test]
fn a_second_frame_with_nothing_changed_emits_nothing() {
    let mut h = RoundTrip::new(80, 24);
    h.text(0, 0, "steady", Style::new());
    assert!(h.present());
    let after_first = h.bytes;
    assert!(after_first > 0);
    assert!(!h.present(), "nothing was damaged, so nothing was submitted");
    assert_eq!(h.bytes, after_first, "and nothing reached the sink");
}

#[test]
fn a_change_between_frames_emits_only_what_changed() {
    let mut h = RoundTrip::new(80, 24);
    h.fill(0, 0, 80, 24, ".", Style::new());
    h.present();
    let after_first = h.bytes;
    h.text(40, 12, "!", Style::new());
    h.present();
    let second_frame = h.bytes - after_first;
    assert!(second_frame < 32, "one changed cell cost {second_frame} bytes; the frame's own framing is 4 plus one move");
}

#[test]
fn every_frame_is_one_write() {
    let mut h = RoundTrip::new(300, 80);
    let row: String = std::iter::repeat_n('x', 300).collect();
    for frame in 0..5u8 {
        for y in 0..80u16 {
            h.text(0, y, &row, Style::new().fg(Color::indexed(frame)));
        }
        h.present();
    }
    assert_eq!(h.writes, 5, "five frames, five writes");
}

#[test]
fn a_frame_the_filter_emptied_is_no_write_at_all() {
    let mut h = RoundTrip::new(300, 80);
    let row: String = std::iter::repeat_n('x', 300).collect();
    for _ in 0..5 {
        for y in 0..80u16 {
            h.text(0, y, &row, Style::new().fg(Color::indexed(3)));
        }
        assert!(h.present(), "the cells were damaged either way");
    }
    assert_eq!(h.writes, 1, "the birth frame, and silence after it");
    assert!(h.bytes > 0, "the birth frame did write");
}

#[test]
fn five_frames_of_a_moving_selection_bar_survive_the_round_trip() {
    let mut h = RoundTrip::new(60, 10);
    for y in 0..10u16 {
        h.text(0, y, "a list row", Style::new());
    }
    h.present();
    for row in 0..5u16 {
        if row > 0 {
            h.text(0, row - 1, "a list row", Style::new());
        }
        h.text(0, row, "a list row", Style::new().bg(Color::indexed(4)));
        assert!(h.present());
    }
}

#[test]
fn a_frame_that_blanks_what_it_drew_survives_the_round_trip() {
    let mut h = RoundTrip::new(20, 3);
    h.text(2, 1, "temporary", Style::new().fg(Color::indexed(2)));
    h.present();
    h.fill(2, 1, 9, 1, " ", Style::new());
    assert!(h.present());
}
