use vitui_engine::restyle::{apply, intern_link, Link, Restyle};
use vitui_engine::style::{Color, LinkId, Style};
use vitui_engine::tables::Tables;

const URI: &str = "https://example.com/";

fn applied(tables: &mut Tables, d: &Restyle<'_>, old: Style) -> Style {
    let link = intern_link(tables, d);
    apply(tables, d, link, old)
}

fn link(tables: &mut Tables) -> LinkId {
    tables.link(URI)
}

fn extended(tables: &mut Tables) -> Style {
    let s = applied(
        tables,
        &Restyle {
            ul: Some(Color::rgb(9, 9, 9)),
            link: Some(Link::Uri(URI)),
            ..Default::default()
        },
        Style::new().fg(Color::indexed(1)).bg(Color::indexed(2)),
    );
    assert!(s.is_extended(), "the fixture is the extended corner");
    s
}

#[test]
fn inline_to_inline_preserves_every_channel_the_descriptor_does_not_name() {
    let mut t = Tables::new();
    let old = Style::new()
        .bold()
        .underline_dotted()
        .fg(Color::indexed(1))
        .bg(Color::indexed(2));
    let new = applied(
        &mut t,
        &Restyle {
            bg: Some(Color::rgb(1, 2, 3)),
            ..Default::default()
        },
        old,
    );
    assert!(!new.is_extended());
    assert_eq!(new.background(), Color::rgb(1, 2, 3), "named, so rewritten");
    assert_eq!(new.foreground(), Color::indexed(1));
    assert_eq!(new.attr_word(), old.attr_word());
    assert!(t.exts.is_empty(), "nothing needed the table");
}

#[test]
fn inline_to_extended_carries_the_colours_and_the_attributes_across() {
    let mut t = Tables::new();
    let old = Style::new()
        .italic()
        .underline_curly()
        .fg(Color::indexed(1))
        .bg(Color::indexed(2));
    let new = applied(
        &mut t,
        &Restyle {
            link: Some(Link::Uri(URI)),
            ..Default::default()
        },
        old,
    );
    let l = link(&mut t);
    assert!(new.is_extended());
    let e = t.exts.get(new.ext_handle().unwrap()).unwrap();
    assert_eq!(e.fg, Color::indexed(1));
    assert_eq!(e.bg, Color::indexed(2));
    assert_eq!(e.link, l);
    assert_eq!(e.ul, Color::DEFAULT);
    assert_eq!(new.attr_word(), old.attr_word());
}

#[test]
fn extended_to_extended_preserves_the_channels_the_descriptor_does_not_name() {
    let mut t = Tables::new();
    let old = extended(&mut t);
    let was = t.exts.get(old.ext_handle().unwrap()).unwrap();
    let new = applied(
        &mut t,
        &Restyle {
            bg: Some(Color::rgb(4, 5, 6)),
            set: Restyle::BOLD,
            ..Default::default()
        },
        old,
    );
    assert!(new.is_extended());
    let e = t.exts.get(new.ext_handle().unwrap()).unwrap();
    assert_eq!(e.bg, Color::rgb(4, 5, 6), "named, so rewritten");
    assert_eq!(e.fg, was.fg, "the hyperlinked cell keeps its foreground");
    assert_eq!(e.ul, was.ul, "and its underline colour");
    assert_eq!(e.link, was.link, "and its hyperlink");
}

#[test]
fn a_background_over_a_hyperlink_no_longer_deletes_it() {
    let mut t = Tables::new();
    let old = extended(&mut t);
    let new = applied(
        &mut t,
        &Restyle {
            fg: Some(Color::indexed(7)),
            bg: Some(Color::indexed(0)),
            ..Default::default()
        },
        old,
    );
    let e = t.exts.get(new.ext_handle().unwrap()).unwrap();
    assert!(!e.link.is_none(), "the hyperlink survived the shadow");
    assert_eq!(t.links.uri(e.link), Some("https://example.com/"));
}

#[test]
fn extended_to_inline_needs_both_extended_channels_cleared() {
    let mut t = Tables::new();
    let old = extended(&mut t);

    let one = applied(
        &mut t,
        &Restyle {
            link: Some(Link::Off),
            ..Default::default()
        },
        old,
    );
    assert!(
        one.is_extended(),
        "the underline colour is still a reason to be extended"
    );

    let both = applied(
        &mut t,
        &Restyle {
            link: Some(Link::Off),
            ul: Some(Color::DEFAULT),
            ..Default::default()
        },
        old,
    );
    assert!(!both.is_extended());
    assert_eq!(both.bits() & (1 << 63), 0, "bit 63 is clear");
    assert_eq!(
        both.foreground(),
        Color::indexed(1),
        "the colours came back"
    );
    assert_eq!(both.background(), Color::indexed(2));
}

#[test]
fn going_back_inline_lands_on_the_word_a_caller_would_have_built() {
    let mut t = Tables::new();
    let plain = Style::new().fg(Color::indexed(1)).bg(Color::indexed(2));
    let old = extended(&mut t);
    let there_and_back = applied(
        &mut t,
        &Restyle {
            ul: Some(Color::DEFAULT),
            link: Some(Link::Off),
            ..Default::default()
        },
        old,
    );
    assert_eq!(there_and_back, plain);
}

#[test]
fn set_and_clear_name_the_same_bits_the_style_word_does() {
    let mut t = Tables::new();
    let all = Restyle::BOLD
        | Restyle::DIM
        | Restyle::ITALIC
        | Restyle::REVERSE
        | Restyle::BLINK
        | Restyle::STRIKETHROUGH
        | Restyle::CONCEAL
        | Restyle::OVERLINE;
    let new = applied(
        &mut t,
        &Restyle {
            set: all,
            ..Default::default()
        },
        Style::new(),
    );
    let built = Style::new()
        .bold()
        .dim()
        .italic()
        .reverse()
        .blink()
        .strikethrough()
        .conceal()
        .overline();
    assert_eq!(new.attr_word(), built.attr_word());
}

#[test]
fn clear_removes_only_what_it_names() {
    let mut t = Tables::new();
    let old = Style::new().bold().italic();
    let new = applied(
        &mut t,
        &Restyle {
            clear: Restyle::BOLD,
            ..Default::default()
        },
        old,
    );
    assert_eq!(new, Style::new().italic());
}

#[test]
fn an_underline_style_replaces_the_field_rather_than_or_ing_into_it() {
    let mut t = Tables::new();
    let new = applied(
        &mut t,
        &Restyle {
            set: Restyle::UNDERLINE,
            ..Default::default()
        },
        Style::new().underline_dotted(),
    );
    assert_eq!(new, Style::new().underline());
}

#[test]
fn an_underline_value_that_names_no_style_selects_nothing() {
    let mut t = Tables::new();
    let old = Style::new().underline_curly();
    for set in [
        Restyle::UNDERLINE_DOUBLE | Restyle::UNDERLINE_DOTTED,
        Restyle::UNDERLINE_ANY,
    ] {
        let new = applied(
            &mut t,
            &Restyle {
                set,
                ..Default::default()
            },
            old,
        );
        assert_eq!(new, old, "set: {set:#b}");
        assert!(new.underline_style() <= 5);
    }
}

#[test]
fn a_set_that_names_no_style_leaves_clear_to_act() {
    let mut t = Tables::new();
    let new = applied(
        &mut t,
        &Restyle {
            set: Restyle::UNDERLINE_ANY,
            clear: Restyle::UNDERLINE_ANY,
            ..Default::default()
        },
        Style::new().underline_dotted().bold(),
    );
    assert_eq!(new, Style::new().bold());
}

#[test]
fn clearing_any_underline_takes_the_whole_field() {
    let mut t = Tables::new();
    let new = applied(
        &mut t,
        &Restyle {
            clear: Restyle::UNDERLINE_ANY,
            ..Default::default()
        },
        Style::new().underline_curly().bold(),
    );
    assert_eq!(new, Style::new().bold());
}

#[test]
fn an_attribute_named_by_both_masks_ends_up_set() {
    let mut t = Tables::new();
    let new = applied(
        &mut t,
        &Restyle {
            set: Restyle::BOLD,
            clear: Restyle::BOLD,
            ..Default::default()
        },
        Style::new(),
    );
    assert_eq!(new, Style::new().bold());
}

#[test]
fn bits_no_constant_names_are_ignored_rather_than_written_into_the_word() {
    let mut t = Tables::new();
    let old = Style::new().bold();
    let new = applied(
        &mut t,
        &Restyle {
            set: 0xF800,
            clear: 0xF800,
            ..Default::default()
        },
        old,
    );
    assert_eq!(new, old);
}

#[test]
fn a_descriptor_that_names_nothing_changes_nothing() {
    let mut t = Tables::new();
    let old = Style::new().bold().fg(Color::indexed(3));
    assert_eq!(applied(&mut t, &Restyle::default(), old), old);
    assert!(t.exts.is_empty());
}

#[test]
fn a_descriptor_that_names_nothing_leaves_an_extended_cell_extended() {
    let mut t = Tables::new();
    let old = extended(&mut t);
    assert_eq!(applied(&mut t, &Restyle::default(), old), old);
    assert_eq!(t.exts.len(), 1, "and mints nothing a second time");
}

#[test]
fn the_same_result_twice_is_the_same_handle() {
    let mut t = Tables::new();
    let d = Restyle {
        link: Some(Link::Uri(URI)),
        ..Default::default()
    };
    let a = applied(&mut t, &d, Style::new().fg(Color::indexed(1)));
    let b = applied(&mut t, &d, Style::new().fg(Color::indexed(1)));
    assert_eq!(a, b);
    assert_eq!(t.exts.len(), 1);
}

#[test]
fn the_same_uri_twice_is_the_same_id_and_mints_once() {
    let mut t = Tables::new();
    let d = Restyle {
        link: Some(Link::Uri(URI)),
        ..Default::default()
    };
    let first = intern_link(&mut t, &d);
    let second = intern_link(&mut t, &d);
    assert_eq!(first, second);
    assert_eq!(t.links.entries().len(), 1);
}

#[test]
fn a_descriptor_that_names_no_link_interns_nothing() {
    let mut t = Tables::new();
    assert_eq!(intern_link(&mut t, &Restyle::default()), None);
    assert_eq!(
        intern_link(
            &mut t,
            &Restyle {
                link: Some(Link::Off),
                ..Default::default()
            }
        ),
        Some(LinkId::none()),
        "`Link::Off` is a clear, and a clear reaches no table"
    );
    assert!(t.links.is_empty());
}


#[test]
fn an_inline_word_packs_its_two_colours_below_its_attributes() {
    let s = Style::new().bold().fg(Color::indexed(4)).bg(Color::rgb(1, 2, 3));
    let fg: u64 = (1 << 24) | 4;
    let bg: u64 = (2 << 24) | 0x01_02_03;
    assert_eq!(s.bits(), 0x4000_0000_0000_0000 | (fg << 26) | bg);
    assert_eq!(Style::new().bits(), 0);
}
