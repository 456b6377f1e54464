use vitui_engine::caps::{Capabilities, ColorDepth};
use vitui_engine::mix::{blend, indexed, resolve, Mix, Mixer, Side};
use vitui_engine::restyle::{self, Link, Restyle};
use vitui_engine::style::{Color, LinkId, Rgb, Style};
use vitui_engine::tables::Tables;

/// The verb's own two steps: intern the URI once, then apply.
fn applied(tables: &mut Tables, d: &Restyle<'_>, old: Style) -> Style {
    let link = restyle::intern_link(tables, d);
    restyle::apply(tables, d, link, old)
}

/// A style word carrying `uri`, built through the descriptor the way a caller would.
fn extended_with_link(tables: &mut Tables, uri: &str, base: Style) -> Style {
    applied(
        tables,
        &Restyle {
            link: Some(Link::Uri(uri)),
            ..Default::default()
        },
        base,
    )
}

/// A terminal that answered OSC 10 and OSC 11, at truecolor.
fn answering() -> Capabilities {
    Capabilities::answering(
        ColorDepth::TrueColor,
        Some(Rgb::new(0xc0, 0xc0, 0xc0)),
        Some(Rgb::new(0x20, 0x20, 0x20)),
    )
}

/// A terminal that stayed silent on both.
fn silent() -> Capabilities {
    Capabilities::answering(ColorDepth::TrueColor, None, None)
}

fn mixed(caps: &Capabilities, mix: Mix, tables: &mut Tables, old: Style) -> Style {
    let mixer = Mixer::new(mix, caps).expect("the fixture is not the identity");
    mixer.style(tables, old)
}

#[test]
fn the_identity_and_the_full_mix_are_exact_at_both_ends() {
    let from = Rgb::new(10, 128, 255);
    let to = Rgb::new(255, 0, 7);
    assert_eq!(blend(from, to, 0), from);
    assert_eq!(blend(from, to, Mix::FULL), to);
}

#[test]
fn a_mix_saturates_rather_than_wrapping() {
    assert_eq!(Mix::new(Color::DEFAULT, 60_000).amount(), Mix::FULL);
    assert!(Mix::new(Color::DEFAULT, 0).is_identity());
    assert!(!Mix::new(Color::DEFAULT, 1).is_identity());
    assert_eq!(Mix::new(Color::rgb(1, 2, 3), 8).toward(), Color::rgb(1, 2, 3));
}

#[test]
fn darken_is_toward_black_and_lift_is_toward_white() {
    assert_eq!(Mix::darken(128).toward(), Color::rgb(0, 0, 0));
    assert_eq!(Mix::lift(128).toward(), Color::rgb(255, 255, 255));
    assert_eq!(Mix::darken(128).amount(), 128);
}

#[test]
fn two_overlapping_operators_at_a_half_leave_the_overlap_at_a_quarter() {
    let white = Rgb::new(255, 255, 255);
    let black = Rgb::new(0, 0, 0);
    let once = blend(white, black, 128);
    let twice = blend(once, black, 128);
    assert_eq!(once, Rgb::new(127, 127, 127));
    assert_eq!(twice, Rgb::new(63, 63, 63));
}

#[test]
fn rgb_resolves_to_itself() {
    assert_eq!(
        resolve(&silent(), Color::rgb(0x12, 0x34, 0x56), Side::Fg),
        Some(Rgb::new(0x12, 0x34, 0x56))
    );
}

#[test]
fn default_resolves_to_a_different_colour_on_each_side() {
    let caps = answering();
    assert_eq!(resolve(&caps, Color::DEFAULT, Side::Fg), Some(Rgb::new(0xc0, 0xc0, 0xc0)));
    assert_eq!(resolve(&caps, Color::DEFAULT, Side::Bg), Some(Rgb::new(0x20, 0x20, 0x20)));
}

#[test]
fn default_resolves_to_nothing_where_the_terminal_stayed_silent() {
    assert_eq!(resolve(&silent(), Color::DEFAULT, Side::Fg), None);
    assert_eq!(resolve(&silent(), Color::DEFAULT, Side::Bg), None);
}

#[test]
fn the_cube_and_the_greys_are_fixed_by_specification() {
    let caps = silent();
    assert_eq!(indexed(&caps, 16), Rgb::new(0, 0, 0));
    assert_eq!(indexed(&caps, 231), Rgb::new(255, 255, 255));
    assert_eq!(indexed(&caps, 196), Rgb::new(255, 0, 0));
    assert_eq!(indexed(&caps, 46), Rgb::new(0, 255, 0));
    assert_eq!(indexed(&caps, 21), Rgb::new(0, 0, 255));
    assert_eq!(indexed(&caps, 232), Rgb::new(8, 8, 8));
    assert_eq!(indexed(&caps, 255), Rgb::new(238, 238, 238));
}

#[test]
fn the_first_sixteen_come_from_the_terminal_and_fall_back_to_xterms_own() {
    assert_eq!(indexed(&silent(), 1), Rgb::new(0xcd, 0x00, 0x00));
    let themed = Capabilities::answering_palette(Rgb::new(1, 2, 3));
    assert_eq!(indexed(&themed, 1), Rgb::new(1, 2, 3));
    assert_eq!(
        indexed(&themed, 200),
        indexed(&silent(), 200),
        "a themed palette says nothing about the cube"
    );
}

#[test]
fn a_mix_moves_foreground_and_background_by_the_same_factor() {
    let mut t = Tables::new();
    let old = Style::new().bold().fg(Color::rgb(200, 200, 200)).bg(Color::rgb(100, 100, 100));
    let now = mixed(&silent(), Mix::darken(128), &mut t, old);
    assert_eq!(now.foreground(), Color::rgb(100, 100, 100));
    assert_eq!(now.background(), Color::rgb(50, 50, 50));
    assert_eq!(now.attr_word(), old.attr_word(), "attributes are not colours");
}

#[test]
fn a_mix_toward_a_colour_is_a_tint_rather_than_a_darkening() {
    let mut t = Tables::new();
    let old = Style::new().fg(Color::rgb(0, 0, 0)).bg(Color::rgb(0, 0, 0));
    let now = mixed(&silent(), Mix::new(Color::rgb(0, 200, 0), Mix::FULL / 2), &mut t, old);
    assert_eq!(now.foreground(), Color::rgb(0, 100, 0));
    assert_eq!(now.background(), Color::rgb(0, 100, 0));
}

#[test]
fn an_indexed_cell_comes_out_as_the_channels_it_resolved_to() {
    let mut t = Tables::new();
    let old = Style::new().fg(Color::indexed(196)).bg(Color::indexed(196));
    let now = mixed(&silent(), Mix::darken(Mix::FULL), &mut t, old);
    assert_eq!(now.foreground(), Color::rgb(0, 0, 0));
}

#[test]
fn a_cell_with_a_default_background_is_left_alone_where_osc_11_was_silent() {
    let mut t = Tables::new();
    let old = Style::new().fg(Color::rgb(200, 200, 200));
    assert_eq!(mixed(&silent(), Mix::darken(128), &mut t, old), old);
    assert!(t.exts.is_empty(), "an unmixed cell mints nothing");
}

#[test]
fn a_cell_with_a_default_foreground_is_left_alone_for_the_same_reason() {
    let mut t = Tables::new();
    let osc11_only = Capabilities::answering(ColorDepth::TrueColor, None, Some(Rgb::new(0x20, 0x20, 0x20)));
    let old = Style::new().bg(Color::rgb(100, 100, 100));
    assert_eq!(mixed(&osc11_only, Mix::darken(128), &mut t, old), old);
}

#[test]
fn a_cell_with_both_colours_answered_is_mixed_against_the_terminals_own() {
    let mut t = Tables::new();
    let now = mixed(&answering(), Mix::darken(Mix::FULL / 2), &mut t, Style::new());
    assert_eq!(now.foreground(), Color::rgb(0x60, 0x60, 0x60));
    assert_eq!(now.background(), Color::rgb(0x10, 0x10, 0x10));
}

#[test]
fn a_mix_toward_the_terminals_own_default_resolves_per_side() {
    let mut t = Tables::new();
    let old = Style::new().fg(Color::rgb(0, 0, 0)).bg(Color::rgb(255, 255, 255));
    let now = mixed(&answering(), Mix::new(Color::DEFAULT, Mix::FULL), &mut t, old);
    assert_eq!(now.foreground(), Color::rgb(0xc0, 0xc0, 0xc0));
    assert_eq!(now.background(), Color::rgb(0x20, 0x20, 0x20));
}

#[test]
fn a_mix_toward_the_default_is_skipped_where_the_terminal_stayed_silent() {
    assert!(Mixer::new(Mix::new(Color::DEFAULT, 128), &silent()).is_none());
    let caps = answering();
    assert!(Mixer::new(Mix::new(Color::DEFAULT, 128), &caps).is_some());
    let osc10_only = Capabilities::answering(ColorDepth::TrueColor, Some(Rgb::new(0xc0, 0xc0, 0xc0)), None);
    assert!(Mixer::new(Mix::new(Color::DEFAULT, 128), &osc10_only).is_none());
    assert!(
        Mixer::new(Mix::darken(128), &osc10_only).is_some(),
        "a `toward` that needs no answer is unaffected"
    );
}

#[test]
fn assert_reverse_is_left_to_the_terminal() {
    let mut t = Tables::new();
    let plain = Style::new().fg(Color::rgb(200, 200, 200)).bg(Color::rgb(100, 100, 100));
    let reversed = plain.reverse();
    let a = mixed(&silent(), Mix::darken(128), &mut t, plain);
    let b = mixed(&silent(), Mix::darken(128), &mut t, reversed);
    assert_eq!(a.foreground(), b.foreground());
    assert_eq!(a.background(), b.background());
    assert_eq!(b.attrs(), reversed.attrs(), "the bit is carried across");

    let caps = answering();
    let fade = Mix::new(Color::DEFAULT, Mix::FULL);
    let faded = mixed(&caps, fade, &mut t, reversed);
    assert_eq!(
        faded.foreground(),
        Color::rgb(0xc0, 0xc0, 0xc0),
        "the foreground channel goes to the default foreground, reversed or not"
    );
    assert_eq!(faded.background(), Color::rgb(0x20, 0x20, 0x20));
}

#[test]
fn a_mix_over_a_hyperlinked_cell_preserves_the_hyperlink() {
    let mut t = Tables::new();
    const URI: &str = "https://example.com/vitui";
    let old = extended_with_link(
        &mut t,
        URI,
        Style::new().fg(Color::rgb(200, 200, 200)).bg(Color::rgb(100, 100, 100)),
    );
    assert!(old.is_extended(), "the fixture is the extended corner");

    let now = mixed(&silent(), Mix::darken(128), &mut t, old);
    assert!(now.is_extended());
    let e = t.exts.get(now.ext_handle().expect("still extended")).expect("minted here");
    assert_eq!(t.links.uri(e.link), Some(URI), "the hyperlink survived the shadow");
    assert_eq!(e.fg, Color::rgb(100, 100, 100));
    assert_eq!(e.bg, Color::rgb(50, 50, 50));
}

#[test]
fn a_mix_over_an_underline_colour_moves_it_with_the_text() {
    let mut t = Tables::new();
    let old = applied(
        &mut t,
        &Restyle {
            ul: Some(Color::rgb(200, 0, 0)),
            ..Default::default()
        },
        Style::new().underline().fg(Color::rgb(200, 200, 200)).bg(Color::rgb(100, 100, 100)),
    );
    let now = mixed(&silent(), Mix::darken(128), &mut t, old);
    let e = t.exts.get(now.ext_handle().expect("still extended")).unwrap();
    assert_eq!(e.ul, Color::rgb(100, 0, 0));
    assert_eq!(e.link, LinkId::none());
}

#[test]
fn a_default_underline_colour_stays_default_and_follows_the_text() {
    let mut t = Tables::new();
    let old = Style::new().underline().fg(Color::rgb(200, 200, 200)).bg(Color::rgb(100, 100, 100));
    let now = mixed(&silent(), Mix::darken(128), &mut t, old);
    assert!(!now.is_extended(), "nothing here needs the table");
    assert_eq!(now.foreground(), Color::rgb(100, 100, 100));
}

#[test]
fn the_mix_is_a_function_of_the_style_word_and_of_nothing_else() {
    let mut t = Tables::new();
    let caps = silent();
    let mixer = Mixer::new(Mix::darken(77), &caps).unwrap();
    let a = Style::new().fg(Color::rgb(200, 100, 50)).bg(Color::rgb(50, 100, 200));
    let b = Style::new().fg(Color::rgb(1, 2, 3)).bg(Color::rgb(4, 5, 6));
    let (fa, fb) = (mixer.style(&mut t, a), mixer.style(&mut t, b));
    assert_ne!(fa, fb);
    for _ in 0..10 {
        assert_eq!(mixer.style(&mut t, a), fa);
        assert_eq!(mixer.style(&mut t, b), fb);
    }
}

#[test]
fn a_style_that_needs_the_table_is_interned_once_however_often_it_is_asked_for() {
    let mut t = Tables::new();
    let old = extended_with_link(
        &mut t,
        "https://example.com/vitui",
        Style::new().fg(Color::rgb(3, 3, 3)).bg(Color::rgb(30, 30, 30)),
    );
    let before = t.exts.len();
    let caps = silent();
    let mixer = Mixer::new(Mix::darken(128), &caps).unwrap();
    for _ in 0..300 {
        mixer.style(&mut t, old);
    }
    assert_eq!(t.exts.len() - before, 1);
}

#[test]
fn there_is_no_mixer_for_the_identity_or_for_a_terminal_with_no_colour() {
    let caps = answering();
    assert!(Mixer::new(Mix::darken(0), &caps).is_none());
    let plain = Capabilities::answering(ColorDepth::NoColor, None, None);
    assert!(
        Mixer::new(Mix::darken(128), &plain).is_none(),
        "a Mix provably changes no byte on the wire at ColorDepth::NoColor"
    );
    assert!(
        Mixer::new(Mix::new(Color::DEFAULT, 128), &silent()).is_none(),
        "nor when there is nowhere to move a cell toward"
    );
    assert!(
        Mixer::new(Mix::darken(128), &caps).is_some(),
        "and it does at every other depth, including Ansi16"
    );
}

#[test]
fn a_mix_never_touches_the_attribute_bits() {
    let mut t = Tables::new();
    let old = Style::new().bold().italic().underline_curly().fg(Color::rgb(9, 9, 9)).bg(Color::rgb(90, 90, 90));
    let now = mixed(&silent(), Mix::lift(200), &mut t, old);
    assert_eq!(now.attr_word(), old.attr_word());
}
