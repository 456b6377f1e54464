use vitui_engine::caps::{Capabilities, ColorDepth};
use vitui_engine::quirks::{starts_with, Env, Quirks, Underlines};
use vitui_engine::style::{BLINK, CONCEAL, OVERLINE};

fn env() -> Env {
    Env { alacritty: None, termux: None, term_program: None, terminal_emulator: None }
}

#[test]
fn a_version_string_names_the_multiplexers_and_the_terminals_that_answer_one() {
    assert_eq!(Quirks::lookup(Some("tmux 3.7c"), &env(), false).attrs_dropped, OVERLINE);
    assert_eq!(Quirks::lookup(Some("kitty(0.48.2)"), &env(), false).attrs_dropped, CONCEAL | OVERLINE);
    assert_eq!(Quirks::lookup(Some("iTerm2 3.5"), &env(), false).attrs_dropped, OVERLINE);
    assert_eq!(Quirks::lookup(Some("WezTerm 2024"), &env(), false), Quirks::default());
}

#[test]
fn the_environment_names_the_terminals_that_answer_no_version() {
    let mut e = env();
    e.alacritty = Some(String::from("1"));
    let q = Quirks::lookup(None, &e, false);
    assert_eq!(q.name, Some("alacritty"));
    assert_eq!(q.attrs_dropped, BLINK | OVERLINE);

    let mut e = env();
    e.term_program = Some(String::from("vscode"));
    assert!(Quirks::lookup(None, &e, false).legacy_sgr);
    e.term_program = Some(String::from("vscode-insiders"));
    assert!(!Quirks::lookup(None, &e, false).legacy_sgr, "the variable has to say exactly vscode");

    let mut e = env();
    e.terminal_emulator = Some(String::from("JetBrains-JediTerm"));
    assert_eq!(Quirks::lookup(None, &e, false).name, Some("jetbrains"));
}

#[test]
fn a_windows_console_that_answered_no_version_is_conpty() {
    let q = Quirks::lookup(None, &env(), true);
    assert_eq!(q.underlines, Underlines::ConPty);
    assert!(q.legacy_sgr);
    assert_eq!(Quirks::lookup(Some("tmux 3.7c"), &env(), true).underlines, Underlines::Standard);
    assert_eq!(Quirks::lookup(None, &env(), false), Quirks::default());
}

#[test]
fn applying_a_quirk_only_ever_adds() {
    let mut caps = Capabilities::answering(ColorDepth::TrueColor, None, None);
    caps.private.attrs_dropped = BLINK;
    Quirks::lookup(Some("kitty(0.48.2)"), &env(), false).apply(&mut caps);
    assert_eq!(caps.private.attrs_dropped, BLINK | CONCEAL | OVERLINE);
    assert_eq!(caps.private.identity, None);
    Quirks::lookup(None, &env(), true).apply(&mut caps);
    assert_eq!(caps.private.identity.as_deref(), Some("conpty"));
    assert!(caps.private.legacy_sgr);
    assert_eq!(caps.private.underlines, Underlines::ConPty);
    assert_eq!(Underlines::ConPty.word(), "conpty");
    assert_eq!(Underlines::Standard.word(), "standard");
}

#[test]
fn a_prefix_is_compared_byte_for_byte() {
    assert!(starts_with("tmux 3.7c", "tmux "));
    assert!(!starts_with("tmux", "tmux "));
    assert!(starts_with("anything", ""));
}
