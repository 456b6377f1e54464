//! The byte-level spellings the serializer writes: decimal numbers, SGR parameters and their
//! differential form, the three colour channels, OSC 8, and a cell's own bytes.
use vstd::prelude::*;
use vstd::utf8::{encode_scalar, has_width_1_encoding, has_width_2_encoding, has_width_3_encoding,
    has_width_4_encoding};
use crate::caps::Capabilities;
use crate::packet::Packet;
use crate::quant::Quantiser;
use crate::quirks::Underlines;
use crate::style::{
    Color, ExtStyle, GraphemeId, LinkId, Style, BLINK, BOLD, CONCEAL, DIM, ITALIC, OVERLINE,
    REVERSE, STRIKETHROUGH,
};

verus! {

/// The decimal spelling of `n`, most significant digit first.
pub open spec fn decimal(n: nat) -> Seq<u8>
    decreases n,
{
    if n < 10 {
        seq![(48 + n) as u8]
    } else {
        decimal(n / 10).push((48 + n % 10) as u8)
    }
}

/// Decimal, into the buffer, with no formatting machinery and no allocation.
pub fn push_num(out: &mut Vec<u8>, n: u32)
    ensures
        final(out)@ == old(out)@ + decimal(n as nat),
    decreases n,
{
    if n >= 10 {
        push_num(out, n / 10);
    }
    out.push(48u8 + (n % 10) as u8);
    assert(final(out)@ =~= old(out)@ + decimal(n as nat));
}

/// How many decimal digits `n` takes, which is the whole of the move pricing.
pub fn digits(n: u32) -> (d: usize)
    ensures
        d == decimal(n as nat).len(),
        1 <= d <= 10,
{
    let mut d: usize = 1;
    let mut m = n;
    proof {
        lemma_decimal_len(n as nat);
    }
    while m >= 10
        invariant
            1 <= d <= 10,
            d + decimal(m as nat).len() - 1 == decimal(n as nat).len(),
            decimal(n as nat).len() <= 10,
            decimal(m as nat).len() >= 1,
        decreases m,
    {
        proof {
            lemma_decimal_len(m as nat);
            lemma_decimal_len((m / 10) as nat);
        }
        m = m / 10;
        d = d + 1;
    }
    d
}

/// A decimal is never empty, and a `u32` takes at most ten digits.
pub proof fn lemma_decimal_len(n: nat)
    ensures
        decimal(n).len() >= 1,
        n < 10 ==> decimal(n).len() == 1,
        n >= 10 ==> decimal(n).len() == decimal(n / 10).len() + 1,
        n <= u32::MAX ==> decimal(n).len() <= 10,
    decreases n,
{
    if n >= 10 {
        lemma_decimal_len(n / 10);
        if n <= u32::MAX {
            lemma_decimal_bound(n);
        }
    }
}

proof fn lemma_decimal_bound(n: nat)
    requires
        n <= u32::MAX,
    ensures
        decimal(n).len() <= 10,
{
    let a = n / 10;
    let b = a / 10;
    let c = b / 10;
    let d = c / 10;
    let e = d / 10;
    let f = e / 10;
    let g = f / 10;
    let h = g / 10;
    let i = h / 10;
    assert(i < 10);
    reveal_with_fuel(decimal, 11);
}

/// The digits a parameter costs when a value of one may be left out entirely.
pub fn omissible(n: u32) -> (d: usize)
    ensures
        d == if n == 1 { 0 } else { decimal(n as nat).len() },
        d <= 10,
{
    if n == 1 {
        0
    } else {
        digits(n)
    }
}

/// SGR parameter chunks joined by `;`.
pub open spec fn join(chunks: Seq<Seq<u8>>) -> Seq<u8>
    decreases chunks.len(),
{
    if chunks.len() == 0 {
        seq![]
    } else if chunks.len() == 1 {
        chunks[0]
    } else {
        join(chunks.drop_last()) + seq![59u8] + chunks.last()
    }
}

/// The separator a parameter after the first is preceded by.
pub open spec fn sep_before(count: nat) -> Seq<u8> {
    if count > 0 {
        seq![59u8]
    } else {
        seq![]
    }
}

pub proof fn lemma_join_push(chunks: Seq<Seq<u8>>, c: Seq<u8>)
    ensures
        join(chunks.push(c)) == join(chunks) + sep_before(chunks.len()) + c,
{
    assert(chunks.push(c).drop_last() =~= chunks);
    if chunks.len() == 0 {
        assert(join(chunks.push(c)) == c);
        assert(join(chunks) + sep_before(0) + c =~= c);
    }
}

pub proof fn lemma_join_extend_last(chunks: Seq<Seq<u8>>, a: Seq<u8>, b: Seq<u8>)
    ensures
        join(chunks.push(a)) + b == join(chunks.push(a + b)),
{
    lemma_join_push(chunks, a);
    lemma_join_push(chunks, a + b);
    assert(join(chunks) + sep_before(chunks.len()) + a + b =~= join(chunks) + sep_before(chunks.len()) + (a + b));
}

/// One SGR parameter, separated from any before it.
pub fn param(out: &mut Vec<u8>, params: &mut u32, n: u32)
    requires
        *old(params) < u32::MAX,
    ensures
        *final(params) == *old(params) + 1,
        final(out)@ == old(out)@ + sep_before(*old(params) as nat) + decimal(n as nat),
{
    if *params > 0 {
        out.push(59u8);
    }
    *params = *params + 1;
    push_num(out, n);
    assert(final(out)@ =~= old(out)@ + sep_before(*old(params) as nat) + decimal(n as nat));
}

/// Which of the three colour channels a colour is emitted into.
#[derive(Clone, Copy, PartialEq, Eq, Debug, Structural)]
pub struct Channel {
    /// The parameterised selector: 38, 48, 58.
    pub extended: u32,
    /// What the terminal's own colour is spelled as: 39, 49, 59.
    pub default: u32,
    /// Where the short forms for the low sixteen begin, where they exist at all.
    pub short: Option<u32>,
}

/// The foreground channel: 38, 39, and 30..37 / 90..97.
pub fn foreground() -> (c: Channel)
    ensures
        c == (Channel { extended: 38, default: 39, short: Some(30) }),
{
    Channel { extended: 38, default: 39, short: Some(30) }
}

/// The background channel: 48, 49, and 40..47 / 100..107.
pub fn background() -> (c: Channel)
    ensures
        c == (Channel { extended: 48, default: 49, short: Some(40) }),
{
    Channel { extended: 48, default: 49, short: Some(40) }
}

/// The underline colour, which has no short forms.
pub fn underline_color() -> (c: Channel)
    ensures
        c == (Channel { extended: 58, default: 59, short: None }),
{
    Channel { extended: 58, default: 59, short: None }
}

/// `;` for the pre-ITU-T form, `:` for the modern one.
pub open spec fn sep(legacy: bool) -> Seq<u8> {
    if legacy {
        seq![59u8]
    } else {
        seq![58u8]
    }
}

/// The one parameter chunk that sets channel `ch` to `c`.
pub open spec fn color_chunk(c: Color, ch: Channel, legacy: bool) -> Seq<u8> {
    match c {
        Color::Default => decimal(ch.default as nat),
        Color::Indexed(i) => match ch.short {
            Some(base) => if i < 8 {
                decimal((base + i) as nat)
            } else if i < 16 {
                decimal((base + 60 + (i - 8)) as nat)
            } else {
                decimal(ch.extended as nat) + sep(legacy) + decimal(5) + sep(legacy) + decimal(i as nat)
            },
            None => decimal(ch.extended as nat) + sep(legacy) + decimal(5) + sep(legacy) + decimal(i as nat),
        },
        Color::Rgb(r, g, b) => decimal(ch.extended as nat) + sep(legacy) + decimal(2) + (if legacy {
            seq![]
        } else {
            seq![58u8]
        }) + sep(legacy) + decimal(r as nat) + sep(legacy) + decimal(g as nat) + sep(legacy)
            + decimal(b as nat),
    }
}

fn push_sep(out: &mut Vec<u8>, legacy: bool)
    ensures
        final(out)@ == old(out)@ + sep(legacy),
{
    out.push(if legacy { 59u8 } else { 58u8 });
    assert(final(out)@ =~= old(out)@ + sep(legacy));
}

/// Colour emission: default is 39/49/59; indices under 16 use the short forms where the channel
/// has them; anything else the parameterised form, colon-separated unless `legacy`.
pub fn emit_color(out: &mut Vec<u8>, params: &mut u32, c: Color, ch: Channel, legacy: bool)
    requires
        *old(params) < u32::MAX,
        ch.short matches Some(base) ==> base < 1000,
    ensures
        *final(params) == *old(params) + 1,
        final(out)@ == old(out)@ + sep_before(*old(params) as nat) + color_chunk(c, ch, legacy),
{
    let ghost start = out@;
    match c {
        Color::Default => param(out, params, ch.default),
        Color::Indexed(i) => {
            let long = match ch.short {
                Some(base) => if (i as u32) < 8 {
                    param(out, params, base + i as u32);
                    false
                } else if (i as u32) < 16 {
                    param(out, params, base + 60 + (i as u32 - 8));
                    false
                } else {
                    true
                },
                None => true,
            };
            if long {
                param(out, params, ch.extended);
                let ghost a = out@;
                push_sep(out, legacy);
                push_num(out, 5);
                push_sep(out, legacy);
                push_num(out, i as u32);
                assert(out@ =~= start + sep_before(*old(params) as nat) + color_chunk(c, ch, legacy));
            }
        },
        Color::Rgb(r, g, b) => {
            param(out, params, ch.extended);
            push_sep(out, legacy);
            push_num(out, 2);
            let ghost before_colon = out@;
            if !legacy {
                out.push(58u8);
            }
            let ghost after_colon = out@;
            assert(after_colon =~= before_colon + (if legacy { seq![] } else { seq![58u8] }));
            push_sep(out, legacy);
            push_num(out, r as u32);
            push_sep(out, legacy);
            push_num(out, g as u32);
            push_sep(out, legacy);
            push_num(out, b as u32);
            assert(out@ =~= start + sep_before(*old(params) as nat) + color_chunk(c, ch, legacy));
        },
    }
}

/// One attribute toggled on or off, or nothing.
pub open spec fn toggle(added: u64, removed: u64, bit: u64, on: u32, off: u32) -> Seq<Seq<u8>> {
    if added & bit != 0 {
        seq![decimal(on as nat)]
    } else if removed & bit != 0 {
        seq![decimal(off as nat)]
    } else {
        seq![]
    }
}

/// The parameters that change the eight attribute flags from `old` to `new`. SGR 22 resets bold
/// and dim together, so removing either emits 22 and reapplies the other.
pub open spec fn attr_chunks(old: u64, new: u64) -> Seq<Seq<u8>> {
    bold_dim_chunks(old, new) + toggle_chunks(old, new)
}

/// The parameter that changes the underline style, if it changed. SGR 21 is never emitted.
pub open spec fn underline_chunks(old: u64, new: u64) -> Seq<Seq<u8>> {
    if old == new {
        seq![]
    } else if new == 0 {
        seq![decimal(24)]
    } else {
        seq![decimal(4) + seq![58u8] + decimal(new as nat)]
    }
}

/// The parameters that change the three colour channels from `was` to `now`.
pub open spec fn color_chunks(was: ExtStyle, now: ExtStyle, legacy: bool, conpty: bool) -> Seq<Seq<u8>> {
    (if was.fg != now.fg {
        seq![color_chunk(now.fg, Channel { extended: 38, default: 39, short: Some(30) }, legacy)]
    } else {
        seq![]
    }) + (if was.bg != now.bg {
        seq![color_chunk(now.bg, Channel { extended: 48, default: 49, short: Some(40) }, legacy)]
    } else {
        seq![]
    }) + (if was.ul != now.ul {
        seq![color_chunk(now.ul, Channel { extended: 58, default: 59, short: None }, conpty)]
    } else {
        seq![]
    })
}

/// Every parameter of the SGR that turns `old` into `new` on this terminal.
pub open spec fn sgr_chunks(
    old: Style,
    new: Style,
    packet: &Packet,
    caps: &Capabilities,
    quant: Quantiser,
) -> Seq<Seq<u8>> {
    let o = Style { attr: old.attr & !quant.attrs_dropped, ..old };
    let n = Style { attr: new.attr & !quant.attrs_dropped, ..new };
    attr_chunks(o.attr & crate::style::ATTRS, n.attr & crate::style::ATTRS) + underline_chunks(
        o.spec_underline_style(),
        n.spec_underline_style(),
    ) + color_chunks(
        spec_channels_of(o, packet, quant),
        spec_channels_of(n, packet, quant),
        caps.private.legacy_sgr,
        caps.private.underlines == Underlines::ConPty,
    )
}

/// The bytes of the SGR that turns `old` into `new`: nothing at all where nothing changes, since
/// an empty `CSI m` is a reset.
pub open spec fn spec_sgr_delta(
    old: Style,
    new: Style,
    packet: &Packet,
    caps: &Capabilities,
    quant: Quantiser,
) -> Seq<u8> {
    let chunks = sgr_chunks(old, new, packet, caps, quant);
    if chunks.len() == 0 {
        seq![]
    } else {
        seq![27u8, 91u8] + join(chunks) + seq![109u8]
    }
}

/// One toggle, emitted, and the chunk list it extends.
fn emit_toggle(
    out: &mut Vec<u8>,
    params: &mut u32,
    added: u64,
    removed: u64,
    bit: u64,
    on: u32,
    off: u32,
    Ghost(chunks): Ghost<Seq<Seq<u8>>>,
    Ghost(prefix): Ghost<Seq<u8>>,
)
    requires
        *old(params) == chunks.len(),
        chunks.len() < 100,
        old(out)@ == prefix + join(chunks),
    ensures
        *final(params) == chunks.len() + toggle(added, removed, bit, on, off).len(),
        final(out)@ == prefix + join(chunks + toggle(added, removed, bit, on, off)),
        toggle(added, removed, bit, on, off).len() <= 1,
{
    if added & bit != 0 {
        param(out, params, on);
        proof {
            lemma_join_push(chunks, decimal(on as nat));
            assert(chunks + seq![decimal(on as nat)] =~= chunks.push(decimal(on as nat)));
        }
    } else if removed & bit != 0 {
        param(out, params, off);
        proof {
            lemma_join_push(chunks, decimal(off as nat));
            assert(chunks + seq![decimal(off as nat)] =~= chunks.push(decimal(off as nat)));
        }
    } else {
        assert(chunks + seq![] =~= chunks);
    }
}

/// One parameter, emitted, and the chunk list it extends.
fn emit_param(
    out: &mut Vec<u8>,
    params: &mut u32,
    n: u32,
    Ghost(chunks): Ghost<Seq<Seq<u8>>>,
    Ghost(prefix): Ghost<Seq<u8>>,
)
    requires
        *old(params) == chunks.len(),
        chunks.len() < 100,
        old(out)@ == prefix + join(chunks),
    ensures
        *final(params) == chunks.len() + 1,
        final(out)@ == prefix + join(chunks.push(decimal(n as nat))),
{
    param(out, params, n);
    proof {
        lemma_join_push(chunks, decimal(n as nat));
    }
}

/// One colour, emitted, and the chunk list it extends.
fn emit_color_chunk(
    out: &mut Vec<u8>,
    params: &mut u32,
    c: Color,
    ch: Channel,
    legacy: bool,
    Ghost(chunks): Ghost<Seq<Seq<u8>>>,
    Ghost(prefix): Ghost<Seq<u8>>,
)
    requires
        *old(params) == chunks.len(),
        chunks.len() < 100,
        old(out)@ == prefix + join(chunks),
        ch.short matches Some(base) ==> base < 1000,
    ensures
        *final(params) == chunks.len() + 1,
        final(out)@ == prefix + join(chunks.push(color_chunk(c, ch, legacy))),
{
    emit_color(out, params, c, ch, legacy);
    proof {
        lemma_join_push(chunks, color_chunk(c, ch, legacy));
    }
}

/// The bold and dim parameters: SGR 22 resets both, so removing either emits 22 and reapplies the
/// other.
pub open spec fn bold_dim_chunks(old: u64, new: u64) -> Seq<Seq<u8>> {
    let removed = old & !new;
    let added = new & !old;
    if removed & (BOLD | DIM) != 0 {
        seq![decimal(22)] + (if new & BOLD != 0 { seq![decimal(1)] } else { seq![] }) + (if new & DIM
            != 0 {
            seq![decimal(2)]
        } else {
            seq![]
        })
    } else {
        (if added & BOLD != 0 { seq![decimal(1)] } else { seq![] }) + (if added & DIM != 0 {
            seq![decimal(2)]
        } else {
            seq![]
        })
    }
}

/// The six attributes that have an on and an off of their own.
pub open spec fn toggle_chunks(old: u64, new: u64) -> Seq<Seq<u8>> {
    let removed = old & !new;
    let added = new & !old;
    toggle(added, removed, ITALIC, 3, 23) + toggle(added, removed, BLINK, 5, 25) + toggle(
        added,
        removed,
        REVERSE,
        7,
        27,
    ) + toggle(added, removed, CONCEAL, 8, 28) + toggle(added, removed, STRIKETHROUGH, 9, 29)
        + toggle(added, removed, OVERLINE, 53, 55)
}

fn emit_bold_dim(
    out: &mut Vec<u8>,
    params: &mut u32,
    oa: u64,
    na: u64,
    Ghost(chunks): Ghost<Seq<Seq<u8>>>,
    Ghost(prefix): Ghost<Seq<u8>>,
)
    requires
        *old(params) == chunks.len(),
        chunks.len() < 50,
        old(out)@ == prefix + join(chunks),
    ensures
        *final(params) == chunks.len() + bold_dim_chunks(oa, na).len(),
        final(out)@ == prefix + join(chunks + bold_dim_chunks(oa, na)),
        bold_dim_chunks(oa, na).len() <= 3,
{
    let removed = oa & !na;
    let added = na & !oa;
    let ghost mut c = chunks;
    if removed & (BOLD | DIM) != 0 {
        emit_param(out, params, 22, Ghost(c), Ghost(prefix));
        proof { c = c.push(decimal(22)); }
        if na & BOLD != 0 {
            emit_param(out, params, 1, Ghost(c), Ghost(prefix));
            proof { c = c.push(decimal(1)); }
        }
        if na & DIM != 0 {
            emit_param(out, params, 2, Ghost(c), Ghost(prefix));
            proof { c = c.push(decimal(2)); }
        }
    } else {
        if added & BOLD != 0 {
            emit_param(out, params, 1, Ghost(c), Ghost(prefix));
            proof { c = c.push(decimal(1)); }
        }
        if added & DIM != 0 {
            emit_param(out, params, 2, Ghost(c), Ghost(prefix));
            proof { c = c.push(decimal(2)); }
        }
    }
    assert(c =~= chunks + bold_dim_chunks(oa, na));
}

fn emit_toggles(
    out: &mut Vec<u8>,
    params: &mut u32,
    oa: u64,
    na: u64,
    Ghost(chunks): Ghost<Seq<Seq<u8>>>,
    Ghost(prefix): Ghost<Seq<u8>>,
)
    requires
        *old(params) == chunks.len(),
        chunks.len() < 50,
        old(out)@ == prefix + join(chunks),
    ensures
        *final(params) == chunks.len() + toggle_chunks(oa, na).len(),
        final(out)@ == prefix + join(chunks + toggle_chunks(oa, na)),
        toggle_chunks(oa, na).len() <= 6,
{
    let removed = oa & !na;
    let added = na & !oa;
    let ghost mut c = chunks;
    emit_toggle(out, params, added, removed, ITALIC, 3, 23, Ghost(c), Ghost(prefix));
    proof { c = c + toggle(added, removed, ITALIC, 3, 23); }
    emit_toggle(out, params, added, removed, BLINK, 5, 25, Ghost(c), Ghost(prefix));
    proof { c = c + toggle(added, removed, BLINK, 5, 25); }
    emit_toggle(out, params, added, removed, REVERSE, 7, 27, Ghost(c), Ghost(prefix));
    proof { c = c + toggle(added, removed, REVERSE, 7, 27); }
    emit_toggle(out, params, added, removed, CONCEAL, 8, 28, Ghost(c), Ghost(prefix));
    proof { c = c + toggle(added, removed, CONCEAL, 8, 28); }
    emit_toggle(out, params, added, removed, STRIKETHROUGH, 9, 29, Ghost(c), Ghost(prefix));
    proof { c = c + toggle(added, removed, STRIKETHROUGH, 9, 29); }
    emit_toggle(out, params, added, removed, OVERLINE, 53, 55, Ghost(c), Ghost(prefix));
    proof { c = c + toggle(added, removed, OVERLINE, 53, 55); }
    assert(c =~= chunks + toggle_chunks(oa, na));
}

fn emit_underline(
    out: &mut Vec<u8>,
    params: &mut u32,
    ou: u64,
    nu: u64,
    Ghost(chunks): Ghost<Seq<Seq<u8>>>,
    Ghost(prefix): Ghost<Seq<u8>>,
)
    requires
        *old(params) == chunks.len(),
        chunks.len() < 50,
        nu < 8,
        old(out)@ == prefix + join(chunks),
    ensures
        *final(params) == chunks.len() + underline_chunks(ou, nu).len(),
        final(out)@ == prefix + join(chunks + underline_chunks(ou, nu)),
        underline_chunks(ou, nu).len() <= 1,
{
    if ou != nu {
        if nu == 0 {
            emit_param(out, params, 24, Ghost(chunks), Ghost(prefix));
            assert(chunks + underline_chunks(ou, nu) =~= chunks.push(decimal(24)));
        } else {
            emit_param(out, params, 4, Ghost(chunks), Ghost(prefix));
            out.push(58u8);
            push_num(out, nu as u32);
            proof {
                lemma_join_extend_last(chunks, decimal(4), seq![58u8] + decimal(nu as nat));
                assert(out@ =~= prefix + join(chunks.push(decimal(4))) + (seq![58u8] + decimal(nu as nat)));
                assert(decimal(4) + (seq![58u8] + decimal(nu as nat)) =~= decimal(4) + seq![58u8] + decimal(nu as nat));
                assert(chunks + underline_chunks(ou, nu) =~= chunks.push(decimal(4) + seq![58u8] + decimal(nu as nat)));
            }
        }
    } else {
        assert(chunks + underline_chunks(ou, nu) =~= chunks);
    }
}

fn emit_colors(
    out: &mut Vec<u8>,
    params: &mut u32,
    was: ExtStyle,
    now: ExtStyle,
    legacy: bool,
    conpty: bool,
    Ghost(chunks): Ghost<Seq<Seq<u8>>>,
    Ghost(prefix): Ghost<Seq<u8>>,
)
    requires
        *old(params) == chunks.len(),
        chunks.len() < 50,
        old(out)@ == prefix + join(chunks),
    ensures
        *final(params) == chunks.len() + color_chunks(was, now, legacy, conpty).len(),
        final(out)@ == prefix + join(chunks + color_chunks(was, now, legacy, conpty)),
{
    let ghost mut c = chunks;
    if !(was.fg == now.fg) {
        emit_color_chunk(out, params, now.fg, foreground(), legacy, Ghost(c), Ghost(prefix));
        proof { c = c.push(color_chunk(now.fg, Channel { extended: 38, default: 39, short: Some(30) }, legacy)); }
    }
    if !(was.bg == now.bg) {
        emit_color_chunk(out, params, now.bg, background(), legacy, Ghost(c), Ghost(prefix));
        proof { c = c.push(color_chunk(now.bg, Channel { extended: 48, default: 49, short: Some(40) }, legacy)); }
    }
    if !(was.ul == now.ul) {
        emit_color_chunk(out, params, now.ul, underline_color(), conpty, Ghost(c), Ghost(prefix));
        proof { c = c.push(color_chunk(now.ul, Channel { extended: 58, default: 59, short: None }, conpty)); }
    }
    assert(c =~= chunks + color_chunks(was, now, legacy, conpty));
}

/// Write the SGR that turns `from` into `to`. Both sides lose the flags the terminal does not
/// render first, and nothing at all is written where nothing changes.
#[verifier::rlimit(60)]
pub fn emit_sgr_delta(
    out: &mut Vec<u8>,
    from: Style,
    to: Style,
    packet: &Packet,
    caps: &Capabilities,
    quant: Quantiser,
)
    requires
        packet.wf(),
    ensures
        final(out)@ == old(out)@ + spec_sgr_delta(from, to, packet, caps, quant),
{
    let (o, n) = (quant.attrs(from), quant.attrs(to));
    let ghost mark = out@;
    let mark_len = out.len();
    out.push(27u8);
    out.push(91u8);
    let ghost prefix = mark + seq![27u8, 91u8];
    assert(out@ =~= prefix + join(seq![]));
    let mut params: u32 = 0;
    let ghost c0: Seq<Seq<u8>> = seq![];
    let (oa, na) = (o.attrs(), n.attrs());
    emit_bold_dim(out, &mut params, oa, na, Ghost(c0), Ghost(prefix));
    let ghost c1 = c0 + bold_dim_chunks(oa, na);
    emit_toggles(out, &mut params, oa, na, Ghost(c1), Ghost(prefix));
    let ghost c2 = c1 + toggle_chunks(oa, na);
    let (ou, nu) = (o.underline_style(), new_underline(n));
    emit_underline(out, &mut params, ou, nu, Ghost(c2), Ghost(prefix));
    let ghost c3 = c2 + underline_chunks(ou, nu);
    let was = channels_of(o, packet, quant);
    let now = channels_of(n, packet, quant);
    let legacy = caps.legacy_sgr();
    let conpty = caps.underlines() == Underlines::ConPty;
    emit_colors(out, &mut params, was, now, legacy, conpty, Ghost(c3), Ghost(prefix));
    let ghost c4 = c3 + color_chunks(was, now, legacy, conpty);
    proof {
        assert(oa == (Style { attr: from.attr & !quant.attrs_dropped, ..from }).attr & crate::style::ATTRS);
        assert(na == (Style { attr: to.attr & !quant.attrs_dropped, ..to }).attr & crate::style::ATTRS);
        assert(c4 =~= sgr_chunks(from, to, packet, caps, quant));
    }
    if params == 0 {
        out.truncate(mark_len);
        assert(out@ =~= mark);
        return;
    }
    out.push(109u8);
    assert(out@ =~= mark + spec_sgr_delta(from, to, packet, caps, quant));
}

fn new_underline(s: Style) -> (u: u64)
    ensures
        u == s.spec_underline_style(),
        u < 8,
{
    s.underline_style()
}

/// The four channels a style word paints with on this terminal, whichever side of the extended
/// bit it is on. A handle the packet does not carry paints the terminal's own colours and no
/// hyperlink: the one answer that invents nothing.
pub open spec fn spec_channels_of(style: Style, packet: &Packet, quant: Quantiser) -> ExtStyle {
    if !style.extended {
        ExtStyle {
            fg: quant.spec_color(style.fg),
            bg: quant.spec_color(style.bg),
            ul: Color::Default,
            link: LinkId { id: 0 },
        }
    } else {
        match packet.spec_ext(style.handle) {
            Some(e) => quant.spec_channels(e),
            None => ExtStyle { fg: Color::Default, bg: Color::Default, ul: Color::Default, link: LinkId { id: 0 } },
        }
    }
}

/// The four channels a style word paints with, narrowed.
pub fn channels_of(style: Style, packet: &Packet, quant: Quantiser) -> (e: ExtStyle)
    ensures
        e == spec_channels_of(style, packet, quant),
{
    let handle = match style.ext_handle() {
        Some(h) => h,
        None => {
            return ExtStyle {
                fg: quant.color(style.foreground()),
                bg: quant.color(style.background()),
                ul: Color::Default,
                link: LinkId::none(),
            };
        },
    };
    match packet.ext(handle) {
        Some(e) => quant.channels(e),
        None => ExtStyle {
            fg: Color::Default,
            bg: Color::Default,
            ul: Color::Default,
            link: LinkId::none(),
        },
    }
}

/// `OSC 8 ; ; uri ST`, or the same with no URI, which closes the hyperlink.
pub open spec fn spec_osc8(uri: Option<Seq<u8>>) -> Seq<u8> {
    seq![27u8, 93u8, 56u8, 59u8, 59u8] + (match uri {
        Some(u) => u,
        None => seq![],
    }) + seq![27u8, 92u8]
}

/// Open, retarget or close the terminal's hyperlink.
pub fn emit_osc8(out: &mut Vec<u8>, uri: Option<&[u8]>)
    ensures
        final(out)@ == old(out)@ + spec_osc8(match uri { Some(u) => Some(u@), None => None }),
{
    let ghost start = out@;
    out.push(0x1b);
    out.push(93u8);
    out.push(56u8);
    out.push(59u8);
    out.push(59u8);
    if let Some(uri) = uri {
        crate::packet::append_bytes(out, uri);
    }
    out.push(0x1b);
    out.push(92u8);
    assert(out@ =~= start + spec_osc8(match uri { Some(u) => Some(u@), None => None }));
}

/// Append the UTF-8 encoding of one scalar.
pub fn push_char(out: &mut Vec<u8>, c: char)
    ensures
        final(out)@ == old(out)@ + encode_scalar(c as u32),
{
    let v = c as u32;
    let ghost start = out@;
    if v <= 0x7F {
        out.push((v & 0x7F) as u8);
    } else if v <= 0x7FF {
        out.push(0xC0 | ((v >> 6) & 0x1F) as u8);
        out.push(0x80 | (v & 0x3F) as u8);
    } else if v <= 0xFFFF {
        out.push(0xE0 | ((v >> 12) & 0x0F) as u8);
        out.push(0x80 | ((v >> 6) & 0x3F) as u8);
        out.push(0x80 | (v & 0x3F) as u8);
    } else {
        out.push(0xF0 | ((v >> 18) & 0x7) as u8);
        out.push(0x80 | ((v >> 12) & 0x3F) as u8);
        out.push(0x80 | ((v >> 6) & 0x3F) as u8);
        out.push(0x80 | (v & 0x3F) as u8);
    }
    assert(out@ =~= start + encode_scalar(v));
}

/// The bytes a handle names: the packet's copy for a cluster, the scalar itself for a scalar, and
/// nothing for a continuation or the sentinel.
pub open spec fn spec_text_of(g: GraphemeId, packet: &Packet) -> Option<Seq<u8>> {
    match g {
        GraphemeId::Scalar { ch, .. } => Some(encode_scalar(ch as u32)),
        GraphemeId::Cluster { .. } => packet.spec_cluster(g),
        _ => None,
    }
}

/// How many bytes a handle's text takes on the wire, where it has any.
pub fn text_len(g: GraphemeId, packet: &Packet) -> (n: Option<usize>)
    requires
        packet.wf(),
    ensures
        n == match spec_text_of(g, packet) { Some(b) => Some(b.len() as usize), None => None },
{
    match g {
        GraphemeId::Scalar { ch, .. } => {
            let v = ch as u32;
            Some(if v <= 0x7F { 1 } else if v <= 0x7FF { 2 } else if v <= 0xFFFF { 3 } else { 4 })
        },
        GraphemeId::Cluster { .. } => match packet.cluster(g) {
            Some(b) => Some(b.len()),
            None => None,
        },
        _ => None,
    }
}

/// Write one cell's cluster, or a space where the handle names no text this packet carries.
pub fn emit_grapheme(out: &mut Vec<u8>, g: GraphemeId, packet: &Packet)
    requires
        packet.wf(),
    ensures
        final(out)@ == old(out)@ + match spec_text_of(g, packet) { Some(b) => b, None => seq![32u8] },
{
    match g {
        GraphemeId::Scalar { ch, .. } => push_char(out, ch),
        GraphemeId::Cluster { .. } => match packet.cluster(g) {
            Some(b) => crate::packet::append_bytes(out, b),
            None => {
                out.push(32u8);
                assert(final(out)@ =~= old(out)@ + seq![32u8]);
            },
        },
        _ => {
            out.push(32u8);
            assert(final(out)@ =~= old(out)@ + seq![32u8]);
        },
    }
}

/// The cell that costs nothing to check: an ASCII scalar, which nothing can join to.
pub fn is_ascii_scalar(g: GraphemeId) -> (b: bool)
    ensures
        b == g.spec_is_ascii_scalar(),
{
    match g {
        GraphemeId::Scalar { ch, .. } => (ch as u32) < 0x80,
        _ => false,
    }
}

/// The final bytes of the CSIs in `s` from position `i` on, with `in_csi` saying whether a CSI
/// was open there: an ESC closes one, an ESC followed by `[` opens one, and the first byte of
/// `0x40..=0x7E` inside one is its final byte and closes it.
pub open spec fn finals_from(s: Seq<u8>, i: int, in_csi: bool) -> Seq<u8>
    decreases s.len() - i,
{
    if i < 0 || i >= s.len() {
        Seq::empty()
    } else if s[i] == 0x1b {
        finals_from(s, i + 1, false)
    } else if i > 0 && s[i - 1] == 0x1b && s[i] == 91 {
        finals_from(s, i + 1, true)
    } else if in_csi && 0x40 <= s[i] <= 0x7E {
        seq![s[i]] + finals_from(s, i + 1, false)
    } else {
        finals_from(s, i + 1, in_csi)
    }
}

/// The final byte of every CSI in `out`, which is what a property about which sequences a frame
/// spent is counted from.
pub fn csi_finals(out: &[u8]) -> (finals: Vec<u8>)
    ensures
        finals@ == finals_from(out@, 0, false),
{
    let mut finals: Vec<u8> = Vec::new();
    let mut in_csi = false;
    let mut i: usize = 0;
    while i < out.len()
        invariant
            0 <= i <= out@.len(),
            finals@ + finals_from(out@, i as int, in_csi) == finals_from(out@, 0, false),
        decreases out@.len() - i,
    {
        let b = out[i];
        let ghost before = finals@;
        if b == 0x1b {
            in_csi = false;
        } else if i > 0 && out[i - 1] == 0x1b && b == 91u8 {
            in_csi = true;
        } else if in_csi && 0x40 <= b && b <= 0x7E {
            in_csi = false;
            finals.push(b);
            proof {
                assert(finals@ + finals_from(out@, i + 1, false) =~= before + (seq![b] + finals_from(out@, i + 1, false)));
            }
        }
        i = i + 1;
    }
    proof {
        assert(finals@ + finals_from(out@, i as int, in_csi) =~= finals@);
    }
    finals
}

} // verus!
