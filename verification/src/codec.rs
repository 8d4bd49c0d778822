//! The snapshot codec: a serializer and parser for the on-disk form of the
//! link collection, a JSON object keyed by title whose values are objects
//! with `title` and `url` string fields. The serializer emits a canonical
//! compact form; the parser accepts that form (with the usual JSON string
//! escapes) and rejects everything else, so a malformed file is recognized
//! as a whole rather than partially recovered.

use crate::store::Link;
use vstd::prelude::*;

verus! {

pub const QUOTE: u8 = 34;
pub const COMMA: u8 = 44;
pub const SLASH: u8 = 47;
pub const COLON: u8 = 58;
pub const BACKSLASH: u8 = 92;
pub const LBRACE: u8 = 123;
pub const RBRACE: u8 = 125;

// ---------------------------------------------------------------------------
// String escaping
// ---------------------------------------------------------------------------

/// The lowercase hex digit for a nibble value.
pub open spec fn hex_digit(n: u8) -> u8 {
    if n < 10 {
        (48 + n) as u8
    } else {
        (87 + n) as u8
    }
}

/// How one byte of a string appears inside a JSON string literal.
pub open spec fn esc_byte(b: u8) -> Seq<u8> {
    if b == QUOTE {
        seq![BACKSLASH, QUOTE]
    } else if b == BACKSLASH {
        seq![BACKSLASH, BACKSLASH]
    } else if b == 8 {
        seq![BACKSLASH, 98]
    } else if b == 12 {
        seq![BACKSLASH, 102]
    } else if b == 10 {
        seq![BACKSLASH, 110]
    } else if b == 13 {
        seq![BACKSLASH, 114]
    } else if b == 9 {
        seq![BACKSLASH, 116]
    } else if b < 32 {
        seq![BACKSLASH, 117, 48, 48, hex_digit(b / 16), hex_digit(b % 16)]
    } else {
        seq![b]
    }
}

/// The escaped form of a whole string.
pub open spec fn esc(s: Seq<u8>) -> Seq<u8>
    decreases s.len(),
{
    if s.len() == 0 {
        Seq::empty()
    } else {
        esc_byte(s[0]) + esc(s.skip(1))
    }
}

/// The escape codes accepted after a backslash, besides `\u`.
pub open spec fn is_short_escape(c: u8) -> bool {
    c == QUOTE || c == BACKSLASH || c == SLASH || c == 98 || c == 102 || c == 110 || c == 114
        || c == 116
}

/// The byte a short escape stands for.
pub open spec fn short_unesc(c: u8) -> u8 {
    if c == QUOTE {
        QUOTE
    } else if c == BACKSLASH {
        BACKSLASH
    } else if c == SLASH {
        SLASH
    } else if c == 98 {
        8
    } else if c == 102 {
        12
    } else if c == 110 {
        10
    } else if c == 114 {
        13
    } else {
        9
    }
}

pub open spec fn is_hex(c: u8) -> bool {
    (48 <= c && c < 58) || (65 <= c && c < 71) || (97 <= c && c < 103)
}

/// The value of one hex digit.
pub open spec fn unhex(c: u8) -> u8 {
    if 48 <= c && c < 58 {
        (c - 48) as u8
    } else if 65 <= c && c < 71 {
        (c - 55) as u8
    } else if 97 <= c && c < 103 {
        (c - 87) as u8
    } else {
        0
    }
}

/// The byte encoded by two hex digits.
pub open spec fn hex_val2(h: u8, l: u8) -> u8 {
    (unhex(h) * 16 + unhex(l)) as u8
}

/// Reads a JSON string body: the input begins just after the opening quote.
/// Returns the decoded bytes and what follows the closing quote, or `None`
/// when the body is malformed (an unknown escape, a raw control byte, or no
/// closing quote).
pub open spec fn unesc(t: Seq<u8>) -> Option<(Seq<u8>, Seq<u8>)>
    decreases t.len(),
{
    if t.len() == 0 {
        None
    } else if t[0] == QUOTE {
        Some((Seq::empty(), t.skip(1)))
    } else if t[0] == BACKSLASH {
        if t.len() >= 2 && is_short_escape(t[1]) {
            match unesc(t.skip(2)) {
                Some(p) => Some((seq![short_unesc(t[1])] + p.0, p.1)),
                None => None,
            }
        } else if t.len() >= 6 && t[1] == 117 && t[2] == 48 && t[3] == 48 && is_hex(t[4]) && is_hex(
            t[5],
        ) {
            match unesc(t.skip(6)) {
                Some(p) => Some((seq![hex_val2(t[4], t[5])] + p.0, p.1)),
                None => None,
            }
        } else {
            None
        }
    } else if t[0] < 32 {
        None
    } else {
        match unesc(t.skip(1)) {
            Some(p) => Some((seq![t[0]] + p.0, p.1)),
            None => None,
        }
    }
}

/// Escaping a nibble and reading the digit back is the identity.
proof fn lemma_hex_digit_round(n: u8)
    requires
        n < 16,
    ensures
        is_hex(hex_digit(n)),
        unhex(hex_digit(n)) == n,
{
}

/// Escaping a control byte as `\u00..` and decoding the digits is the identity.
proof fn lemma_hex_round(b: u8)
    requires
        b < 32,
    ensures
        is_hex(hex_digit(b / 16)),
        is_hex(hex_digit(b % 16)),
        hex_val2(hex_digit(b / 16), hex_digit(b % 16)) == b,
{
    lemma_hex_digit_round(b / 16);
    lemma_hex_digit_round(b % 16);
    vstd::arithmetic::div_mod::lemma_fundamental_div_mod(b as int, 16);
}

/// Reading back an escaped string consumes exactly the escaped bytes and the
/// closing quote, and recovers the original string.
pub proof fn lemma_unesc_esc(s: Seq<u8>, rest: Seq<u8>)
    ensures
        unesc(esc(s) + seq![QUOTE] + rest) == Some((s, rest)),
    decreases s.len(),
{
    let t = esc(s) + seq![QUOTE] + rest;
    if s.len() == 0 {
        assert(t =~= seq![QUOTE] + rest);
        assert(t[0] == QUOTE);
        assert(t.skip(1) =~= rest);
        assert(s =~= Seq::<u8>::empty());
    } else {
        let b = s[0];
        let tail = s.skip(1);
        lemma_unesc_esc(tail, rest);
        let t2 = esc(tail) + seq![QUOTE] + rest;
        assert(esc(s) == esc_byte(b) + esc(tail));
        if b == QUOTE || b == BACKSLASH || b == 8 || b == 12 || b == 10 || b == 13 || b == 9 {
            assert(t[0] == BACKSLASH);
            assert(is_short_escape(t[1]));
            assert(short_unesc(t[1]) == b);
            assert(t.skip(2) =~= t2);
            assert(unesc(t) == Some((seq![b] + tail, rest)));
            assert(seq![b] + tail =~= s);
        } else if b < 32 {
            lemma_hex_round(b);
            assert(t[0] == BACKSLASH);
            assert(t[1] == 117 && t[2] == 48 && t[3] == 48);
            assert(t[4] == hex_digit(b / 16) && t[5] == hex_digit(b % 16));
            assert(!is_short_escape(117));
            assert(t.skip(6) =~= t2);
            assert(hex_val2(t[4], t[5]) == b);
            assert(unesc(t) == Some((seq![b] + tail, rest)));
            assert(seq![b] + tail =~= s);
        } else {
            assert(t[0] == b);
            assert(b != QUOTE && b != BACKSLASH && b >= 32);
            assert(t.skip(1) =~= t2);
            assert(unesc(t) == Some((seq![b] + tail, rest)));
            assert(seq![b] + tail =~= s);
        }
    }
}

// ---------------------------------------------------------------------------
// The snapshot form
// ---------------------------------------------------------------------------

/// An entry as the codec sees it: the title and the url.
pub open spec fn wf_entry(e: (Seq<u8>, Seq<u8>)) -> bool {
    e.0.len() > 0 && e.1.len() > 0
}

/// No two entries share a title.
pub open spec fn distinct_titles(es: Seq<(Seq<u8>, Seq<u8>)>) -> bool {
    forall|i: int, j: int|
        0 <= i < es.len() && 0 <= j < es.len() && i != j ==> (#[trigger] es[i]).0 != (
        #[trigger] es[j]).0
}

/// A well-formed collection: titles are unique, and no title or url is empty.
pub open spec fn wf_views(es: Seq<(Seq<u8>, Seq<u8>)>) -> bool {
    distinct_titles(es) && forall|i: int| 0 <= i < es.len() ==> wf_entry(#[trigger] es[i])
}

/// A quoted JSON string literal.
pub open spec fn qstr(s: Seq<u8>) -> Seq<u8> {
    seq![QUOTE] + esc(s) + seq![QUOTE]
}

/// The bytes `:{"title":` between an entry's key and its inner title field.
pub open spec fn lit_title_mid() -> Seq<u8> {
    seq![COLON, LBRACE, QUOTE, 116, 105, 116, 108, 101, QUOTE, COLON]
}

/// The bytes `,"url":` between an entry's title field and its url field.
pub open spec fn lit_url_mid() -> Seq<u8> {
    seq![COMMA, QUOTE, 117, 114, 108, QUOTE, COLON]
}

/// One rendered entry: `"<key>":{"title":"<key>","url":"<url>"}`.
pub open spec fn render_entry(e: (Seq<u8>, Seq<u8>)) -> Seq<u8> {
    qstr(e.0) + lit_title_mid() + qstr(e.0) + lit_url_mid() + qstr(e.1) + seq![RBRACE]
}

/// Second and later entries, each preceded by a comma.
pub open spec fn render_more(es: Seq<(Seq<u8>, Seq<u8>)>) -> Seq<u8>
    decreases es.len(),
{
    if es.len() == 0 {
        Seq::empty()
    } else {
        seq![COMMA] + render_entry(es[0]) + render_more(es.skip(1))
    }
}

/// All entries, comma-separated.
pub open spec fn render_entries(es: Seq<(Seq<u8>, Seq<u8>)>) -> Seq<u8> {
    if es.len() == 0 {
        Seq::empty()
    } else {
        render_entry(es[0]) + render_more(es.skip(1))
    }
}

/// The whole snapshot: a JSON object of the entries.
pub open spec fn render_snapshot_spec(es: Seq<(Seq<u8>, Seq<u8>)>) -> Seq<u8> {
    seq![LBRACE] + render_entries(es) + seq![RBRACE]
}

// ---------------------------------------------------------------------------
// The snapshot parser, at the specification level
// ---------------------------------------------------------------------------

pub open spec fn starts_with(t: Seq<u8>, lit: Seq<u8>) -> bool {
    t.len() >= lit.len() && t.take(lit.len() as int) == lit
}

/// Reads one entry from the front of `t`. Returns the entry and what follows
/// it. The inner `title` field must repeat the key, and neither the title nor
/// the url may be empty; anything else is malformed.
pub open spec fn parse_entry(t: Seq<u8>) -> Option<((Seq<u8>, Seq<u8>), Seq<u8>)> {
    if t.len() >= 1 && t[0] == QUOTE {
        match unesc(t.skip(1)) {
            Some(kp) => if starts_with(kp.1, lit_title_mid()) {
                let r2 = kp.1.skip(lit_title_mid().len() as int);
                if r2.len() >= 1 && r2[0] == QUOTE {
                    match unesc(r2.skip(1)) {
                        Some(tp) => if tp.0 == kp.0 && starts_with(tp.1, lit_url_mid()) {
                            let r4 = tp.1.skip(lit_url_mid().len() as int);
                            if r4.len() >= 1 && r4[0] == QUOTE {
                                match unesc(r4.skip(1)) {
                                    Some(up) => if up.1.len() >= 1 && up.1[0] == RBRACE
                                        && kp.0.len() > 0 && up.0.len() > 0 {
                                        Some(((kp.0, up.0), up.1.skip(1)))
                                    } else {
                                        None
                                    },
                                    None => None,
                                }
                            } else {
                                None
                            }
                        } else {
                            None
                        },
                        None => None,
                    }
                } else {
                    None
                }
            } else {
                None
            },
            None => None,
        }
    } else {
        None
    }
}

/// Whatever `unesc` leaves over is strictly shorter than its input.
proof fn lemma_unesc_shrinks(t: Seq<u8>)
    ensures
        unesc(t) matches Some(p) ==> p.1.len() < t.len(),
    decreases t.len(),
{
    if t.len() == 0 {
    } else if t[0] == QUOTE {
    } else if t[0] == BACKSLASH {
        if t.len() >= 2 && is_short_escape(t[1]) {
            lemma_unesc_shrinks(t.skip(2));
        } else if t.len() >= 6 && t[1] == 117 && t[2] == 48 && t[3] == 48 && is_hex(t[4]) && is_hex(
            t[5],
        ) {
            lemma_unesc_shrinks(t.skip(6));
        }
    } else if t[0] < 32 {
    } else {
        lemma_unesc_shrinks(t.skip(1));
    }
}

/// Whatever `parse_entry` leaves over is strictly shorter than its input.
proof fn lemma_parse_entry_shrinks(t: Seq<u8>)
    ensures
        parse_entry(t) matches Some(p) ==> p.1.len() < t.len(),
{
    if t.len() >= 1 && t[0] == QUOTE {
        lemma_unesc_shrinks(t.skip(1));
        match unesc(t.skip(1)) {
            Some(kp) => {
                let r2 = kp.1.skip(lit_title_mid().len() as int);
                if r2.len() >= 1 && r2[0] == QUOTE {
                    lemma_unesc_shrinks(r2.skip(1));
                    match unesc(r2.skip(1)) {
                        Some(tp) => {
                            let r4 = tp.1.skip(lit_url_mid().len() as int);
                            if r4.len() >= 1 && r4[0] == QUOTE {
                                lemma_unesc_shrinks(r4.skip(1));
                            }
                        },
                        None => {},
                    }
                }
            },
            None => {},
        }
    }
}

/// Reads a non-empty comma-separated entry list followed by the closing brace,
/// which must end the input.
pub open spec fn parse_entries(t: Seq<u8>) -> Option<Seq<(Seq<u8>, Seq<u8>)>>
    decreases t.len(),
    via parse_entries_decreases
{
    match parse_entry(t) {
        Some(p) => if p.1.len() == 1 && p.1[0] == RBRACE {
            Some(seq![p.0])
        } else if p.1.len() >= 1 && p.1[0] == COMMA {
            match parse_entries(p.1.skip(1)) {
                Some(es) => Some(seq![p.0] + es),
                None => None,
            }
        } else {
            None
        },
        None => None,
    }
}

#[via_fn]
proof fn parse_entries_decreases(t: Seq<u8>) {
    lemma_parse_entry_shrinks(t);
}

/// Parses a whole snapshot. `Some` exactly when the input is a well-formed
/// snapshot: the canonical object form, unique non-empty titles, non-empty
/// urls, and each inner `title` field equal to its key.
pub open spec fn parse_snapshot_spec(t: Seq<u8>) -> Option<Seq<(Seq<u8>, Seq<u8>)>> {
    if t.len() >= 2 && t[0] == LBRACE {
        if t.len() == 2 && t[1] == RBRACE {
            Some(Seq::empty())
        } else {
            match parse_entries(t.skip(1)) {
                Some(es) => if distinct_titles(es) {
                    Some(es)
                } else {
                    None
                },
                None => None,
            }
        }
    } else {
        None
    }
}

// ---------------------------------------------------------------------------
// Round trip: parsing a rendered snapshot recovers the entries
// ---------------------------------------------------------------------------

/// Reading a rendered entry from the front of the input recovers that entry
/// and leaves exactly what follows it.
proof fn lemma_parse_entry_of_render(e: (Seq<u8>, Seq<u8>), rest: Seq<u8>)
    requires
        wf_entry(e),
    ensures
        parse_entry(render_entry(e) + rest) == Some((e, rest)),
{
    let t = render_entry(e) + rest;
    let m1 = lit_title_mid();
    let m2 = lit_url_mid();
    let r1 = m1 + qstr(e.0) + m2 + qstr(e.1) + seq![RBRACE] + rest;
    assert(t =~= seq![QUOTE] + (esc(e.0) + seq![QUOTE] + r1));
    assert(t[0] == QUOTE);
    assert(t.skip(1) =~= esc(e.0) + seq![QUOTE] + r1);
    lemma_unesc_esc(e.0, r1);
    assert(unesc(t.skip(1)) == Some((e.0, r1)));
    assert(r1.take(m1.len() as int) =~= m1);
    assert(starts_with(r1, m1));
    let r2 = r1.skip(m1.len() as int);
    let r3 = m2 + qstr(e.1) + seq![RBRACE] + rest;
    assert(r2 =~= seq![QUOTE] + (esc(e.0) + seq![QUOTE] + r3));
    assert(r2[0] == QUOTE);
    assert(r2.skip(1) =~= esc(e.0) + seq![QUOTE] + r3);
    lemma_unesc_esc(e.0, r3);
    assert(unesc(r2.skip(1)) == Some((e.0, r3)));
    assert(r3.take(m2.len() as int) =~= m2);
    assert(starts_with(r3, m2));
    let r4 = r3.skip(m2.len() as int);
    let r5 = seq![RBRACE] + rest;
    assert(r4 =~= seq![QUOTE] + (esc(e.1) + seq![QUOTE] + r5));
    assert(r4[0] == QUOTE);
    assert(r4.skip(1) =~= esc(e.1) + seq![QUOTE] + r5);
    lemma_unesc_esc(e.1, r5);
    assert(unesc(r4.skip(1)) == Some((e.1, r5)));
    assert(r5[0] == RBRACE);
    assert(r5.skip(1) =~= rest);
    assert(parse_entry(t) == Some(((e.0, e.1), rest)));
    assert((e.0, e.1) == e);
}

/// Reading a rendered entry list (with its closing brace) recovers the list.
proof fn lemma_parse_entries_of_render(es: Seq<(Seq<u8>, Seq<u8>)>)
    requires
        es.len() > 0,
        forall|i: int| 0 <= i < es.len() ==> wf_entry(#[trigger] es[i]),
    ensures
        parse_entries(render_entries(es) + seq![RBRACE]) == Some(es),
    decreases es.len(),
{
    let t = render_entries(es) + seq![RBRACE];
    let tail = es.skip(1);
    if tail.len() == 0 {
        assert(render_more(tail) =~= Seq::<u8>::empty());
        assert(t =~= render_entry(es[0]) + seq![RBRACE]);
        lemma_parse_entry_of_render(es[0], seq![RBRACE]);
        let p = parse_entry(t)->Some_0;
        assert(p.1 =~= seq![RBRACE]);
        assert(p.1.len() == 1 && p.1[0] == RBRACE);
        assert(seq![p.0] =~= es);
    } else {
        lemma_parse_entries_of_render(tail);
        let r1 = seq![COMMA] + render_entries(tail) + seq![RBRACE];
        assert(render_more(tail) =~= seq![COMMA] + render_entry(tail[0]) + render_more(tail.skip(1)));
        assert(render_entries(tail) == render_entry(tail[0]) + render_more(tail.skip(1)));
        assert(t =~= render_entry(es[0]) + r1);
        lemma_parse_entry_of_render(es[0], r1);
        let p = parse_entry(t)->Some_0;
        assert(p.1 == r1);
        assert(r1[0] == COMMA);
        assert(r1.len() > 1);
        assert(r1.skip(1) =~= render_entries(tail) + seq![RBRACE]);
        assert(parse_entries(r1.skip(1)) == Some(tail));
        assert(seq![p.0] + tail =~= es);
    }
}

/// The round trip: parsing the rendered snapshot of any well-formed
/// collection yields exactly that collection's entries, in order.
pub proof fn lemma_snapshot_round_trip(es: Seq<(Seq<u8>, Seq<u8>)>)
    requires
        wf_views(es),
    ensures
        parse_snapshot_spec(render_snapshot_spec(es)) == Some(es),
{
    let t = render_snapshot_spec(es);
    assert(t[0] == LBRACE);
    if es.len() == 0 {
        assert(render_entries(es) =~= Seq::<u8>::empty());
        assert(t =~= seq![LBRACE, RBRACE]);
        assert(es =~= Seq::<(Seq<u8>, Seq<u8>)>::empty());
    } else {
        lemma_parse_entries_of_render(es);
        assert(render_entry(es[0])[0] == QUOTE);
        assert(t[1] == QUOTE);
        assert(t.len() > 2);
        assert(t.skip(1) =~= render_entries(es) + seq![RBRACE]);
        assert(parse_entries(t.skip(1)) == Some(es));
    }
}

// ---------------------------------------------------------------------------
// The serializer
// ---------------------------------------------------------------------------

/// The (title, url) pairs a sequence of links stands for.
pub open spec fn links_views(s: Seq<Link>) -> Seq<(Seq<u8>, Seq<u8>)> {
    s.map_values(|l: Link| l.view_pair())
}

/// Escaping distributes over concatenation.
proof fn lemma_esc_append(a: Seq<u8>, b: Seq<u8>)
    ensures
        esc(a + b) == esc(a) + esc(b),
    decreases a.len(),
{
    if a.len() == 0 {
        assert(a + b =~= b);
        assert(esc(a) + esc(b) =~= esc(b));
    } else {
        lemma_esc_append(a.skip(1), b);
        assert((a + b)[0] == a[0]);
        assert((a + b).skip(1) =~= a.skip(1) + b);
        assert(esc(a + b) =~= esc(a) + esc(b));
    }
}

/// Escaping one more byte appends that byte's escape.
proof fn lemma_esc_snoc(s: Seq<u8>, i: int)
    requires
        0 <= i < s.len(),
    ensures
        esc(s.take(i + 1)) == esc(s.take(i)) + esc_byte(s[i]),
{
    lemma_esc_append(s.take(i), seq![s[i]]);
    assert(s.take(i) + seq![s[i]] =~= s.take(i + 1));
    let single = seq![s[i]];
    assert(single.skip(1) =~= Seq::<u8>::empty());
    assert(esc(single.skip(1)) == Seq::<u8>::empty());
    assert(esc(single) == esc_byte(s[i]) + esc(single.skip(1)));
    assert(esc_byte(s[i]) + Seq::<u8>::empty() =~= esc_byte(s[i]));
}

proof fn lemma_render_more_snoc(es: Seq<(Seq<u8>, Seq<u8>)>, e: (Seq<u8>, Seq<u8>))
    ensures
        render_more(es.push(e)) == render_more(es) + seq![COMMA] + render_entry(e),
    decreases es.len(),
{
    if es.len() == 0 {
        assert(es.push(e)[0] == e);
        assert(es.push(e).skip(1) =~= Seq::<(Seq<u8>, Seq<u8>)>::empty());
        assert(render_more(es.push(e).skip(1)) == Seq::<u8>::empty());
        assert(render_more(es.push(e)) == seq![COMMA] + render_entry(e) + render_more(
            es.push(e).skip(1),
        ));
        assert(render_more(es) == Seq::<u8>::empty());
        assert(seq![COMMA] + render_entry(e) + Seq::<u8>::empty() =~= render_more(es) + seq![COMMA]
            + render_entry(e));
    } else {
        lemma_render_more_snoc(es.skip(1), e);
        assert(es.push(e)[0] == es[0]);
        assert(es.push(e).skip(1) =~= es.skip(1).push(e));
        assert(render_more(es.push(e)) == seq![COMMA] + render_entry(es[0]) + render_more(
            es.skip(1).push(e),
        ));
        assert(render_more(es.skip(1).push(e)) == render_more(es.skip(1)) + seq![COMMA]
            + render_entry(e));
        assert(seq![COMMA] + render_entry(es[0]) + (render_more(es.skip(1)) + seq![COMMA]
            + render_entry(e)) =~= (seq![COMMA] + render_entry(es[0]) + render_more(es.skip(1)))
            + seq![COMMA] + render_entry(e));
        assert(render_more(es) == seq![COMMA] + render_entry(es[0]) + render_more(es.skip(1)));
    }
}

/// Rendering one more entry appends a comma (after the first) and the entry.
proof fn lemma_render_entries_snoc(es: Seq<(Seq<u8>, Seq<u8>)>, e: (Seq<u8>, Seq<u8>))
    ensures
        es.len() == 0 ==> render_entries(es.push(e)) == render_entry(e),
        es.len() > 0 ==> render_entries(es.push(e)) == render_entries(es) + seq![COMMA]
            + render_entry(e),
{
    if es.len() == 0 {
        assert(es.push(e)[0] == e);
        assert(es.push(e).skip(1) =~= Seq::<(Seq<u8>, Seq<u8>)>::empty());
        assert(render_entries(es.push(e)) =~= render_entry(e));
    } else {
        lemma_render_more_snoc(es.skip(1), e);
        assert(es.push(e)[0] == es[0]);
        assert(es.push(e).skip(1) =~= es.skip(1).push(e));
        assert(render_entries(es.push(e)) =~= render_entries(es) + seq![COMMA] + render_entry(e));
    }
}

fn hex_digit_ex(n: u8) -> (r: u8)
    requires
        n < 16,
    ensures
        r == hex_digit(n),
{
    if n < 10 {
        48 + n
    } else {
        87 + n
    }
}

fn push_escaped_byte(out: &mut Vec<u8>, b: u8)
    ensures
        final(out)@ == old(out)@ + esc_byte(b),
{
    if b == QUOTE {
        out.push(BACKSLASH);
        out.push(QUOTE);
    } else if b == BACKSLASH {
        out.push(BACKSLASH);
        out.push(BACKSLASH);
    } else if b == 8 {
        out.push(BACKSLASH);
        out.push(98);
    } else if b == 12 {
        out.push(BACKSLASH);
        out.push(102);
    } else if b == 10 {
        out.push(BACKSLASH);
        out.push(110);
    } else if b == 13 {
        out.push(BACKSLASH);
        out.push(114);
    } else if b == 9 {
        out.push(BACKSLASH);
        out.push(116);
    } else if b < 32 {
        out.push(BACKSLASH);
        out.push(117);
        out.push(48);
        out.push(48);
        let h = hex_digit_ex(b / 16);
        out.push(h);
        let l = hex_digit_ex(b % 16);
        out.push(l);
    } else {
        out.push(b);
    }
    proof {
        assert(out@ =~= old(out)@ + esc_byte(b));
    }
}

fn push_escaped(out: &mut Vec<u8>, s: &Vec<u8>)
    ensures
        final(out)@ == old(out)@ + esc(s@),
{
    let mut i: usize = 0;
    while i < s.len()
        invariant
            i <= s@.len(),
            out@ == old(out)@ + esc(s@.take(i as int)),
        decreases s@.len() - i,
    {
        push_escaped_byte(out, s[i]);
        proof {
            lemma_esc_snoc(s@, i as int);
            assert(out@ =~= old(out)@ + esc(s@.take(i as int + 1)));
        }
        i += 1;
    }
    proof {
        assert(s@.take(s@.len() as int) =~= s@);
    }
}

fn push_qstr(out: &mut Vec<u8>, s: &Vec<u8>)
    ensures
        final(out)@ == old(out)@ + qstr(s@),
{
    out.push(QUOTE);
    push_escaped(out, s);
    out.push(QUOTE);
    proof {
        assert(out@ =~= old(out)@ + qstr(s@));
    }
}

fn push_entry(out: &mut Vec<u8>, l: &Link)
    ensures
        final(out)@ == old(out)@ + render_entry(l.view_pair()),
{
    push_qstr(out, &l.title);
    out.push(COLON);
    out.push(LBRACE);
    out.push(QUOTE);
    out.push(116);
    out.push(105);
    out.push(116);
    out.push(108);
    out.push(101);
    out.push(QUOTE);
    out.push(COLON);
    proof {
        assert(out@ =~= old(out)@ + qstr(l.title@) + lit_title_mid());
    }
    push_qstr(out, &l.title);
    out.push(COMMA);
    out.push(QUOTE);
    out.push(117);
    out.push(114);
    out.push(108);
    out.push(QUOTE);
    out.push(COLON);
    proof {
        assert(out@ =~= old(out)@ + qstr(l.title@) + lit_title_mid() + qstr(l.title@)
            + lit_url_mid());
    }
    push_qstr(out, &l.url);
    out.push(RBRACE);
    proof {
        assert(out@ =~= old(out)@ + render_entry(l.view_pair()));
    }
}

/// Serializes the links to the canonical snapshot form, in sequence order.
pub fn render_snapshot(links: &Vec<Link>) -> (r: Vec<u8>)
    ensures
        r@ == render_snapshot_spec(links_views(links@)),
{
    let vs = Ghost(links_views(links@));
    let mut out: Vec<u8> = Vec::new();
    out.push(LBRACE);
    let mut i: usize = 0;
    while i < links.len()
        invariant
            i <= links@.len(),
            vs@ == links_views(links@),
            out@ == seq![LBRACE] + render_entries(vs@.take(i as int)),
        decreases links@.len() - i,
    {
        if i > 0 {
            out.push(COMMA);
        }
        push_entry(&mut out, &links[i]);
        proof {
            lemma_render_entries_snoc(vs@.take(i as int), vs@[i as int]);
            assert(vs@[i as int] == links@[i as int].view_pair());
            assert(vs@.take(i as int).push(vs@[i as int]) =~= vs@.take(i as int + 1));
            assert(out@ =~= seq![LBRACE] + render_entries(vs@.take(i as int + 1)));
        }
        i += 1;
    }
    out.push(RBRACE);
    proof {
        assert(vs@.take(links@.len() as int) =~= vs@);
        assert(out@ =~= render_snapshot_spec(links_views(links@)));
    }
    out
}

// ---------------------------------------------------------------------------
// The parser
// ---------------------------------------------------------------------------

/// Byte-string equality.
pub(crate) fn bytes_eq(a: &Vec<u8>, b: &Vec<u8>) -> (r: bool)
    ensures
        r == (a@ == b@),
{
    if a.len() != b.len() {
        return false;
    }
    let mut i: usize = 0;
    while i < a.len()
        invariant
            a@.len() == b@.len(),
            i <= a@.len(),
            forall|n: int| 0 <= n < i ==> a@[n] == b@[n],
        decreases a@.len() - i,
    {
        if a[i] != b[i] {
            return false;
        }
        i += 1;
    }
    proof {
        assert(a@ =~= b@);
    }
    true
}

/// Whether the bytes from `i` on begin with `lit`.
fn has_prefix(bytes: &Vec<u8>, i: usize, lit: &Vec<u8>) -> (r: bool)
    requires
        i <= bytes@.len(),
    ensures
        r == starts_with(bytes@.skip(i as int), lit@),
{
    if bytes.len() - i < lit.len() {
        return false;
    }
    let mut m: usize = 0;
    while m < lit.len()
        invariant
            bytes@.len() <= usize::MAX,
            i + lit@.len() <= bytes@.len(),
            m <= lit@.len(),
            forall|n: int| 0 <= n < m ==> bytes@[i + n] == lit@[n],
        decreases lit@.len() - m,
    {
        if bytes[i + m] != lit[m] {
            proof {
                let t = bytes@.skip(i as int);
                assert(t.len() >= lit@.len());
                assert(t.take(lit@.len() as int)[m as int] != lit@[m as int]);
            }
            return false;
        }
        m += 1;
    }
    proof {
        assert(bytes@.skip(i as int).take(lit@.len() as int) =~= lit@);
    }
    true
}

/// The exec form of `lit_title_mid`.
fn make_lit_title_mid() -> (r: Vec<u8>)
    ensures
        r@ == lit_title_mid(),
{
    let mut lit: Vec<u8> = Vec::new();
    lit.push(COLON);
    lit.push(LBRACE);
    lit.push(QUOTE);
    lit.push(116);
    lit.push(105);
    lit.push(116);
    lit.push(108);
    lit.push(101);
    lit.push(QUOTE);
    lit.push(COLON);
    proof {
        assert(lit@ =~= lit_title_mid());
    }
    lit
}

/// The exec form of `lit_url_mid`.
fn make_lit_url_mid() -> (r: Vec<u8>)
    ensures
        r@ == lit_url_mid(),
{
    let mut lit: Vec<u8> = Vec::new();
    lit.push(COMMA);
    lit.push(QUOTE);
    lit.push(117);
    lit.push(114);
    lit.push(108);
    lit.push(QUOTE);
    lit.push(COLON);
    proof {
        assert(lit@ =~= lit_url_mid());
    }
    lit
}

/// Reads a JSON string body beginning at `start` (just after the opening
/// quote). On success returns the decoded bytes and the position just after
/// the closing quote.
fn scan_string(bytes: &Vec<u8>, start: usize) -> (r: Option<(Vec<u8>, usize)>)
    requires
        start <= bytes@.len(),
    ensures
        r matches Some(p) ==> start < p.1 <= bytes@.len() && unesc(bytes@.skip(start as int))
            == Some((p.0@, bytes@.skip(p.1 as int))),
        r is None ==> unesc(bytes@.skip(start as int)) is None,
{
    let n = bytes.len();
    proof {
        assert(bytes@.len() == n);
    }
    let mut out: Vec<u8> = Vec::new();
    let mut k: usize = start;
    loop
        invariant
            bytes@.len() <= usize::MAX,
            start <= k <= bytes@.len(),
            unesc(bytes@.skip(k as int)) is None ==> unesc(bytes@.skip(start as int)) is None,
            unesc(bytes@.skip(k as int)) matches Some(q) ==> unesc(bytes@.skip(start as int))
                == Some((out@ + q.0, q.1)),
        decreases bytes@.len() - k,
    {
        if k >= bytes.len() {
            proof {
                assert(bytes@.skip(k as int).len() == 0);
            }
            return None;
        }
        let b = bytes[k];
        proof {
            assert(bytes@.skip(k as int)[0] == b);
        }
        if b == QUOTE {
            proof {
                assert(bytes@.skip(k as int).skip(1) =~= bytes@.skip(k as int + 1));
                assert(unesc(bytes@.skip(k as int)) == Some(
                    (Seq::<u8>::empty(), bytes@.skip(k as int + 1)),
                ));
                assert(out@ + Seq::<u8>::empty() =~= out@);
            }
            return Some((out, k + 1));
        }
        if b == BACKSLASH {
            if k + 1 >= bytes.len() {
                proof {
                    assert(bytes@.skip(k as int).len() < 2);
                }
                return None;
            }
            let c = bytes[k + 1];
            proof {
                assert(bytes@.skip(k as int)[1] == c);
            }
            if c == QUOTE || c == BACKSLASH || c == SLASH || c == 98 || c == 102 || c == 110
                || c == 114 || c == 116 {
                let d: u8 = if c == 98 {
                    8
                } else if c == 102 {
                    12
                } else if c == 110 {
                    10
                } else if c == 114 {
                    13
                } else if c == 116 {
                    9
                } else {
                    c
                };
                proof {
                    assert(d == short_unesc(c));
                    assert(bytes@.skip(k as int).skip(2) =~= bytes@.skip(k as int + 2));
                    assert forall|q: (Seq<u8>, Seq<u8>)|
                        unesc(bytes@.skip(k as int + 2)) == Some(q) implies unesc(
                        bytes@.skip(k as int),
                    ) == Some((seq![d] + q.0, q.1)) by {}
                    assert(forall|s2: Seq<u8>| out@ + (seq![d] + s2) =~= (out@ + seq![d]) + s2);
                }
                out.push(d);
                k += 2;
            } else if c == 117 {
                if bytes.len() - k < 6 {
                    proof {
                        assert(bytes@.skip(k as int).len() < 6);
                        assert(!is_short_escape(c));
                    }
                    return None;
                }
                let h2 = bytes[k + 2];
                let h3 = bytes[k + 3];
                let h4 = bytes[k + 4];
                let h5 = bytes[k + 5];
                proof {
                    assert(bytes@.skip(k as int)[2] == h2);
                    assert(bytes@.skip(k as int)[3] == h3);
                    assert(bytes@.skip(k as int)[4] == h4);
                    assert(bytes@.skip(k as int)[5] == h5);
                    assert(!is_short_escape(c));
                }
                let ok4 = (48 <= h4 && h4 < 58) || (65 <= h4 && h4 < 71) || (97 <= h4 && h4 < 103);
                let ok5 = (48 <= h5 && h5 < 58) || (65 <= h5 && h5 < 71) || (97 <= h5 && h5 < 103);
                if h2 != 48 || h3 != 48 || !ok4 || !ok5 {
                    return None;
                }
                let v4: u8 = if h4 < 58 {
                    h4 - 48
                } else if h4 < 71 {
                    h4 - 55
                } else {
                    h4 - 87
                };
                let v5: u8 = if h5 < 58 {
                    h5 - 48
                } else if h5 < 71 {
                    h5 - 55
                } else {
                    h5 - 87
                };
                let d: u8 = v4 * 16 + v5;
                proof {
                    assert(v4 == unhex(h4) && v5 == unhex(h5));
                    assert(d == hex_val2(h4, h5));
                    assert(bytes@.skip(k as int).skip(6) =~= bytes@.skip(k as int + 6));
                    assert(forall|s2: Seq<u8>| out@ + (seq![d] + s2) =~= (out@ + seq![d]) + s2);
                }
                out.push(d);
                k += 6;
            } else {
                proof {
                    assert(!is_short_escape(c));
                }
                return None;
            }
        } else if b < 32 {
            return None;
        } else {
            proof {
                assert(b != QUOTE && b != BACKSLASH && b >= 32);
                assert(bytes@.skip(k as int).skip(1) =~= bytes@.skip(k as int + 1));
                assert(forall|s2: Seq<u8>| out@ + (seq![b] + s2) =~= (out@ + seq![b]) + s2);
            }
            out.push(b);
            k += 1;
        }
    }
}

/// Every entry a parsed entry list yields has a non-empty title and url.
proof fn lemma_parse_entries_wf(t: Seq<u8>)
    ensures
        parse_entries(t) matches Some(es) ==> (forall|i: int|
            0 <= i < es.len() ==> wf_entry(#[trigger] es[i])),
    decreases t.len(),
{
    lemma_parse_entry_shrinks(t);
    if parse_entry(t) is Some {
        let p = parse_entry(t)->Some_0;
        if p.1.len() == 1 && p.1[0] == RBRACE {
        } else if p.1.len() >= 1 && p.1[0] == COMMA {
            lemma_parse_entries_wf(p.1.skip(1));
        }
    }
}

/// Whatever a successful parse yields is a well-formed collection.
pub proof fn lemma_parse_snapshot_wf(t: Seq<u8>)
    ensures
        parse_snapshot_spec(t) matches Some(es) ==> wf_views(es),
{
    if parse_snapshot_spec(t) is Some {
        if !(t.len() == 2 && t[1] == RBRACE) {
            lemma_parse_entries_wf(t.skip(1));
        }
    }
}

/// Reads one entry beginning at `i`. On success returns the link and the
/// position just after its closing brace.
fn parse_entry_ex(bytes: &Vec<u8>, i: usize) -> (r: Option<(Link, usize)>)
    requires
        i <= bytes@.len(),
    ensures
        r matches Some(p) ==> i < p.1 <= bytes@.len() && parse_entry(bytes@.skip(i as int))
            == Some((p.0.view_pair(), bytes@.skip(p.1 as int))),
        r is None ==> parse_entry(bytes@.skip(i as int)) is None,
{
    let n = bytes.len();
    if i >= n || bytes[i] != QUOTE {
        proof {
            if i < n {
                assert(bytes@.skip(i as int)[0] == bytes@[i as int]);
            } else {
                assert(bytes@.skip(i as int).len() == 0);
            }
        }
        return None;
    }
    proof {
        assert(bytes@.skip(i as int)[0] == QUOTE);
        assert(bytes@.skip(i as int).skip(1) =~= bytes@.skip(i as int + 1));
    }
    let scanned_key = scan_string(bytes, i + 1);
    let (key, j) = match scanned_key {
        Some(p) => p,
        None => {
            return None;
        },
    };
    let lit_t = make_lit_title_mid();
    if !has_prefix(bytes, j, &lit_t) {
        return None;
    }
    proof {
        assert(bytes@.skip(j as int).len() >= 10);
        assert(bytes@.skip(j as int).skip(10) =~= bytes@.skip(j as int + 10));
    }
    let j2 = j + 10;
    if j2 >= n || bytes[j2] != QUOTE {
        proof {
            if j2 < n {
                assert(bytes@.skip(j2 as int)[0] == bytes@[j2 as int]);
            } else {
                assert(bytes@.skip(j2 as int).len() == 0);
            }
        }
        return None;
    }
    proof {
        assert(bytes@.skip(j2 as int)[0] == QUOTE);
        assert(bytes@.skip(j2 as int).skip(1) =~= bytes@.skip(j2 as int + 1));
    }
    let scanned_title = scan_string(bytes, j2 + 1);
    let (title2, j3) = match scanned_title {
        Some(p) => p,
        None => {
            return None;
        },
    };
    if !bytes_eq(&title2, &key) {
        return None;
    }
    let lit_u = make_lit_url_mid();
    if !has_prefix(bytes, j3, &lit_u) {
        return None;
    }
    proof {
        assert(bytes@.skip(j3 as int).len() >= 7);
        assert(bytes@.skip(j3 as int).skip(7) =~= bytes@.skip(j3 as int + 7));
    }
    let j4 = j3 + 7;
    if j4 >= n || bytes[j4] != QUOTE {
        proof {
            if j4 < n {
                assert(bytes@.skip(j4 as int)[0] == bytes@[j4 as int]);
            } else {
                assert(bytes@.skip(j4 as int).len() == 0);
            }
        }
        return None;
    }
    proof {
        assert(bytes@.skip(j4 as int)[0] == QUOTE);
        assert(bytes@.skip(j4 as int).skip(1) =~= bytes@.skip(j4 as int + 1));
    }
    let scanned_url = scan_string(bytes, j4 + 1);
    let (url, j5) = match scanned_url {
        Some(p) => p,
        None => {
            return None;
        },
    };
    if j5 >= n || bytes[j5] != RBRACE {
        proof {
            if j5 < n {
                assert(bytes@.skip(j5 as int)[0] == bytes@[j5 as int]);
            } else {
                assert(bytes@.skip(j5 as int).len() == 0);
            }
        }
        return None;
    }
    if key.len() == 0 || url.len() == 0 {
        return None;
    }
    proof {
        assert(bytes@.skip(j5 as int)[0] == RBRACE);
        assert(bytes@.skip(j5 as int).skip(1) =~= bytes@.skip(j5 as int + 1));
    }
    Some((Link { title: key, url }, j5 + 1))
}

/// Whether no two links share a title.
fn distinct_check(v: &Vec<Link>) -> (r: bool)
    ensures
        r == distinct_titles(links_views(v@)),
{
    let n = v.len();
    let mut a: usize = 0;
    while a < n
        invariant
            n == v@.len(),
            a <= n,
            forall|i: int, j: int|
                0 <= i < a && i < j < v@.len() ==> (#[trigger] links_views(v@)[i]).0 != (
                #[trigger] links_views(v@)[j]).0,
        decreases n - a,
    {
        let mut b: usize = a + 1;
        while b < n
            invariant
                n == v@.len(),
                a < n,
                a + 1 <= b <= n,
                forall|i: int, j: int|
                    0 <= i < a && i < j < v@.len() ==> (#[trigger] links_views(v@)[i]).0 != (
                    #[trigger] links_views(v@)[j]).0,
                forall|j: int|
                    a < j < b ==> links_views(v@)[a as int].0 != (#[trigger] links_views(v@)[j]).0,
            decreases n - b,
        {
            if bytes_eq(&v[a].title, &v[b].title) {
                proof {
                    assert(links_views(v@)[a as int].0 == links_views(v@)[b as int].0);
                    assert(!distinct_titles(links_views(v@)));
                }
                return false;
            }
            b += 1;
        }
        a += 1;
    }
    proof {
        let vs = links_views(v@);
        assert forall|i: int, j: int|
            0 <= i < vs.len() && 0 <= j < vs.len() && i != j implies (#[trigger] vs[i]).0 != (
        #[trigger] vs[j]).0 by {
            if i < j {
            } else {
            }
        }
    }
    true
}

/// Parses a snapshot. Returns the links exactly when the input is a
/// well-formed snapshot, and `None` for anything malformed.
pub fn parse_snapshot(bytes: &Vec<u8>) -> (r: Option<Vec<Link>>)
    ensures
        r is Some <==> parse_snapshot_spec(bytes@) is Some,
        r matches Some(v) ==> parse_snapshot_spec(bytes@) == Some(links_views(v@)),
{
    let n = bytes.len();
    if n < 2 || bytes[0] != LBRACE {
        return None;
    }
    if n == 2 && bytes[1] == RBRACE {
        let out: Vec<Link> = Vec::new();
        proof {
            assert(links_views(out@) =~= Seq::<(Seq<u8>, Seq<u8>)>::empty());
        }
        return Some(out);
    }
    let mut out: Vec<Link> = Vec::new();
    let mut i: usize = 1;
    proof {
        assert(links_views(out@) =~= Seq::<(Seq<u8>, Seq<u8>)>::empty());
    }
    loop
        invariant
            n == bytes@.len(),
            bytes@.len() <= usize::MAX,
            bytes@.len() >= 2,
            bytes@[0] == LBRACE,
            !(bytes@.len() == 2 && bytes@[1] == RBRACE),
            1 <= i <= n,
            parse_entries(bytes@.skip(i as int)) is None ==> parse_entries(bytes@.skip(1))
                is None,
            parse_entries(bytes@.skip(i as int)) matches Some(es) ==> parse_entries(
                bytes@.skip(1),
            ) == Some(links_views(out@) + es),
        decreases n - i,
    {
        let parsed = parse_entry_ex(bytes, i);
        let (link, j) = match parsed {
            Some(p) => p,
            None => {
                return None;
            },
        };
        let ghost e = link.view_pair();
        let ghost prev = out@;
        let ghost old_i = i as int;
        out.push(link);
        proof {
            assert(links_views(out@) =~= links_views(prev).push(e));
        }
        if j < n && bytes[j] == RBRACE && j == n - 1 {
            proof {
                assert(bytes@.skip(j as int).len() == 1);
                assert(bytes@.skip(j as int)[0] == RBRACE);
                assert(parse_entries(bytes@.skip(old_i)) == Some(seq![e]));
                assert(links_views(prev) + seq![e] =~= links_views(out@));
            }
            if distinct_check(&out) {
                return Some(out);
            } else {
                return None;
            }
        } else if j < n && bytes[j] == COMMA {
            proof {
                let rest = bytes@.skip(j as int);
                assert(rest[0] == COMMA);
                assert(rest.skip(1) =~= bytes@.skip(j as int + 1));
                let next = parse_entries(bytes@.skip(j as int + 1));
                if next is Some {
                    let es = next->Some_0;
                    assert(parse_entries(bytes@.skip(old_i)) == Some(seq![e] + es));
                    assert(links_views(prev) + (seq![e] + es) =~= links_views(out@) + es);
                } else {
                    assert(parse_entries(bytes@.skip(old_i)) is None);
                }
            }
            i = j + 1;
        } else {
            proof {
                let rest = bytes@.skip(j as int);
                if j < n {
                    assert(rest[0] == bytes@[j as int]);
                } else {
                    assert(rest.len() == 0);
                }
                assert(parse_entries(bytes@.skip(old_i)) is None);
            }
            return None;
        }
    }
}

} // verus!
