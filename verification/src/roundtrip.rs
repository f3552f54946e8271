//! What the formatter writes, the parser reads back; and how else a
//! document may be laid out.
//!
//! The main result, [`lemma_format_then_parse`], says that the text
//! [`map_text`] gives for a map is parsed into exactly the events of that
//! map. It is built from the parser's steps: [`leads`] says that the
//! parser goes from one state to another emitting some events, and the
//! lemmas below follow the formatted text piece by piece, from single
//! characters up to nested maps and lists.
//!
//! The same steps then show what the formatter never writes but the
//! parser reads all the same: tabs, trailing comments, CR LF line ends,
//! `;` separators and a byte order mark ([`lemma_line_layout`],
//! [`lemma_bom_skipped`]), lists separated in any of their ways
//! ([`lemma_list_layout`]), maps on one line ([`lemma_inline_map`]), and
//! the refusal of a `;` that nothing follows. The last part states where
//! each scanner stops and what escapes and raw strings read as.
use vstd::prelude::*;
use vstd::utf8::*;
use crate::error::Error;
use crate::parse::{
    comment_rest,
    EventView, Fault, ParserView, State, step, run, parser_wf, lemma_step, peek_at, char_width,
    bare_scan, raw_scan, quoted_scan, hex_scan, string_scan, simple_escape, is_delimiter, wsc_end, hspace_end,
    newlines_end, pairsep_end, comment_end, at_map_end, at_pos, in_state, char_at_is, at_end, with_key, popped, after_container, map_frame,
    list_frame, top_frame, parse_value, emit, initial_view, document_events, FrameView, bom_end, has_bom_at, fault,
};
use crate::fmt::{
    BACKSLASH, QUOTE, LETTER_U, OPEN_BRACE, CLOSE_BRACE,
    OPEN_BRACKET, CLOSE_BRACKET, SPACE, LINE_FEED, is_bare_char, can_be_bare, escaped_char, escaped,
    string_text, indent_text,
};
use crate::value::{after_events, parse_outcome, Value, ValueView, value_events, items_events, pairs_events, dict_keys, value_wf, items_wf, pairs_wf};
use crate::fmt::{value_text, list_lines, inline_items, map_text, pair_lines, has_compound};
use crate::text::{is_white_space, is_control_char, is_hex_digit, hex_digit_value, hex_value, lower_hex, lower_hex_digit, ascii_bytes, lemma_hex_digit};

verus! {

// ASCII bytes the parser reads besides those the formatter writes.
pub const TAB: u8 = 0x09;
pub const CARRIAGE_RETURN: u8 = 0x0D;
pub const HASH: u8 = 0x23;
pub const SEMICOLON: u8 = 0x3B;
pub const APOSTROPHE: u8 = 0x27;

/// The bytes `t` stand in `inp` at position `p`.
pub open spec fn text_at(inp: Seq<u8>, p: int, t: Seq<u8>) -> bool {
    &&& 0 <= p
    &&& p + t.len() <= inp.len()
    &&& inp.subrange(p, p + t.len()) == t
}

/// From `v` the parser emits `es` and arrives at `w`: what it emits from
/// `v` on is `es` followed by what it emits from `w` on.
#[verifier::opaque]
pub open spec fn leads(v: ParserView, es: Seq<EventView>, w: ParserView) -> bool {
    &&& parser_wf(v)
    &&& parser_wf(w)
    &&& v.input == w.input
    &&& run(v) == after_events(es, run(w))
}

/// One step that emits an event.
pub proof fn lemma_leads_step(v: ParserView)
    requires
        parser_wf(v),
        step(v).1 matches Some(Ok(_)),
    ensures
        leads(v, seq![step(v).1->Some_0->Ok_0], step(v).0),
        parser_wf(step(v).0),
{
    reveal(leads);
    lemma_step(v);
}

/// Two states whose next step is the same emit the same.
pub proof fn lemma_same_step(v: ParserView, w: ParserView)
    requires
        parser_wf(v),
        parser_wf(w),
        step(v) == step(w),
    ensures
        run(v) == run(w),
{
}

pub proof fn lemma_leads_trans(u: ParserView, a: Seq<EventView>, v: ParserView, b: Seq<EventView>, w: ParserView)
    requires
        leads(u, a, v),
        leads(v, b, w),
    ensures
        leads(u, a + b, w),
{
    reveal(leads);
    if let Ok(x) = run(w) {
        assert(a + (b + x) =~= (a + b) + x);
    }
}

/// Both ends of a run are states of the parser's invariant, over one input.
pub proof fn lemma_leads_wf(v: ParserView, es: Seq<EventView>, w: ParserView)
    requires
        leads(v, es, w),
    ensures
        parser_wf(v),
        parser_wf(w),
        v.input == w.input,
{
    reveal(leads);
}

/// A step that emits nothing new: `u` goes on as `v` does.
proof fn lemma_leads_skip(u: ParserView, v: ParserView)
    requires
        parser_wf(u),
        parser_wf(v),
        u.input == v.input,
        step(u) == step(v),
    ensures
        leads(u, seq![], v),
{
    reveal(leads);
    lemma_same_step(u, v);
    if let Ok(x) = run(v) {
        assert(Seq::<EventView>::empty() + x =~= x);
    }
}

/// The leading byte of a scalar's encoding tells its width.
proof fn lemma_leading_byte(u: u32)
    by (bit_vector)
    requires
        u <= 0x10FFFF,
    ensures
        0 <= u <= 0x7F ==> (u & 0x7F) as u8 == u as u8 && (u as u8) < 0x80,
        0x80 <= u <= 0x7FF ==> 0xC0 <= (0xC0 | ((u >> 6) & 0x1F) as u8) && (0xC0 | ((u >> 6) & 0x1F) as u8) < 0xE0,
        0x800 <= u <= 0xFFFF ==> 0xE0 <= (0xE0 | ((u >> 12) & 0x0F) as u8) && (0xE0 | ((u >> 12) & 0x0F) as u8) < 0xF0,
        0x10000 <= u <= 0x10FFFF ==> 0xF0 <= (0xF0 | ((u >> 18) & 0x7) as u8) && (0xF0 | ((u >> 18) & 0x7) as u8) < 0xF8,
{
}

/// The encoding of `c` at `p` reads as `c`.
pub proof fn lemma_peek_encoded(inp: Seq<u8>, p: int, c: char)
    requires
        text_at(inp, p, encode_scalar(c as u32)),
    ensures
        peek_at(inp, p) == Ok::<Option<(char, int)>, Fault>(Some((c, encode_scalar(c as u32).len() as int))),
{
    let u = c as u32;
    char_is_scalar(c);
    lemma_leading_byte(u);
    let e = encode_scalar(u);
    assert(encode_utf8(seq![c]) =~= e) by {
        reveal_with_fuel(encode_utf8, 2);
        assert(seq![c].drop_first() =~= Seq::<char>::empty());
        assert(e + Seq::<u8>::empty() =~= e);
    }
    assert(e.len() >= 1);
    encode_utf8_first_scalar(seq![c]);
    assert(inp[p] == inp.subrange(p, p + e.len())[0]);
    assert(char_width(inp[p]) == e.len());
    char_u32_cast(c, decode_first_scalar(e));
}

/// An ASCII character is its own single byte.
pub proof fn lemma_encode_ascii(c: char)
    requires
        (c as u32) < 0x80,
    ensures
        encode_scalar(c as u32) == seq![(c as u32) as u8],
{
    lemma_leading_byte(c as u32);
}

/// The ASCII character `c` at `p`.
pub proof fn lemma_peek_ascii(inp: Seq<u8>, p: int, c: char)
    requires
        (c as u32) < 0x80,
        0 <= p < inp.len(),
        inp[p] == (c as u32) as u8,
    ensures
        peek_at(inp, p) == Ok::<Option<(char, int)>, Fault>(Some((c, 1))),
{
    lemma_encode_ascii(c);
    assert(inp.subrange(p, p + 1) =~= seq![(c as u32) as u8]);
    lemma_peek_encoded(inp, p, c);
}


/// `a + b` at `q` is `a` at `q` and `b` right after it.
pub proof fn lemma_text_split(inp: Seq<u8>, q: int, a: Seq<u8>, b: Seq<u8>)
    requires
        text_at(inp, q, a + b),
    ensures
        text_at(inp, q, a),
        text_at(inp, q + a.len(), b),
{
    let w = inp.subrange(q, q + a.len() + b.len());
    assert forall|i: int| 0 <= i < a.len() implies inp.subrange(q, q + a.len())[i] == a[i] by {
        assert(w[i] == (a + b)[i]);
    }
    assert(inp.subrange(q, q + a.len()) =~= a);
    assert forall|i: int| 0 <= i < b.len() implies inp.subrange(q + a.len(), q + a.len() + b.len())[i] == b[i] by {
        assert(w[a.len() + i] == (a + b)[a.len() + i]);
    }
    assert(inp.subrange(q + a.len(), q + a.len() + b.len()) =~= b);
}

/// What may follow a bare string: the end, or a space, tab, carriage
/// return, line feed, `;`, `]` or `}`.
pub open spec fn ends_bare(inp: Seq<u8>, q: int) -> bool {
    q == inp.len() || (0 <= q < inp.len() && (inp[q] == SPACE || inp[q] == TAB || inp[q] == CARRIAGE_RETURN
        || inp[q] == LINE_FEED || inp[q] == SEMICOLON || inp[q] == CLOSE_BRACKET || inp[q] == CLOSE_BRACE))
}

proof fn lemma_ends_bare(inp: Seq<u8>, q: int)
    requires
        0 <= q,
        ends_bare(inp, q),
    ensures
        q == inp.len() ==> peek_at(inp, q) == Ok::<Option<(char, int)>, Fault>(None),
        q < inp.len() ==> (peek_at(inp, q) matches Ok(Some((c, _))) && (is_white_space(c) || is_delimiter(c))),
{
    if q < inp.len() {
        if inp[q] == SPACE {
            lemma_peek_ascii(inp, q, ' ');
        } else if inp[q] == TAB {
            lemma_peek_ascii(inp, q, '\t');
        } else if inp[q] == CARRIAGE_RETURN {
            lemma_peek_ascii(inp, q, '\r');
        } else if inp[q] == LINE_FEED {
            lemma_peek_ascii(inp, q, '\n');
        } else if inp[q] == SEMICOLON {
            lemma_peek_ascii(inp, q, ';');
        } else if inp[q] == CLOSE_BRACE {
            lemma_peek_ascii(inp, q, '}');
        } else {
            lemma_peek_ascii(inp, q, ']');
        }
    }
}

/// Encoding a non-empty string: its first character, then the rest.
pub proof fn lemma_encode_first(s: Seq<char>)
    requires
        s.len() > 0,
    ensures
        encode_utf8(s) == encode_scalar(s[0] as u32) + encode_utf8(s.drop_first()),
{
}

/// The bare characters `rest` after `acc` scan to their end.
proof fn lemma_bare_run(inp: Seq<u8>, q: int, acc: Seq<char>, rest: Seq<char>)
    requires
        text_at(inp, q, encode_utf8(rest)),
        forall|i: int| 0 <= i < rest.len() ==> is_bare_char(#[trigger] rest[i]),
        ends_bare(inp, q + encode_utf8(rest).len()),
    ensures
        bare_scan(inp, q, acc) == Ok::<(int, Seq<char>), (int, Fault)>((q + encode_utf8(rest).len(), acc + rest)),
    decreases rest.len(),
{
    if rest.len() == 0 {
        lemma_ends_bare(inp, q);
        assert(acc + rest =~= acc);
    } else {
        let c = rest[0];
        let e = encode_scalar(c as u32);
        let tail = rest.drop_first();
        lemma_encode_first(rest);
        lemma_text_split(inp, q, e, encode_utf8(tail));
        lemma_peek_encoded(inp, q, c);
        assert(is_bare_char(rest[0]));
        assert forall|i: int| 0 <= i < tail.len() implies is_bare_char(#[trigger] tail[i]) by {
            assert(tail[i] == rest[i + 1]);
        }
        lemma_bare_run(inp, q + e.len(), acc.push(c), tail);
        assert(acc.push(c) + tail =~= acc + rest);
    }
}

/// Escaping a non-empty string: its first character, then the rest.
pub proof fn lemma_escaped_first(s: Seq<char>)
    requires
        s.len() > 0,
    ensures
        escaped(s) == escaped_char(s[0]) + escaped(s.drop_first()),
    decreases s.len(),
{
    if s.len() == 1 {
        assert(s.drop_last() =~= Seq::<char>::empty());
        assert(s.drop_first() =~= Seq::<char>::empty());
        assert(escaped(s) =~= escaped_char(s[0]) + escaped(s.drop_first()));
    } else {
        lemma_escaped_first(s.drop_last());
        assert(s.drop_last().drop_first() =~= s.drop_first().drop_last());
        assert(s.drop_first().last() == s.last());
        assert(escaped(s) =~= escaped_char(s[0]) + escaped(s.drop_first()));
    }
}

/// The hexadecimal digits `ds` of an escape, then its `}`.
proof fn lemma_hex_run(inp: Seq<u8>, q: int, esc: int, acc: Seq<char>, ds: Seq<char>)
    requires
        text_at(inp, q, ascii_bytes(ds) + seq![CLOSE_BRACE]),
        forall|i: int| 0 <= i < ds.len() ==> is_hex_digit(#[trigger] ds[i]) && (ds[i] as u32) < 0x80,
    ensures
        hex_scan(inp, q, esc, acc) == Ok::<(int, Seq<char>), (int, Fault)>((q + ds.len(), acc + ds)),
    decreases ds.len(),
{
    lemma_text_split(inp, q, ascii_bytes(ds), seq![CLOSE_BRACE]);
    if ds.len() == 0 {
        assert(inp[q] == inp.subrange(q, q + 1)[0]);
        lemma_peek_ascii(inp, q, '}');
        assert(acc + ds =~= acc);
    } else {
        let c = ds[0];
        assert(inp[q] == ascii_bytes(ds)[0]);
        assert(is_hex_digit(ds[0]) && (ds[0] as u32) < 0x80);
        lemma_peek_ascii(inp, q, c);
        let tail = ds.drop_first();
        assert(ascii_bytes(ds) =~= seq![(c as u32) as u8] + ascii_bytes(tail));
        assert(ascii_bytes(ds) + seq![CLOSE_BRACE] =~= seq![(c as u32) as u8] + (ascii_bytes(tail) + seq![CLOSE_BRACE]));
        lemma_text_split(inp, q, seq![(c as u32) as u8], ascii_bytes(tail) + seq![CLOSE_BRACE]);
        assert forall|i: int| 0 <= i < tail.len() implies is_hex_digit(#[trigger] tail[i]) && (tail[i] as u32) < 0x80 by {
            assert(tail[i] == ds[i + 1]);
        }
        lemma_hex_run(inp, q + 1, esc, acc.push(c), tail);
        assert(acc.push(c) + tail =~= acc + ds);
    }
}

/// The hexadecimal digits of a control character: one or two of them,
/// worth the character's code.
proof fn lemma_control_hex(u: nat)
    requires
        u < 0x100,
    ensures
        1 <= lower_hex(u).len() <= 2,
        hex_value(lower_hex(u)) == u,
        forall|i: int| 0 <= i < lower_hex(u).len() ==> is_hex_digit(#[trigger] lower_hex(u)[i]) && (lower_hex(u)[i] as u32) < 0x80,
{
    if u < 16 {
        lemma_hex_digit(u);
        assert(lower_hex(u) == seq![lower_hex_digit(u)]);
        assert(seq![lower_hex_digit(u)].drop_last() =~= Seq::<char>::empty());
        assert(hex_value(Seq::<char>::empty()) == 0);
        assert(hex_value(lower_hex(u)) == hex_value(Seq::<char>::empty()) * 16 + hex_digit_value(lower_hex_digit(u)));
    } else {
        lemma_hex_digit(u / 16);
        lemma_hex_digit(u % 16);
        assert(lower_hex(u / 16) == seq![lower_hex_digit(u / 16)]);
        let h = lower_hex(u);
        assert(h =~= seq![lower_hex_digit(u / 16), lower_hex_digit(u % 16)]);
        assert(h.drop_last() =~= seq![lower_hex_digit(u / 16)]);
        assert(h.drop_last().drop_last() =~= Seq::<char>::empty());
        assert(hex_value(Seq::<char>::empty()) == 0);
        assert(hex_value(h.drop_last()) == u / 16);
        assert(hex_value(h) == hex_value(h.drop_last()) * 16 + hex_digit_value(h.last()));
        assert(h.last() == lower_hex_digit(u % 16));
        assert((u / 16) * 16 + u % 16 == u);
    }
}


/// The bytes of `t` one by one.
pub proof fn lemma_text_index(inp: Seq<u8>, q: int, t: Seq<u8>, i: int)
    requires
        text_at(inp, q, t),
        0 <= i < t.len(),
    ensures
        inp[q + i] == t[i],
{
    assert(inp.subrange(q, q + t.len())[i] == t[i]);
}

/// A two-character escape `\letter` inside double quotes stands for `c`.
proof fn lemma_escape_pair(inp: Seq<u8>, q: int, open: int, acc: Seq<char>, c: char, letter: char)
    requires
        text_at(inp, q, seq![BACKSLASH, (letter as u32) as u8]),
        (letter as u32) < 0x80,
        simple_escape(letter) == Some(c),
    ensures
        quoted_scan(inp, q, open, acc) == quoted_scan(inp, q + 2, open, acc.push(c)),
{
    lemma_text_index(inp, q, seq![BACKSLASH, (letter as u32) as u8], 0);
    lemma_text_index(inp, q, seq![BACKSLASH, (letter as u32) as u8], 1);
    lemma_peek_ascii(inp, q, '\\');
    lemma_peek_ascii(inp, q + 1, letter);
}

/// A `\u{...}` escape of a control character inside double quotes.
proof fn lemma_escape_control(inp: Seq<u8>, q: int, open: int, acc: Seq<char>, c: char)
    requires
        is_control_char(c),
        text_at(inp, q, escaped_char(c)),
        c != '"' && c != '\\' && c != '\n' && c != '\r' && c != '\t' && c != '\0',
    ensures
        quoted_scan(inp, q, open, acc) == quoted_scan(inp, q + escaped_char(c).len(), open, acc.push(c)),
{
    let u = c as u32;
    let ds = lower_hex(u as nat);
    let t = escaped_char(c);
    assert(t == seq![BACKSLASH, LETTER_U, OPEN_BRACE] + ascii_bytes(ds) + seq![CLOSE_BRACE]);
    lemma_control_hex(u as nat);
    lemma_text_index(inp, q, t, 0);
    lemma_text_index(inp, q, t, 1);
    lemma_text_index(inp, q, t, 2);
    lemma_peek_ascii(inp, q, '\\');
    lemma_peek_ascii(inp, q + 1, 'u');
    lemma_peek_ascii(inp, q + 2, '{');
    assert(t =~= seq![BACKSLASH, LETTER_U, OPEN_BRACE] + (ascii_bytes(ds) + seq![CLOSE_BRACE]));
    lemma_text_split(inp, q, seq![BACKSLASH, LETTER_U, OPEN_BRACE], ascii_bytes(ds) + seq![CLOSE_BRACE]);
    lemma_hex_run(inp, q + 3, q, seq![], ds);
    assert(Seq::<char>::empty() + ds =~= ds);
    char_is_scalar(c);
    char_u32_cast(c, (hex_value(ds) as u32));
}

/// The escaped characters `rest` after `acc`, then the closing quote.
proof fn lemma_quoted_run(inp: Seq<u8>, q: int, open: int, acc: Seq<char>, rest: Seq<char>)
    requires
        text_at(inp, q, escaped(rest) + seq![QUOTE]),
    ensures
        quoted_scan(inp, q, open, acc) == Ok::<(int, Seq<char>), (int, Fault)>((q + escaped(rest).len() + 1, acc + rest)),
    decreases rest.len(),
{
    if rest.len() == 0 {
        assert(escaped(rest) =~= Seq::<u8>::empty());
        lemma_text_index(inp, q, escaped(rest) + seq![QUOTE], 0);
        lemma_peek_ascii(inp, q, '"');
        assert(acc + rest =~= acc);
    } else {
        let c = rest[0];
        let tail = rest.drop_first();
        let e = escaped_char(c);
        lemma_escaped_first(rest);
        assert(escaped(rest) + seq![QUOTE] =~= e + (escaped(tail) + seq![QUOTE]));
        lemma_text_split(inp, q, e, escaped(tail) + seq![QUOTE]);
        lemma_quoted_run(inp, q + e.len(), open, acc.push(c), tail);
        assert(acc.push(c) + tail =~= acc + rest);
        if c == '"' {
            lemma_escape_pair(inp, q, open, acc, c, '"');
        } else if c == '\\' {
            lemma_escape_pair(inp, q, open, acc, c, '\\');
        } else if c == '\n' {
            lemma_escape_pair(inp, q, open, acc, c, 'n');
        } else if c == '\r' {
            lemma_escape_pair(inp, q, open, acc, c, 'r');
        } else if c == '\t' {
            lemma_escape_pair(inp, q, open, acc, c, 't');
        } else if c == '\0' {
            lemma_escape_pair(inp, q, open, acc, c, '0');
        } else if is_control_char(c) {
            lemma_escape_control(inp, q, open, acc, c);
        } else {
            lemma_peek_encoded(inp, q, c);
        }
    }
}

/// A string as the formatter writes it scans back to the same characters.
pub proof fn lemma_string_scan(inp: Seq<u8>, p: int, s: Seq<char>)
    requires
        text_at(inp, p, string_text(s)),
        ends_bare(inp, p + string_text(s).len()),
    ensures
        string_scan(inp, p) == Ok::<(int, Option<Seq<char>>), (int, Fault)>((p + string_text(s).len(), Some(s))),
{
    if can_be_bare(s) {
        lemma_encode_first(s);
        lemma_text_split(inp, p, encode_scalar(s[0] as u32), encode_utf8(s.drop_first()));
        lemma_peek_encoded(inp, p, s[0]);
        assert(is_bare_char(s[0]));
        lemma_bare_run(inp, p, seq![], s);
        assert(Seq::<char>::empty() + s =~= s);
    } else {
        let t = string_text(s);
        assert(t =~= seq![QUOTE] + (escaped(s) + seq![QUOTE]));
        lemma_text_split(inp, p, seq![QUOTE], escaped(s) + seq![QUOTE]);
        lemma_text_index(inp, p, t, 0);
        lemma_peek_ascii(inp, p, '"');
        lemma_quoted_run(inp, p + 1, p, seq![], s);
        assert(Seq::<char>::empty() + s =~= s);
    }
}


/// Bytes of structural white space: spaces, tabs, carriage returns and
/// line feeds (the formatter writes spaces and line feeds).
pub open spec fn blank(t: Seq<u8>) -> bool {
    forall|i: int| 0 <= i < t.len() ==> (#[trigger] t[i] == SPACE || t[i] == TAB || t[i] == CARRIAGE_RETURN || t[i] == LINE_FEED)
}

pub proof fn lemma_indent_blank(n: nat)
    ensures
        blank(indent_text(n)),
        forall|i: int| 0 <= i < indent_text(n).len() ==> #[trigger] indent_text(n)[i] == SPACE,
        indent_text(n).len() == 2 * n,
    decreases n,
{
    if n > 0 {
        lemma_indent_blank((n - 1) as nat);
    }
}

/// White space ends at `q`: the end of the input, or a character that is
/// neither white space nor the start of a comment.
pub open spec fn wsc_stops(inp: Seq<u8>, q: int) -> bool {
    ||| q == inp.len()
    ||| peek_at(inp, q) matches Ok(Some((c, _))) && c != ' ' && c != '\t' && c != '\n' && c != '\r' && c != '#'
}

/// A byte of structural white space is read as that character.
pub proof fn lemma_peek_blank(inp: Seq<u8>, p: int)
    requires
        0 <= p < inp.len(),
        inp[p] == SPACE || inp[p] == TAB || inp[p] == CARRIAGE_RETURN || inp[p] == LINE_FEED,
    ensures
        peek_at(inp, p) matches Ok(Some((c, w))) && w == 1 && (c == ' ' || c == '\t' || c == '\r' || c == '\n'),
        inp[p] == SPACE ==> peek_at(inp, p) == Ok::<Option<(char, int)>, Fault>(Some((' ', 1))),
        inp[p] == TAB ==> peek_at(inp, p) == Ok::<Option<(char, int)>, Fault>(Some(('\t', 1))),
        inp[p] == CARRIAGE_RETURN ==> peek_at(inp, p) == Ok::<Option<(char, int)>, Fault>(Some(('\r', 1))),
        inp[p] == LINE_FEED ==> peek_at(inp, p) == Ok::<Option<(char, int)>, Fault>(Some(('\n', 1))),
{
    if inp[p] == SPACE {
        lemma_peek_ascii(inp, p, ' ');
    } else if inp[p] == TAB {
        lemma_peek_ascii(inp, p, '\t');
    } else if inp[p] == CARRIAGE_RETURN {
        lemma_peek_ascii(inp, p, '\r');
    } else {
        lemma_peek_ascii(inp, p, '\n');
    }
}

/// Structural white space skips a blank run up to where white space ends.
pub proof fn lemma_wsc_blank(inp: Seq<u8>, p: int, t: Seq<u8>)
    requires
        text_at(inp, p, t),
        blank(t),
        wsc_stops(inp, p + t.len()),
    ensures
        wsc_end(inp, p) == Ok::<int, (int, Fault)>(p + t.len()),
    decreases t.len(),
{
    if t.len() == 0 {
    } else {
        lemma_text_index(inp, p, t, 0);
        lemma_peek_blank(inp, p);
        let tail = t.drop_first();
        assert(t =~= seq![t[0]] + tail);
        lemma_text_split(inp, p, seq![t[0]], tail);
        assert forall|i: int| 0 <= i < tail.len() implies (#[trigger] tail[i] == SPACE || tail[i] == TAB
            || tail[i] == CARRIAGE_RETURN || tail[i] == LINE_FEED) by {
            assert(tail[i] == t[i + 1]);
        }
        lemma_wsc_blank(inp, p + 1, tail);
    }
}

/// The first character of a string as the formatter writes it.
pub open spec fn string_first(s: Seq<char>) -> char {
    if can_be_bare(s) {
        s[0]
    } else {
        '"'
    }
}

/// The first character of a value as the formatter writes it.
pub open spec fn value_first(x: ValueView) -> char {
    match x {
        ValueView::Str(s) => string_first(s),
        ValueView::List(_) => '[',
        ValueView::Dict(_) => '{',
    }
}

/// A character that can start a formatted string or value: no white
/// space, and none of `#`, `;`, `}`, `]`.
pub open spec fn starts_item(c: char) -> bool {
    &&& !is_white_space(c)
    &&& c != '#'
    &&& c != ';'
    &&& c != '}'
    &&& c != ']'
}

/// A formatted string starts with its first character.
pub proof fn lemma_string_first(inp: Seq<u8>, p: int, s: Seq<char>)
    requires
        text_at(inp, p, string_text(s)),
    ensures
        string_text(s).len() >= 1,
        peek_at(inp, p) matches Ok(Some((c, _))) && c == string_first(s),
        starts_item(string_first(s)),
        string_first(s) != '{' && string_first(s) != '[' && string_first(s) != '\'',
{
    if can_be_bare(s) {
        lemma_encode_first(s);
        lemma_text_split(inp, p, encode_scalar(s[0] as u32), encode_utf8(s.drop_first()));
        lemma_peek_encoded(inp, p, s[0]);
        assert(is_bare_char(s[0]));
    } else {
        lemma_text_index(inp, p, string_text(s), 0);
        lemma_peek_ascii(inp, p, '"');
    }
}

/// A formatted value starts with its first character.
pub proof fn lemma_value_first(inp: Seq<u8>, p: int, x: ValueView, ind: nat)
    requires
        text_at(inp, p, value_text(x, ind)),
    ensures
        value_text(x, ind).len() >= 1,
        peek_at(inp, p) matches Ok(Some((c, _))) && c == value_first(x),
        starts_item(value_first(x)),
{
    match x {
        ValueView::Str(s) => lemma_string_first(inp, p, s),
        ValueView::List(items) => {
            lemma_text_index(inp, p, value_text(x, ind), 0);
            lemma_peek_ascii(inp, p, '[');
        },
        ValueView::Dict(pairs) => {
            lemma_text_index(inp, p, value_text(x, ind), 0);
            lemma_peek_ascii(inp, p, '{');
        },
    }
}


/// One pair as the formatter writes it, after its indentation.
pub open spec fn pair_line(p: (Seq<char>, ValueView), inner: nat) -> Seq<u8> {
    string_text(p.0) + seq![SPACE] + value_text(p.1, inner) + seq![LINE_FEED]
}

/// Items each preceded by a space.
pub open spec fn spaced(items: Seq<ValueView>, ind: nat) -> Seq<u8>
    decreases items.len(),
{
    if items.len() == 0 {
        seq![]
    } else {
        seq![SPACE] + value_text(items[0], ind) + spaced(items.drop_first(), ind)
    }
}

pub proof fn lemma_pairs_first(ps: Seq<(Seq<char>, ValueView)>, inner: nat)
    requires
        ps.len() > 0,
    ensures
        pair_lines(ps, inner) == indent_text(inner) + pair_line(ps[0], inner) + pair_lines(ps.drop_first(), inner),
        pairs_events(ps) == seq![EventView::Key(ps[0].0)] + value_events(ps[0].1) + pairs_events(ps.drop_first()),
        pairs_wf(ps) ==> value_wf(ps[0].1) && pairs_wf(ps.drop_first()),
    decreases ps.len(),
{
    let t = ps.drop_first();
    if ps.len() == 1 {
        assert(ps.drop_last() =~= Seq::<(Seq<char>, ValueView)>::empty());
        assert(t =~= Seq::<(Seq<char>, ValueView)>::empty());
        assert(pair_lines(ps, inner) =~= indent_text(inner) + pair_line(ps[0], inner) + pair_lines(t, inner));
        assert(pairs_events(ps) =~= seq![EventView::Key(ps[0].0)] + value_events(ps[0].1) + pairs_events(t));
    } else {
        lemma_pairs_first(ps.drop_last(), inner);
        assert(ps.drop_last().drop_first() =~= t.drop_last());
        assert(t.last() == ps.last());
        assert(ps.drop_last()[0] == ps[0]);
        assert(pair_lines(ps, inner) =~= indent_text(inner) + pair_line(ps[0], inner) + pair_lines(t, inner));
        assert(pairs_events(ps) =~= seq![EventView::Key(ps[0].0)] + value_events(ps[0].1) + pairs_events(t));
    }
}

pub proof fn lemma_items_first(items: Seq<ValueView>, inner: nat)
    requires
        items.len() > 0,
    ensures
        list_lines(items, inner) == indent_text(inner) + value_text(items[0], inner) + seq![LINE_FEED] + list_lines(items.drop_first(), inner),
        items_events(items) == value_events(items[0]) + items_events(items.drop_first()),
        inline_items(items, inner) == value_text(items[0], inner) + spaced(items.drop_first(), inner),
        items_wf(items) ==> value_wf(items[0]) && items_wf(items.drop_first()),
        has_compound(items) <==> (!(items[0] is Str) || has_compound(items.drop_first())),
    decreases items.len(),
{
    let t = items.drop_first();
    if items.len() == 1 {
        assert(items.drop_last() =~= Seq::<ValueView>::empty());
        assert(t =~= Seq::<ValueView>::empty());
        assert(list_lines(items, inner) =~= indent_text(inner) + value_text(items[0], inner) + seq![LINE_FEED] + list_lines(t, inner));
        assert(items_events(items) =~= value_events(items[0]) + items_events(t));
        assert(inline_items(items, inner) =~= value_text(items[0], inner) + spaced(t, inner));
    } else {
        lemma_items_first(items.drop_last(), inner);
        assert(items.drop_last().drop_first() =~= t.drop_last());
        assert(t.last() == items.last());
        assert(items.drop_last()[0] == items[0]);
        assert(list_lines(items, inner) =~= indent_text(inner) + value_text(items[0], inner) + seq![LINE_FEED] + list_lines(t, inner));
        assert(items_events(items) =~= value_events(items[0]) + items_events(t));
        lemma_spaced_push(t.drop_last(), t.last(), inner);
        assert(t.drop_last().push(t.last()) =~= t);
        if items.len() == 2 {
            assert(t.drop_last() =~= Seq::<ValueView>::empty());
            assert(items.drop_last() =~= seq![items[0]]);
            assert(inline_items(items.drop_last(), inner) == value_text(items[0], inner));
        }
        assert(inline_items(items, inner) =~= value_text(items[0], inner) + spaced(t, inner));
    }
    if has_compound(items) {
        let i = choose|i: int| 0 <= i < items.len() && !(#[trigger] items[i] is Str);
        if i > 0 {
            assert(t[i - 1] == items[i]);
        }
    }
    if has_compound(t) {
        let i = choose|i: int| 0 <= i < t.len() && !(#[trigger] t[i] is Str);
        assert(items[i + 1] == t[i]);
    }
}

proof fn lemma_spaced_push(items: Seq<ValueView>, x: ValueView, ind: nat)
    ensures
        spaced(items.push(x), ind) == spaced(items, ind) + seq![SPACE] + value_text(x, ind),
    decreases items.len(),
{
    if items.len() == 0 {
        assert(items.push(x).drop_first() =~= Seq::<ValueView>::empty());
        assert(items.push(x)[0] == x);
        assert(spaced(Seq::<ValueView>::empty(), ind) == Seq::<u8>::empty());
        assert(spaced(items.push(x), ind) =~= spaced(items, ind) + seq![SPACE] + value_text(x, ind));
    } else {
        lemma_spaced_push(items.drop_first(), x, ind);
        assert(items.push(x).drop_first() =~= items.drop_first().push(x));
        assert(items.push(x)[0] == items[0]);
        assert(spaced(items.push(x), ind) =~= spaced(items, ind) + seq![SPACE] + value_text(x, ind));
    }
}


/// White space ends at `q` before an item of a list or the list's `]`.
pub open spec fn item_or_close(inp: Seq<u8>, q: int) -> bool {
    peek_at(inp, q) matches Ok(Some((c, _))) && (starts_item(c) || c == ']')
}

/// After an item, blank space up to the next item or the `]` is skipped:
/// the parser goes on as if it stood before that item.
pub proof fn lemma_between_items_blank(v: ParserView, b: Seq<u8>)
    requires
        parser_wf(v),
        v.state == State::BetweenItems,
        text_at(v.input, v.pos, b),
        blank(b),
        item_or_close(v.input, v.pos + b.len()),
        b.len() == 0 ==> char_at_is(v.input, v.pos, ']'),
    ensures
        parser_wf(ParserView { pos: v.pos + b.len(), state: State::BeforeItem, ..v }),
        step(v) == step(ParserView { pos: v.pos + b.len(), state: State::BeforeItem, ..v }),
{
    let q = v.pos + b.len();
    let inp = v.input;
    let w = ParserView { pos: q, state: State::BeforeItem, ..v };
    if b.len() == 0 {
        assert(w == in_state(v, State::BeforeItem));
    } else {
        lemma_text_index(inp, v.pos, b, 0);
        lemma_peek_blank(inp, v.pos);
        assert(!at_end(v));
        assert(!char_at_is(inp, v.pos, ']'));
        lemma_wsc_blank(inp, v.pos, b);
        assert(inp.subrange(q, q) =~= Seq::<u8>::empty());
        lemma_wsc_blank(inp, q, seq![]);
        assert(w == in_state(at_pos(v, q), State::BeforeItem));
    }
}

/// After a pair, a line feed and the next line's indentation are skipped:
/// the parser goes on as if it stood before the next key or the end of the map.
pub proof fn lemma_between_pairs_nl(v: ParserView, b: Seq<u8>)
    requires
        parser_wf(v),
        v.state == State::BetweenPairs,
        text_at(v.input, v.pos, seq![LINE_FEED] + b),
        forall|i: int| 0 <= i < b.len() ==> #[trigger] b[i] == SPACE,
        wsc_stops(v.input, v.pos + 1 + b.len()),
    ensures
        parser_wf(ParserView { pos: v.pos + 1 + b.len(), state: State::BeforePair, ..v }),
        step(v) == step(ParserView { pos: v.pos + 1 + b.len(), state: State::BeforePair, ..v }),
{
    let inp = v.input;
    let p = v.pos;
    let q = p + 1 + b.len();
    lemma_text_split(inp, p, seq![LINE_FEED], b);
    lemma_text_index(inp, p, seq![LINE_FEED] + b, 0);
    lemma_peek_ascii(inp, p, '\n');
    if b.len() > 0 {
        lemma_text_index(inp, p + 1, b, 0);
        lemma_peek_ascii(inp, p + 1, ' ');
    }
    assert(newlines_end(inp, p + 1) == Ok::<int, (int, Fault)>(p + 1));
    assert(newlines_end(inp, p) == Ok::<int, (int, Fault)>(p + 1));
    assert(blank(b));
    lemma_wsc_blank(inp, p + 1, b);
    assert(hspace_end(inp, p) == Ok::<int, (int, Fault)>(p));
    assert(comment_end(inp, p) == Ok::<int, (int, Fault)>(p));
    assert(at_map_end(at_pos(v, p)) == Ok::<bool, Fault>(false));
    assert(pairsep_end(inp, p) == Ok::<(int, bool), (int, Fault)>((p + 1, true)));
    assert(ParserView { pos: q, state: State::BeforePair, ..v } == in_state(at_pos(v, q), State::BeforePair));
}


/// The frames of a map open at `v`'s innermost level: the top-level map
/// ends at the end of the input, a nested one at its `}`.
pub open spec fn in_map(v: ParserView) -> bool {
    &&& v.stack.len() > 0
    &&& !v.stack.last().is_list
    &&& v.stack.last().seen is Some
    &&& (v.stack.last().closing is None || v.stack.last().closing == Some('}'))
}

/// A value can start at `q`: its first character starts an item.
pub open spec fn value_starts(inp: Seq<u8>, q: int) -> bool {
    peek_at(inp, q) matches Ok(Some((c, _))) && starts_item(c)
}

/// A key at a pair's start is read, with the space after it.
proof fn lemma_key_step(v: ParserView, k: Seq<char>, gap: u8)
    requires
        parser_wf(v),
        v.state == State::BeforePair,
        in_map(v),
        gap == SPACE || gap == TAB,
        text_at(v.input, v.pos, string_text(k) + seq![gap]),
        value_starts(v.input, v.pos + string_text(k).len() + 1),
        !v.stack.last().seen->Some_0.contains(k),
    ensures
        step(v) == emit(
            ParserView { pos: v.pos + string_text(k).len() + 1, stack: with_key(v, k), state: State::AfterKey, ..v },
            EventView::Key(k),
        ),
{
    let inp = v.input;
    let p = v.pos;
    let q = p + string_text(k).len();
    lemma_text_split(inp, p, string_text(k), seq![gap]);
    lemma_text_index(inp, q, seq![gap], 0);
    lemma_string_first(inp, p, k);
    lemma_string_scan(inp, p, k);
    if gap == SPACE {
        lemma_peek_ascii(inp, q, ' ');
    } else {
        lemma_peek_ascii(inp, q, '\t');
    }
    assert(hspace_end(inp, q + 1) == Ok::<int, (int, Fault)>(q + 1));
    assert(hspace_end(inp, q) == Ok::<int, (int, Fault)>(q + 1));
    assert(!at_end(v));
    assert(at_map_end(v) == Ok::<bool, Fault>(false));
}

/// The `}` of a nested map closes it.
proof fn lemma_close_brace(v: ParserView)
    requires
        parser_wf(v),
        v.state == State::BeforePair,
        in_map(v),
        v.stack.last().closing == Some('}'),
        0 <= v.pos < v.input.len(),
        v.input[v.pos] == CLOSE_BRACE,
    ensures
        step(v) == emit(popped(v, v.pos + 1), EventView::EndMap),
{
    lemma_peek_ascii(v.input, v.pos, '}');
}

/// The end of the input closes the top-level map.
proof fn lemma_close_top(v: ParserView)
    requires
        parser_wf(v),
        v.state == State::BeforePair,
        in_map(v),
        v.stack.last().closing is None,
        v.pos == v.input.len(),
    ensures
        step(v) == emit(popped(v, v.pos), EventView::EndMap),
{
}

/// The `]` of a list closes it.
proof fn lemma_close_bracket(v: ParserView)
    requires
        parser_wf(v),
        v.state == State::BeforeItem,
        0 <= v.pos < v.input.len(),
        v.input[v.pos] == CLOSE_BRACKET,
    ensures
        step(v) == emit(popped(v, v.pos + 1), EventView::EndList),
{
    lemma_peek_ascii(v.input, v.pos, ']');
}

/// Where a value is expected: after a key in a map, or before an item of a list.
pub open spec fn expects_value(v: ParserView) -> bool {
    &&& parser_wf(v)
    &&& v.stack.len() > 0
    &&& (v.state == State::AfterKey || v.state == State::BeforeItem)
}

/// The state after a value, in the container it stands in.
pub open spec fn after_value(v: ParserView) -> State {
    if v.state == State::AfterKey {
        State::BetweenPairs
    } else {
        State::BetweenItems
    }
}

/// At a value's first character the parser reads a value.
proof fn lemma_value_step(v: ParserView, x: ValueView, ind: nat)
    requires
        expects_value(v),
        text_at(v.input, v.pos, value_text(x, ind)),
    ensures
        step(v) == parse_value(v, after_value(v)),
{
    lemma_value_first(v.input, v.pos, x, ind);
}

/// An opening `{` or `[` followed by blank space up to the first
/// character of what it holds.
proof fn lemma_open_step(v: ParserView, open: u8, b: Seq<u8>)
    requires
        expects_value(v),
        open == OPEN_BRACE || open == OPEN_BRACKET,
        text_at(v.input, v.pos, seq![open] + b),
        blank(b),
        wsc_stops(v.input, v.pos + 1 + b.len()),
    ensures
        open == OPEN_BRACE ==> parse_value(v, after_value(v)) == emit(
            ParserView { pos: v.pos + 1 + b.len(), stack: v.stack.push(map_frame(v.pos)), state: State::BeforePair, ..v },
            EventView::StartMap,
        ),
        open == OPEN_BRACKET ==> parse_value(v, after_value(v)) == emit(
            ParserView { pos: v.pos + 1 + b.len(), stack: v.stack.push(list_frame(v.pos)), state: State::BeforeItem, ..v },
            EventView::StartList,
        ),
{
    lemma_text_split(v.input, v.pos, seq![open], b);
    lemma_text_index(v.input, v.pos, seq![open] + b, 0);
    if open == OPEN_BRACE {
        lemma_peek_ascii(v.input, v.pos, '{');
    } else {
        lemma_peek_ascii(v.input, v.pos, '[');
    }
    lemma_wsc_blank(v.input, v.pos + 1, b);
}


/// A key at a pair's start: its event, and the parser after the space that follows it.
proof fn lemma_key_leads(v: ParserView, k: Seq<char>, gap: u8)
    requires
        parser_wf(v),
        v.state == State::BeforePair,
        in_map(v),
        gap == SPACE || gap == TAB,
        text_at(v.input, v.pos, string_text(k) + seq![gap]),
        value_starts(v.input, v.pos + string_text(k).len() + 1),
        !v.stack.last().seen->Some_0.contains(k),
    ensures
        leads(v, seq![EventView::Key(k)], ParserView { pos: v.pos + string_text(k).len() + 1, stack: with_key(v, k), state: State::AfterKey, ..v }),
        parser_wf(ParserView { pos: v.pos + string_text(k).len() + 1, stack: with_key(v, k), state: State::AfterKey, ..v }),
{
    lemma_key_step(v, k, gap);
    lemma_leads_step(v);
}

proof fn lemma_close_brace_leads(v: ParserView)
    requires
        parser_wf(v),
        v.state == State::BeforePair,
        in_map(v),
        v.stack.last().closing == Some('}'),
        0 <= v.pos < v.input.len(),
        v.input[v.pos] == CLOSE_BRACE,
    ensures
        leads(v, seq![EventView::EndMap], popped(v, v.pos + 1)),
{
    lemma_close_brace(v);
    lemma_leads_step(v);
}

proof fn lemma_close_top_leads(v: ParserView)
    requires
        parser_wf(v),
        v.state == State::BeforePair,
        in_map(v),
        v.stack.last().closing is None,
        v.pos == v.input.len(),
    ensures
        leads(v, seq![EventView::EndMap], popped(v, v.pos)),
{
    lemma_close_top(v);
    lemma_leads_step(v);
}

proof fn lemma_close_bracket_leads(v: ParserView)
    requires
        parser_wf(v),
        v.state == State::BeforeItem,
        0 <= v.pos < v.input.len(),
        v.input[v.pos] == CLOSE_BRACKET,
    ensures
        leads(v, seq![EventView::EndList], popped(v, v.pos + 1)),
{
    lemma_close_bracket(v);
    lemma_leads_step(v);
}

proof fn lemma_between_items_leads(v: ParserView, b: Seq<u8>)
    requires
        parser_wf(v),
        v.state == State::BetweenItems,
        text_at(v.input, v.pos, b),
        blank(b),
        item_or_close(v.input, v.pos + b.len()),
        b.len() == 0 ==> char_at_is(v.input, v.pos, ']'),
    ensures
        parser_wf(ParserView { pos: v.pos + b.len(), state: State::BeforeItem, ..v }),
        leads(v, seq![], ParserView { pos: v.pos + b.len(), state: State::BeforeItem, ..v }),
{
    lemma_between_items_blank(v, b);
    lemma_leads_skip(v, ParserView { pos: v.pos + b.len(), state: State::BeforeItem, ..v });
}

proof fn lemma_between_pairs_leads(v: ParserView, b: Seq<u8>)
    requires
        parser_wf(v),
        v.state == State::BetweenPairs,
        text_at(v.input, v.pos, seq![LINE_FEED] + b),
        forall|i: int| 0 <= i < b.len() ==> #[trigger] b[i] == SPACE,
        wsc_stops(v.input, v.pos + 1 + b.len()),
    ensures
        parser_wf(ParserView { pos: v.pos + 1 + b.len(), state: State::BeforePair, ..v }),
        leads(v, seq![], ParserView { pos: v.pos + 1 + b.len(), state: State::BeforePair, ..v }),
{
    lemma_between_pairs_nl(v, b);
    lemma_leads_skip(v, ParserView { pos: v.pos + 1 + b.len(), state: State::BeforePair, ..v });
}

/// A map or list opens at a value's `{` or `[`.
proof fn lemma_open_leads(v: ParserView, x: ValueView, ind: nat, open: u8, b: Seq<u8>)
    requires
        expects_value(v),
        text_at(v.input, v.pos, value_text(x, ind)),
        open == OPEN_BRACE || open == OPEN_BRACKET,
        text_at(v.input, v.pos, seq![open] + b),
        blank(b),
        wsc_stops(v.input, v.pos + 1 + b.len()),
    ensures
        open == OPEN_BRACE ==> leads(v, seq![EventView::StartMap],
            ParserView { pos: v.pos + 1 + b.len(), stack: v.stack.push(map_frame(v.pos)), state: State::BeforePair, ..v }),
        open == OPEN_BRACE ==> parser_wf(
            ParserView { pos: v.pos + 1 + b.len(), stack: v.stack.push(map_frame(v.pos)), state: State::BeforePair, ..v }),
        open == OPEN_BRACKET ==> leads(v, seq![EventView::StartList],
            ParserView { pos: v.pos + 1 + b.len(), stack: v.stack.push(list_frame(v.pos)), state: State::BeforeItem, ..v }),
        open == OPEN_BRACKET ==> parser_wf(
            ParserView { pos: v.pos + 1 + b.len(), stack: v.stack.push(list_frame(v.pos)), state: State::BeforeItem, ..v }),
{
    lemma_value_step(v, x, ind);
    lemma_open_step(v, open, b);
    lemma_leads_step(v);
}

/// A string value: its event, and the parser right after it.
proof fn lemma_str_leads(v: ParserView, s: Seq<char>, ind: nat)
    requires
        expects_value(v),
        text_at(v.input, v.pos, value_text(ValueView::Str(s), ind)),
        ends_bare(v.input, v.pos + string_text(s).len()),
    ensures
        leads(v, seq![EventView::Str(s)], ParserView { pos: v.pos + string_text(s).len(), state: after_value(v), ..v }),
{
    lemma_value_step(v, ValueView::Str(s), ind);
    lemma_string_first(v.input, v.pos, s);
    lemma_string_scan(v.input, v.pos, s);
    assert(step(v) == emit(ParserView { pos: v.pos + string_text(s).len(), state: after_value(v), ..v }, EventView::Str(s)));
    lemma_leads_step(v);
}

/// The items of a list from its first one on, then the list's end: one
/// item per line (`multiline`), or all on one line separated by spaces.
pub open spec fn items_tail_text(items: Seq<ValueView>, inner: nat, ind: nat, multiline: bool) -> Seq<u8> {
    if multiline {
        value_text(items[0], inner) + (seq![LINE_FEED] + list_lines(items.drop_first(), inner) + indent_text(ind) + seq![CLOSE_BRACKET])
    } else {
        value_text(items[0], inner) + (spaced(items.drop_first(), inner) + seq![CLOSE_BRACKET])
    }
}

/// What closes the innermost map: its `}` on its own line, or for the
/// top-level map nothing (the end of the input).
pub open spec fn pairs_close(v: ParserView, ind: nat) -> Seq<u8> {
    if v.stack.last().closing is Some {
        indent_text(ind) + seq![CLOSE_BRACE]
    } else {
        seq![]
    }
}

/// The pairs of a map from the first key on, then what closes the map.
pub open spec fn pairs_tail_text(ps: Seq<(Seq<char>, ValueView)>, inner: nat, close: Seq<u8>) -> Seq<u8> {
    pair_line(ps[0], inner) + (pair_lines(ps.drop_first(), inner) + close)
}

/// A value as the formatter writes it is read as that value's events; the
/// parser then stands right after it.
#[verifier::spinoff_prover]
#[verifier::rlimit(80)]
pub proof fn lemma_value(v: ParserView, x: ValueView, ind: nat)
    requires
        expects_value(v),
        text_at(v.input, v.pos, value_text(x, ind)),
        ends_bare(v.input, v.pos + value_text(x, ind).len()),
        value_wf(x),
    ensures
        leads(v, value_events(x), ParserView { pos: v.pos + value_text(x, ind).len(), state: after_value(v), ..v }),
    decreases x, 1int,
{
    match x {
        ValueView::Str(s) => {
            lemma_str_leads(v, s, ind);
        },
        ValueView::Dict(ps) => {
            lemma_dict_value(v, ps, ind);
        },
        ValueView::List(items) => {
            if items.len() == 0 {
                lemma_empty_list_value(v, ind);
            } else {
                lemma_list_open(v, items, ind);
            }
        },
    }
}

/// `[]` is an empty list.
proof fn lemma_empty_list_value(v: ParserView, ind: nat)
    requires
        expects_value(v),
        text_at(v.input, v.pos, value_text(ValueView::List(seq![]), ind)),
    ensures
        leads(v, value_events(ValueView::List(seq![])),
            ParserView { pos: v.pos + value_text(ValueView::List(seq![]), ind).len(), state: after_value(v), ..v }),
{
    let x = ValueView::List(seq![]);
    let inp = v.input;
    let p = v.pos;
    let t = value_text(x, ind);
    let w = ParserView { pos: p + t.len(), state: after_value(v), ..v };
    assert(t == seq![OPEN_BRACKET, CLOSE_BRACKET]);
    assert(t =~= (seq![OPEN_BRACKET] + Seq::<u8>::empty()) + seq![CLOSE_BRACKET]);
    lemma_text_split(inp, p, seq![OPEN_BRACKET] + Seq::<u8>::empty(), seq![CLOSE_BRACKET]);
    lemma_text_index(inp, p, t, 1);
    lemma_peek_ascii(inp, p + 1, ']');
    lemma_open_leads(v, x, ind, OPEN_BRACKET, seq![]);
    let v1 = ParserView { pos: p + 1, stack: v.stack.push(list_frame(p)), state: State::BeforeItem, ..v };
    lemma_close_bracket_leads(v1);
    assert(v1.stack.drop_last() =~= v.stack);
    assert(popped(v1, p + 2) == w);
    lemma_leads_trans(v, seq![EventView::StartList], v1, seq![EventView::EndList], w);
    assert(items_events(Seq::<ValueView>::empty()) =~= Seq::<EventView>::empty());
    assert(value_events(x) =~= seq![EventView::StartList] + seq![EventView::EndList]);
}

/// A map value: `{}`, or its pairs between `{` and `}` on lines of their own.
#[verifier::rlimit(60)]
#[verifier::spinoff_prover]
proof fn lemma_dict_value(v: ParserView, ps: Seq<(Seq<char>, ValueView)>, ind: nat)
    requires
        expects_value(v),
        text_at(v.input, v.pos, value_text(ValueView::Dict(ps), ind)),
        value_wf(ValueView::Dict(ps)),
    ensures
        leads(v, value_events(ValueView::Dict(ps)),
            ParserView { pos: v.pos + value_text(ValueView::Dict(ps), ind).len(), state: after_value(v), ..v }),
    decreases ValueView::Dict(ps), 0int,
{
    let x = ValueView::Dict(ps);
    let inp = v.input;
    let p = v.pos;
    let t = value_text(x, ind);
    let w = ParserView { pos: p + t.len(), state: after_value(v), ..v };
    if ps.len() == 0 {
        assert(t == seq![OPEN_BRACE, CLOSE_BRACE]);
        assert(t =~= (seq![OPEN_BRACE] + Seq::<u8>::empty()) + seq![CLOSE_BRACE]);
        lemma_text_split(inp, p, seq![OPEN_BRACE] + Seq::<u8>::empty(), seq![CLOSE_BRACE]);
        lemma_text_index(inp, p, t, 1);
        lemma_peek_ascii(inp, p + 1, '}');
        lemma_open_leads(v, x, ind, OPEN_BRACE, seq![]);
        let v1 = ParserView { pos: p + 1, stack: v.stack.push(map_frame(p)), state: State::BeforePair, ..v };
        lemma_close_brace_leads(v1);
        assert(v1.stack.drop_last() =~= v.stack);
        assert(popped(v1, p + 2) == w);
        lemma_leads_trans(v, seq![EventView::StartMap], v1, seq![EventView::EndMap], w);
        assert(value_events(x) =~= seq![EventView::StartMap] + seq![EventView::EndMap]);
    } else {
        let inner = ind + 1;
        lemma_indent_blank(inner);
        let b = seq![LINE_FEED] + indent_text(inner);
        lemma_pairs_first(ps, inner);
        let close = indent_text(ind) + seq![CLOSE_BRACE];
        let rest = pairs_tail_text(ps, inner, close);
        assert(t =~= (seq![OPEN_BRACE] + b) + rest);
        lemma_text_split(inp, p, seq![OPEN_BRACE] + b, rest);
        let q = p + 1 + b.len();
        let key_rest = seq![SPACE] + value_text(ps[0].1, inner) + seq![LINE_FEED] + (pair_lines(ps.drop_first(), inner) + close);
        assert(rest =~= string_text(ps[0].0) + key_rest);
        lemma_text_split(inp, q, string_text(ps[0].0), key_rest);
        lemma_string_first(inp, q, ps[0].0);
        lemma_open_leads(v, x, ind, OPEN_BRACE, b);
        let v1 = ParserView { pos: q, stack: v.stack.push(map_frame(p)), state: State::BeforePair, ..v };
        assert(seq![] + dict_keys(ps) =~= dict_keys(ps));
        lemma_pairs(v1, ps, inner, ind, seq![]);
        assert(v1.stack.drop_last() =~= v.stack);
        assert(after_container(ParserView { pos: q + rest.len(), stack: v1.stack.drop_last(), ..v1 }) == w);
        lemma_leads_trans(v, seq![EventView::StartMap], v1, pairs_events(ps) + seq![EventView::EndMap], w);
        assert(value_events(x) =~= seq![EventView::StartMap] + (pairs_events(ps) + seq![EventView::EndMap]));
    }
}

/// A non-empty list opens, and its items follow.
#[verifier::spinoff_prover]
#[verifier::rlimit(60)]
proof fn lemma_list_open(v: ParserView, items: Seq<ValueView>, ind: nat)
    requires
        expects_value(v),
        items.len() > 0,
        text_at(v.input, v.pos, value_text(ValueView::List(items), ind)),
        value_wf(ValueView::List(items)),
    ensures
        leads(v, value_events(ValueView::List(items)),
            ParserView { pos: v.pos + value_text(ValueView::List(items), ind).len(), state: after_value(v), ..v }),
    decreases ValueView::List(items), 0int,
{
    let x = ValueView::List(items);
    let inp = v.input;
    let p = v.pos;
    let t = value_text(x, ind);
    let w = ParserView { pos: p + t.len(), state: after_value(v), ..v };
    lemma_items_first(items, ind + 1);
    lemma_items_first(items, ind);
    let multiline = has_compound(items);
    let inner: nat = if multiline { ind + 1 } else { ind };
    lemma_indent_blank(inner);
    let b = if multiline { seq![LINE_FEED] + indent_text(inner) } else { Seq::<u8>::empty() };
    let rest = items_tail_text(items, inner, ind, multiline);
    assert(t =~= (seq![OPEN_BRACKET] + b) + rest);
    lemma_text_split(inp, p, seq![OPEN_BRACKET] + b, rest);
    let q = p + 1 + b.len();
    let vt = value_text(items[0], inner);
    assert(rest =~= vt + rest.subrange(vt.len() as int, rest.len() as int));
    lemma_text_split(inp, q, vt, rest.subrange(vt.len() as int, rest.len() as int));
    lemma_value_first(inp, q, items[0], inner);
    assert(blank(b));
    lemma_open_leads(v, x, ind, OPEN_BRACKET, b);
    let v1 = ParserView { pos: q, stack: v.stack.push(list_frame(p)), state: State::BeforeItem, ..v };
    lemma_items(v1, items, inner, ind, multiline);
    assert(v1.stack.drop_last() =~= v.stack);
    assert(after_container(ParserView { pos: q + rest.len(), stack: v1.stack.drop_last(), ..v1 }) == w);
    lemma_leads_trans(v, seq![EventView::StartList], v1, items_events(items) + seq![EventView::EndList], w);
    assert(value_events(x) =~= seq![EventView::StartList] + (items_events(items) + seq![EventView::EndList]));
}

/// The items of a list, from the first one to the list's `]`.
#[verifier::spinoff_prover]
#[verifier::rlimit(80)]
pub proof fn lemma_items(v: ParserView, items: Seq<ValueView>, inner: nat, ind: nat, multiline: bool)
    requires
        parser_wf(v),
        v.state == State::BeforeItem,
        v.stack.len() > 0,
        items.len() > 0,
        items_wf(items),
        text_at(v.input, v.pos, items_tail_text(items, inner, ind, multiline)),
    ensures
        leads(
            v,
            items_events(items) + seq![EventView::EndList],
            after_container(ParserView { pos: v.pos + items_tail_text(items, inner, ind, multiline).len(), stack: v.stack.drop_last(), ..v }),
        ),
    decreases items, 0int,
{
    let inp = v.input;
    let p = v.pos;
    let x0 = items[0];
    let tail = items.drop_first();
    lemma_items_first(items, inner);
    let vt = value_text(x0, inner);
    let after_text = if multiline {
        seq![LINE_FEED] + list_lines(tail, inner) + indent_text(ind) + seq![CLOSE_BRACKET]
    } else {
        spaced(tail, inner) + seq![CLOSE_BRACKET]
    };
    let total = items_tail_text(items, inner, ind, multiline);
    assert(total == vt + after_text);
    lemma_text_split(inp, p, vt, after_text);
    let q2 = p + vt.len();
    let f = after_container(ParserView { pos: p + total.len(), stack: v.stack.drop_last(), ..v });
    lemma_indent_blank(inner);
    lemma_indent_blank(ind);
    let v2 = ParserView { pos: q2, state: State::BetweenItems, ..v };
    if tail.len() > 0 {
        lemma_items_first(tail, inner);
        let sep = if multiline { seq![LINE_FEED] + indent_text(inner) } else { seq![SPACE] };
        let rest = items_tail_text(tail, inner, ind, multiline);
        assert(after_text =~= sep + rest);
        lemma_text_split(inp, q2, sep, rest);
        lemma_text_index(inp, q2, after_text, 0);
        lemma_value(v, x0, inner);
        let q3 = q2 + sep.len();
        let vt1 = value_text(tail[0], inner);
        assert(rest =~= vt1 + rest.subrange(vt1.len() as int, rest.len() as int));
        lemma_text_split(inp, q3, vt1, rest.subrange(vt1.len() as int, rest.len() as int));
        lemma_value_first(inp, q3, tail[0], inner);
        assert(blank(sep));
        lemma_leads_wf(v, value_events(x0), v2);
        lemma_between_items_leads(v2, sep);
        let v3 = ParserView { pos: q3, state: State::BeforeItem, ..v2 };
        lemma_items(v3, tail, inner, ind, multiline);
        assert(v3.stack == v.stack);
        assert(after_container(ParserView { pos: q3 + rest.len(), stack: v3.stack.drop_last(), ..v3 }) == f);
        lemma_leads_trans(v2, seq![], v3, items_events(tail) + seq![EventView::EndList], f);
        assert(Seq::<EventView>::empty() + (items_events(tail) + seq![EventView::EndList]) =~= items_events(tail) + seq![EventView::EndList]);
        lemma_leads_trans(v, value_events(x0), v2, items_events(tail) + seq![EventView::EndList], f);
        assert(items_events(items) + seq![EventView::EndList] =~= value_events(x0) + (items_events(tail) + seq![EventView::EndList]));
    } else {
        let cl = if multiline { seq![LINE_FEED] + indent_text(ind) } else { Seq::<u8>::empty() };
        assert(list_lines(tail, inner) =~= Seq::<u8>::empty());
        assert(spaced(tail, inner) =~= Seq::<u8>::empty());
        assert(after_text =~= cl + seq![CLOSE_BRACKET]);
        lemma_text_split(inp, q2, cl, seq![CLOSE_BRACKET]);
        lemma_text_index(inp, q2, after_text, 0);
        lemma_value(v, x0, inner);
        let q3 = q2 + cl.len();
        lemma_text_index(inp, q3, seq![CLOSE_BRACKET], 0);
        lemma_peek_ascii(inp, q3, ']');
        assert(blank(cl));
        lemma_leads_wf(v, value_events(x0), v2);
        lemma_between_items_leads(v2, cl);
        let v3 = ParserView { pos: q3, state: State::BeforeItem, ..v2 };
        lemma_close_bracket_leads(v3);
        assert(v3.stack == v.stack);
        assert(popped(v3, q3 + 1) == f);
        lemma_leads_trans(v2, seq![], v3, seq![EventView::EndList], f);
        assert(Seq::<EventView>::empty() + seq![EventView::EndList] =~= seq![EventView::EndList]);
        lemma_leads_trans(v, value_events(x0), v2, seq![EventView::EndList], f);
        assert(items_events(tail) =~= Seq::<EventView>::empty());
        assert(items_events(items) + seq![EventView::EndList] =~= value_events(x0) + seq![EventView::EndList]);
    }
}

/// After the last pair, its line feed and what closes the map.
proof fn lemma_pairs_end(v: ParserView, ind: nat)
    requires
        parser_wf(v),
        v.state == State::BetweenPairs,
        in_map(v),
        text_at(v.input, v.pos, seq![LINE_FEED] + pairs_close(v, ind)),
        v.stack.last().closing is None ==> v.pos + 1 == v.input.len(),
    ensures
        leads(v, seq![EventView::EndMap],
            after_container(ParserView { pos: v.pos + 1 + pairs_close(v, ind).len(), stack: v.stack.drop_last(), ..v })),
{
    let inp = v.input;
    let q3 = v.pos;
    let close = pairs_close(v, ind);
    let f = after_container(ParserView { pos: q3 + 1 + close.len(), stack: v.stack.drop_last(), ..v });
    lemma_indent_blank(ind);
    if close.len() > 0 {
        assert(close =~= indent_text(ind) + seq![CLOSE_BRACE]);
        assert(seq![LINE_FEED] + close =~= seq![LINE_FEED] + indent_text(ind) + seq![CLOSE_BRACE]);
        lemma_text_split(inp, q3, seq![LINE_FEED] + indent_text(ind), seq![CLOSE_BRACE]);
        let q4 = q3 + 1 + indent_text(ind).len();
        lemma_text_index(inp, q4, seq![CLOSE_BRACE], 0);
        lemma_peek_ascii(inp, q4, '}');
        lemma_between_pairs_leads(v, indent_text(ind));
        let v4 = ParserView { pos: q4, state: State::BeforePair, ..v };
        lemma_close_brace_leads(v4);
        assert(popped(v4, q4 + 1) == f);
        lemma_leads_trans(v, seq![], v4, seq![EventView::EndMap], f);
    } else {
        assert(seq![LINE_FEED] + close =~= seq![LINE_FEED] + Seq::<u8>::empty());
        let q4 = q3 + 1;
        lemma_between_pairs_leads(v, Seq::<u8>::empty());
        let v4 = ParserView { pos: q4, state: State::BeforePair, ..v };
        lemma_close_top_leads(v4);
        assert(popped(v4, q4) == f);
        lemma_leads_trans(v, seq![], v4, seq![EventView::EndMap], f);
    }
    assert(Seq::<EventView>::empty() + seq![EventView::EndMap] =~= seq![EventView::EndMap]);
}

/// The pairs of a map, from the first key to what closes the map.
#[verifier::spinoff_prover]
#[verifier::rlimit(80)]
pub proof fn lemma_pairs(v: ParserView, ps: Seq<(Seq<char>, ValueView)>, inner: nat, ind: nat, done: Seq<Seq<char>>)
    requires
        parser_wf(v),
        v.state == State::BeforePair,
        in_map(v),
        v.stack.last().seen == Some(done),
        ps.len() > 0,
        pairs_wf(ps),
        (done + dict_keys(ps)).no_duplicates(),
        text_at(v.input, v.pos, pairs_tail_text(ps, inner, pairs_close(v, ind))),
        v.stack.last().closing is None ==> v.pos + pairs_tail_text(ps, inner, pairs_close(v, ind)).len() == v.input.len(),
    ensures
        leads(
            v,
            pairs_events(ps) + seq![EventView::EndMap],
            after_container(ParserView { pos: v.pos + pairs_tail_text(ps, inner, pairs_close(v, ind)).len(), stack: v.stack.drop_last(), ..v }),
        ),
    decreases ps, 0int,
{
    let inp = v.input;
    let p = v.pos;
    let k0 = ps[0].0;
    let x0 = ps[0].1;
    let tail = ps.drop_first();
    let close = pairs_close(v, ind);
    let total = pairs_tail_text(ps, inner, close);
    let f = after_container(ParserView { pos: p + total.len(), stack: v.stack.drop_last(), ..v });
    lemma_pairs_first(ps, inner);
    let head = string_text(k0) + seq![SPACE] + value_text(x0, inner);
    let after_text = seq![LINE_FEED] + (pair_lines(tail, inner) + close);
    assert(total =~= head + after_text);
    lemma_text_split(inp, p, head, after_text);
    lemma_text_split(inp, p, string_text(k0) + seq![SPACE], value_text(x0, inner));
    lemma_text_index(inp, p + head.len(), after_text, 0);
    assert(!done.contains(k0)) by {
        if done.contains(k0) {
            let j = choose|j: int| 0 <= j < done.len() && done[j] == k0;
            let all = done + dict_keys(ps);
            assert(all[j] == k0);
            assert(all[done.len() as int] == k0);
        }
    }
    lemma_value_first(inp, p + string_text(k0).len() + 1, x0, inner);
    lemma_key_leads(v, k0, SPACE);
    let v2 = ParserView { pos: p + string_text(k0).len() + 1, stack: with_key(v, k0), state: State::AfterKey, ..v };
    lemma_value(v2, x0, inner);
    let q3 = p + head.len();
    let v3 = ParserView { pos: q3, state: State::BetweenPairs, ..v2 };
    lemma_leads_wf(v2, value_events(x0), v3);
    lemma_indent_blank(inner);
    lemma_indent_blank(ind);
    if tail.len() > 0 {
        lemma_pairs_first(tail, inner);
        let rest = pairs_tail_text(tail, inner, close);
        assert(after_text =~= seq![LINE_FEED] + indent_text(inner) + rest);
        lemma_text_split(inp, q3, seq![LINE_FEED] + indent_text(inner), rest);
        let q4 = q3 + 1 + indent_text(inner).len();
        let krest = rest.subrange(string_text(tail[0].0).len() as int, rest.len() as int);
        assert(rest =~= string_text(tail[0].0) + krest);
        lemma_text_split(inp, q4, string_text(tail[0].0), krest);
        lemma_string_first(inp, q4, tail[0].0);
        lemma_between_pairs_leads(v3, indent_text(inner));
        let v4 = ParserView { pos: q4, state: State::BeforePair, ..v3 };
        assert(pairs_close(v4, ind) == close);
        assert(done.push(k0) + dict_keys(tail) =~= done + dict_keys(ps));
        lemma_pairs(v4, tail, inner, ind, done.push(k0));
        assert(v4.stack.drop_last() =~= v.stack.drop_last());
        assert(after_container(ParserView { pos: q4 + rest.len(), stack: v4.stack.drop_last(), ..v4 }) == f);
        lemma_leads_trans(v3, seq![], v4, pairs_events(tail) + seq![EventView::EndMap], f);
    } else {
        assert(pair_lines(tail, inner) =~= Seq::<u8>::empty());
        assert(after_text =~= seq![LINE_FEED] + close);
        assert(pairs_close(v3, ind) == close);
        assert(v3.stack.drop_last() =~= v.stack.drop_last());
        lemma_pairs_end(v3, ind);
        assert(after_container(ParserView { pos: q3 + 1 + close.len(), stack: v3.stack.drop_last(), ..v3 }) == f);
        assert(pairs_events(tail) =~= Seq::<EventView>::empty());
    }
    assert(Seq::<EventView>::empty() + (pairs_events(tail) + seq![EventView::EndMap]) =~= pairs_events(tail) + seq![EventView::EndMap]);
    lemma_leads_trans(v2, value_events(x0), v3, pairs_events(tail) + seq![EventView::EndMap], f);
    lemma_leads_trans(v, seq![EventView::Key(k0)], v2, value_events(x0) + (pairs_events(tail) + seq![EventView::EndMap]), f);
    assert(pairs_events(ps) + seq![EventView::EndMap] =~= seq![EventView::Key(k0)] + (value_events(x0) + (pairs_events(tail) + seq![EventView::EndMap])));
}


/// A bare first key that begins with U+FEFF: its bytes are a byte order
/// mark, which the parser skips at the start of a document.
pub open spec fn bom_key(ps: Seq<(Seq<char>, ValueView)>) -> bool {
    ps.len() > 0 && can_be_bare(ps[0].0) && ps[0].0[0] == '\u{FEFF}'
}

/// The only scalar encoded as the bytes of a byte order mark is U+FEFF.
proof fn lemma_bom_scalar(u: u32)
    by (bit_vector)
    requires
        0x800 <= u <= 0xFFFF,
        (0xE0 | ((u >> 12) & 0x0F) as u8) == 0xEF,
        (0x80 | ((u >> 6) & 0x3F) as u8) == 0xBB,
        (0x80 | (u & 0x3F) as u8) == 0xBF,
    ensures
        u == 0xFEFF,
{
}

/// A formatted document starts with no byte order mark, unless its first
/// key is one.
proof fn lemma_no_bom(ps: Seq<(Seq<char>, ValueView)>)
    requires
        !bom_key(ps),
    ensures
        !has_bom_at(map_text(ps, 0, true), 0),
{
    let inp = map_text(ps, 0, true);
    if ps.len() > 0 && has_bom_at(inp, 0) {
        lemma_pairs_first(ps, 0);
        let k = ps[0].0;
        assert(indent_text(0) =~= Seq::<u8>::empty());
        let rest = seq![SPACE] + value_text(ps[0].1, 0) + seq![LINE_FEED] + pair_lines(ps.drop_first(), 0);
        assert(inp =~= string_text(k) + rest);
        assert(inp.subrange(0, inp.len() as int) =~= inp);
        lemma_text_split(inp, 0, string_text(k), rest);
        if can_be_bare(k) {
            let c = k[0];
            let u = c as u32;
            lemma_encode_first(k);
            lemma_text_split(inp, 0, encode_scalar(u), encode_utf8(k.drop_first()));
            char_is_scalar(c);
            lemma_leading_byte(u);
            lemma_text_index(inp, 0, encode_scalar(u), 0);
            assert(0x800 <= u <= 0xFFFF);
            lemma_text_index(inp, 0, encode_scalar(u), 1);
            lemma_text_index(inp, 0, encode_scalar(u), 2);
            lemma_bom_scalar(u);
            assert(('\u{FEFF}' as u32) == 0xFEFF);
            char_u32_cast(c, u);
        } else {
            lemma_text_index(inp, 0, string_text(k), 0);
        }
    }
}

/// A run that ends in the state `Done` emits exactly its events.
proof fn lemma_leads_done(v: ParserView, es: Seq<EventView>, w: ParserView)
    requires
        leads(v, es, w),
        w.state == State::Done,
    ensures
        run(v) == Ok::<Seq<EventView>, Fault>(es),
{
    reveal(leads);
    assert(es + Seq::<EventView>::empty() =~= es);
}

/// The document opens its top-level map where its first key, or its end, stands.
#[verifier::spinoff_prover]
proof fn lemma_doc_start_leads(ps: Seq<(Seq<char>, ValueView)>)
    requires
        !bom_key(ps),
    ensures
        leads(
            initial_view(map_text(ps, 0, true)),
            seq![EventView::StartMap],
            ParserView { input: map_text(ps, 0, true), pos: 0, stack: seq![top_frame()], state: State::BeforePair },
        ),
        parser_wf(ParserView { input: map_text(ps, 0, true), pos: 0, stack: seq![top_frame()], state: State::BeforePair }),
{
    let inp = map_text(ps, 0, true);
    let v0 = initial_view(inp);
    let v1 = ParserView { input: inp, pos: 0, stack: seq![top_frame()], state: State::BeforePair };
    lemma_no_bom(ps);
    assert(bom_end(inp, 0) == 0);
    if ps.len() == 0 {
        assert(inp =~= Seq::<u8>::empty());
        assert(wsc_end(inp, 0) == Ok::<int, (int, Fault)>(0));
    } else {
        lemma_pairs_first(ps, 0);
        assert(indent_text(0) =~= Seq::<u8>::empty());
        let key_rest = seq![SPACE] + value_text(ps[0].1, 0) + seq![LINE_FEED] + pair_lines(ps.drop_first(), 0);
        assert(inp =~= string_text(ps[0].0) + key_rest);
        assert(inp.subrange(0, inp.len() as int) =~= inp);
        lemma_text_split(inp, 0, string_text(ps[0].0), key_rest);
        lemma_string_first(inp, 0, ps[0].0);
        assert(inp.subrange(0, 0) =~= Seq::<u8>::empty());
        lemma_wsc_blank(inp, 0, seq![]);
    }
    assert(step(v0) == emit(v1, EventView::StartMap));
    lemma_leads_step(v0);
}

/// What the formatter writes for a map is parsed into exactly the map's
/// events, provided every map in it has distinct keys and its first key,
/// written bare, does not begin with a byte order mark.
pub proof fn lemma_format_then_parse(ps: Seq<(Seq<char>, ValueView)>)
    requires
        value_wf(ValueView::Dict(ps)),
        !bom_key(ps),
    ensures
        document_events(map_text(ps, 0, true)) == Ok::<Seq<EventView>, Fault>(value_events(ValueView::Dict(ps))),
{
    let inp = map_text(ps, 0, true);
    let v0 = initial_view(inp);
    let v1 = ParserView { input: inp, pos: 0, stack: seq![top_frame()], state: State::BeforePair };
    lemma_doc_start_leads(ps);
    if ps.len() == 0 {
        assert(inp =~= Seq::<u8>::empty());
        lemma_close_top_leads(v1);
        let vd = popped(v1, 0);
        assert(vd.state == State::Done);
        lemma_leads_trans(v0, seq![EventView::StartMap], v1, seq![EventView::EndMap], vd);
        lemma_leads_done(v0, seq![EventView::StartMap] + seq![EventView::EndMap], vd);
        assert(value_events(ValueView::Dict(ps)) =~= seq![EventView::StartMap] + seq![EventView::EndMap]);
    } else {
        lemma_pairs_first(ps, 0);
        assert(indent_text(0) =~= Seq::<u8>::empty());
        let text = pairs_tail_text(ps, 0, seq![]);
        assert(inp =~= text);
        assert(inp.subrange(0, inp.len() as int) =~= inp);
        assert(seq![] + dict_keys(ps) =~= dict_keys(ps));
        assert(pairs_close(v1, 0) =~= Seq::<u8>::empty());
        lemma_pairs(v1, ps, 0, 0, seq![]);
        let vd = after_container(ParserView { pos: inp.len() as int, stack: v1.stack.drop_last(), ..v1 });
        assert(v1.stack.drop_last() =~= Seq::<FrameView>::empty());
        assert(vd.state == State::Done);
        lemma_leads_trans(v0, seq![EventView::StartMap], v1, pairs_events(ps) + seq![EventView::EndMap], vd);
        lemma_leads_done(v0, seq![EventView::StartMap] + (pairs_events(ps) + seq![EventView::EndMap]), vd);
        assert(value_events(ValueView::Dict(ps)) =~= seq![EventView::StartMap] + (pairs_events(ps) + seq![EventView::EndMap]));
    }
}

/// A value's events start with the value's own first event.
proof fn lemma_events_start(a: ValueView)
    ensures
        value_events(a).len() > 0,
        value_events(a)[0] is Str || value_events(a)[0] is StartList || value_events(a)[0] is StartMap,
        a is Str <==> value_events(a)[0] is Str,
        a is List <==> value_events(a)[0] is StartList,
        a is Dict <==> value_events(a)[0] is StartMap,
{
}

/// Dropping a first element common to both sides.
proof fn lemma_drop_common(e1: EventView, a: Seq<EventView>, e2: EventView, b: Seq<EventView>)
    requires
        seq![e1] + a == seq![e2] + b,
    ensures
        e1 == e2,
        a == b,
{
    assert((seq![e1] + a)[0] == e1);
    assert((seq![e2] + b)[0] == e2);
    assert(a =~= (seq![e1] + a).drop_first());
    assert(b =~= (seq![e2] + b).drop_first());
}

/// The events of a value, followed by anything, tell the value and what follows.
pub proof fn lemma_value_prefix(a: ValueView, b: ValueView, r1: Seq<EventView>, r2: Seq<EventView>)
    requires
        value_events(a) + r1 == value_events(b) + r2,
    ensures
        a == b,
        r1 == r2,
    decreases a, 1int,
{
    lemma_events_start(a);
    lemma_events_start(b);
    assert((value_events(a) + r1)[0] == value_events(a)[0]);
    assert((value_events(b) + r2)[0] == value_events(b)[0]);
    match a {
        ValueView::Str(s) => {
            let t = b->Str_0;
            assert(value_events(a) + r1 =~= seq![EventView::Str(s)] + r1);
            assert(value_events(b) + r2 =~= seq![EventView::Str(t)] + r2);
            lemma_drop_common(EventView::Str(s), r1, EventView::Str(t), r2);
        },
        ValueView::List(xs) => {
            let ys = b->List_0;
            assert(value_events(a) + r1 =~= seq![EventView::StartList] + (items_events(xs) + seq![EventView::EndList] + r1));
            assert(value_events(b) + r2 =~= seq![EventView::StartList] + (items_events(ys) + seq![EventView::EndList] + r2));
            lemma_drop_common(EventView::StartList, items_events(xs) + seq![EventView::EndList] + r1, EventView::StartList, items_events(ys) + seq![EventView::EndList] + r2);
            lemma_items_prefix(xs, ys, r1, r2);
        },
        ValueView::Dict(ps) => {
            let qs = b->Dict_0;
            assert(value_events(a) + r1 =~= seq![EventView::StartMap] + (pairs_events(ps) + seq![EventView::EndMap] + r1));
            assert(value_events(b) + r2 =~= seq![EventView::StartMap] + (pairs_events(qs) + seq![EventView::EndMap] + r2));
            lemma_drop_common(EventView::StartMap, pairs_events(ps) + seq![EventView::EndMap] + r1, EventView::StartMap, pairs_events(qs) + seq![EventView::EndMap] + r2);
            lemma_pairs_prefix(ps, qs, r1, r2);
        },
    }
}

proof fn lemma_items_prefix(xs: Seq<ValueView>, ys: Seq<ValueView>, r1: Seq<EventView>, r2: Seq<EventView>)
    requires
        items_events(xs) + seq![EventView::EndList] + r1 == items_events(ys) + seq![EventView::EndList] + r2,
    ensures
        xs == ys,
        r1 == r2,
    decreases xs, 0int,
{
    let l = items_events(xs) + seq![EventView::EndList] + r1;
    if xs.len() == 0 {
        assert(items_events(xs) =~= Seq::<EventView>::empty());
        assert(l =~= seq![EventView::EndList] + r1);
        if ys.len() > 0 {
            lemma_items_first(ys, 0);
            lemma_events_start(ys[0]);
            assert(l[0] == value_events(ys[0])[0]);
        }
        assert(items_events(ys) =~= Seq::<EventView>::empty());
        assert(items_events(ys) + seq![EventView::EndList] + r2 =~= seq![EventView::EndList] + r2);
        lemma_drop_common(EventView::EndList, r1, EventView::EndList, r2);
        assert(xs =~= ys);
    } else {
        lemma_items_first(xs, 0);
        lemma_events_start(xs[0]);
        assert(l[0] == value_events(xs[0])[0]);
        if ys.len() == 0 {
            assert(items_events(ys) =~= Seq::<EventView>::empty());
            assert((items_events(ys) + seq![EventView::EndList] + r2)[0] == EventView::EndList);
        }
        lemma_items_first(ys, 0);
        let lt = items_events(xs.drop_first()) + seq![EventView::EndList] + r1;
        let rt = items_events(ys.drop_first()) + seq![EventView::EndList] + r2;
        assert(l =~= value_events(xs[0]) + lt);
        assert(items_events(ys) + seq![EventView::EndList] + r2 =~= value_events(ys[0]) + rt);
        lemma_value_prefix(xs[0], ys[0], lt, rt);
        lemma_items_prefix(xs.drop_first(), ys.drop_first(), r1, r2);
        assert(xs =~= seq![xs[0]] + xs.drop_first());
        assert(ys =~= seq![ys[0]] + ys.drop_first());
    }
}

proof fn lemma_pairs_prefix(ps: Seq<(Seq<char>, ValueView)>, qs: Seq<(Seq<char>, ValueView)>, r1: Seq<EventView>, r2: Seq<EventView>)
    requires
        pairs_events(ps) + seq![EventView::EndMap] + r1 == pairs_events(qs) + seq![EventView::EndMap] + r2,
    ensures
        ps == qs,
        r1 == r2,
    decreases ps, 0int,
{
    let l = pairs_events(ps) + seq![EventView::EndMap] + r1;
    if ps.len() == 0 {
        assert(pairs_events(ps) =~= Seq::<EventView>::empty());
        assert(l =~= seq![EventView::EndMap] + r1);
        if qs.len() > 0 {
            lemma_pairs_first(qs, 0);
            assert(l[0] == EventView::Key(qs[0].0));
        }
        assert(pairs_events(qs) =~= Seq::<EventView>::empty());
        assert(pairs_events(qs) + seq![EventView::EndMap] + r2 =~= seq![EventView::EndMap] + r2);
        lemma_drop_common(EventView::EndMap, r1, EventView::EndMap, r2);
        assert(ps =~= qs);
    } else {
        lemma_pairs_first(ps, 0);
        assert(l[0] == EventView::Key(ps[0].0));
        if qs.len() == 0 {
            assert(pairs_events(qs) =~= Seq::<EventView>::empty());
            assert((pairs_events(qs) + seq![EventView::EndMap] + r2)[0] == EventView::EndMap);
        }
        lemma_pairs_first(qs, 0);
        let lt = pairs_events(ps.drop_first()) + seq![EventView::EndMap] + r1;
        let rt = pairs_events(qs.drop_first()) + seq![EventView::EndMap] + r2;
        assert(l =~= seq![EventView::Key(ps[0].0)] + (value_events(ps[0].1) + lt));
        assert(pairs_events(qs) + seq![EventView::EndMap] + r2 =~= seq![EventView::Key(qs[0].0)] + (value_events(qs[0].1) + rt));
        lemma_drop_common(EventView::Key(ps[0].0), value_events(ps[0].1) + lt, EventView::Key(qs[0].0), value_events(qs[0].1) + rt);
        lemma_value_prefix(ps[0].1, qs[0].1, lt, rt);
        lemma_pairs_prefix(ps.drop_first(), qs.drop_first(), r1, r2);
        assert(ps =~= seq![ps[0]] + ps.drop_first());
        assert(qs =~= seq![qs[0]] + qs.drop_first());
    }
}

/// Two values with the same events are the same value.
pub proof fn lemma_events_determine_value(a: ValueView, b: ValueView)
    requires
        value_events(a) == value_events(b),
    ensures
        a == b,
{
    assert(value_events(a) + Seq::<EventView>::empty() =~= value_events(b) + Seq::<EventView>::empty());
    lemma_value_prefix(a, b, seq![], seq![]);
}


/// The central promise of the format: what the formatter writes for a
/// map, the parser reads back as that same map. Every result that
/// [`crate::value::parse_to_value`] can return for the text is `Ok` with the
/// map itself. The map's keys must be distinct in every map it holds, and
/// its first key, when written bare, must not begin with U+FEFF (which the
/// parser would take for a byte order mark).
pub proof fn lemma_roundtrip(ps: Seq<(Seq<char>, ValueView)>, r: Result<Value, Error>)
    requires
        value_wf(ValueView::Dict(ps)),
        !bom_key(ps),
        parse_outcome(map_text(ps, 0, true), r),
    ensures
        r matches Ok(v) && v@ == ValueView::Dict(ps),
{
    lemma_format_then_parse(ps);
    let v = r->Ok_0;
    lemma_events_determine_value(v@, ValueView::Dict(ps));
}


// ── line layout: tabs, trailing comments, CR LF and `;` between pairs ──

/// A string that starts a document with a key the parser takes for a byte
/// order mark does not occur: no byte order mark stands at the start.
proof fn lemma_no_bom_at(inp: Seq<u8>, k: Seq<char>)
    requires
        text_at(inp, 0, string_text(k)),
        !(can_be_bare(k) && k[0] == '\u{FEFF}'),
    ensures
        !has_bom_at(inp, 0),
{
    if has_bom_at(inp, 0) {
        if can_be_bare(k) {
            let c = k[0];
            let u = c as u32;
            lemma_encode_first(k);
            lemma_text_split(inp, 0, encode_scalar(u), encode_utf8(k.drop_first()));
            char_is_scalar(c);
            lemma_leading_byte(u);
            lemma_text_index(inp, 0, encode_scalar(u), 0);
            assert(0x800 <= u <= 0xFFFF);
            lemma_text_index(inp, 0, encode_scalar(u), 1);
            lemma_text_index(inp, 0, encode_scalar(u), 2);
            lemma_bom_scalar(u);
            assert(('\u{FEFF}' as u32) == 0xFEFF);
            char_u32_cast(c, u);
        } else {
            lemma_text_index(inp, 0, string_text(k), 0);
        }
    }
}

/// An optional trailing comment ` #...`.
pub open spec fn comment_text(comment: Option<Seq<char>>) -> Seq<u8> {
    match comment {
        Some(c) => seq![SPACE, HASH] + encode_utf8(c),
        None => Seq::<u8>::empty(),
    }
}

/// A line break (a line feed, or a carriage return and line feed), then
/// any blank space: blank lines, indentation, more line breaks.
pub open spec fn line_break(sep: Seq<u8>) -> bool {
    &&& blank(sep)
    &&& sep.len() >= 1
    &&& (sep[0] == LINE_FEED || (sep.len() >= 2 && sep[0] == CARRIAGE_RETURN && sep[1] == LINE_FEED))
}

/// A `;` followed by blank space.
pub open spec fn semicolon_break(sep: Seq<u8>) -> bool {
    sep.len() >= 1 && sep[0] == SEMICOLON && blank(sep.drop_first())
}

/// The end of a pair: an optional trailing comment ` #...`, then the
/// separator `sep` before the next pair.
pub open spec fn line_end(comment: Option<Seq<char>>, sep: Seq<u8>) -> Seq<u8> {
    comment_text(comment) + sep
}

/// A pair of strings: key, a space or tab, value, and the pair's end.
pub open spec fn flat_line(p: (Seq<char>, Seq<char>), gap: u8, comment: Option<Seq<char>>, sep: Seq<u8>) -> Seq<u8> {
    string_text(p.0) + seq![gap] + string_text(p.1) + line_end(comment, sep)
}

/// What ends a pair: its end with the separator, or, on a last pair
/// without one (`brk` false), its trailing comment alone.
pub open spec fn line_tail(comment: Option<Seq<char>>, sep: Seq<u8>, brk: bool) -> Seq<u8> {
    if brk {
        line_end(comment, sep)
    } else {
        comment_text(comment)
    }
}

/// Pairs of strings, each ended by the separator `sep`; the last one too
/// when `final_break` holds, while otherwise the text ends after it.
pub open spec fn flat_text(ps: Seq<(Seq<char>, Seq<char>)>, gap: u8, comment: Option<Seq<char>>, sep: Seq<u8>, final_break: bool) -> Seq<u8>
    decreases ps.len(),
{
    if ps.len() == 0 {
        seq![]
    } else if ps.len() == 1 && !final_break {
        string_text(ps[0].0) + seq![gap] + string_text(ps[0].1) + comment_text(comment)
    } else {
        flat_line(ps[0], gap, comment, sep) + flat_text(ps.drop_first(), gap, comment, sep, final_break)
    }
}

/// The pairs of strings as pairs of a map.
pub open spec fn flat_pairs(ps: Seq<(Seq<char>, Seq<char>)>) -> Seq<(Seq<char>, ValueView)> {
    ps.map_values(|p: (Seq<char>, Seq<char>)| (p.0, ValueView::Str(p.1)))
}

/// A comment's characters other than a line feed are all consumed.
proof fn lemma_comment_run(inp: Seq<u8>, q: int, c: Seq<char>)
    requires
        text_at(inp, q, encode_utf8(c)),
        forall|i: int| 0 <= i < c.len() ==> #[trigger] c[i] != '\n',
    ensures
        comment_rest(inp, q) == comment_rest(inp, q + encode_utf8(c).len()),
    decreases c.len(),
{
    if c.len() > 0 {
        let e = encode_scalar(c[0] as u32);
        let tail = c.drop_first();
        lemma_encode_first(c);
        lemma_text_split(inp, q, e, encode_utf8(tail));
        lemma_peek_encoded(inp, q, c[0]);
        assert(c[0] != '\n');
        assert forall|i: int| 0 <= i < tail.len() implies #[trigger] tail[i] != '\n' by {
            assert(tail[i] == c[i + 1]);
        }
        lemma_comment_run(inp, q + e.len(), tail);
    }
}

/// Line breaks are read over blank space up to some point within it, and
/// at least over its first byte when that is a line break itself.
proof fn lemma_newlines_blank(inp: Seq<u8>, p: int, t: Seq<u8>)
    requires
        text_at(inp, p, t),
        blank(t),
        wsc_stops(inp, p + t.len()),
    ensures
        newlines_end(inp, p) matches Ok(r) && p <= r <= p + t.len() && (t.len() > 0 && (t[0] == LINE_FEED
            || t[0] == CARRIAGE_RETURN) ==> r > p),
    decreases t.len(),
{
    if t.len() == 0 {
        if p < inp.len() {
            let c = peek_at(inp, p)->Ok_0->Some_0.0;
            assert(c != '\n' && c != '\r');
        }
    } else {
        lemma_text_index(inp, p, t, 0);
        lemma_peek_blank(inp, p);
        let tail = t.drop_first();
        assert(t =~= seq![t[0]] + tail);
        lemma_text_split(inp, p, seq![t[0]], tail);
        assert forall|i: int| 0 <= i < tail.len() implies (#[trigger] tail[i] == SPACE || tail[i] == TAB
            || tail[i] == CARRIAGE_RETURN || tail[i] == LINE_FEED) by {
            assert(tail[i] == t[i + 1]);
        }
        if t[0] == LINE_FEED {
            lemma_peek_ascii(inp, p, '\n');
            lemma_newlines_blank(inp, p + 1, tail);
        } else if t[0] == CARRIAGE_RETURN {
            lemma_peek_ascii(inp, p, '\r');
            if tail.len() > 0 && tail[0] == LINE_FEED {
                let tail2 = tail.drop_first();
                lemma_text_index(inp, p + 1, tail, 0);
                lemma_peek_ascii(inp, p + 1, '\n');
                assert(tail =~= seq![tail[0]] + tail2);
                lemma_text_split(inp, p + 1, seq![tail[0]], tail2);
                assert forall|i: int| 0 <= i < tail2.len() implies (#[trigger] tail2[i] == SPACE || tail2[i] == TAB
                    || tail2[i] == CARRIAGE_RETURN || tail2[i] == LINE_FEED) by {
                    assert(tail2[i] == tail[i + 1]);
                }
                lemma_newlines_blank(inp, p + 2, tail2);
            } else {
                if tail.len() > 0 {
                    lemma_text_index(inp, p + 1, tail, 0);
                    lemma_peek_blank(inp, p + 1);
                }
                lemma_newlines_blank(inp, p + 1, tail);
            }
        }
    }
}

/// A pair separator of line breaks and blank space, starting with a line
/// break at `p2`, is read whole: the line breaks, then the white space up
/// to where it ends.
proof fn lemma_pairsep_blank(inp: Seq<u8>, p2: int, t: Seq<u8>)
    requires
        text_at(inp, p2, t),
        blank(t),
        t.len() > 0,
        t[0] == LINE_FEED || t[0] == CARRIAGE_RETURN,
        wsc_stops(inp, p2 + t.len()),
    ensures
        pairsep_end(inp, p2) matches Ok((r, found)) && found && wsc_end(inp, r) == Ok::<int, (int, Fault)>(p2 + t.len()),
        !char_at_is(inp, p2, ';'),
{
    lemma_text_index(inp, p2, t, 0);
    lemma_peek_blank(inp, p2);
    if t[0] == LINE_FEED {
        lemma_peek_ascii(inp, p2, '\n');
    } else {
        lemma_peek_ascii(inp, p2, '\r');
    }
    lemma_newlines_blank(inp, p2, t);
    let r = newlines_end(inp, p2)->Ok_0;
    let rest = t.subrange(r - p2, t.len() as int);
    assert(t =~= t.subrange(0, r - p2) + rest);
    lemma_text_split(inp, p2, t.subrange(0, r - p2), rest);
    assert forall|i: int| 0 <= i < rest.len() implies (#[trigger] rest[i] == SPACE || rest[i] == TAB
        || rest[i] == CARRIAGE_RETURN || rest[i] == LINE_FEED) by {
        assert(rest[i] == t[i + r - p2]);
    }
    lemma_wsc_blank(inp, r, rest);
}

/// The end of a line after a pair of a map: the parser goes on
/// as if it stood at the start of the next line.
#[verifier::spinoff_prover]
#[verifier::rlimit(40)]
proof fn lemma_line_end_step(v: ParserView, comment: Option<Seq<char>>, eol: Seq<u8>)
    requires
        parser_wf(v),
        v.state == State::BetweenPairs,
        in_map(v),
        line_break(eol),
        text_at(v.input, v.pos, line_end(comment, eol)),
        comment matches Some(c) ==> forall|i: int| 0 <= i < c.len() ==> #[trigger] c[i] != '\n',
        wsc_stops(v.input, v.pos + line_end(comment, eol).len()),
    ensures
        parser_wf(ParserView { pos: v.pos + line_end(comment, eol).len(), state: State::BeforePair, ..v }),
        step(v) == step(ParserView { pos: v.pos + line_end(comment, eol).len(), state: State::BeforePair, ..v }),
{
    let inp = v.input;
    let p = v.pos;
    let le = line_end(comment, eol);
    let q = p + le.len();
    let crlf = eol[0] == CARRIAGE_RETURN;
    let v4 = ParserView { pos: q, state: State::BeforePair, ..v };
    assert(inp.subrange(q, q) =~= Seq::<u8>::empty());
    lemma_wsc_blank(inp, q, seq![]);
    match comment {
        Some(c) => {
            let head = seq![SPACE, HASH];
            assert(le =~= head + (encode_utf8(c) + eol));
            lemma_text_split(inp, p, head, encode_utf8(c) + eol);
            lemma_text_split(inp, p + 2, encode_utf8(c), eol);
            lemma_text_index(inp, p, head, 0);
            lemma_text_index(inp, p, head, 1);
            lemma_peek_ascii(inp, p, ' ');
            lemma_peek_ascii(inp, p + 1, '#');
            let e = p + 2 + encode_utf8(c).len();
            lemma_comment_run(inp, p + 2, c);
            let skip: int = if crlf { 1 } else { 0 };
            let p2 = e + skip;
            lemma_text_index(inp, e, eol, 0);
            if crlf {
                lemma_text_index(inp, e, eol, 1);
                lemma_peek_ascii(inp, e, '\r');
                lemma_peek_ascii(inp, e + 1, '\n');
                assert(comment_rest(inp, e + 1) == Ok::<int, (int, Fault)>(e + 1));
            } else {
                lemma_peek_ascii(inp, e, '\n');
            }
            assert(comment_rest(inp, p2) == Ok::<int, (int, Fault)>(p2));
            assert(comment_rest(inp, p + 1) == Ok::<int, (int, Fault)>(p2));
            assert(hspace_end(inp, p + 1) == Ok::<int, (int, Fault)>(p + 1));
            assert(hspace_end(inp, p) == Ok::<int, (int, Fault)>(p + 1));
            assert(comment_end(inp, p + 1) == Ok::<int, (int, Fault)>(p2));
            let t = eol.subrange(skip, eol.len() as int);
            assert(eol =~= eol.subrange(0, skip) + t);
            lemma_text_split(inp, e, eol.subrange(0, skip), t);
            assert forall|i: int| 0 <= i < t.len() implies (#[trigger] t[i] == SPACE || t[i] == TAB
                || t[i] == CARRIAGE_RETURN || t[i] == LINE_FEED) by {
                assert(t[i] == eol[i + skip]);
            }
            assert(t[0] == LINE_FEED);
            lemma_pairsep_blank(inp, p2, t);
            assert(at_map_end(at_pos(v, p2)) == Ok::<bool, Fault>(false));
            assert(v4 == in_state(at_pos(v, q), State::BeforePair));
        },
        None => {
            assert(le =~= eol);
            lemma_text_index(inp, p, eol, 0);
            if crlf {
                lemma_peek_ascii(inp, p, '\r');
            } else {
                lemma_peek_ascii(inp, p, '\n');
            }
            assert(hspace_end(inp, p) == Ok::<int, (int, Fault)>(p));
            assert(comment_end(inp, p) == Ok::<int, (int, Fault)>(p));
            lemma_pairsep_blank(inp, p, eol);
            assert(at_map_end(at_pos(v, p)) == Ok::<bool, Fault>(false));
            assert(v4 == in_state(at_pos(v, q), State::BeforePair));
        },
    }
}

/// A `;` and blank space after a pair of a map, with another
/// pair after them: the parser goes on as if it stood at that pair.
#[verifier::spinoff_prover]
proof fn lemma_semicolon_step(v: ParserView, sep: Seq<u8>)
    requires
        parser_wf(v),
        v.state == State::BetweenPairs,
        in_map(v),
        semicolon_break(sep),
        text_at(v.input, v.pos, sep),
        value_starts(v.input, v.pos + sep.len()),
    ensures
        parser_wf(ParserView { pos: v.pos + sep.len(), state: State::BeforePair, ..v }),
        step(v) == step(ParserView { pos: v.pos + sep.len(), state: State::BeforePair, ..v }),
{
    let inp = v.input;
    let p = v.pos;
    let q = p + sep.len();
    let v4 = ParserView { pos: q, state: State::BeforePair, ..v };
    let b = sep.drop_first();
    assert(sep =~= seq![SEMICOLON] + b);
    lemma_text_split(inp, p, seq![SEMICOLON], b);
    lemma_text_index(inp, p, sep, 0);
    lemma_peek_ascii(inp, p, ';');
    lemma_wsc_blank(inp, p + 1, b);
    assert(hspace_end(inp, p) == Ok::<int, (int, Fault)>(p));
    assert(comment_end(inp, p) == Ok::<int, (int, Fault)>(p));
    assert(at_map_end(at_pos(v, p)) == Ok::<bool, Fault>(false));
    assert(pairsep_end(inp, p) == Ok::<(int, bool), (int, Fault)>((p + 1, true)));
    assert(v4 == in_state(at_pos(v, q), State::BeforePair));
    assert(at_map_end(v4) == Ok::<bool, Fault>(false));
}

/// The end of a pair of a map, with its separator, as a run of
/// the parser: a line break after an optional trailing comment, or a `;`
/// and blank space before a next pair.
proof fn lemma_line_end_leads(v: ParserView, comment: Option<Seq<char>>, sep: Seq<u8>)
    requires
        parser_wf(v),
        v.state == State::BetweenPairs,
        in_map(v),
        line_break(sep) || (comment is None && semicolon_break(sep) && value_starts(v.input, v.pos + sep.len())),
        text_at(v.input, v.pos, line_end(comment, sep)),
        comment matches Some(c) ==> forall|i: int| 0 <= i < c.len() ==> #[trigger] c[i] != '\n',
        wsc_stops(v.input, v.pos + line_end(comment, sep).len()),
    ensures
        parser_wf(ParserView { pos: v.pos + line_end(comment, sep).len(), state: State::BeforePair, ..v }),
        leads(v, seq![], ParserView { pos: v.pos + line_end(comment, sep).len(), state: State::BeforePair, ..v }),
{
    if line_break(sep) {
        lemma_line_end_step(v, comment, sep);
    } else {
        assert(line_end(comment, sep) =~= sep);
        lemma_semicolon_step(v, sep);
    }
    lemma_leads_skip(v, ParserView { pos: v.pos + line_end(comment, sep).len(), state: State::BeforePair, ..v });
}

/// The last line of the document without a line break: after the last
/// value only an optional trailing comment, up to the end of the input.
#[verifier::spinoff_prover]
proof fn lemma_last_end_leads(v: ParserView, comment: Option<Seq<char>>)
    requires
        parser_wf(v),
        v.state == State::BetweenPairs,
        in_map(v),
        v.stack.last().closing is None,
        text_at(v.input, v.pos, comment_text(comment)),
        v.pos + comment_text(comment).len() == v.input.len(),
        comment matches Some(c) ==> forall|i: int| 0 <= i < c.len() ==> #[trigger] c[i] != '\n',
    ensures
        parser_wf(ParserView { pos: v.input.len() as int, state: State::BeforePair, ..v }),
        leads(v, seq![], ParserView { pos: v.input.len() as int, state: State::BeforePair, ..v }),
{
    let inp = v.input;
    let p = v.pos;
    let n = inp.len() as int;
    let v4 = ParserView { pos: n, state: State::BeforePair, ..v };
    match comment {
        Some(c) => {
            let head = seq![SPACE, HASH];
            assert(comment_text(comment) =~= head + encode_utf8(c));
            lemma_text_split(inp, p, head, encode_utf8(c));
            lemma_text_index(inp, p, head, 0);
            lemma_text_index(inp, p, head, 1);
            lemma_peek_ascii(inp, p, ' ');
            lemma_peek_ascii(inp, p + 1, '#');
            lemma_comment_run(inp, p + 2, c);
            assert(comment_rest(inp, n) == Ok::<int, (int, Fault)>(n));
            assert(comment_rest(inp, p + 1) == Ok::<int, (int, Fault)>(n));
            assert(hspace_end(inp, p + 1) == Ok::<int, (int, Fault)>(p + 1));
            assert(hspace_end(inp, p) == Ok::<int, (int, Fault)>(p + 1));
            assert(comment_end(inp, p + 1) == Ok::<int, (int, Fault)>(n));
        },
        None => {
            assert(hspace_end(inp, p) == Ok::<int, (int, Fault)>(p));
            assert(comment_end(inp, p) == Ok::<int, (int, Fault)>(p));
        },
    }
    assert(at_map_end(at_pos(v, n)) == Ok::<bool, Fault>(true));
    assert(v4 == in_state(at_pos(v, n), State::BeforePair));
    assert(step(v) == step(v4));
    lemma_leads_skip(v, v4);
}

/// The first line of flat text, then the rest.
proof fn lemma_flat_first(ps: Seq<(Seq<char>, Seq<char>)>, gap: u8, comment: Option<Seq<char>>, sep: Seq<u8>, final_break: bool)
    requires
        ps.len() > 0,
    ensures
        flat_text(ps, gap, comment, sep, final_break) == string_text(ps[0].0) + seq![gap] + string_text(ps[0].1)
            + line_tail(comment, sep, ps.len() > 1 || final_break) + flat_text(ps.drop_first(), gap, comment, sep, final_break),
        flat_pairs(ps).len() == ps.len(),
        flat_pairs(ps)[0] == (ps[0].0, ValueView::Str(ps[0].1)),
        flat_pairs(ps).drop_first() == flat_pairs(ps.drop_first()),
        pairs_events(flat_pairs(ps)) == seq![EventView::Key(ps[0].0), EventView::Str(ps[0].1)] + pairs_events(flat_pairs(ps.drop_first())),
{
    let fp = flat_pairs(ps);
    assert(fp.drop_first() =~= flat_pairs(ps.drop_first()));
    lemma_pairs_first(fp, 0);
    assert(value_events(ValueView::Str(ps[0].1)) == seq![EventView::Str(ps[0].1)]);
    assert(seq![EventView::Key(ps[0].0)] + seq![EventView::Str(ps[0].1)] =~= seq![EventView::Key(ps[0].0), EventView::Str(ps[0].1)]);
    if ps.len() == 1 && !final_break {
        let line = string_text(ps[0].0) + seq![gap] + string_text(ps[0].1) + comment_text(comment);
        assert(flat_text(ps.drop_first(), gap, comment, sep, final_break) =~= Seq::<u8>::empty());
        assert(line + Seq::<u8>::empty() =~= line);
    }
}

/// The frames of `v` with the keys `keys` seen in the innermost one.
pub open spec fn with_seen(v: ParserView, keys: Seq<Seq<char>>) -> Seq<FrameView> {
    v.stack.update(v.stack.len() - 1, FrameView { seen: Some(keys), ..v.stack.last() })
}

/// With a line break after the last pair, the text is the one without it,
/// then the separator.
proof fn lemma_flat_final_break(ps: Seq<(Seq<char>, Seq<char>)>, gap: u8, comment: Option<Seq<char>>, sep: Seq<u8>)
    requires
        ps.len() > 0,
    ensures
        flat_text(ps, gap, comment, sep, true) == flat_text(ps, gap, comment, sep, false) + sep,
    decreases ps.len(),
{
    if ps.len() == 1 {
        assert(flat_text(ps.drop_first(), gap, comment, sep, true) =~= Seq::<u8>::empty());
        assert(flat_text(ps, gap, comment, sep, true) =~= flat_text(ps, gap, comment, sep, false) + sep);
    } else {
        lemma_flat_final_break(ps.drop_first(), gap, comment, sep);
        assert(flat_text(ps, gap, comment, sep, true) =~= flat_text(ps, gap, comment, sep, false) + sep);
    }
}

/// String pairs up to the last value, when the last pair has no separator
/// after it: their events, and the parser right after that value.
#[verifier::spinoff_prover]
#[verifier::rlimit(80)]
proof fn lemma_flat_upto(
    v: ParserView,
    ps: Seq<(Seq<char>, Seq<char>)>,
    gap: u8,
    comment: Option<Seq<char>>,
    sep: Seq<u8>,
    done: Seq<Seq<char>>,
)
    requires
        parser_wf(v),
        v.state == State::BeforePair,
        in_map(v),
        v.stack.last().seen == Some(done),
        ps.len() > 0,
        gap == SPACE || gap == TAB,
        line_break(sep) || (comment is None && semicolon_break(sep)),
        comment matches Some(c) ==> forall|i: int| 0 <= i < c.len() ==> #[trigger] c[i] != '\n',
        (done + dict_keys(flat_pairs(ps))).no_duplicates(),
        text_at(v.input, v.pos, flat_text(ps, gap, comment, sep, false)),
        comment is None ==> ends_bare(v.input, v.pos + flat_text(ps, gap, comment, sep, false).len()),
    ensures
        leads(
            v,
            pairs_events(flat_pairs(ps)),
            ParserView {
                pos: v.pos + flat_text(ps, gap, comment, sep, false).len() - comment_text(comment).len(),
                stack: with_seen(v, done + dict_keys(flat_pairs(ps))),
                state: State::BetweenPairs,
                ..v
            },
        ),
    decreases ps.len(),
{
    let inp = v.input;
    let p = v.pos;
    let k0 = ps[0].0;
    let s0 = ps[0].1;
    let tail = ps.drop_first();
    let brk = ps.len() > 1;
    let le = line_tail(comment, sep, brk);
    let total = flat_text(ps, gap, comment, sep, false);
    let ct = comment_text(comment);
    let target = ParserView {
        pos: p + total.len() - ct.len(),
        stack: with_seen(v, done + dict_keys(flat_pairs(ps))),
        state: State::BetweenPairs,
        ..v
    };
    lemma_flat_first(ps, gap, comment, sep, false);
    let head = string_text(k0) + seq![gap] + string_text(s0);
    let rest = flat_text(tail, gap, comment, sep, false);
    assert(total =~= head + (le + rest));
    lemma_text_split(inp, p, head, le + rest);
    lemma_text_split(inp, p + head.len(), le, rest);
    assert(value_text(ValueView::Str(s0), 0) == string_text(s0));
    assert(!done.contains(k0)) by {
        if done.contains(k0) {
            let j = choose|j: int| 0 <= j < done.len() && done[j] == k0;
            let all = done + dict_keys(flat_pairs(ps));
            assert(all[j] == k0);
            assert(all[done.len() as int] == k0);
        }
    }
    let q3 = p + head.len();
    // what follows the value: a space, a carriage return, a line feed, a `;`, or what follows the text
    if comment is Some {
        lemma_text_index(inp, q3, le, 0);
        assert(le[0] == SPACE);
    } else if !brk {
        assert(le.len() == 0);
        assert(rest.len() == 0);
    } else {
        lemma_text_index(inp, q3, le, 0);
        assert(le[0] == sep[0]);
    }
    lemma_text_split(inp, p, string_text(k0) + seq![gap], string_text(s0));
    lemma_string_first(inp, p + string_text(k0).len() + 1, s0);
    lemma_key_leads(v, k0, gap);
    let v2 = ParserView { pos: p + string_text(k0).len() + 1, stack: with_key(v, k0), state: State::AfterKey, ..v };
    lemma_str_leads(v2, s0, 0);
    let v3 = ParserView { pos: q3, state: State::BetweenPairs, ..v2 };
    lemma_leads_wf(v2, seq![EventView::Str(s0)], v3);
    lemma_leads_trans(v, seq![EventView::Key(k0)], v2, seq![EventView::Str(s0)], v3);
    assert(seq![EventView::Key(k0)] + seq![EventView::Str(s0)] =~= seq![EventView::Key(k0), EventView::Str(s0)]);
    if tail.len() == 0 {
        assert(rest =~= Seq::<u8>::empty());
        assert(le == ct);
        assert(done + dict_keys(flat_pairs(ps)) =~= done.push(k0));
        assert(with_key(v, k0) =~= with_seen(v, done.push(k0)));
        assert(v3 == target);
        assert(pairs_events(flat_pairs(tail)) =~= Seq::<EventView>::empty());
        assert(pairs_events(flat_pairs(ps)) =~= seq![EventView::Key(k0), EventView::Str(s0)]);
    } else {
        let q4 = q3 + le.len();
        let v4 = ParserView { pos: q4, state: State::BeforePair, ..v3 };
        lemma_flat_first(tail, gap, comment, sep, false);
        let krest = rest.subrange(string_text(tail[0].0).len() as int, rest.len() as int);
        assert(rest =~= string_text(tail[0].0) + krest);
        lemma_text_split(inp, q4, string_text(tail[0].0), krest);
        lemma_string_first(inp, q4, tail[0].0);
        lemma_line_end_leads(v3, comment, sep);
        assert(done.push(k0) + dict_keys(flat_pairs(tail)) =~= done + dict_keys(flat_pairs(ps)));
        lemma_flat_upto(v4, tail, gap, comment, sep, done.push(k0));
        assert(with_seen(v4, done + dict_keys(flat_pairs(ps))) =~= with_seen(v, done + dict_keys(flat_pairs(ps))));
        let t4 = ParserView {
            pos: q4 + rest.len() - ct.len(),
            stack: with_seen(v4, done.push(k0) + dict_keys(flat_pairs(tail))),
            state: State::BetweenPairs,
            ..v4
        };
        assert(t4 == target);
        lemma_leads_trans(v3, seq![], v4, pairs_events(flat_pairs(tail)), target);
        assert(Seq::<EventView>::empty() + pairs_events(flat_pairs(tail)) =~= pairs_events(flat_pairs(tail)));
        lemma_leads_trans(v, seq![EventView::Key(k0), EventView::Str(s0)], v3, pairs_events(flat_pairs(tail)), target);
    }
}

/// String pairs up to the end of the document, then the end of the top-level map.
#[verifier::spinoff_prover]
#[verifier::rlimit(40)]
proof fn lemma_flat_pairs(
    v: ParserView,
    ps: Seq<(Seq<char>, Seq<char>)>,
    gap: u8,
    comment: Option<Seq<char>>,
    sep: Seq<u8>,
    final_break: bool,
    done: Seq<Seq<char>>,
)
    requires
        parser_wf(v),
        v.state == State::BeforePair,
        in_map(v),
        v.stack.last().closing is None,
        v.stack.last().seen == Some(done),
        ps.len() > 0,
        gap == SPACE || gap == TAB,
        line_break(sep) || (comment is None && !final_break && semicolon_break(sep)),
        comment matches Some(c) ==> forall|i: int| 0 <= i < c.len() ==> #[trigger] c[i] != '\n',
        (done + dict_keys(flat_pairs(ps))).no_duplicates(),
        text_at(v.input, v.pos, flat_text(ps, gap, comment, sep, final_break)),
        v.pos + flat_text(ps, gap, comment, sep, final_break).len() == v.input.len(),
    ensures
        leads(
            v,
            pairs_events(flat_pairs(ps)) + seq![EventView::EndMap],
            after_container(ParserView { pos: v.input.len() as int, stack: v.stack.drop_last(), ..v }),
        ),
{
    let inp = v.input;
    let p = v.pos;
    let n = inp.len() as int;
    let body = flat_text(ps, gap, comment, sep, false);
    let ct = comment_text(comment);
    let f = after_container(ParserView { pos: n, stack: v.stack.drop_last(), ..v });
    let v3 = ParserView {
        pos: p + body.len() - ct.len(),
        stack: with_seen(v, done + dict_keys(flat_pairs(ps))),
        state: State::BetweenPairs,
        ..v
    };
    lemma_flat_first(ps, gap, comment, sep, false);
    if final_break {
        lemma_flat_final_break(ps, gap, comment, sep);
        lemma_text_split(inp, p, body, sep);
        if comment is None {
            lemma_text_index(inp, p + body.len(), sep, 0);
        }
    }
    lemma_flat_upto(v, ps, gap, comment, sep, done);
    lemma_leads_wf(v, pairs_events(flat_pairs(ps)), v3);
    let v4 = ParserView { pos: n, state: State::BeforePair, ..v3 };
    lemma_flat_tail_comment(ps, gap, comment, sep);
    if final_break {
        let le = line_end(comment, sep);
        assert(body + sep =~= body.subrange(0, body.len() - ct.len()) + le);
        lemma_text_split(inp, p, body.subrange(0, body.len() - ct.len()), le);
        lemma_line_end_leads(v3, comment, sep);
    } else {
        lemma_text_split(inp, p, body.subrange(0, body.len() - ct.len()), ct);
        lemma_last_end_leads(v3, comment);
    }
    assert(v4.stack.drop_last() =~= v.stack.drop_last());
    lemma_close_top_leads(v4);
    assert(popped(v4, n) == f);
    lemma_leads_trans(v3, seq![], v4, seq![EventView::EndMap], f);
    assert(Seq::<EventView>::empty() + seq![EventView::EndMap] =~= seq![EventView::EndMap]);
    lemma_leads_trans(v, pairs_events(flat_pairs(ps)), v3, seq![EventView::EndMap], f);
}

/// Without a final separator the text ends in the last pair's trailing comment.
proof fn lemma_flat_tail_comment(ps: Seq<(Seq<char>, Seq<char>)>, gap: u8, comment: Option<Seq<char>>, sep: Seq<u8>)
    requires
        ps.len() > 0,
    ensures
        flat_text(ps, gap, comment, sep, false).len() >= comment_text(comment).len(),
        flat_text(ps, gap, comment, sep, false) == flat_text(ps, gap, comment, sep, false).subrange(
            0,
            flat_text(ps, gap, comment, sep, false).len() - comment_text(comment).len(),
        ) + comment_text(comment),
    decreases ps.len(),
{
    let t = flat_text(ps, gap, comment, sep, false);
    let ct = comment_text(comment);
    if ps.len() == 1 {
        assert(t =~= t.subrange(0, t.len() - ct.len()) + ct);
    } else {
        lemma_flat_tail_comment(ps.drop_first(), gap, comment, sep);
        assert(t =~= t.subrange(0, t.len() - ct.len()) + ct);
    }
}

/// How a document is laid out does not change what it says: for string
/// pairs, the events of the document are those of the map of the pairs
/// whether the pairs are separated by line breaks (a line feed, or a
/// carriage return and line feed, then any blank space: blank lines,
/// indentation) or by `;` with blank space after it; whether a tab or a
/// space stands between key and value; whether each pair ends in a
/// trailing comment or not; and whether the last pair is followed by its
/// line break or by the end of the text. The keys must be distinct, the
/// comment must hold no line feed (nor be followed by a `;`, which it
/// would take in), the last pair must not be followed by a `;` (the
/// parser refuses a `;` with no pair after it), and the first key, when
/// written bare, must not begin with U+FEFF (which the parser would take
/// for a byte order mark).
#[verifier::spinoff_prover]
pub proof fn lemma_line_layout(
    ps: Seq<(Seq<char>, Seq<char>)>,
    gap: u8,
    comment: Option<Seq<char>>,
    sep: Seq<u8>,
    final_break: bool,
)
    requires
        gap == SPACE || gap == TAB,
        line_break(sep) || (comment is None && !final_break && semicolon_break(sep)),
        comment matches Some(c) ==> forall|i: int| 0 <= i < c.len() ==> #[trigger] c[i] != '\n',
        dict_keys(flat_pairs(ps)).no_duplicates(),
        !(ps.len() > 0 && can_be_bare(ps[0].0) && ps[0].0[0] == '\u{FEFF}'),
    ensures
        document_events(flat_text(ps, gap, comment, sep, final_break)) == Ok::<Seq<EventView>, Fault>(
            value_events(ValueView::Dict(flat_pairs(ps))),
        ),
{
    let inp = flat_text(ps, gap, comment, sep, final_break);
    let v0 = initial_view(inp);
    let v1 = ParserView { input: inp, pos: 0, stack: seq![top_frame()], state: State::BeforePair };
    assert(inp.subrange(0, inp.len() as int) =~= inp);
    assert(inp.subrange(0, 0) =~= Seq::<u8>::empty());
    if ps.len() == 0 {
        assert(inp =~= Seq::<u8>::empty());
        assert(wsc_end(inp, 0) == Ok::<int, (int, Fault)>(0));
    } else {
        lemma_flat_first(ps, gap, comment, sep, final_break);
        let krest = inp.subrange(string_text(ps[0].0).len() as int, inp.len() as int);
        assert(inp =~= string_text(ps[0].0) + krest);
        lemma_text_split(inp, 0, string_text(ps[0].0), krest);
        lemma_no_bom_at(inp, ps[0].0);
        lemma_string_first(inp, 0, ps[0].0);
        lemma_wsc_blank(inp, 0, seq![]);
    }
    assert(bom_end(inp, 0) == 0);
    assert(step(v0) == emit(v1, EventView::StartMap));
    lemma_leads_step(v0);
    let f = after_container(ParserView { pos: inp.len() as int, stack: v1.stack.drop_last(), ..v1 });
    assert(v1.stack.drop_last() =~= Seq::<FrameView>::empty());
    if ps.len() == 0 {
        lemma_close_top_leads(v1);
        assert(popped(v1, 0) == f);
        assert(pairs_events(flat_pairs(ps)) =~= Seq::<EventView>::empty());
    } else {
        assert(seq![] + dict_keys(flat_pairs(ps)) =~= dict_keys(flat_pairs(ps)));
        lemma_flat_pairs(v1, ps, gap, comment, sep, final_break, seq![]);
    }
    let es = pairs_events(flat_pairs(ps)) + seq![EventView::EndMap];
    assert(f.state == State::Done);
    lemma_leads_trans(v0, seq![EventView::StartMap], v1, es, f);
    lemma_leads_done(v0, seq![EventView::StartMap] + es, f);
    assert(value_events(ValueView::Dict(flat_pairs(ps))) =~= seq![EventView::StartMap] + es);
}

/// The UTF-8 byte order mark.
pub open spec fn bom_bytes() -> Seq<u8> {
    seq![0xEFu8, 0xBBu8, 0xBFu8]
}

/// A byte order mark at the start of a document is skipped: the document
/// says what it says without it. Here for string pairs laid out as in
/// [`lemma_line_layout`], with the same conditions but for the first key,
/// which may even begin with U+FEFF itself.
#[verifier::spinoff_prover]
pub proof fn lemma_bom_skipped(
    ps: Seq<(Seq<char>, Seq<char>)>,
    gap: u8,
    comment: Option<Seq<char>>,
    sep: Seq<u8>,
    final_break: bool,
)
    requires
        gap == SPACE || gap == TAB,
        line_break(sep) || (comment is None && !final_break && semicolon_break(sep)),
        comment matches Some(c) ==> forall|i: int| 0 <= i < c.len() ==> #[trigger] c[i] != '\n',
        dict_keys(flat_pairs(ps)).no_duplicates(),
    ensures
        document_events(bom_bytes() + flat_text(ps, gap, comment, sep, final_break)) == Ok::<Seq<EventView>, Fault>(
            value_events(ValueView::Dict(flat_pairs(ps))),
        ),
{
    let text = flat_text(ps, gap, comment, sep, final_break);
    let inp = bom_bytes() + text;
    let n = inp.len() as int;
    let v0 = initial_view(inp);
    let v1 = ParserView { input: inp, pos: 3, stack: seq![top_frame()], state: State::BeforePair };
    assert(inp.subrange(3, n) =~= text);
    assert(inp.subrange(3, 3) =~= Seq::<u8>::empty());
    assert(has_bom_at(inp, 0));
    assert(bom_end(inp, 0) == 3);
    if ps.len() == 0 {
        assert(text =~= Seq::<u8>::empty());
        assert(wsc_end(inp, 3) == Ok::<int, (int, Fault)>(3));
    } else {
        lemma_flat_first(ps, gap, comment, sep, final_break);
        let krest = text.subrange(string_text(ps[0].0).len() as int, text.len() as int);
        assert(text =~= string_text(ps[0].0) + krest);
        lemma_text_split(inp, 3, string_text(ps[0].0), krest);
        lemma_string_first(inp, 3, ps[0].0);
        lemma_wsc_blank(inp, 3, seq![]);
    }
    assert(step(v0) == emit(v1, EventView::StartMap));
    lemma_leads_step(v0);
    let f = after_container(ParserView { pos: n, stack: v1.stack.drop_last(), ..v1 });
    assert(v1.stack.drop_last() =~= Seq::<FrameView>::empty());
    if ps.len() == 0 {
        lemma_close_top_leads(v1);
        assert(popped(v1, 3) == f);
        assert(pairs_events(flat_pairs(ps)) =~= Seq::<EventView>::empty());
    } else {
        assert(seq![] + dict_keys(flat_pairs(ps)) =~= dict_keys(flat_pairs(ps)));
        lemma_flat_pairs(v1, ps, gap, comment, sep, final_break, seq![]);
    }
    let es = pairs_events(flat_pairs(ps)) + seq![EventView::EndMap];
    assert(f.state == State::Done);
    lemma_leads_trans(v0, seq![EventView::StartMap], v1, es, f);
    lemma_leads_done(v0, seq![EventView::StartMap] + es, f);
    assert(value_events(ValueView::Dict(flat_pairs(ps))) =~= seq![EventView::StartMap] + es);
}

/// A `;` must be followed by a pair: string pairs separated by `;`, the
/// last of them followed by a `;` too (and blank space up to the end of
/// the text), are refused with the fault "expected key after ';'" at the
/// end of the text. The keys must be distinct, and the first key, when
/// written bare, must not begin with U+FEFF.
#[verifier::spinoff_prover]
#[verifier::rlimit(40)]
pub proof fn lemma_trailing_semicolon(ps: Seq<(Seq<char>, Seq<char>)>, gap: u8, sep: Seq<u8>)
    requires
        ps.len() > 0,
        gap == SPACE || gap == TAB,
        semicolon_break(sep),
        dict_keys(flat_pairs(ps)).no_duplicates(),
        !(can_be_bare(ps[0].0) && ps[0].0[0] == '\u{FEFF}'),
    ensures
        document_events(flat_text(ps, gap, None, sep, true)) == Err::<Seq<EventView>, Fault>(
            fault("expected key after ';'"@, flat_text(ps, gap, None, sep, true).len() as int),
        ),
{
    let inp = flat_text(ps, gap, None, sep, true);
    let n = inp.len() as int;
    let v0 = initial_view(inp);
    let v1 = ParserView { input: inp, pos: 0, stack: seq![top_frame()], state: State::BeforePair };
    let body = flat_text(ps, gap, None, sep, false);
    lemma_flat_final_break(ps, gap, None, sep);
    assert(inp.subrange(0, n) =~= inp);
    assert(inp.subrange(0, 0) =~= Seq::<u8>::empty());
    lemma_flat_first(ps, gap, None, sep, true);
    let krest = inp.subrange(string_text(ps[0].0).len() as int, n);
    assert(inp =~= string_text(ps[0].0) + krest);
    lemma_text_split(inp, 0, string_text(ps[0].0), krest);
    lemma_no_bom_at(inp, ps[0].0);
    lemma_string_first(inp, 0, ps[0].0);
    lemma_wsc_blank(inp, 0, seq![]);
    assert(bom_end(inp, 0) == 0);
    assert(step(v0) == emit(v1, EventView::StartMap));
    lemma_leads_step(v0);
    // the pairs, up to the last value
    lemma_text_split(inp, 0, body, sep);
    lemma_text_index(inp, body.len() as int, sep, 0);
    assert(seq![] + dict_keys(flat_pairs(ps)) =~= dict_keys(flat_pairs(ps)));
    assert(comment_text(None) =~= Seq::<u8>::empty());
    lemma_flat_upto(v1, ps, gap, None, sep, seq![]);
    let e = body.len() as int;
    let v3 = ParserView { pos: e, stack: with_seen(v1, dict_keys(flat_pairs(ps))), state: State::BetweenPairs, ..v1 };
    lemma_leads_wf(v1, pairs_events(flat_pairs(ps)), v3);
    lemma_leads_trans(v0, seq![EventView::StartMap], v1, pairs_events(flat_pairs(ps)), v3);
    // the final `;` and blank space: no key follows
    let b = sep.drop_first();
    assert(sep =~= seq![SEMICOLON] + b);
    lemma_text_split(inp, e, seq![SEMICOLON], b);
    lemma_peek_ascii(inp, e, ';');
    lemma_wsc_blank(inp, e + 1, b);
    assert(hspace_end(inp, e) == Ok::<int, (int, Fault)>(e));
    assert(comment_end(inp, e) == Ok::<int, (int, Fault)>(e));
    assert(at_map_end(at_pos(v3, e)) == Ok::<bool, Fault>(false));
    assert(pairsep_end(inp, e) == Ok::<(int, bool), (int, Fault)>((e + 1, true)));
    let v4 = in_state(at_pos(v3, n), State::BeforePair);
    assert(at_map_end(v4) == Ok::<bool, Fault>(true));
    let f = fault("expected key after ';'"@, n);
    assert(step(v3).1 == Some(Err::<EventView, Fault>(f)));
    assert(run(v3) == Err::<Seq<EventView>, Fault>(f));
    reveal(leads);
}

// ── list layout: separators between items ─────────────────────────

/// A separator between list items: blank space, an optional `;`, and
/// blank space again.
pub open spec fn item_sep(b1: Seq<u8>, semi: bool, b2: Seq<u8>) -> Seq<u8> {
    b1 + (if semi { seq![SEMICOLON] } else { Seq::<u8>::empty() }) + b2
}

/// Strings one after the other with the separator `sep` between them.
pub open spec fn joined(items: Seq<Seq<char>>, sep: Seq<u8>) -> Seq<u8>
    decreases items.len(),
{
    if items.len() == 0 {
        seq![]
    } else if items.len() == 1 {
        string_text(items[0])
    } else {
        string_text(items[0]) + sep + joined(items.drop_first(), sep)
    }
}

/// Strings as values.
pub open spec fn str_values(items: Seq<Seq<char>>) -> Seq<ValueView> {
    items.map_values(|s: Seq<char>| ValueView::Str(s))
}

/// A separator between items of a list, up to the next item.
#[verifier::spinoff_prover]
#[verifier::rlimit(40)]
proof fn lemma_item_sep_leads(v: ParserView, b1: Seq<u8>, semi: bool, b2: Seq<u8>)
    requires
        parser_wf(v),
        v.state == State::BetweenItems,
        blank(b1),
        blank(b2),
        semi || b1.len() + b2.len() > 0,
        text_at(v.input, v.pos, item_sep(b1, semi, b2)),
        value_starts(v.input, v.pos + item_sep(b1, semi, b2).len()),
    ensures
        parser_wf(ParserView { pos: v.pos + item_sep(b1, semi, b2).len(), state: State::BeforeItem, ..v }),
        leads(v, seq![], ParserView { pos: v.pos + item_sep(b1, semi, b2).len(), state: State::BeforeItem, ..v }),
{
    let inp = v.input;
    let p = v.pos;
    let sep = item_sep(b1, semi, b2);
    let q = p + sep.len();
    let v4 = ParserView { pos: q, state: State::BeforeItem, ..v };
    assert(inp.subrange(q, q) =~= Seq::<u8>::empty());
    lemma_wsc_blank(inp, q, seq![]);
    lemma_text_index(inp, p, sep, 0);
    if semi {
        let mid = seq![SEMICOLON];
        assert(sep =~= b1 + (mid + b2));
        lemma_text_split(inp, p, b1, mid + b2);
        lemma_text_split(inp, p + b1.len(), mid, b2);
        lemma_text_index(inp, p + b1.len(), mid, 0);
        lemma_peek_ascii(inp, p + b1.len(), ';');
        if b1.len() > 0 {
            lemma_peek_blank(inp, p);
        }
        lemma_wsc_blank(inp, p, b1);
        lemma_wsc_blank(inp, p + b1.len() + 1, b2);
    } else {
        let b = b1 + b2;
        assert(sep =~= b);
        lemma_blank_concat(b1, b2);
        lemma_peek_blank(inp, p);
        lemma_wsc_blank(inp, p, b);
    }
    assert(!at_end(v));
    assert(!char_at_is(inp, p, ']'));
    assert(v4 == in_state(at_pos(v, q), State::BeforeItem));
    assert(step(v) == step(v4));
    lemma_leads_skip(v, v4);
}

/// The items of a list, each a string, with a separator between each two
/// and the `]` after the last: their events, and the parser after the last.
#[verifier::spinoff_prover]
#[verifier::rlimit(40)]
proof fn lemma_joined_items(v: ParserView, items: Seq<Seq<char>>, b1: Seq<u8>, semi: bool, b2: Seq<u8>)
    requires
        parser_wf(v),
        v.state == State::BeforeItem,
        items.len() > 0,
        blank(b1),
        blank(b2),
        semi || b1.len() + b2.len() > 0,
        text_at(v.input, v.pos, joined(items, item_sep(b1, semi, b2))),
        ends_bare(v.input, v.pos + joined(items, item_sep(b1, semi, b2)).len()),
    ensures
        leads(
            v,
            items_events(str_values(items)),
            ParserView { pos: v.pos + joined(items, item_sep(b1, semi, b2)).len(), state: State::BetweenItems, ..v },
        ),
    decreases items.len(),
{
    let inp = v.input;
    let p = v.pos;
    let sep = item_sep(b1, semi, b2);
    let s0 = items[0];
    let tail = items.drop_first();
    let xs = str_values(items);
    lemma_items_first(xs, 0);
    assert(xs.drop_first() =~= str_values(tail));
    assert(value_text(ValueView::Str(s0), 0) == string_text(s0));
    let target = ParserView { pos: p + joined(items, sep).len(), state: State::BetweenItems, ..v };
    let q3 = p + string_text(s0).len();
    let v3 = ParserView { pos: q3, state: State::BetweenItems, ..v };
    if items.len() == 1 {
        assert(joined(items, sep) == string_text(s0));
        lemma_str_leads(v, s0, 0);
        assert(str_values(tail) =~= Seq::<ValueView>::empty());
        assert(items_events(xs) =~= seq![EventView::Str(s0)]);
    } else {
        let rest = joined(tail, sep);
        assert(joined(items, sep) =~= string_text(s0) + (sep + rest));
        lemma_text_split(inp, p, string_text(s0), sep + rest);
        lemma_text_split(inp, q3, sep, rest);
        lemma_text_index(inp, q3, sep, 0);
        if b1.len() > 0 {
            assert(sep[0] == b1[0]);
        } else if semi {
            assert(sep[0] == SEMICOLON);
        } else {
            assert(sep[0] == b2[0]);
        }
        lemma_str_leads(v, s0, 0);
        let q4 = q3 + sep.len();
        if tail.len() == 1 {
            assert(joined(tail, sep) == string_text(tail[0]));
        } else {
            assert(joined(tail, sep) == string_text(tail[0]) + sep + joined(tail.drop_first(), sep));
        }
        let krest = rest.subrange(string_text(tail[0]).len() as int, rest.len() as int);
        assert(rest =~= string_text(tail[0]) + krest);
        lemma_text_split(inp, q4, string_text(tail[0]), krest);
        lemma_string_first(inp, q4, tail[0]);
        lemma_leads_wf(v, seq![EventView::Str(s0)], v3);
        lemma_item_sep_leads(v3, b1, semi, b2);
        let v4 = ParserView { pos: q4, state: State::BeforeItem, ..v3 };
        lemma_joined_items(v4, tail, b1, semi, b2);
        assert(joined(items, sep).len() == string_text(s0).len() + sep.len() + joined(tail, sep).len());
        assert(ParserView { pos: q4 + joined(tail, sep).len(), state: State::BetweenItems, ..v4 } == target);
        lemma_leads_trans(v3, seq![], v4, items_events(str_values(tail)), target);
        assert(Seq::<EventView>::empty() + items_events(str_values(tail)) =~= items_events(str_values(tail)));
        lemma_leads_trans(v, seq![EventView::Str(s0)], v3, items_events(str_values(tail)), target);
    }
}

/// A document of one pair whose value is a list of strings, with the
/// blank space `b0` after its `[` and `b3` before its `]`.
pub open spec fn list_doc(k: Seq<char>, gap: u8, items: Seq<Seq<char>>, sep: Seq<u8>, b0: Seq<u8>, b3: Seq<u8>) -> Seq<u8> {
    string_text(k) + seq![gap] + seq![OPEN_BRACKET] + b0 + joined(items, sep) + b3 + seq![CLOSE_BRACKET]
}

/// The parser at the top-level map of `inp`, before its first key.
pub open spec fn top_view(inp: Seq<u8>) -> ParserView {
    ParserView { input: inp, pos: 0, stack: seq![top_frame()], state: State::BeforePair }
}

/// A document that starts with a key, a space or tab, a `[` and blank
/// space `pad`: the map opens, the key is read and the list opens.
#[verifier::spinoff_prover]
proof fn lemma_keyed_list_open(inp: Seq<u8>, k: Seq<char>, gap: u8, pad: Seq<u8>)
    requires
        gap == SPACE || gap == TAB,
        text_at(inp, 0, string_text(k) + seq![gap] + seq![OPEN_BRACKET]),
        text_at(inp, string_text(k).len() + 2int, pad),
        blank(pad),
        item_or_close(inp, string_text(k).len() + 2int + pad.len()),
        !(can_be_bare(k) && k[0] == '\u{FEFF}'),
    ensures
        leads(
            initial_view(inp),
            seq![EventView::StartMap, EventView::Key(k), EventView::StartList],
            ParserView {
                pos: string_text(k).len() + 2int + pad.len(),
                stack: with_key(top_view(inp), k).push(list_frame(string_text(k).len() + 1int)),
                state: State::BeforeItem,
                ..top_view(inp)
            },
        ),
{
    let kt = string_text(k);
    let q = kt.len() + 1int;
    let v0 = initial_view(inp);
    let v1 = top_view(inp);
    lemma_text_split(inp, 0, kt + seq![gap], seq![OPEN_BRACKET]);
    lemma_text_split(inp, 0, kt, seq![gap]);
    lemma_no_bom_at(inp, k);
    lemma_string_first(inp, 0, k);
    assert(inp.subrange(0, 0) =~= Seq::<u8>::empty());
    lemma_wsc_blank(inp, 0, seq![]);
    assert(bom_end(inp, 0) == 0);
    assert(step(v0) == emit(v1, EventView::StartMap));
    lemma_leads_step(v0);
    lemma_text_index(inp, q, seq![OPEN_BRACKET], 0);
    lemma_peek_ascii(inp, q, '[');
    lemma_key_leads(v1, k, gap);
    let v2 = ParserView { pos: q, stack: with_key(v1, k), state: State::AfterKey, ..v1 };
    lemma_wsc_blank(inp, q + 1, pad);
    let v3 = ParserView { pos: q + 1 + pad.len(), stack: v2.stack.push(list_frame(q)), state: State::BeforeItem, ..v2 };
    assert(step(v2) == emit(v3, EventView::StartList));
    lemma_leads_step(v2);
    lemma_leads_trans(v1, seq![EventView::Key(k)], v2, seq![EventView::StartList], v3);
    lemma_leads_trans(v0, seq![EventView::StartMap], v1, seq![EventView::Key(k)] + seq![EventView::StartList], v3);
    assert(seq![EventView::StartMap] + (seq![EventView::Key(k)] + seq![EventView::StartList])
        =~= seq![EventView::StartMap, EventView::Key(k), EventView::StartList]);
}

/// The first item of a list of strings, or its `]`, stands right after the `[`.
proof fn lemma_list_first(inp: Seq<u8>, q: int, items: Seq<Seq<char>>, sep: Seq<u8>, after: Seq<u8>)
    requires
        text_at(inp, q, joined(items, sep) + after),
        items.len() == 0 ==> after.len() > 0 && after[0] == CLOSE_BRACKET,
    ensures
        item_or_close(inp, q),
{
    let body = joined(items, sep);
    if items.len() > 0 {
        let krest = (body + after).subrange(string_text(items[0]).len() as int, (body + after).len() as int);
        if items.len() == 1 {
            assert(body == string_text(items[0]));
        } else {
            assert(body == string_text(items[0]) + sep + joined(items.drop_first(), sep));
        }
        assert(body + after =~= string_text(items[0]) + krest);
        lemma_text_split(inp, q, string_text(items[0]), krest);
        lemma_string_first(inp, q, items[0]);
    } else {
        assert(body =~= Seq::<u8>::empty());
        lemma_text_index(inp, q, body + after, 0);
        lemma_peek_ascii(inp, q, ']');
    }
}

/// Blank space one after the other is blank space.
proof fn lemma_blank_concat(a: Seq<u8>, b: Seq<u8>)
    requires
        blank(a),
        blank(b),
    ensures
        blank(a + b),
{
    assert forall|i: int| 0 <= i < (a + b).len() implies (#[trigger] (a + b)[i] == SPACE || (a + b)[i] == TAB
        || (a + b)[i] == CARRIAGE_RETURN || (a + b)[i] == LINE_FEED) by {
        if i < a.len() {
            assert((a + b)[i] == a[i]);
        } else {
            assert((a + b)[i] == b[i - a.len()]);
        }
    }
}

/// How the items of a list are separated does not change the list: with
/// blank space (spaces, tabs, carriage returns, line feeds), a `;`, or a
/// `;` with blank space around it between each two items, and any blank
/// space after the `[` and before the `]`, the document `k [a b c]` is
/// read as the one pair of key `k` and the list of its strings. The key,
/// when written bare, must not begin with U+FEFF.
#[verifier::spinoff_prover]
#[verifier::rlimit(60)]
pub proof fn lemma_list_layout(
    k: Seq<char>,
    gap: u8,
    items: Seq<Seq<char>>,
    b1: Seq<u8>,
    semi: bool,
    b2: Seq<u8>,
    b0: Seq<u8>,
    b3: Seq<u8>,
)
    requires
        gap == SPACE || gap == TAB,
        blank(b1),
        blank(b2),
        semi || b1.len() + b2.len() > 0,
        blank(b0),
        blank(b3),
        !(can_be_bare(k) && k[0] == '\u{FEFF}'),
    ensures
        document_events(list_doc(k, gap, items, item_sep(b1, semi, b2), b0, b3)) == Ok::<Seq<EventView>, Fault>(
            value_events(ValueView::Dict(seq![(k, ValueView::List(str_values(items)))])),
        ),
{
    let sep = item_sep(b1, semi, b2);
    let inp = list_doc(k, gap, items, sep, b0, b3);
    let n = inp.len() as int;
    let body = joined(items, sep);
    let kt = string_text(k);
    let q = kt.len() + 1int;
    let v0 = initial_view(inp);
    let v1 = top_view(inp);
    let head = kt + seq![gap] + seq![OPEN_BRACKET];
    let tail_text = b0 + (body + (b3 + seq![CLOSE_BRACKET]));
    assert(inp.subrange(0, n) =~= inp);
    assert(inp =~= head + tail_text);
    lemma_text_split(inp, 0, head, tail_text);
    lemma_text_split(inp, q + 1, b0, body + (b3 + seq![CLOSE_BRACKET]));
    let s0 = q + 1 + b0.len();
    lemma_text_split(inp, s0, body, b3 + seq![CLOSE_BRACKET]);
    let e: int = s0 + body.len();
    lemma_text_split(inp, e, b3, seq![CLOSE_BRACKET]);
    let m = e + b3.len();
    lemma_text_index(inp, m, seq![CLOSE_BRACKET], 0);
    lemma_peek_ascii(inp, m, ']');
    let xs = str_values(items);
    let opening = seq![EventView::StartMap, EventView::Key(k), EventView::StartList];
    let v2 = ParserView { pos: q, stack: with_key(v1, k), state: State::AfterKey, ..v1 };
    let v6 = ParserView { pos: m, stack: with_key(v1, k).push(list_frame(q)), state: State::BeforeItem, ..v1 };
    if items.len() > 0 {
        lemma_list_first(inp, s0, items, sep, b3 + seq![CLOSE_BRACKET]);
        lemma_keyed_list_open(inp, k, gap, b0);
        let v3 = ParserView { pos: s0, stack: with_key(v1, k).push(list_frame(q)), state: State::BeforeItem, ..v1 };
        lemma_leads_wf(v0, opening, v3);
        // the items, then the blank space before the `]`
        if b3.len() > 0 {
            lemma_text_index(inp, e, b3, 0);
        }
        lemma_joined_items(v3, items, b1, semi, b2);
        let v5 = ParserView { pos: e, state: State::BetweenItems, ..v3 };
        lemma_leads_wf(v3, items_events(xs), v5);
        lemma_between_items_leads(v5, b3);
        lemma_leads_trans(v3, items_events(xs), v5, seq![], v6);
        assert(items_events(xs) + Seq::<EventView>::empty() =~= items_events(xs));
        lemma_leads_trans(v0, opening, v3, items_events(xs), v6);
    } else {
        assert(body =~= Seq::<u8>::empty());
        assert(xs =~= Seq::<ValueView>::empty());
        assert(items_events(xs) =~= Seq::<EventView>::empty());
        lemma_blank_concat(b0, b3);
        assert(inp.subrange(q + 1, q + 1 + b0.len() + b3.len()) =~= b0 + b3);
        lemma_keyed_list_open(inp, k, gap, b0 + b3);
        assert(opening + items_events(xs) =~= opening);
    }
    lemma_close_bracket_leads(v6);
    // the list closes, and the document ends
    let v7 = popped(v6, m + 1);
    assert(v6.stack.drop_last() =~= v2.stack);
    assert(v7 == ParserView { pos: n, state: State::BetweenPairs, ..v2 });
    assert(inp.subrange(n, n) =~= comment_text(None));
    lemma_leads_wf(v0, opening + items_events(xs), v6);
    lemma_last_end_leads(v7, None);
    let v8 = ParserView { pos: n, state: State::BeforePair, ..v7 };
    lemma_close_top_leads(v8);
    let f = popped(v8, n);
    assert(f.state == State::Done);
    let close = seq![EventView::EndList, EventView::EndMap];
    lemma_leads_trans(v7, seq![], v8, seq![EventView::EndMap], f);
    assert(Seq::<EventView>::empty() + seq![EventView::EndMap] =~= seq![EventView::EndMap]);
    lemma_leads_trans(v6, seq![EventView::EndList], v7, seq![EventView::EndMap], f);
    assert(seq![EventView::EndList] + seq![EventView::EndMap] =~= close);
    lemma_leads_trans(v0, opening + items_events(xs), v6, close, f);
    lemma_leads_done(v0, (opening + items_events(xs)) + close, f);
    let ps = seq![(k, ValueView::List(xs))];
    assert(ps.drop_last() =~= Seq::<(Seq<char>, ValueView)>::empty());
    assert(pairs_events(ps.drop_last()) =~= Seq::<EventView>::empty());
    assert(ps.last() == (k, ValueView::List(xs)));
    assert(pairs_events(ps) =~= seq![EventView::Key(k)] + value_events(ValueView::List(xs)));
    assert(value_events(ValueView::Dict(ps)) =~= (opening + items_events(xs)) + close);
}

/// A document of one pair whose value is a list of strings, with a
/// separator after the last item too.
pub open spec fn list_doc_trailing(k: Seq<char>, gap: u8, items: Seq<Seq<char>>, sep: Seq<u8>) -> Seq<u8> {
    string_text(k) + seq![gap] + seq![OPEN_BRACKET] + joined(items, sep) + sep + seq![CLOSE_BRACKET]
}

/// A `;` between items must be followed by an item: a list of strings
/// whose last item is followed by a `;` (with blank space around it) is
/// refused with the fault "expected value after ';'" at its `]`. The key,
/// when written bare, must not begin with U+FEFF.
#[verifier::spinoff_prover]
#[verifier::rlimit(40)]
pub proof fn lemma_list_trailing_semicolon(k: Seq<char>, gap: u8, items: Seq<Seq<char>>, b1: Seq<u8>, b2: Seq<u8>)
    requires
        gap == SPACE || gap == TAB,
        items.len() > 0,
        blank(b1),
        blank(b2),
        !(can_be_bare(k) && k[0] == '\u{FEFF}'),
    ensures
        document_events(list_doc_trailing(k, gap, items, item_sep(b1, true, b2))) == Err::<Seq<EventView>, Fault>(
            fault("expected value after ';'"@, list_doc_trailing(k, gap, items, item_sep(b1, true, b2)).len() - 1),
        ),
{
    let sep = item_sep(b1, true, b2);
    let inp = list_doc_trailing(k, gap, items, sep);
    let n = inp.len() as int;
    let body = joined(items, sep);
    let kt = string_text(k);
    let q = kt.len() + 1int;
    let v0 = initial_view(inp);
    let v1 = top_view(inp);
    let head = kt + seq![gap] + seq![OPEN_BRACKET];
    assert(inp.subrange(0, n) =~= inp);
    assert(inp =~= head + (body + (sep + seq![CLOSE_BRACKET])));
    lemma_text_split(inp, 0, head, body + (sep + seq![CLOSE_BRACKET]));
    lemma_list_first(inp, q + 1, items, sep, sep + seq![CLOSE_BRACKET]);
    assert(inp.subrange(q + 1, q + 1) =~= Seq::<u8>::empty());
    lemma_keyed_list_open(inp, k, gap, seq![]);
    let v3 = ParserView { pos: q + 1, stack: with_key(v1, k).push(list_frame(q)), state: State::BeforeItem, ..v1 };
    let opening = seq![EventView::StartMap, EventView::Key(k), EventView::StartList];
    lemma_leads_wf(v0, opening, v3);
    // the items
    let e: int = q + 1 + body.len();
    lemma_text_split(inp, q + 1, body, sep + seq![CLOSE_BRACKET]);
    lemma_text_split(inp, e, sep, seq![CLOSE_BRACKET]);
    lemma_text_index(inp, e, sep, 0);
    if b1.len() > 0 {
        assert(sep[0] == b1[0]);
    } else {
        assert(sep[0] == SEMICOLON);
    }
    lemma_joined_items(v3, items, b1, true, b2);
    let xs = str_values(items);
    let v5 = ParserView { pos: e, state: State::BetweenItems, ..v3 };
    lemma_leads_wf(v3, items_events(xs), v5);
    lemma_leads_trans(v0, opening, v3, items_events(xs), v5);
    // the `;`, then the `]` where an item should stand
    let m = e + sep.len();
    lemma_text_index(inp, m, seq![CLOSE_BRACKET], 0);
    lemma_peek_ascii(inp, m, ']');
    let mid = seq![SEMICOLON];
    assert(sep =~= b1 + (mid + b2));
    lemma_text_split(inp, e, b1, mid + b2);
    lemma_text_split(inp, e + b1.len(), mid, b2);
    lemma_text_index(inp, e + b1.len(), mid, 0);
    lemma_peek_ascii(inp, e + b1.len(), ';');
    if b1.len() > 0 {
        lemma_peek_blank(inp, e);
    }
    lemma_wsc_blank(inp, e, b1);
    lemma_wsc_blank(inp, e + b1.len() + 1, b2);
    assert(!at_end(v5));
    assert(!char_at_is(inp, e, ']'));
    let f = fault("expected value after ';'"@, m);
    assert(step(v5).1 == Some(Err::<EventView, Fault>(f)));
    assert(run(v5) == Err::<Seq<EventView>, Fault>(f));
    reveal(leads);
}

// ── nested maps on one line ───────────────────────────────────────

/// A document of one pair whose value is a map of string pairs written
/// between braces.
pub open spec fn inline_map_doc(k: Seq<char>, gap: u8, ps: Seq<(Seq<char>, Seq<char>)>, gap2: u8, sep: Seq<u8>) -> Seq<u8> {
    string_text(k) + seq![gap] + seq![OPEN_BRACE] + flat_text(ps, gap2, None, sep, false) + seq![CLOSE_BRACE]
}

/// A document that starts with a key, a space or tab and a `{` with a key
/// right after it: the map opens, the key is read and the inner map opens.
#[verifier::spinoff_prover]
proof fn lemma_keyed_map_open(inp: Seq<u8>, k: Seq<char>, gap: u8)
    requires
        gap == SPACE || gap == TAB,
        text_at(inp, 0, string_text(k) + seq![gap] + seq![OPEN_BRACE]),
        value_starts(inp, string_text(k).len() + 2int),
        !(can_be_bare(k) && k[0] == '\u{FEFF}'),
    ensures
        leads(
            initial_view(inp),
            seq![EventView::StartMap, EventView::Key(k), EventView::StartMap],
            ParserView {
                pos: string_text(k).len() + 2int,
                stack: with_key(top_view(inp), k).push(map_frame(string_text(k).len() + 1int)),
                state: State::BeforePair,
                ..top_view(inp)
            },
        ),
{
    let kt = string_text(k);
    let q = kt.len() + 1int;
    let v0 = initial_view(inp);
    let v1 = top_view(inp);
    lemma_text_split(inp, 0, kt + seq![gap], seq![OPEN_BRACE]);
    lemma_text_split(inp, 0, kt, seq![gap]);
    lemma_no_bom_at(inp, k);
    lemma_string_first(inp, 0, k);
    assert(inp.subrange(0, 0) =~= Seq::<u8>::empty());
    lemma_wsc_blank(inp, 0, seq![]);
    assert(bom_end(inp, 0) == 0);
    assert(step(v0) == emit(v1, EventView::StartMap));
    lemma_leads_step(v0);
    lemma_text_index(inp, q, seq![OPEN_BRACE], 0);
    lemma_peek_ascii(inp, q, '{');
    lemma_key_leads(v1, k, gap);
    let v2 = ParserView { pos: q, stack: with_key(v1, k), state: State::AfterKey, ..v1 };
    assert(inp.subrange(q + 1, q + 1) =~= Seq::<u8>::empty());
    lemma_wsc_blank(inp, q + 1, seq![]);
    let v3 = ParserView { pos: q + 1, stack: v2.stack.push(map_frame(q)), state: State::BeforePair, ..v2 };
    assert(step(v2) == emit(v3, EventView::StartMap));
    lemma_leads_step(v2);
    lemma_leads_trans(v1, seq![EventView::Key(k)], v2, seq![EventView::StartMap], v3);
    lemma_leads_trans(v0, seq![EventView::StartMap], v1, seq![EventView::Key(k)] + seq![EventView::StartMap], v3);
    assert(seq![EventView::StartMap] + (seq![EventView::Key(k)] + seq![EventView::StartMap])
        =~= seq![EventView::StartMap, EventView::Key(k), EventView::StartMap]);
}

/// A nested map may stand on one line: `k {a 1; b 2}`, its pairs separated
/// by `;` with blank space after it, or by line breaks, and its `}` right
/// after the last value, is read as the pair of key `k` and the map of
/// those pairs. The inner keys must be distinct, and the outer key, when
/// written bare, must not begin with U+FEFF.
#[verifier::spinoff_prover]
#[verifier::rlimit(60)]
pub proof fn lemma_inline_map(k: Seq<char>, gap: u8, ps: Seq<(Seq<char>, Seq<char>)>, gap2: u8, sep: Seq<u8>)
    requires
        gap == SPACE || gap == TAB,
        gap2 == SPACE || gap2 == TAB,
        line_break(sep) || semicolon_break(sep),
        ps.len() > 0,
        dict_keys(flat_pairs(ps)).no_duplicates(),
        !(can_be_bare(k) && k[0] == '\u{FEFF}'),
    ensures
        document_events(inline_map_doc(k, gap, ps, gap2, sep)) == Ok::<Seq<EventView>, Fault>(
            value_events(ValueView::Dict(seq![(k, ValueView::Dict(flat_pairs(ps)))])),
        ),
{
    let inp = inline_map_doc(k, gap, ps, gap2, sep);
    let n = inp.len() as int;
    let body = flat_text(ps, gap2, None, sep, false);
    let kt = string_text(k);
    let q = kt.len() + 1int;
    let v0 = initial_view(inp);
    let v1 = top_view(inp);
    let head = kt + seq![gap] + seq![OPEN_BRACE];
    assert(inp.subrange(0, n) =~= inp);
    assert(inp =~= head + (body + seq![CLOSE_BRACE]));
    lemma_text_split(inp, 0, head, body + seq![CLOSE_BRACE]);
    lemma_text_split(inp, q + 1, body, seq![CLOSE_BRACE]);
    // the first inner key stands right after the `{`
    lemma_flat_first(ps, gap2, None, sep, false);
    let krest = body.subrange(string_text(ps[0].0).len() as int, body.len() as int);
    assert(body =~= string_text(ps[0].0) + krest);
    lemma_text_split(inp, q + 1, string_text(ps[0].0), krest);
    lemma_string_first(inp, q + 1, ps[0].0);
    lemma_keyed_map_open(inp, k, gap);
    let v2 = ParserView { pos: q, stack: with_key(v1, k), state: State::AfterKey, ..v1 };
    let v3 = ParserView { pos: q + 1, stack: with_key(v1, k).push(map_frame(q)), state: State::BeforePair, ..v1 };
    let opening = seq![EventView::StartMap, EventView::Key(k), EventView::StartMap];
    lemma_leads_wf(v0, opening, v3);
    // the inner pairs
    let e: int = q + 1 + body.len();
    lemma_text_index(inp, e, seq![CLOSE_BRACE], 0);
    lemma_peek_ascii(inp, e, '}');
    assert(seq![] + dict_keys(flat_pairs(ps)) =~= dict_keys(flat_pairs(ps)));
    assert(comment_text(None) =~= Seq::<u8>::empty());
    lemma_flat_upto(v3, ps, gap2, None, sep, seq![]);
    let fp = flat_pairs(ps);
    let v5 = ParserView { pos: e, stack: with_seen(v3, dict_keys(fp)), state: State::BetweenPairs, ..v3 };
    lemma_leads_wf(v3, pairs_events(fp), v5);
    // the `}` closes the inner map
    let v6 = ParserView { state: State::BeforePair, ..v5 };
    assert(hspace_end(inp, e) == Ok::<int, (int, Fault)>(e));
    assert(comment_end(inp, e) == Ok::<int, (int, Fault)>(e));
    assert(v6 == in_state(at_pos(v5, e), State::BeforePair));
    assert(at_map_end(at_pos(v5, e)) == Ok::<bool, Fault>(true));
    assert(step(v5) == step(v6));
    lemma_leads_skip(v5, v6);
    lemma_close_brace_leads(v6);
    let v7 = popped(v6, e + 1);
    assert(with_seen(v3, dict_keys(fp)).drop_last() =~= v2.stack);
    assert(v7 == ParserView { pos: n, state: State::BetweenPairs, ..v2 });
    // the document ends
    assert(inp.subrange(n, n) =~= comment_text(None));
    lemma_last_end_leads(v7, None);
    let v8 = ParserView { pos: n, state: State::BeforePair, ..v7 };
    lemma_close_top_leads(v8);
    let f = popped(v8, n);
    assert(f.state == State::Done);
    let close = seq![EventView::EndMap, EventView::EndMap];
    lemma_leads_trans(v7, seq![], v8, seq![EventView::EndMap], f);
    assert(Seq::<EventView>::empty() + seq![EventView::EndMap] =~= seq![EventView::EndMap]);
    lemma_leads_trans(v6, seq![EventView::EndMap], v7, seq![EventView::EndMap], f);
    assert(seq![EventView::EndMap] + seq![EventView::EndMap] =~= close);
    lemma_leads_trans(v5, seq![], v6, close, f);
    assert(Seq::<EventView>::empty() + close =~= close);
    lemma_leads_trans(v3, pairs_events(fp), v5, close, f);
    lemma_leads_trans(v0, opening, v3, pairs_events(fp) + close, f);
    lemma_leads_done(v0, opening + (pairs_events(fp) + close), f);
    let outer = seq![(k, ValueView::Dict(fp))];
    assert(outer.drop_last() =~= Seq::<(Seq<char>, ValueView)>::empty());
    assert(pairs_events(outer.drop_last()) =~= Seq::<EventView>::empty());
    assert(outer.last() == (k, ValueView::Dict(fp)));
    assert(pairs_events(outer) =~= seq![EventView::Key(k)] + value_events(ValueView::Dict(fp)));
    assert(value_events(ValueView::Dict(outer)) =~= opening + (pairs_events(fp) + close));
}

// ── where the scanners stop ────────────────────────────────────────

/// Structural white space is skipped whole: where it ends stands the end
/// of the input or a character that is neither a space, a tab, a carriage
/// return, a line feed nor the `#` of a comment.
pub proof fn lemma_wsc_end_stops(inp: Seq<u8>, p: int)
    requires
        0 <= p <= inp.len(),
    ensures
        wsc_end(inp, p) matches Ok(q) ==> wsc_stops(inp, q),
    decreases inp.len() - p,
{
    if let Ok(Some((c, w))) = peek_at(inp, p) {
        if c == '#' {
            crate::parse::lemma_comment_rest_ge(inp, p + w);
            if let Ok(q) = comment_rest(inp, p + w) {
                lemma_wsc_end_stops(inp, q);
            }
        } else if c == ' ' || c == '\t' || c == '\n' || c == '\r' {
            lemma_wsc_end_stops(inp, p + w);
        }
    }
}

/// A bare string is the longest run of characters that are neither white
/// space nor delimiters: each character it takes is of that kind, and it
/// stops at the end of the input, at white space or at a delimiter.
pub proof fn lemma_bare_run_maximal(inp: Seq<u8>, p: int, acc: Seq<char>)
    requires
        0 <= p <= inp.len(),
    ensures
        bare_scan(inp, p, acc) matches Ok((q, s)) ==> {
            &&& q == inp.len() || (peek_at(inp, q) matches Ok(Some((c, _))) && (is_white_space(c) || is_delimiter(c)))
            &&& s.len() >= acc.len()
            &&& s.subrange(0, acc.len() as int) == acc
            &&& forall|i: int| acc.len() <= i < s.len() ==> !is_white_space(#[trigger] s[i]) && !is_delimiter(s[i])
        },
    decreases inp.len() - p,
{
    match peek_at(inp, p) {
        Ok(Some((c, w))) => if !is_white_space(c) && !is_delimiter(c) {
            lemma_bare_run_maximal(inp, p + w, acc.push(c));
            if let Ok((q, s)) = bare_scan(inp, p, acc) {
                assert forall|i: int| acc.len() <= i < s.len() implies !is_white_space(#[trigger] s[i]) && !is_delimiter(s[i]) by {
                    if i == acc.len() {
                        assert(s.subrange(0, acc.len() + 1 as int)[i] == acc.push(c)[i]);
                    }
                }
                assert(s.subrange(0, acc.len() as int) =~= s.subrange(0, acc.len() + 1 as int).subrange(0, acc.len() as int));
            }
        } else {
            assert(acc.subrange(0, acc.len() as int) =~= acc);
        },
        Ok(None) => {
            assert(acc.subrange(0, acc.len() as int) =~= acc);
        },
        Err(_) => {},
    }
}

/// A line continuation inside double quotes, a backslash then a line feed
/// or a backslash then a carriage return and line feed, stands for no
/// character: the string goes on after it as if it were not there.
pub proof fn lemma_line_continuation(inp: Seq<u8>, p: int, open: int, acc: Seq<char>, crlf: bool)
    requires
        crlf ==> text_at(inp, p, seq![BACKSLASH, CARRIAGE_RETURN, LINE_FEED]),
        !crlf ==> text_at(inp, p, seq![BACKSLASH, LINE_FEED]),
    ensures
        quoted_scan(inp, p, open, acc) == quoted_scan(inp, p + if crlf { 3int } else { 2int }, open, acc),
{
    if crlf {
        let t = seq![BACKSLASH, CARRIAGE_RETURN, LINE_FEED];
        lemma_text_index(inp, p, t, 0);
        lemma_text_index(inp, p, t, 1);
        lemma_text_index(inp, p, t, 2);
        lemma_peek_ascii(inp, p, '\\');
        lemma_peek_ascii(inp, p + 1, '\r');
        lemma_peek_ascii(inp, p + 2, '\n');
    } else {
        let t = seq![BACKSLASH, LINE_FEED];
        lemma_text_index(inp, p, t, 0);
        lemma_text_index(inp, p, t, 1);
        lemma_peek_ascii(inp, p, '\\');
        lemma_peek_ascii(inp, p + 1, '\n');
    }
}

/// A raw string reads back exactly: the characters of `s`, none of them a
/// `'`, then a `'`, are read as `s` itself, whatever they are (no escapes,
/// white space and line breaks included).
pub proof fn lemma_raw_string_text(inp: Seq<u8>, p: int, open: int, acc: Seq<char>, s: Seq<char>)
    requires
        text_at(inp, p, encode_utf8(s) + seq![APOSTROPHE]),
        forall|i: int| 0 <= i < s.len() ==> #[trigger] s[i] != '\'',
    ensures
        raw_scan(inp, p, open, acc) == Ok::<(int, Seq<char>), (int, Fault)>((p + encode_utf8(s).len() + 1, acc + s)),
    decreases s.len(),
{
    lemma_text_split(inp, p, encode_utf8(s), seq![APOSTROPHE]);
    if s.len() == 0 {
        lemma_text_index(inp, p, seq![APOSTROPHE], 0);
        lemma_peek_ascii(inp, p, '\'');
        assert(acc + s =~= acc);
    } else {
        let c = s[0];
        let e = encode_scalar(c as u32);
        let tail = s.drop_first();
        lemma_encode_first(s);
        lemma_text_split(inp, p, e, encode_utf8(tail));
        lemma_peek_encoded(inp, p, c);
        assert(c != '\'');
        assert forall|i: int| 0 <= i < tail.len() implies #[trigger] tail[i] != '\'' by {
            assert(tail[i] == s[i + 1]);
        }
        assert(encode_utf8(s) + seq![APOSTROPHE] =~= e + (encode_utf8(tail) + seq![APOSTROPHE]));
        lemma_text_split(inp, p, e, encode_utf8(tail) + seq![APOSTROPHE]);
        lemma_raw_string_text(inp, p + e.len(), open, acc.push(c), tail);
        assert(acc.push(c) + tail =~= acc + s);
    }
}

/// A `\u{...}` escape inside double quotes: with one to six hexadecimal
/// digits, in either case, it stands for the character of that code; with
/// more than six it is refused as an invalid escape.
pub proof fn lemma_unicode_escape(inp: Seq<u8>, q: int, open: int, acc: Seq<char>, h: Seq<char>)
    requires
        h.len() >= 1,
        forall|i: int| 0 <= i < h.len() ==> is_hex_digit(#[trigger] h[i]),
        text_at(inp, q, seq![BACKSLASH, LETTER_U, OPEN_BRACE] + ascii_bytes(h) + seq![CLOSE_BRACE]),
    ensures
        h.len() <= 6 && is_scalar(hex_value(h) as u32) ==> quoted_scan(inp, q, open, acc) == quoted_scan(
            inp,
            q + h.len() + 4,
            open,
            acc.push((hex_value(h) as u32) as char),
        ),
        h.len() > 6 ==> quoted_scan(inp, q, open, acc) == Err::<(int, Seq<char>), (int, Fault)>(
            (q + 3 + h.len(), fault("invalid unicode escape"@, q)),
        ),
{
    let t = seq![BACKSLASH, LETTER_U, OPEN_BRACE] + ascii_bytes(h) + seq![CLOSE_BRACE];
    lemma_text_index(inp, q, t, 0);
    lemma_text_index(inp, q, t, 1);
    lemma_text_index(inp, q, t, 2);
    lemma_peek_ascii(inp, q, '\\');
    lemma_peek_ascii(inp, q + 1, 'u');
    lemma_peek_ascii(inp, q + 2, '{');
    assert(t =~= seq![BACKSLASH, LETTER_U, OPEN_BRACE] + (ascii_bytes(h) + seq![CLOSE_BRACE]));
    lemma_text_split(inp, q, seq![BACKSLASH, LETTER_U, OPEN_BRACE], ascii_bytes(h) + seq![CLOSE_BRACE]);
    assert forall|i: int| 0 <= i < h.len() implies is_hex_digit(#[trigger] h[i]) && (h[i] as u32) < 0x80 by {
        assert(is_hex_digit(h[i]));
    }
    lemma_hex_run(inp, q + 3, q, seq![], h);
    assert(Seq::<char>::empty() + h =~= h);
}

} // verus!
