//! The formatter writes valid UTF-8, always.
//!
//! Every piece of phig text is ASCII punctuation, indentation, or the UTF-8
//! encoding of characters; [`lemma_value_text_utf8`] shows that the text of
//! any value is valid UTF-8, and [`lemma_formatter_keeps_utf8`] that every
//! operation of the streaming formatter keeps its output so.
use vstd::prelude::*;
use vstd::utf8::*;
use crate::fmt::{
    FormatterView, escaped_char, escaped, string_text, indent_text, value_text,
    list_text, list_lines, inline_items, map_text, pair_lines, can_be_bare, fmt_wf, fmt_map_start,
    fmt_map_end, fmt_list_start, fmt_list_end, fmt_key, fmt_string, can_map_end, can_list_end, can_key,
    can_string, value_written, in_list, QUOTE, BACKSLASH, LETTER_U, OPEN_BRACE, CLOSE_BRACE, OPEN_BRACKET,
    CLOSE_BRACKET, SPACE, LINE_FEED,
};
use crate::text::{is_control_char, lower_hex, lower_hex_digit, ascii_bytes};
use crate::value::ValueView;

verus! {

broadcast use vstd::utf8::group_utf8_lib;

/// Bytes below 0x80: each is a character of its own.
pub open spec fn all_ascii(t: Seq<u8>) -> bool {
    forall|i: int| 0 <= i < t.len() ==> #[trigger] t[i] < 0x80
}

/// ASCII bytes are valid UTF-8.
pub proof fn lemma_ascii_utf8(t: Seq<u8>)
    requires
        all_ascii(t),
    ensures
        valid_utf8(t),
    decreases t.len(),
{
    if t.len() > 0 {
        let c = (t[0] as u32) as char;
        assert((c as u32) == t[0] as u32);
        crate::roundtrip::lemma_encode_ascii(c);
        assert(((c as u32) as u8) == t[0]);
        assert(encode_utf8(seq![c]) =~= seq![t[0]]) by {
            reveal_with_fuel(encode_utf8, 2);
            assert(seq![c].drop_first() =~= Seq::<char>::empty());
        }
        encode_utf8_valid_utf8(seq![c]);
        let rest = t.drop_first();
        assert(all_ascii(rest)) by {
            assert forall|i: int| 0 <= i < rest.len() implies #[trigger] rest[i] < 0x80 by {
                assert(rest[i] == t[i + 1]);
            }
        }
        lemma_ascii_utf8(rest);
        valid_utf8_concat(seq![t[0]], rest);
        assert(seq![t[0]] + rest =~= t);
    }
}

/// The encoding of one character is valid UTF-8.
pub proof fn lemma_scalar_utf8(c: char)
    ensures
        valid_utf8(encode_scalar(c as u32)),
{
    assert(encode_utf8(seq![c]) =~= encode_scalar(c as u32)) by {
        reveal_with_fuel(encode_utf8, 2);
        assert(seq![c].drop_first() =~= Seq::<char>::empty());
        assert(encode_scalar(c as u32) + Seq::<u8>::empty() =~= encode_scalar(c as u32));
    }
    encode_utf8_valid_utf8(seq![c]);
}

pub proof fn lemma_indent_utf8(n: nat)
    ensures
        valid_utf8(indent_text(n)),
    decreases n,
{
    if n > 0 {
        lemma_indent_utf8((n - 1) as nat);
        lemma_ascii_utf8(seq![SPACE, SPACE]);
        valid_utf8_concat(indent_text((n - 1) as nat), seq![SPACE, SPACE]);
    }
}

/// A character as written inside double quotes is valid UTF-8.
pub proof fn lemma_escaped_char_utf8(c: char)
    ensures
        valid_utf8(escaped_char(c)),
{
    if c == '"' || c == '\\' || c == '\n' || c == '\r' || c == '\t' || c == '\0' {
        lemma_ascii_utf8(escaped_char(c));
    } else if is_control_char(c) {
        let ds = lower_hex(c as u32 as nat);
        lemma_hex_ascii(c as u32 as nat);
        let t = seq![BACKSLASH, LETTER_U, OPEN_BRACE] + ascii_bytes(ds) + seq![CLOSE_BRACE];
        assert forall|i: int| 0 <= i < t.len() implies #[trigger] t[i] < 0x80 by {
            if 3 <= i < 3 + ds.len() {
                assert(t[i] == ascii_bytes(ds)[i - 3]);
            }
        }
        lemma_ascii_utf8(t);
    } else {
        lemma_scalar_utf8(c);
    }
}

/// Hexadecimal digits are ASCII.
proof fn lemma_hex_ascii(n: nat)
    ensures
        all_ascii(ascii_bytes(lower_hex(n))),
    decreases n,
{
    let ds = lower_hex(n);
    if n >= 16 {
        lemma_hex_ascii(n / 16);
    }
    assert forall|i: int| 0 <= i < ds.len() implies #[trigger] ascii_bytes(ds)[i] < 0x80 by {
        if n >= 16 && i < ds.len() - 1 {
            assert(ds[i] == lower_hex(n / 16)[i]);
            assert(ascii_bytes(lower_hex(n / 16))[i] < 0x80);
        }
        let d: nat = if n < 16 { n } else { n % 16 };
        if i == ds.len() - 1 {
            assert(ds[i] == lower_hex_digit(d));
            assert((lower_hex_digit(d) as u32) < 0x80);
        }
    }
}

pub proof fn lemma_escaped_utf8(s: Seq<char>)
    ensures
        valid_utf8(escaped(s)),
    decreases s.len(),
{
    if s.len() > 0 {
        lemma_escaped_utf8(s.drop_last());
        lemma_escaped_char_utf8(s.last());
        valid_utf8_concat(escaped(s.drop_last()), escaped_char(s.last()));
    }
}

/// A string as the formatter writes it is valid UTF-8.
pub proof fn lemma_string_utf8(s: Seq<char>)
    ensures
        valid_utf8(string_text(s)),
{
    if !can_be_bare(s) {
        lemma_escaped_utf8(s);
        lemma_ascii_utf8(seq![QUOTE]);
        valid_utf8_concat(seq![QUOTE], escaped(s));
        valid_utf8_concat(seq![QUOTE] + escaped(s), seq![QUOTE]);
    }
}

/// The text of every value is valid UTF-8.
pub proof fn lemma_value_text_utf8(v: ValueView, indent: nat)
    ensures
        valid_utf8(value_text(v, indent)),
    decreases v, 2int,
{
    match v {
        ValueView::Str(s) => lemma_string_utf8(s),
        ValueView::List(items) => lemma_list_utf8(items, indent),
        ValueView::Dict(pairs) => lemma_map_utf8(pairs, indent, false),
    }
}

pub proof fn lemma_list_utf8(items: Seq<ValueView>, indent: nat)
    ensures
        valid_utf8(list_text(items, indent)),
    decreases items, 1int,
{
    lemma_ascii_utf8(seq![OPEN_BRACKET]);
    lemma_ascii_utf8(seq![CLOSE_BRACKET]);
    lemma_ascii_utf8(seq![OPEN_BRACKET, LINE_FEED]);
    lemma_ascii_utf8(seq![OPEN_BRACKET, CLOSE_BRACKET]);
    lemma_indent_utf8(indent);
    if items.len() > 0 {
        lemma_lines_utf8(items, indent + 1);
        lemma_inline_utf8(items, indent);
        let a = seq![OPEN_BRACKET, LINE_FEED];
        let b = list_lines(items, indent + 1);
        valid_utf8_concat(a, b);
        valid_utf8_concat(a + b, indent_text(indent));
        valid_utf8_concat(a + b + indent_text(indent), seq![CLOSE_BRACKET]);
        valid_utf8_concat(seq![OPEN_BRACKET], inline_items(items, indent));
        valid_utf8_concat(seq![OPEN_BRACKET] + inline_items(items, indent), seq![CLOSE_BRACKET]);
    }
}

pub proof fn lemma_lines_utf8(items: Seq<ValueView>, inner: nat)
    ensures
        valid_utf8(list_lines(items, inner)),
    decreases items, 0int,
{
    if items.len() > 0 {
        lemma_lines_utf8(items.drop_last(), inner);
        lemma_indent_utf8(inner);
        lemma_value_text_utf8(items.last(), inner);
        lemma_ascii_utf8(seq![LINE_FEED]);
        let a = list_lines(items.drop_last(), inner);
        valid_utf8_concat(a, indent_text(inner));
        valid_utf8_concat(a + indent_text(inner), value_text(items.last(), inner));
        valid_utf8_concat(a + indent_text(inner) + value_text(items.last(), inner), seq![LINE_FEED]);
    }
}

pub proof fn lemma_inline_utf8(items: Seq<ValueView>, indent: nat)
    ensures
        valid_utf8(inline_items(items, indent)),
    decreases items, 0int,
{
    if items.len() == 1 {
        lemma_value_text_utf8(items[0], indent);
    } else if items.len() > 1 {
        lemma_inline_utf8(items.drop_last(), indent);
        lemma_value_text_utf8(items.last(), indent);
        lemma_ascii_utf8(seq![SPACE]);
        let a = inline_items(items.drop_last(), indent);
        valid_utf8_concat(a, seq![SPACE]);
        valid_utf8_concat(a + seq![SPACE], value_text(items.last(), indent));
    }
}

pub proof fn lemma_map_utf8(pairs: Seq<(Seq<char>, ValueView)>, indent: nat, top: bool)
    ensures
        valid_utf8(map_text(pairs, indent, top)),
    decreases pairs, 1int,
{
    lemma_ascii_utf8(seq![OPEN_BRACE, CLOSE_BRACE]);
    lemma_ascii_utf8(seq![OPEN_BRACE, LINE_FEED]);
    lemma_ascii_utf8(seq![CLOSE_BRACE]);
    lemma_ascii_utf8(Seq::<u8>::empty());
    lemma_indent_utf8(indent);
    if pairs.len() > 0 {
        if top {
            lemma_pairs_utf8(pairs, indent);
        } else {
            lemma_pairs_utf8(pairs, indent + 1);
            let a = seq![OPEN_BRACE, LINE_FEED];
            let b = pair_lines(pairs, indent + 1);
            valid_utf8_concat(a, b);
            valid_utf8_concat(a + b, indent_text(indent));
            valid_utf8_concat(a + b + indent_text(indent), seq![CLOSE_BRACE]);
        }
    }
}

pub proof fn lemma_pairs_utf8(pairs: Seq<(Seq<char>, ValueView)>, inner: nat)
    ensures
        valid_utf8(pair_lines(pairs, inner)),
    decreases pairs, 0int,
{
    if pairs.len() > 0 {
        lemma_pairs_utf8(pairs.drop_last(), inner);
        lemma_indent_utf8(inner);
        lemma_string_utf8(pairs.last().0);
        lemma_value_text_utf8(pairs.last().1, inner);
        lemma_ascii_utf8(seq![SPACE]);
        lemma_ascii_utf8(seq![LINE_FEED]);
        let a = pair_lines(pairs.drop_last(), inner);
        let b = a + indent_text(inner);
        let c = b + string_text(pairs.last().0);
        let d = c + seq![SPACE];
        let e = d + value_text(pairs.last().1, inner);
        valid_utf8_concat(a, indent_text(inner));
        valid_utf8_concat(b, string_text(pairs.last().0));
        valid_utf8_concat(c, seq![SPACE]);
        valid_utf8_concat(d, value_text(pairs.last().1, inner));
        valid_utf8_concat(e, seq![LINE_FEED]);
    }
}


/// Ending a line keeps the output valid.
proof fn lemma_value_written_utf8(f: FormatterView)
    requires
        valid_utf8(f.out),
    ensures
        valid_utf8(value_written(f).out),
{
    lemma_ascii_utf8(seq![LINE_FEED]);
    valid_utf8_concat(f.out, seq![LINE_FEED]);
}

/// Every operation of the streaming formatter keeps what it has written
/// valid UTF-8.
pub proof fn lemma_formatter_keeps_utf8(f: FormatterView, s: Seq<char>)
    requires
        fmt_wf(f),
        valid_utf8(f.out),
    ensures
        valid_utf8(fmt_map_start(f).out),
        valid_utf8(fmt_list_start(f).out),
        can_map_end(f) ==> valid_utf8(fmt_map_end(f).out),
        can_list_end(f) ==> valid_utf8(fmt_list_end(f).out),
        can_key(f) ==> valid_utf8(fmt_key(f, s).out),
        can_string(f) ==> valid_utf8(fmt_string(f, s).out),
{
    lemma_string_utf8(s);
    lemma_ascii_utf8(Seq::<u8>::empty());
    lemma_ascii_utf8(seq![CLOSE_BRACE]);
    lemma_ascii_utf8(seq![OPEN_BRACE, CLOSE_BRACE]);
    lemma_ascii_utf8(seq![OPEN_BRACE, LINE_FEED]);
    lemma_ascii_utf8(seq![SPACE]);
    if f.frames.len() > 0 && !in_list(f) {
        let fr = f.frames.last();
        if can_map_end(f) {
            lemma_indent_utf8(fr->Dict_indent);
            valid_utf8_concat(indent_text(fr->Dict_indent), seq![CLOSE_BRACE]);
            let text = if fr->top {
                Seq::<u8>::empty()
            } else if fr->opened {
                indent_text(fr->Dict_indent) + seq![CLOSE_BRACE]
            } else {
                seq![OPEN_BRACE, CLOSE_BRACE]
            };
            valid_utf8_concat(f.out, text);
            lemma_value_written_utf8(FormatterView { out: f.out + text, frames: f.frames.drop_last() });
        }
        if can_key(f) {
            let need_open = !fr->top && !fr->opened;
            let open = if need_open { seq![OPEN_BRACE, LINE_FEED] } else { Seq::<u8>::empty() };
            lemma_indent_utf8(fr->inner);
            valid_utf8_concat(f.out, open);
            valid_utf8_concat(f.out + open, indent_text(fr->inner));
            valid_utf8_concat(f.out + open + indent_text(fr->inner), string_text(s));
            valid_utf8_concat(f.out + open + indent_text(fr->inner) + string_text(s), seq![SPACE]);
        }
    }
    if !in_list(f) {
        valid_utf8_concat(f.out, string_text(s));
        lemma_value_written_utf8(FormatterView { out: f.out + string_text(s), ..f });
    }
    if can_list_end(f) {
        let fr = f.frames.last();
        if fr->nesting == 0 {
            lemma_list_utf8(fr->bufs.last()->Items_0, fr->List_indent);
            valid_utf8_concat(f.out, list_text(fr->bufs.last()->Items_0, fr->List_indent));
            lemma_value_written_utf8(FormatterView {
                out: f.out + list_text(fr->bufs.last()->Items_0, fr->List_indent),
                frames: f.frames.drop_last(),
            });
        }
    }
}

/// Writing a whole map gives valid UTF-8.
pub proof fn lemma_document_utf8(pairs: Seq<(Seq<char>, ValueView)>)
    ensures
        valid_utf8(map_text(pairs, 0, true)),
{
    lemma_map_utf8(pairs, 0, true);
}

} // verus!
