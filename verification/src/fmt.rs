//! Phig formatter for writing values as phig text.
use vstd::prelude::*;
use vstd::utf8::{encode_utf8, encode_scalar};
use crate::error::{Error, ErrorView};
use crate::parse::{is_delimiter, EventView};
use crate::text::{
    is_white_space, is_control_char, lower_hex, ascii_bytes, str_chars, push_utf8, push_lower_hex,
    char_is_whitespace, char_is_control, lemma_encode_utf8_push,
};
use crate::value::{Value, ValueView, items_view, pairs_view, lemma_views_len, lemma_items_view_index, lemma_pairs_view_index};

verus! {

broadcast use vstd::string::group_string_axioms;

// ASCII bytes of the format.
pub const BACKSLASH: u8 = 0x5C;
pub const QUOTE: u8 = 0x22;
pub const LETTER_N: u8 = 0x6E;
pub const LETTER_R: u8 = 0x72;
pub const LETTER_T: u8 = 0x74;
pub const LETTER_U: u8 = 0x75;
pub const DIGIT_ZERO: u8 = 0x30;
pub const OPEN_BRACE: u8 = 0x7B;
pub const CLOSE_BRACE: u8 = 0x7D;
pub const OPEN_BRACKET: u8 = 0x5B;
pub const CLOSE_BRACKET: u8 = 0x5D;
pub const SPACE: u8 = 0x20;
pub const LINE_FEED: u8 = 0x0A;

// ── the text of a value ─────────────────────────────────────────────

/// A character that may appear in a bare string.
pub open spec fn is_bare_char(c: char) -> bool {
    !is_white_space(c) && !is_delimiter(c)
}

/// A non-empty string of bare characters is written without quotes.
pub open spec fn can_be_bare(s: Seq<char>) -> bool {
    s.len() > 0 && forall|i: int| 0 <= i < s.len() ==> is_bare_char(#[trigger] s[i])
}

/// How a character is written inside double quotes.
pub open spec fn escaped_char(c: char) -> Seq<u8> {
    if c == '"' {
        seq![BACKSLASH, QUOTE]
    } else if c == '\\' {
        seq![BACKSLASH, BACKSLASH]
    } else if c == '\n' {
        seq![BACKSLASH, LETTER_N]
    } else if c == '\r' {
        seq![BACKSLASH, LETTER_R]
    } else if c == '\t' {
        seq![BACKSLASH, LETTER_T]
    } else if c == '\0' {
        seq![BACKSLASH, DIGIT_ZERO]
    } else if is_control_char(c) {
        seq![BACKSLASH, LETTER_U, OPEN_BRACE] + ascii_bytes(lower_hex(c as u32 as nat)) + seq![CLOSE_BRACE]
    } else {
        encode_scalar(c as u32)
    }
}

/// The characters of a string, each escaped as inside double quotes.
pub open spec fn escaped(s: Seq<char>) -> Seq<u8>
    decreases s.len(),
{
    if s.len() == 0 {
        seq![]
    } else {
        escaped(s.drop_last()) + escaped_char(s.last())
    }
}

/// A string as it is written: bare when it can be, else double-quoted.
pub open spec fn string_text(s: Seq<char>) -> Seq<u8> {
    if can_be_bare(s) {
        encode_utf8(s)
    } else {
        seq![QUOTE] + escaped(s) + seq![QUOTE]
    }
}

/// Two spaces per level.
pub open spec fn indent_text(level: nat) -> Seq<u8>
    decreases level,
{
    if level == 0 {
        seq![]
    } else {
        indent_text((level - 1) as nat) + seq![SPACE, SPACE]
    }
}

/// A list holds a map or a list.
pub open spec fn has_compound(items: Seq<ValueView>) -> bool {
    exists|i: int| 0 <= i < items.len() && !(#[trigger] items[i] is Str)
}

/// A value written at indentation `indent`.
pub open spec fn value_text(v: ValueView, indent: nat) -> Seq<u8>
    decreases v, 2int,
{
    match v {
        ValueView::Str(s) => string_text(s),
        ValueView::List(items) => list_text(items, indent),
        ValueView::Dict(pairs) => map_text(pairs, indent, false),
    }
}

/// A list: `[]` when empty; its items on one line between `[` and `]`
/// when none of them is a container; else one item per line, indented
/// one level deeper than the list.
pub open spec fn list_text(items: Seq<ValueView>, indent: nat) -> Seq<u8>
    decreases items, 1int,
{
    if items.len() == 0 {
        seq![OPEN_BRACKET, CLOSE_BRACKET]
    } else if has_compound(items) {
        seq![OPEN_BRACKET, LINE_FEED] + list_lines(items, indent + 1) + indent_text(indent) + seq![CLOSE_BRACKET]
    } else {
        seq![OPEN_BRACKET] + inline_items(items, indent) + seq![CLOSE_BRACKET]
    }
}

/// Items one per line at indentation `inner`.
pub open spec fn list_lines(items: Seq<ValueView>, inner: nat) -> Seq<u8>
    decreases items, 0int,
{
    if items.len() == 0 {
        seq![]
    } else {
        list_lines(items.drop_last(), inner) + indent_text(inner) + value_text(items.last(), inner)
            + seq![LINE_FEED]
    }
}

/// Items separated by single spaces.
pub open spec fn inline_items(items: Seq<ValueView>, indent: nat) -> Seq<u8>
    decreases items, 0int,
{
    if items.len() == 0 {
        seq![]
    } else if items.len() == 1 {
        value_text(items[0], indent)
    } else {
        inline_items(items.drop_last(), indent) + seq![SPACE] + value_text(items.last(), indent)
    }
}

/// A map: each pair on its own line; a nested map between `{` and `}`
/// (`{}` when empty) with its pairs one level deeper, the top-level map bare.
pub open spec fn map_text(pairs: Seq<(Seq<char>, ValueView)>, indent: nat, top: bool) -> Seq<u8>
    decreases pairs, 1int,
{
    if pairs.len() == 0 {
        if top {
            seq![]
        } else {
            seq![OPEN_BRACE, CLOSE_BRACE]
        }
    } else if top {
        pair_lines(pairs, indent)
    } else {
        seq![OPEN_BRACE, LINE_FEED] + pair_lines(pairs, indent + 1) + indent_text(indent) + seq![CLOSE_BRACE]
    }
}

/// Pairs one per line at indentation `inner`: the key, a space, the value.
pub open spec fn pair_lines(pairs: Seq<(Seq<char>, ValueView)>, inner: nat) -> Seq<u8>
    decreases pairs, 0int,
{
    if pairs.len() == 0 {
        seq![]
    } else {
        pair_lines(pairs.drop_last(), inner) + indent_text(inner) + string_text(pairs.last().0)
            + seq![SPACE] + value_text(pairs.last().1, inner) + seq![LINE_FEED]
    }
}

/// How deeply containers nest in a value.
pub open spec fn value_depth(v: ValueView) -> nat
    decreases v,
{
    match v {
        ValueView::Str(_) => 0,
        ValueView::List(items) => 1 + items_depth(items),
        ValueView::Dict(pairs) => 1 + pairs_depth(pairs),
    }
}

pub open spec fn items_depth(items: Seq<ValueView>) -> nat
    decreases items,
{
    if items.len() == 0 {
        0
    } else {
        let a = items_depth(items.drop_last());
        let b = value_depth(items.last());
        if a >= b { a } else { b }
    }
}

pub open spec fn pairs_depth(pairs: Seq<(Seq<char>, ValueView)>) -> nat
    decreases pairs,
{
    if pairs.len() == 0 {
        0
    } else {
        let a = pairs_depth(pairs.drop_last());
        let b = value_depth(pairs.last().1);
        if a >= b { a } else { b }
    }
}

// ── writing ─────────────────────────────────────────────────────────

/// Whether `s` can be written bare.
fn can_be_bare_chars(s: &Vec<char>) -> (b: bool)
    ensures
        b == can_be_bare(s@),
{
    if s.len() == 0 {
        return false;
    }
    let mut i: usize = 0;
    while i < s.len()
        invariant
            i <= s@.len(),
            forall|j: int| 0 <= j < i ==> is_bare_char(#[trigger] s@[j]),
        decreases s@.len() - i,
    {
        let c = s[i];
        if char_is_whitespace(c) || c == '{' || c == '}' || c == '[' || c == ']' || c == '"' || c
            == '#' || c == '\'' || c == ';' {
            return false;
        }
        i = i + 1;
    }
    true
}

/// Writes a string, bare when it can be, else double-quoted with escapes.
fn format_string(s: &str, w: &mut Vec<u8>)
    ensures
        final(w)@ == old(w)@ + string_text(s@),
{
    let chars = str_chars(s);
    if can_be_bare_chars(&chars) {
        let mut i: usize = 0;
        while i < chars.len()
            invariant
                i <= chars@.len(),
                chars@ == s@,
                w@ == old(w)@ + encode_utf8(chars@.take(i as int)),
            decreases chars@.len() - i,
        {
            proof {
                lemma_encode_utf8_push(chars@.take(i as int), chars@[i as int]);
                assert(chars@.take(i + 1) =~= chars@.take(i as int).push(chars@[i as int]));
            }
            push_utf8(w, chars[i]);
            i = i + 1;
        }
        assert(chars@.take(chars@.len() as int) =~= chars@);
    } else {
        w.push(QUOTE);
        let ghost start = w@;
        let mut i: usize = 0;
        while i < chars.len()
            invariant
                i <= chars@.len(),
                chars@ == s@,
                w@ == start + escaped(chars@.take(i as int)),
            decreases chars@.len() - i,
        {
            let c = chars[i];
            assert(chars@.take(i + 1).drop_last() =~= chars@.take(i as int));
            let ghost before = w@;
            if c == '"' {
                w.push(BACKSLASH);
                w.push(QUOTE);
            } else if c == '\\' {
                w.push(BACKSLASH);
                w.push(BACKSLASH);
            } else if c == '\n' {
                w.push(BACKSLASH);
                w.push(LETTER_N);
            } else if c == '\r' {
                w.push(BACKSLASH);
                w.push(LETTER_R);
            } else if c == '\t' {
                w.push(BACKSLASH);
                w.push(LETTER_T);
            } else if c == '\0' {
                w.push(BACKSLASH);
                w.push(DIGIT_ZERO);
            } else if char_is_control(c) {
                w.push(BACKSLASH);
                w.push(LETTER_U);
                w.push(OPEN_BRACE);
                push_lower_hex(w, c as u32);
                w.push(CLOSE_BRACE);
            } else {
                push_utf8(w, c);
            }
            assert(w@ =~= before + escaped_char(c));
            i = i + 1;
        }
        assert(chars@.take(chars@.len() as int) =~= chars@);
        w.push(QUOTE);
    }
}

/// Writes `level` levels of indentation.
fn write_indent(w: &mut Vec<u8>, level: usize)
    ensures
        final(w)@ == old(w)@ + indent_text(level as nat),
{
    let mut i: usize = 0;
    while i < level
        invariant
            i <= level,
            w@ == old(w)@ + indent_text(i as nat),
        decreases level - i,
    {
        w.push(SPACE);
        w.push(SPACE);
        i = i + 1;
        assert(w@ =~= old(w)@ + indent_text(i as nat));
    }
}


pub proof fn lemma_items_depth(items: Seq<ValueView>, i: int)
    requires
        0 <= i < items.len(),
    ensures
        value_depth(items[i]) <= items_depth(items),
    decreases items.len(),
{
    if i < items.len() - 1 {
        lemma_items_depth(items.drop_last(), i);
    }
}

pub proof fn lemma_pairs_depth(pairs: Seq<(Seq<char>, ValueView)>, i: int)
    requires
        0 <= i < pairs.len(),
    ensures
        value_depth(pairs[i].1) <= pairs_depth(pairs),
    decreases pairs.len(),
{
    if i < pairs.len() - 1 {
        lemma_pairs_depth(pairs.drop_last(), i);
    }
}

/// Writes a value at indentation `indent`.
fn format_value(v: &Value, indent: usize, w: &mut Vec<u8>)
    requires
        indent + value_depth(v@) <= usize::MAX,
    ensures
        final(w)@ == old(w)@ + value_text(v@, indent as nat),
    decreases v@, 2int,
{
    match v {
        Value::String(s) => format_string(s.as_str(), w),
        Value::List(items) => format_list(items, indent, w),
        Value::Dict(pairs) => format_map(pairs, indent, false, w),
    }
}

/// Writes a list at indentation `indent`.
fn format_list(items: &Vec<Value>, indent: usize, w: &mut Vec<u8>)
    requires
        indent + 1 + items_depth(items_view(items@)) <= usize::MAX,
    ensures
        final(w)@ == old(w)@ + list_text(items_view(items@), indent as nat),
    decreases items_view(items@), 1int,
{
    let ghost iv = items_view(items@);
    proof {
        lemma_views_len(items@, seq![]);
    }
    if items.len() == 0 {
        w.push(OPEN_BRACKET);
        w.push(CLOSE_BRACKET);
        assert(w@ =~= old(w)@ + list_text(iv, indent as nat));
        return;
    }
    let mut compound = false;
    let mut j: usize = 0;
    while j < items.len()
        invariant
            j <= items@.len(),
            iv == items_view(items@),
            iv.len() == items@.len(),
            compound == exists|k: int| 0 <= k < j && !(#[trigger] iv[k] is Str),
        decreases items@.len() - j,
    {
        proof {
            lemma_items_view_index(items@, j as int);
        }
        let is_container = match &items[j] {
            Value::String(_) => false,
            _ => true,
        };
        if is_container {
            compound = true;
        }
        proof {
            if !compound {
                assert forall|k: int| 0 <= k < j + 1 implies (#[trigger] iv[k] is Str) by {}
            } else if is_container {
                assert(!(iv[j as int] is Str));
            }
        }
        j = j + 1;
    }
    assert(compound == has_compound(iv));
    let ghost start = w@;
    if compound {
        let inner = indent + 1;
        w.push(OPEN_BRACKET);
        w.push(LINE_FEED);
        let ghost head = w@;
        let mut i: usize = 0;
        assert(iv.take(0) =~= Seq::<ValueView>::empty());
        while i < items.len()
            invariant
                i <= items@.len(),
                iv == items_view(items@),
                iv.len() == items@.len(),
                inner == indent + 1,
                indent + 1 + items_depth(iv) <= usize::MAX,
                w@ == head + list_lines(iv.take(i as int), inner as nat),
            decreases items@.len() - i,
        {
            proof {
                lemma_items_view_index(items@, i as int);
                lemma_items_depth(iv, i as int);
                assert(iv.take(i + 1).drop_last() =~= iv.take(i as int));
            }
            write_indent(w, inner);
            format_value(&items[i], inner, w);
            w.push(LINE_FEED);
            i = i + 1;
        }
        assert(iv.take(items@.len() as int) =~= iv);
        write_indent(w, indent);
        w.push(CLOSE_BRACKET);
        assert(w@ =~= old(w)@ + list_text(iv, indent as nat));
    } else {
        w.push(OPEN_BRACKET);
        let ghost head = w@;
        let mut i: usize = 0;
        assert(iv.take(0) =~= Seq::<ValueView>::empty());
        while i < items.len()
            invariant
                i <= items@.len(),
                iv == items_view(items@),
                iv.len() == items@.len(),
                indent + 1 + items_depth(iv) <= usize::MAX,
                w@ == head + inline_items(iv.take(i as int), indent as nat),
            decreases items@.len() - i,
        {
            proof {
                lemma_items_view_index(items@, i as int);
                lemma_items_depth(iv, i as int);
                assert(iv.take(i + 1).drop_last() =~= iv.take(i as int));
            }
            if i > 0 {
                w.push(SPACE);
            }
            format_value(&items[i], indent, w);
            proof {
                if i == 0 {
                    assert(iv.take(1)[0] == iv[0]);
                }
            }
            i = i + 1;
        }
        assert(iv.take(items@.len() as int) =~= iv);
        w.push(CLOSE_BRACKET);
        assert(w@ =~= old(w)@ + list_text(iv, indent as nat));
    }
}

/// Writes a map at indentation `indent`; the top-level map has no braces.
fn format_map(pairs: &Vec<(String, Value)>, indent: usize, top_level: bool, w: &mut Vec<u8>)
    requires
        indent + 1 + pairs_depth(pairs_view(pairs@)) <= usize::MAX,
    ensures
        final(w)@ == old(w)@ + map_text(pairs_view(pairs@), indent as nat, top_level),
    decreases pairs_view(pairs@), 1int,
{
    let ghost pv = pairs_view(pairs@);
    proof {
        lemma_views_len(seq![], pairs@);
    }
    if pairs.len() == 0 {
        if !top_level {
            w.push(OPEN_BRACE);
            w.push(CLOSE_BRACE);
        }
        assert(w@ =~= old(w)@ + map_text(pv, indent as nat, top_level));
        return;
    }
    let inner = if top_level {
        indent
    } else {
        indent + 1
    };
    if !top_level {
        w.push(OPEN_BRACE);
        w.push(LINE_FEED);
    }
    let ghost head = w@;
    let mut i: usize = 0;
    assert(pv.take(0) =~= Seq::<(Seq<char>, ValueView)>::empty());
    while i < pairs.len()
        invariant
            i <= pairs@.len(),
            pv == pairs_view(pairs@),
            pv.len() == pairs@.len(),
            inner <= indent + 1,
            indent + 1 + pairs_depth(pv) <= usize::MAX,
            w@ == head + pair_lines(pv.take(i as int), inner as nat),
        decreases pairs@.len() - i,
    {
        proof {
            lemma_pairs_view_index(pairs@, i as int);
            lemma_pairs_depth(pv, i as int);
            assert(pv.take(i + 1).drop_last() =~= pv.take(i as int));
        }
        let pair = &pairs[i];
        write_indent(w, inner);
        format_string(pair.0.as_str(), w);
        w.push(SPACE);
        format_value(&pair.1, inner, w);
        w.push(LINE_FEED);
        i = i + 1;
    }
    assert(pv.take(pairs@.len() as int) =~= pv);
    if !top_level {
        write_indent(w, indent);
        w.push(CLOSE_BRACE);
    }
    assert(w@ =~= old(w)@ + map_text(pv, indent as nat, top_level));
}


// ── the streaming formatter ─────────────────────────────────────────

/// A container buffered inside a list: the items of a list, or the pairs of
/// a map with the key that awaits its value.
pub enum BufView {
    Items(Seq<ValueView>),
    Pairs(Seq<(Seq<char>, ValueView)>, Option<Seq<char>>),
}

/// An open container of the formatter: a map being written (at
/// indentation `indent`, its pairs at `inner`), or a list being buffered.
pub enum FmtFrame {
    Dict { indent: nat, inner: nat, top: bool, opened: bool, pending: bool },
    List { indent: nat, bufs: Seq<BufView>, nesting: nat },
}

/// The formatter as the specification sees it: what it has written, and its open containers.
pub struct FormatterView {
    pub out: Seq<u8>,
    pub frames: Seq<FmtFrame>,
}

/// A finished value goes into the innermost buffered container.
pub open spec fn buf_push(bufs: Seq<BufView>, v: ValueView) -> Seq<BufView> {
    bufs.update(
        bufs.len() - 1,
        match bufs.last() {
            BufView::Items(items) => BufView::Items(items.push(v)),
            BufView::Pairs(pairs, key) => BufView::Pairs(pairs.push((key->Some_0, v)), None),
        },
    )
}

/// The innermost buffered container can take a value.
pub open spec fn buf_takes_value(bufs: Seq<BufView>) -> bool {
    bufs.len() > 0 && (bufs.last() is Items || bufs.last()->Pairs_1 is Some)
}

/// The formatter is in a list: containers and strings are buffered.
pub open spec fn in_list(f: FormatterView) -> bool {
    f.frames.len() > 0 && f.frames.last() is List
}

/// With the innermost list's buffers replaced.
pub open spec fn with_bufs(f: FormatterView, bufs: Seq<BufView>, nesting: nat) -> FormatterView {
    let fr = f.frames.last();
    FormatterView {
        frames: f.frames.update(f.frames.len() - 1, FmtFrame::List { indent: fr->List_indent, bufs, nesting }),
        ..f
    }
}

/// After a value is written in a map, the line ends.
pub open spec fn value_written(f: FormatterView) -> FormatterView {
    if f.frames.len() > 0 && f.frames.last() is Dict && f.frames.last()->pending {
        let fr = f.frames.last();
        FormatterView {
            out: f.out + seq![LINE_FEED],
            frames: f.frames.update(f.frames.len() - 1, FmtFrame::Dict { indent: fr->Dict_indent, inner: fr->inner, top: fr->top, opened: fr->opened, pending: false }),
        }
    } else {
        f
    }
}

/// The indentation of a container opened here.
pub open spec fn child_indent(f: FormatterView) -> nat {
    if f.frames.len() > 0 && f.frames.last() is Dict {
        f.frames.last()->inner
    } else {
        0
    }
}

pub open spec fn fmt_map_start(f: FormatterView) -> FormatterView {
    if in_list(f) {
        let fr = f.frames.last();
        with_bufs(f, fr->bufs.push(BufView::Pairs(seq![], None)), fr->nesting + 1)
    } else {
        let top = !(f.frames.len() > 0 && f.frames.last() is Dict);
        let indent = child_indent(f);
        FormatterView {
            frames: f.frames.push(
                FmtFrame::Dict {
                    indent,
                    inner: if top { indent } else { indent + 1 },
                    top,
                    opened: false,
                    pending: false,
                },
            ),
            ..f
        }
    }
}

pub open spec fn can_map_end(f: FormatterView) -> bool {
    if in_list(f) {
        let fr = f.frames.last();
        fr->nesting > 0 && fr->bufs.last() is Pairs && buf_takes_value(fr->bufs.drop_last())
    } else {
        f.frames.len() > 0 && f.frames.last() is Dict
    }
}

pub open spec fn fmt_map_end(f: FormatterView) -> FormatterView {
    if in_list(f) {
        let fr = f.frames.last();
        let bufs = fr->bufs;
        let inner = bufs.last();
        with_bufs(f, buf_push(bufs.drop_last(), ValueView::Dict(inner->Pairs_0)), (fr->nesting - 1) as nat)
    } else {
        let fr = f.frames.last();
        let text = if fr->top {
            seq![]
        } else if fr->opened {
            indent_text(fr->Dict_indent) + seq![CLOSE_BRACE]
        } else {
            seq![OPEN_BRACE, CLOSE_BRACE]
        };
        value_written(FormatterView { out: f.out + text, frames: f.frames.drop_last() })
    }
}

pub open spec fn fmt_list_start(f: FormatterView) -> FormatterView {
    if in_list(f) {
        let fr = f.frames.last();
        with_bufs(f, fr->bufs.push(BufView::Items(seq![])), fr->nesting + 1)
    } else {
        FormatterView {
            frames: f.frames.push(
                FmtFrame::List { indent: child_indent(f), bufs: seq![BufView::Items(seq![])], nesting: 0 },
            ),
            ..f
        }
    }
}

pub open spec fn can_list_end(f: FormatterView) -> bool {
    &&& in_list(f)
    &&& f.frames.last()->bufs.last() is Items
    &&& f.frames.last()->nesting > 0 ==> buf_takes_value(f.frames.last()->bufs.drop_last())
}

pub open spec fn fmt_list_end(f: FormatterView) -> FormatterView {
    let fr = f.frames.last();
    let bufs = fr->bufs;
    if fr->nesting > 0 {
        with_bufs(f, buf_push(bufs.drop_last(), ValueView::List(bufs.last()->Items_0)), (fr->nesting - 1) as nat)
    } else {
        value_written(
            FormatterView {
                out: f.out + list_text(bufs.last()->Items_0, fr->List_indent),
                frames: f.frames.drop_last(),
            },
        )
    }
}

pub open spec fn can_key(f: FormatterView) -> bool {
    if in_list(f) {
        f.frames.last()->bufs.last() is Pairs
    } else {
        f.frames.len() > 0 && f.frames.last() is Dict
    }
}

pub open spec fn fmt_key(f: FormatterView, k: Seq<char>) -> FormatterView {
    let fr = f.frames.last();
    if in_list(f) {
        let bufs = fr->bufs;
        with_bufs(
            f,
            bufs.update(bufs.len() - 1, BufView::Pairs(bufs.last()->Pairs_0, Some(k))),
            fr->nesting,
        )
    } else {
        let need_open = !fr->top && !fr->opened;
        FormatterView {
            out: f.out + (if need_open { seq![OPEN_BRACE, LINE_FEED] } else { seq![] })
                + indent_text(fr->inner) + string_text(k) + seq![SPACE],
            frames: f.frames.update(
                f.frames.len() - 1,
                FmtFrame::Dict { indent: fr->Dict_indent, inner: fr->inner, top: fr->top, opened: fr->opened || need_open, pending: true },
            ),
        }
    }
}

pub open spec fn can_string(f: FormatterView) -> bool {
    in_list(f) ==> buf_takes_value(f.frames.last()->bufs)
}

pub open spec fn fmt_string(f: FormatterView, s: Seq<char>) -> FormatterView {
    if in_list(f) {
        let fr = f.frames.last();
        with_bufs(f, buf_push(fr->bufs, ValueView::Str(s)), fr->nesting)
    } else {
        value_written(FormatterView { out: f.out + string_text(s), ..f })
    }
}

/// The formatter's invariant: maps nest with one more level of
/// indentation each below the top-level map, a list is buffered only as the
/// innermost container, and its buffers hold the list and the containers
/// open inside it.
pub open spec fn fmt_wf(f: FormatterView) -> bool {
    &&& forall|i: int| 0 <= i < f.frames.len() - 1 ==> (#[trigger] f.frames[i]) is Dict
    &&& forall|i: int|
        0 <= i < f.frames.len() && (#[trigger] f.frames[i]) is Dict ==> {
            &&& f.frames[i]->top == (i == 0)
            &&& f.frames[i]->Dict_indent == (if i == 0 { 0 } else { (i - 1) as nat })
            &&& f.frames[i]->inner == i
        }
    &&& forall|i: int|
        0 <= i < f.frames.len() && (#[trigger] f.frames[i]) is List ==> {
            &&& f.frames[i]->List_indent == (if i == 0 { 0 } else { (i - 1) as nat })
            &&& f.frames[i]->bufs.len() == f.frames[i]->nesting + 1
            &&& f.frames[i]->bufs[0] is Items
        }
}


/// A container buffered inside a list.
enum ListBuildFrame {
    List(Vec<Value>),
    Dict(Vec<(String, Value)>, Option<String>),
}

impl View for ListBuildFrame {
    type V = BufView;

    closed spec fn view(&self) -> BufView {
        match self {
            ListBuildFrame::List(items) => BufView::Items(items_view(items@)),
            ListBuildFrame::Dict(pairs, key) => BufView::Pairs(
                pairs_view(pairs@),
                match key {
                    Some(k) => Some(k@),
                    None => None,
                },
            ),
        }
    }
}

spec fn buf_views(bufs: Seq<ListBuildFrame>) -> Seq<BufView> {
    bufs.map_values(|b: ListBuildFrame| b@)
}

/// An open container of the formatter.
enum FormatFrame {
    Dict { indent: usize, inner_indent: usize, top_level: bool, opened: bool, pending_key: bool },
    List { indent: usize, stack: Vec<ListBuildFrame>, nesting: usize },
}

impl View for FormatFrame {
    type V = FmtFrame;

    closed spec fn view(&self) -> FmtFrame {
        match self {
            FormatFrame::Dict { indent, inner_indent, top_level, opened, pending_key } => FmtFrame::Dict {
                indent: *indent as nat,
                inner: *inner_indent as nat,
                top: *top_level,
                opened: *opened,
                pending: *pending_key,
            },
            FormatFrame::List { indent, stack, nesting } => FmtFrame::List {
                indent: *indent as nat,
                bufs: buf_views(stack@),
                nesting: *nesting as nat,
            },
        }
    }
}

spec fn frame_views(frames: Seq<FormatFrame>) -> Seq<FmtFrame> {
    frames.map_values(|f: FormatFrame| f@)
}

/// A phig formatter.
///
/// Can format a complete [`Value`] tree via [`write_value`](Formatter::write_value),
/// or be driven incrementally with [`map_start`](Formatter::map_start),
/// [`key`](Formatter::key), [`string`](Formatter::string), etc.
///
/// Lists are buffered internally to decide between inline (`[a b c]`)
/// and multiline formatting.
pub struct Formatter {
    writer: Vec<u8>,
    stack: Vec<FormatFrame>,
}

impl View for Formatter {
    type V = FormatterView;

    closed spec fn view(&self) -> FormatterView {
        FormatterView { out: self.writer@, frames: frame_views(self.stack@) }
    }
}

/// Adds a finished value to the innermost buffered container.
fn list_buf_push(stack: &mut Vec<ListBuildFrame>, value: Value)
    requires
        buf_takes_value(buf_views(old(stack)@)),
    ensures
        buf_views(final(stack)@) == buf_push(buf_views(old(stack)@), value@),
{
    let ghost old_views = buf_views(stack@);
    match stack.pop().unwrap() {
        ListBuildFrame::List(mut items) => {
            let ghost old_items = items@;
            proof {
                crate::value::lemma_items_view_push(old_items, value);
            }
            items.push(value);
            stack.push(ListBuildFrame::List(items));
        },
        ListBuildFrame::Dict(mut pairs, key) => {
            let ghost old_pairs = pairs@;
            let k = key.unwrap();
            proof {
                crate::value::lemma_pairs_view_push(old_pairs, k, value);
            }
            pairs.push((k, value));
            stack.push(ListBuildFrame::Dict(pairs, None));
        },
    }
    assert(buf_views(stack@) =~= buf_push(old_views, value@));
}

impl Formatter {
    /// Create a new formatter that writes to `writer`.
    pub fn new(writer: Vec<u8>) -> (f: Formatter)
        ensures
            f@.out == writer@,
            f@.frames.len() == 0,
            f.wf(),
    {
        let f = Formatter { writer, stack: Vec::new() };
        assert(frame_views(f.stack@) =~= Seq::<FmtFrame>::empty());
        f
    }

    /// The formatter's invariant holds.
    pub open spec fn wf(&self) -> bool {
        fmt_wf(self@)
    }

    /// Consume the formatter and return the underlying writer.
    pub fn into_inner(self) -> (w: Vec<u8>)
        ensures
            w@ == self@.out,
    {
        self.writer
    }

    /// Format a [`Value`] as top-level phig output.
    ///
    /// The value must be a [`Value::Dict`].
    pub fn write_value(&mut self, value: &Value) -> (r: Result<(), Error>)
        requires
            value_depth(value@) <= usize::MAX,
        ensures
            final(self)@.frames == old(self)@.frames,
            match value@ {
                ValueView::Dict(pairs) => r is Ok && final(self)@.out == old(self)@.out + map_text(pairs, 0, true),
                _ => r matches Err(e) && e@ == (ErrorView::Syntax { msg: "top-level value must be a map"@, pos: None }) && final(self)@.out == old(self)@.out,
            },
    {
        match value {
            Value::Dict(pairs) => {
                format_map(pairs, 0, true, &mut self.writer);
                Ok(())
            },
            _ => Err(Error::new("top-level value must be a map")),
        }
    }
}


impl Formatter {
    /// The innermost container is a buffered list.
    fn top_is_list(&self) -> (b: bool)
        ensures
            b == in_list(self@),
    {
        let n = self.stack.len();
        if n == 0 {
            false
        } else {
            match &self.stack[n - 1] {
                FormatFrame::List { .. } => true,
                _ => false,
            }
        }
    }

    /// Ends the line of a map's pair after its value.
    fn value_written(&mut self)
        ensures
            final(self)@ == value_written(old(self)@),
    {
        let n = self.stack.len();
        if n > 0 {
            let pending = match &self.stack[n - 1] {
                FormatFrame::Dict { pending_key, .. } => *pending_key,
                _ => false,
            };
            if pending {
                let ghost old_frames = self.stack@;
                match self.stack.pop().unwrap() {
                    FormatFrame::Dict { indent, inner_indent, top_level, opened, .. } => {
                        self.stack.push(
                            FormatFrame::Dict { indent, inner_indent, top_level, opened, pending_key: false },
                        );
                    },
                    other => {
                        self.stack.push(other);
                    },
                }
                let ghost fr = frame_views(old_frames).last();
                let ghost done = FmtFrame::Dict {
                    indent: fr->Dict_indent,
                    inner: fr->inner,
                    top: fr->top,
                    opened: fr->opened,
                    pending: false,
                };
                assert(frame_views(self.stack@) =~= frame_views(old_frames).update(n - 1, done));
                let ghost before = self.writer@;
                self.writer.push(LINE_FEED);
                assert(self.writer@ =~= before + seq![LINE_FEED]);
            }
        }
    }

    /// Opens a buffered list frame with the given buffers.
    fn push_list_frame(&mut self, indent: usize, stack: Vec<ListBuildFrame>, nesting: usize)
        ensures
            final(self).writer == old(self).writer,
            final(self)@.frames == old(self)@.frames.push(
                FmtFrame::List { indent: indent as nat, bufs: buf_views(stack@), nesting: nesting as nat },
            ),
    {
        let ghost old_frames = self.stack@;
        self.stack.push(FormatFrame::List { indent, stack, nesting });
        assert(frame_views(self.stack@) =~= frame_views(old_frames).push(
            FmtFrame::List { indent: indent as nat, bufs: buf_views(stack@), nesting: nesting as nat },
        ));
    }

    /// Takes the innermost frame, which is a buffered list, off the stack.
    fn take_list_top(&mut self) -> (r: (usize, Vec<ListBuildFrame>, usize))
        requires
            in_list(old(self)@),
        ensures
            final(self).writer == old(self).writer,
            final(self)@.frames == old(self)@.frames.drop_last(),
            old(self)@.frames.last() == (FmtFrame::List { indent: r.0 as nat, bufs: buf_views(r.1@), nesting: r.2 as nat }),
    {
        let ghost old_frames = self.stack@;
        let top = self.stack.pop().unwrap();
        assert(frame_views(self.stack@) =~= frame_views(old_frames).drop_last());
        match top {
            FormatFrame::List { indent, stack, nesting } => (indent, stack, nesting),
            FormatFrame::Dict { .. } => (0, Vec::new(), 0),
        }
    }
}


impl Formatter {
    /// Opens a map frame.
    fn push_dict_frame(&mut self, indent: usize, inner_indent: usize, top_level: bool)
        ensures
            final(self).writer == old(self).writer,
            final(self)@.frames == old(self)@.frames.push(
                FmtFrame::Dict {
                    indent: indent as nat,
                    inner: inner_indent as nat,
                    top: top_level,
                    opened: false,
                    pending: false,
                },
            ),
    {
        let ghost old_frames = self.stack@;
        self.stack.push(
            FormatFrame::Dict { indent, inner_indent, top_level, opened: false, pending_key: false },
        );
        assert(frame_views(self.stack@) =~= frame_views(old_frames).push(
            FmtFrame::Dict {
                indent: indent as nat,
                inner: inner_indent as nat,
                top: top_level,
                opened: false,
                pending: false,
            },
        ));
    }

    /// Begin a map. Call [`key`](Self::key) and a value method for each entry,
    /// then [`map_end`](Self::map_end) to close.
    pub fn map_start(&mut self) -> (r: Result<(), Error>)
        requires
            old(self).wf(),
        ensures
            final(self)@ == fmt_map_start(old(self)@),
            final(self).wf(),
            r is Ok,
    {
        let ghost f = self@;
        if self.top_is_list() {
            let (indent, mut bufs, nesting) = self.take_list_top();
            let new_nesting = bufs.len();
            let pairs: Vec<(String, Value)> = Vec::new();
            let ghost old_bufs = buf_views(bufs@);
            bufs.push(ListBuildFrame::Dict(pairs, None));
            assert(buf_views(bufs@) =~= old_bufs.push(BufView::Pairs(seq![], None)));
            self.push_list_frame(indent, bufs, new_nesting);
            assert(self@.frames =~= fmt_map_start(f).frames);
            assert(fmt_wf(self@)) by {
                assert forall|i: int| 0 <= i < self@.frames.len() - 1 implies self@.frames[i] == f.frames[i] by {}
            }
            return Ok(());
        }
        let n = self.stack.len();
        let (indent, top_level) = if n > 0 {
            match &self.stack[n - 1] {
                FormatFrame::Dict { inner_indent, .. } => (*inner_indent, false),
                _ => (0, true),
            }
        } else {
            (0, true)
        };
        let inner_indent = if top_level {
            indent
        } else {
            indent + 1
        };
        self.push_dict_frame(indent, inner_indent, top_level);
        assert(self@.frames =~= fmt_map_start(f).frames);
        assert(fmt_wf(self@)) by {
            assert forall|i: int| 0 <= i < self@.frames.len() - 1 implies self@.frames[i] == f.frames[i] by {}
        }
        Ok(())
    }

    /// Begin a list. Call value methods for each element, then
    /// [`list_end`](Self::list_end) to close.
    pub fn list_start(&mut self) -> (r: Result<(), Error>)
        requires
            old(self).wf(),
        ensures
            final(self)@ == fmt_list_start(old(self)@),
            final(self).wf(),
            r is Ok,
    {
        let ghost f = self@;
        if self.top_is_list() {
            let (indent, mut bufs, nesting) = self.take_list_top();
            let new_nesting = bufs.len();
            let items: Vec<Value> = Vec::new();
            let ghost old_bufs = buf_views(bufs@);
            bufs.push(ListBuildFrame::List(items));
            assert(buf_views(bufs@) =~= old_bufs.push(BufView::Items(seq![])));
            self.push_list_frame(indent, bufs, new_nesting);
            assert(self@.frames =~= fmt_list_start(f).frames);
            assert(fmt_wf(self@)) by {
                assert forall|i: int| 0 <= i < self@.frames.len() - 1 implies self@.frames[i] == f.frames[i] by {}
            }
            return Ok(());
        }
        let n = self.stack.len();
        let indent = if n > 0 {
            match &self.stack[n - 1] {
                FormatFrame::Dict { inner_indent, .. } => *inner_indent,
                _ => 0,
            }
        } else {
            0
        };
        let items: Vec<Value> = Vec::new();
        let mut bufs: Vec<ListBuildFrame> = Vec::new();
        bufs.push(ListBuildFrame::List(items));
        assert(buf_views(bufs@) =~= seq![BufView::Items(seq![])]);
        self.push_list_frame(indent, bufs, 0);
        assert(self@.frames =~= fmt_list_start(f).frames);
        assert(fmt_wf(self@)) by {
            assert forall|i: int| 0 <= i < self@.frames.len() - 1 implies self@.frames[i] == f.frames[i] by {}
        }
        Ok(())
    }

    /// Emit a string value.
    pub fn string(&mut self, value: String) -> (r: Result<(), Error>)
        requires
            old(self).wf(),
            can_string(old(self)@),
        ensures
            final(self)@ == fmt_string(old(self)@, value@),
            final(self).wf(),
            r is Ok,
    {
        let ghost f = self@;
        if self.top_is_list() {
            let (indent, mut bufs, nesting) = self.take_list_top();
            list_buf_push(&mut bufs, Value::String(value));
            self.push_list_frame(indent, bufs, nesting);
            assert(self@.frames =~= fmt_string(f, value@).frames);
            assert(fmt_wf(self@)) by {
                assert forall|i: int| 0 <= i < self@.frames.len() - 1 implies self@.frames[i] == f.frames[i] by {}
            }
            return Ok(());
        }
        format_string(value.as_str(), &mut self.writer);
        self.value_written();
        assert(fmt_wf(self@)) by {
            assert forall|i: int| 0 <= i < self@.frames.len() - 1 implies self@.frames[i] == f.frames[i] by {}
        }
        Ok(())
    }

    /// Emit a map key. Must be followed by exactly one value method call.
    pub fn key(&mut self, k: String) -> (r: Result<(), Error>)
        requires
            old(self).wf(),
            can_key(old(self)@),
        ensures
            final(self)@ == fmt_key(old(self)@, k@),
            final(self).wf(),
            r is Ok,
    {
        let ghost f = self@;
        if self.top_is_list() {
            let (indent, mut bufs, nesting) = self.take_list_top();
            let ghost old_bufs = buf_views(bufs@);
            match bufs.pop().unwrap() {
                ListBuildFrame::Dict(pairs, _) => {
                    bufs.push(ListBuildFrame::Dict(pairs, Some(k)));
                },
                other => {
                    bufs.push(other);
                },
            }
            assert(buf_views(bufs@) =~= old_bufs.update(
                old_bufs.len() - 1,
                BufView::Pairs(old_bufs.last()->Pairs_0, Some(k@)),
            ));
            self.push_list_frame(indent, bufs, nesting);
            assert(self@.frames =~= fmt_key(f, k@).frames);
            assert(fmt_wf(self@)) by {
                assert forall|i: int| 0 <= i < self@.frames.len() - 1 implies self@.frames[i] == f.frames[i] by {}
            }
            return Ok(());
        }
        let n = self.stack.len();
        let ghost old_frames = self.stack@;
        let (indent, inner_indent, top_level, opened) = match self.stack.pop().unwrap() {
            FormatFrame::Dict { indent, inner_indent, top_level, opened, .. } => (
                indent,
                inner_indent,
                top_level,
                opened,
            ),
            FormatFrame::List { indent, .. } => (indent, 0, true, true),
        };
        let need_open = !top_level && !opened;
        self.stack.push(
            FormatFrame::Dict { indent, inner_indent, top_level, opened: opened || need_open, pending_key: true },
        );
        assert(frame_views(self.stack@) =~= fmt_key(f, k@).frames);
        let ghost before = self.writer@;
        if need_open {
            self.writer.push(OPEN_BRACE);
            self.writer.push(LINE_FEED);
        }
        write_indent(&mut self.writer, inner_indent);
        format_string(k.as_str(), &mut self.writer);
        self.writer.push(SPACE);
        assert(self.writer@ =~= fmt_key(f, k@).out);
        assert(fmt_wf(self@)) by {
            assert forall|i: int| 0 <= i < self@.frames.len() - 1 implies self@.frames[i] == f.frames[i] by {}
        }
        Ok(())
    }
}


/// Whether the containers of `v` nest at most `limit` deep.
pub fn depth_within(v: &Value, limit: usize) -> (b: bool)
    ensures
        b == (value_depth(v@) <= limit),
    decreases v@, 2int,
{
    match v {
        Value::String(_) => true,
        Value::List(items) => {
            assert(v@ == ValueView::List(items_view(items@)));
            assert(value_depth(v@) == 1 + items_depth(items_view(items@)));
            if limit == 0 {
                false
            } else {
                items_depth_within(items, limit - 1)
            }
        },
        Value::Dict(pairs) => {
            assert(v@ == ValueView::Dict(pairs_view(pairs@)));
            assert(value_depth(v@) == 1 + pairs_depth(pairs_view(pairs@)));
            if limit == 0 {
                false
            } else {
                pairs_depth_within(pairs, limit - 1)
            }
        },
    }
}

/// Whether the items of a list nest at most `limit` deep.
pub fn items_depth_within(items: &Vec<Value>, limit: usize) -> (b: bool)
    ensures
        b == (items_depth(items_view(items@)) <= limit),
    decreases items_view(items@), 1int,
{
    let ghost iv = items_view(items@);
    proof {
        lemma_views_len(items@, seq![]);
    }
    let mut i: usize = 0;
    assert(iv.take(0) =~= Seq::<ValueView>::empty());
    while i < items.len()
        invariant
            i <= items@.len(),
            iv == items_view(items@),
            iv.len() == items@.len(),
            items_depth(iv.take(i as int)) <= limit,
        decreases items@.len() - i,
    {
        proof {
            lemma_items_view_index(items@, i as int);
            assert(iv.take(i + 1).drop_last() =~= iv.take(i as int));
        }
        if !depth_within(&items[i], limit) {
            proof {
                lemma_items_depth(iv, i as int);
            }
            return false;
        }
        i = i + 1;
    }
    assert(iv.take(items@.len() as int) =~= iv);
    true
}

/// Whether the values of a map nest at most `limit` deep.
pub fn pairs_depth_within(pairs: &Vec<(String, Value)>, limit: usize) -> (b: bool)
    ensures
        b == (pairs_depth(pairs_view(pairs@)) <= limit),
    decreases pairs_view(pairs@), 1int,
{
    let ghost pv = pairs_view(pairs@);
    proof {
        lemma_views_len(seq![], pairs@);
    }
    let mut i: usize = 0;
    assert(pv.take(0) =~= Seq::<(Seq<char>, ValueView)>::empty());
    while i < pairs.len()
        invariant
            i <= pairs@.len(),
            pv == pairs_view(pairs@),
            pv.len() == pairs@.len(),
            pairs_depth(pv.take(i as int)) <= limit,
        decreases pairs@.len() - i,
    {
        proof {
            lemma_pairs_view_index(pairs@, i as int);
            assert(pv.take(i + 1).drop_last() =~= pv.take(i as int));
        }
        let pair = &pairs[i];
        assert(pv[i as int].1 == pair.1@);
        if !depth_within(&pair.1, limit) {
            proof {
                lemma_pairs_depth(pv, i as int);
            }
            return false;
        }
        i = i + 1;
    }
    assert(pv.take(pairs@.len() as int) =~= pv);
    true
}

/// Closing the innermost list writes it at its indentation without overflow.
pub open spec fn list_end_fits(f: FormatterView) -> bool {
    let fr = f.frames.last();
    fr->nesting == 0 ==> fr->List_indent + 1 + items_depth(fr->bufs.last()->Items_0) <= usize::MAX
}

impl Formatter {
    /// Whether [`map_end`](Self::map_end) may be called now.
    pub fn can_map_end(&self) -> (b: bool)
        requires
            self.wf(),
        ensures
            b == can_map_end(self@),
    {
        let n = self.stack.len();
        if n == 0 {
            return false;
        }
        match &self.stack[n - 1] {
            FormatFrame::Dict { .. } => true,
            FormatFrame::List { stack, nesting, .. } => {
                let m = stack.len();
                if *nesting == 0 || m < 2 {
                    return false;
                }
                let inner_is_map = match &stack[m - 1] {
                    ListBuildFrame::Dict(..) => true,
                    _ => false,
                };
                let parent_takes = match &stack[m - 2] {
                    ListBuildFrame::List(_) => true,
                    ListBuildFrame::Dict(_, key) => key.is_some(),
                };
                proof {
                    assert(buf_views(stack@).drop_last().last() == buf_views(stack@)[m - 2]);
                }
                inner_is_map && parent_takes
            },
        }
    }

    /// Whether [`list_end`](Self::list_end) may be called now.
    pub fn can_list_end(&self) -> (b: bool)
        requires
            self.wf(),
        ensures
            b == (can_list_end(self@) && list_end_fits(self@)),
    {
        let n = self.stack.len();
        if n == 0 {
            return false;
        }
        match &self.stack[n - 1] {
            FormatFrame::Dict { .. } => false,
            FormatFrame::List { indent, stack, nesting } => {
                let m = stack.len();
                if m == 0 {
                    return false;
                }
                match &stack[m - 1] {
                    ListBuildFrame::Dict(..) => false,
                    ListBuildFrame::List(items) => {
                        if *nesting > 0 {
                            if m < 2 {
                                return false;
                            }
                            proof {
                                assert(buf_views(stack@).drop_last().last() == buf_views(stack@)[m - 2]);
                            }
                            match &stack[m - 2] {
                                ListBuildFrame::List(_) => true,
                                ListBuildFrame::Dict(_, key) => key.is_some(),
                            }
                        } else {
                            if *indent == usize::MAX {
                                return false;
                            }
                            items_depth_within(items, usize::MAX - 1 - *indent)
                        }
                    },
                }
            },
        }
    }

    /// Whether [`key`](Self::key) may be called now.
    pub fn can_key(&self) -> (b: bool)
        requires
            self.wf(),
        ensures
            b == can_key(self@),
    {
        let n = self.stack.len();
        if n == 0 {
            return false;
        }
        match &self.stack[n - 1] {
            FormatFrame::Dict { .. } => true,
            FormatFrame::List { stack, .. } => {
                let m = stack.len();
                m > 0 && match &stack[m - 1] {
                    ListBuildFrame::Dict(..) => true,
                    _ => false,
                }
            },
        }
    }

    /// Whether [`string`](Self::string) may be called now.
    pub fn can_string(&self) -> (b: bool)
        requires
            self.wf(),
        ensures
            b == can_string(self@),
    {
        let n = self.stack.len();
        if n == 0 {
            return true;
        }
        match &self.stack[n - 1] {
            FormatFrame::Dict { .. } => true,
            FormatFrame::List { stack, .. } => {
                let m = stack.len();
                m > 0 && match &stack[m - 1] {
                    ListBuildFrame::List(_) => true,
                    ListBuildFrame::Dict(_, key) => key.is_some(),
                }
            },
        }
    }

    /// End the current map.
    pub fn map_end(&mut self) -> (r: Result<(), Error>)
        requires
            old(self).wf(),
            can_map_end(old(self)@),
        ensures
            final(self)@ == fmt_map_end(old(self)@),
            final(self).wf(),
            r is Ok,
    {
        let ghost f = self@;
        if self.top_is_list() {
            let (indent, mut bufs, nesting) = self.take_list_top();
            let ghost old_bufs = buf_views(bufs@);
            let inner = bufs.pop().unwrap();
            assert(buf_views(bufs@) =~= old_bufs.drop_last());
            let value = match inner {
                ListBuildFrame::Dict(pairs, _) => Value::Dict(pairs),
                ListBuildFrame::List(items) => Value::List(items),
            };
            list_buf_push(&mut bufs, value);
            self.push_list_frame(indent, bufs, nesting - 1);
            assert(self@.frames =~= fmt_map_end(f).frames);
            assert(fmt_wf(self@)) by {
                assert forall|i: int| 0 <= i < self@.frames.len() - 1 implies self@.frames[i] == f.frames[i] by {}
            }
            return Ok(());
        }
        let ghost old_frames = self.stack@;
        let frame = self.stack.pop().unwrap();
        assert(frame_views(self.stack@) =~= f.frames.drop_last());
        let (indent, top_level, opened) = match frame {
            FormatFrame::Dict { indent, top_level, opened, .. } => (indent, top_level, opened),
            FormatFrame::List { indent, .. } => (indent, true, false),
        };
        let ghost before = self.writer@;
        if !top_level {
            if opened {
                write_indent(&mut self.writer, indent);
                self.writer.push(CLOSE_BRACE);
            } else {
                self.writer.push(OPEN_BRACE);
                self.writer.push(CLOSE_BRACE);
            }
        }
        let ghost text = if top_level {
            Seq::<u8>::empty()
        } else if opened {
            indent_text(indent as nat) + seq![CLOSE_BRACE]
        } else {
            seq![OPEN_BRACE, CLOSE_BRACE]
        };
        assert(self.writer@ =~= before + text);
        self.value_written();
        assert(fmt_wf(self@)) by {
            assert forall|i: int| 0 <= i < self@.frames.len() - 1 implies self@.frames[i] == f.frames[i] by {}
        }
        Ok(())
    }

    /// End the current list.
    pub fn list_end(&mut self) -> (r: Result<(), Error>)
        requires
            old(self).wf(),
            can_list_end(old(self)@),
            list_end_fits(old(self)@),
        ensures
            final(self)@ == fmt_list_end(old(self)@),
            final(self).wf(),
            r is Ok,
    {
        let ghost f = self@;
        let (indent, mut bufs, nesting) = self.take_list_top();
        let ghost old_bufs = buf_views(bufs@);
        if nesting > 0 {
            let inner = bufs.pop().unwrap();
            assert(buf_views(bufs@) =~= old_bufs.drop_last());
            let value = match inner {
                ListBuildFrame::List(items) => Value::List(items),
                ListBuildFrame::Dict(pairs, _) => Value::Dict(pairs),
            };
            list_buf_push(&mut bufs, value);
            self.push_list_frame(indent, bufs, nesting - 1);
            assert(self@.frames =~= fmt_list_end(f).frames);
            assert(fmt_wf(self@)) by {
                assert forall|i: int| 0 <= i < self@.frames.len() - 1 implies self@.frames[i] == f.frames[i] by {}
            }
            return Ok(());
        }
        let items = match bufs.pop().unwrap() {
            ListBuildFrame::List(items) => items,
            ListBuildFrame::Dict(..) => Vec::new(),
        };
        format_list(&items, indent, &mut self.writer);
        self.value_written();
        assert(fmt_wf(self@)) by {
            assert forall|i: int| 0 <= i < self@.frames.len() - 1 implies self@.frames[i] == f.frames[i] by {}
        }
        Ok(())
    }
}


// ── streaming and writing a whole value agree ───────────────────────

/// One event handed to the formatter: the call it stands for, when that call may be made.
pub open spec fn feed_event(f: FormatterView, e: EventView) -> Option<FormatterView> {
    match e {
        EventView::StartMap => Some(fmt_map_start(f)),
        EventView::EndMap => if can_map_end(f) { Some(fmt_map_end(f)) } else { None },
        EventView::Key(k) => if can_key(f) { Some(fmt_key(f, k)) } else { None },
        EventView::StartList => Some(fmt_list_start(f)),
        EventView::EndList => if can_list_end(f) && list_end_fits(f) {
            Some(fmt_list_end(f))
        } else {
            None
        },
        EventView::Str(s) => if can_string(f) { Some(fmt_string(f, s)) } else { None },
    }
}

/// The formatter after the events `es`, one call each, when every call may be made.
pub open spec fn feed(f: FormatterView, es: Seq<EventView>) -> Option<FormatterView>
    decreases es.len(),
{
    if es.len() == 0 {
        Some(f)
    } else {
        match feed_event(f, es[0]) {
            Some(g) => feed(g, es.drop_first()),
            None => None,
        }
    }
}

pub proof fn lemma_feed_concat(f: FormatterView, a: Seq<EventView>, b: Seq<EventView>)
    ensures
        feed(f, a + b) == match feed(f, a) {
            Some(g) => feed(g, b),
            None => None,
        },
    decreases a.len(),
{
    if a.len() == 0 {
        assert(a + b =~= b);
    } else {
        assert((a + b)[0] == a[0]);
        assert((a + b).drop_first() =~= a.drop_first() + b);
        if let Some(g) = feed_event(f, a[0]) {
            lemma_feed_concat(g, a.drop_first(), b);
        }
    }
}

/// Feeding three pieces one after the other.
pub proof fn lemma_feed3(f: FormatterView, a: Seq<EventView>, b: Seq<EventView>, c: Seq<EventView>)
    ensures
        feed(f, a + b + c) == match feed(f, a) {
            Some(g) => match feed(g, b) {
                Some(h) => feed(h, c),
                None => None,
            },
            None => None,
        },
{
    lemma_feed_concat(f, a + b, c);
    lemma_feed_concat(f, a, b);
}

pub proof fn lemma_feed_one(f: FormatterView, e: EventView)
    ensures
        feed(f, seq![e]) == feed_event(f, e),
{
    reveal_with_fuel(feed, 2);
    assert(seq![e][0] == e);
    assert(seq![e].drop_first() =~= Seq::<EventView>::empty());
}

/// Inside a list, the events of a value buffer that value.
pub proof fn lemma_feed_buffered(f: FormatterView, x: ValueView)
    requires
        in_list(f),
        buf_takes_value(f.frames.last()->bufs),
    ensures
        feed(f, crate::value::value_events(x)) == Some(
            with_bufs(f, buf_push(f.frames.last()->bufs, x), f.frames.last()->nesting),
        ),
    decreases x, 1int,
{
    let fr = f.frames.last();
    let bufs = fr->bufs;
    let n = fr->nesting;
    match x {
        ValueView::Str(s) => {
            lemma_feed_one(f, EventView::Str(s));
            assert(crate::value::value_events(x) == seq![EventView::Str(s)]);
            assert(can_string(f));
            assert(fmt_string(f, s) == with_bufs(f, buf_push(bufs, x), n));
            assert(feed_event(f, EventView::Str(s)) == Some(fmt_string(f, s)));
            assert(feed(f, crate::value::value_events(x)) == feed_event(f, EventView::Str(s)));
        },
        ValueView::Dict(ps) => {
            let g = fmt_map_start(f);
            assert(g == with_bufs(f, bufs.push(BufView::Pairs(seq![], None)), n + 1));
            lemma_feed_one(f, EventView::StartMap);
            lemma_feed_buffered_pairs(g, bufs, n + 1, seq![], ps);
            assert(seq![] + ps =~= ps);
            let h = with_bufs(f, bufs.push(BufView::Pairs(ps, None)), n + 1);
            assert(with_bufs(g, bufs.push(BufView::Pairs(seq![] + ps, None)), n + 1) =~= h) by {
                assert(with_bufs(g, bufs.push(BufView::Pairs(seq![] + ps, None)), n + 1).frames =~= h.frames);
            }
            assert(h.frames.last()->bufs.drop_last() =~= bufs);
            lemma_feed_one(h, EventView::EndMap);
            lemma_feed3(f, seq![EventView::StartMap], crate::value::pairs_events(ps), seq![EventView::EndMap]);
            assert(fmt_map_end(h) =~= with_bufs(f, buf_push(bufs, x), n)) by {
                assert(h.frames.last()->bufs.last() == BufView::Pairs(ps, None));
                assert(fmt_map_end(h).frames =~= with_bufs(f, buf_push(bufs, x), n).frames);
            }
            assert(can_map_end(h));
            assert(feed(f, crate::value::value_events(x)) == Some(with_bufs(f, buf_push(bufs, x), n)));
        },
        ValueView::List(items) => {
            let g = fmt_list_start(f);
            assert(g == with_bufs(f, bufs.push(BufView::Items(seq![])), n + 1));
            lemma_feed_one(f, EventView::StartList);
            lemma_feed_buffered_items(g, bufs, n + 1, seq![], items);
            assert(seq![] + items =~= items);
            let h = with_bufs(f, bufs.push(BufView::Items(items)), n + 1);
            assert(with_bufs(g, bufs.push(BufView::Items(seq![] + items)), n + 1) =~= h) by {
                assert(with_bufs(g, bufs.push(BufView::Items(seq![] + items)), n + 1).frames =~= h.frames);
            }
            assert(h.frames.last()->bufs.drop_last() =~= bufs);
            lemma_feed_one(h, EventView::EndList);
            lemma_feed3(f, seq![EventView::StartList], crate::value::items_events(items), seq![EventView::EndList]);
            assert(fmt_list_end(h) =~= with_bufs(f, buf_push(bufs, x), n)) by {
                assert(h.frames.last()->bufs.last() == BufView::Items(items));
                assert(fmt_list_end(h).frames =~= with_bufs(f, buf_push(bufs, x), n).frames);
            }
            assert(can_list_end(h));
            assert(list_end_fits(h));
            assert(feed(f, crate::value::value_events(x)) == Some(with_bufs(f, buf_push(bufs, x), n)));
        },
    }
}

/// Inside a list, the events of pairs add them to the innermost buffered map.
pub proof fn lemma_feed_buffered_pairs(
    f: FormatterView,
    bufs: Seq<BufView>,
    n: nat,
    ps0: Seq<(Seq<char>, ValueView)>,
    ps: Seq<(Seq<char>, ValueView)>,
)
    requires
        in_list(f),
        f.frames.last()->bufs == bufs.push(BufView::Pairs(ps0, None)),
        f.frames.last()->nesting == n,
    ensures
        feed(f, crate::value::pairs_events(ps)) == Some(
            with_bufs(f, bufs.push(BufView::Pairs(ps0 + ps, None)), n),
        ),
    decreases ps, 0int,
{
    if ps.len() == 0 {
        assert(ps0 + ps =~= ps0);
        assert(with_bufs(f, bufs.push(BufView::Pairs(ps0 + ps, None)), n) =~= f) by {
            assert(with_bufs(f, bufs.push(BufView::Pairs(ps0 + ps, None)), n).frames =~= f.frames);
        }
    } else {
        let pre = ps.drop_last();
        let (k, v) = ps.last();
        lemma_feed_buffered_pairs(f, bufs, n, ps0, pre);
        let g = with_bufs(f, bufs.push(BufView::Pairs(ps0 + pre, None)), n);
        lemma_feed_one(g, EventView::Key(k));
        let h = fmt_key(g, k);
        assert(h == with_bufs(f, bufs.push(BufView::Pairs(ps0 + pre, Some(k))), n)) by {
            let gb = g.frames.last()->bufs;
            assert(gb == bufs.push(BufView::Pairs(ps0 + pre, None)));
            assert(gb.update(gb.len() - 1, BufView::Pairs(gb.last()->Pairs_0, Some(k))) =~= bufs.push(
                BufView::Pairs(ps0 + pre, Some(k)),
            ));
            assert(h.frames =~= with_bufs(f, bufs.push(BufView::Pairs(ps0 + pre, Some(k))), n).frames);
        }
        lemma_feed_buffered(h, v);
        assert(buf_push(bufs.push(BufView::Pairs(ps0 + pre, Some(k))), v) =~= bufs.push(
            BufView::Pairs(ps0 + ps, None),
        )) by {
            assert((ps0 + pre).push((k, v)) =~= ps0 + ps);
        }
        assert(with_bufs(h, buf_push(h.frames.last()->bufs, v), n) =~= with_bufs(f, bufs.push(BufView::Pairs(ps0 + ps, None)), n)) by {
            assert(with_bufs(h, buf_push(h.frames.last()->bufs, v), n).frames =~= with_bufs(f, bufs.push(BufView::Pairs(ps0 + ps, None)), n).frames);
        }
        lemma_feed3(f, crate::value::pairs_events(pre), seq![EventView::Key(k)], crate::value::value_events(v));
    }
}

/// Inside a list, the events of items add them to the innermost buffered list.
pub proof fn lemma_feed_buffered_items(
    f: FormatterView,
    bufs: Seq<BufView>,
    n: nat,
    is0: Seq<ValueView>,
    items: Seq<ValueView>,
)
    requires
        in_list(f),
        f.frames.last()->bufs == bufs.push(BufView::Items(is0)),
        f.frames.last()->nesting == n,
    ensures
        feed(f, crate::value::items_events(items)) == Some(
            with_bufs(f, bufs.push(BufView::Items(is0 + items)), n),
        ),
    decreases items, 0int,
{
    if items.len() == 0 {
        assert(is0 + items =~= is0);
        assert(with_bufs(f, bufs.push(BufView::Items(is0 + items)), n) =~= f) by {
            assert(with_bufs(f, bufs.push(BufView::Items(is0 + items)), n).frames =~= f.frames);
        }
    } else {
        let pre = items.drop_last();
        let v = items.last();
        lemma_feed_buffered_items(f, bufs, n, is0, pre);
        let g = with_bufs(f, bufs.push(BufView::Items(is0 + pre)), n);
        lemma_feed_buffered(g, v);
        assert(buf_push(bufs.push(BufView::Items(is0 + pre)), v) =~= bufs.push(BufView::Items(is0 + items))) by {
            assert((is0 + pre).push(v) =~= is0 + items);
        }
        assert(with_bufs(g, buf_push(g.frames.last()->bufs, v), n) =~= with_bufs(f, bufs.push(BufView::Items(is0 + items)), n)) by {
            assert(with_bufs(g, buf_push(g.frames.last()->bufs, v), n).frames =~= with_bufs(f, bufs.push(BufView::Items(is0 + items)), n).frames);
        }
        lemma_feed_concat(f, crate::value::items_events(pre), crate::value::value_events(v));
    }
}


/// The innermost map frame with its `opened` and `pending` flags set.
pub open spec fn with_flags(f: FormatterView, opened: bool, pending: bool) -> FormatterView {
    let fr = f.frames.last();
    FormatterView {
        frames: f.frames.update(
            f.frames.len() - 1,
            FmtFrame::Dict { indent: fr->Dict_indent, inner: fr->inner, top: fr->top, opened, pending },
        ),
        ..f
    }
}

/// What the pairs of a map write into it: its opening brace before the
/// first pair, unless it is the top-level map or already open, then one line per pair.
pub open spec fn pairs_out(fr: FmtFrame, ps: Seq<(Seq<char>, ValueView)>) -> Seq<u8> {
    if ps.len() == 0 {
        seq![]
    } else {
        (if !fr->top && !fr->opened { seq![OPEN_BRACE, LINE_FEED] } else { seq![] }) + pair_lines(ps, fr->inner)
    }
}

/// After a key in a map, the events of a value write that value and end the line.
pub proof fn lemma_feed_value_in_map(f: FormatterView, x: ValueView)
    requires
        f.frames.len() > 0,
        f.frames.last() is Dict,
        f.frames.last()->pending,
        f.frames.last()->inner + value_depth(x) <= usize::MAX,
    ensures
        feed(f, crate::value::value_events(x)) == Some(
            with_flags(
                FormatterView { out: f.out + value_text(x, f.frames.last()->inner) + seq![LINE_FEED], ..f },
                f.frames.last()->opened,
                false,
            ),
        ),
    decreases x, 1int,
{
    let fr = f.frames.last();
    let inner = fr->inner;
    let target = with_flags(FormatterView { out: f.out + value_text(x, inner) + seq![LINE_FEED], ..f }, fr->opened, false);
    match x {
        ValueView::Str(s) => {
            lemma_feed_one(f, EventView::Str(s));
            assert(crate::value::value_events(x) == seq![EventView::Str(s)]);
            assert(feed(f, crate::value::value_events(x)) == feed_event(f, EventView::Str(s)));
            assert(fmt_string(f, s) =~= target) by {
                assert(fmt_string(f, s).frames =~= target.frames);
            }
        },
        ValueView::List(items) => {
            let g = fmt_list_start(f);
            lemma_feed_one(f, EventView::StartList);
            let b0: Seq<BufView> = seq![];
            assert(g.frames.last()->bufs == b0.push(BufView::Items(seq![])));
            lemma_feed_buffered_items(g, b0, 0, seq![], items);
            let h = with_bufs(g, b0.push(BufView::Items(seq![] + items)), 0);
            assert(seq![] + items =~= items);
            assert(h.frames.last()->bufs.last() == BufView::Items(items));
            assert(h.frames.drop_last() =~= f.frames);
            lemma_feed_one(h, EventView::EndList);
            assert(can_list_end(h));
            assert(list_end_fits(h));
            lemma_feed3(f, seq![EventView::StartList], crate::value::items_events(items), seq![EventView::EndList]);
            assert(fmt_list_end(h) =~= target) by {
                assert(fmt_list_end(h).frames =~= target.frames);
                assert(fmt_list_end(h).out =~= target.out);
            }
        },
        ValueView::Dict(ps) => {
            let g = fmt_map_start(f);
            lemma_feed_one(f, EventView::StartMap);
            let gfr = g.frames.last();
            assert(gfr == FmtFrame::Dict { indent: inner, inner: inner + 1, top: false, opened: false, pending: false });
            lemma_feed_pairs_in_map(g, ps);
            let h = with_flags(FormatterView { out: g.out + pairs_out(gfr, ps), ..g }, ps.len() > 0, false);
            assert(h.frames.drop_last() =~= f.frames);
            lemma_feed_one(h, EventView::EndMap);
            assert(can_map_end(h));
            lemma_feed3(f, seq![EventView::StartMap], crate::value::pairs_events(ps), seq![EventView::EndMap]);
            assert(fmt_map_end(h) =~= target) by {
                assert(fmt_map_end(h).frames =~= target.frames);
                assert(fmt_map_end(h).out =~= target.out);
            }
        },
    }
}

/// In a map without a key awaiting its value, the events of pairs write them.
#[verifier::spinoff_prover]
#[verifier::rlimit(40)]
pub proof fn lemma_feed_pairs_in_map(f: FormatterView, ps: Seq<(Seq<char>, ValueView)>)
    requires
        f.frames.len() > 0,
        f.frames.last() is Dict,
        !f.frames.last()->pending,
        f.frames.last()->inner + pairs_depth(ps) <= usize::MAX,
    ensures
        feed(f, crate::value::pairs_events(ps)) == Some(
            with_flags(
                FormatterView { out: f.out + pairs_out(f.frames.last(), ps), ..f },
                f.frames.last()->opened || (ps.len() > 0 && !f.frames.last()->top),
                false,
            ),
        ),
    decreases ps, 0int,
{
    let fr = f.frames.last();
    let inner = fr->inner;
    if ps.len() == 0 {
        assert(f.out + pairs_out(fr, ps) =~= f.out);
        assert(with_flags(FormatterView { out: f.out + pairs_out(fr, ps), ..f }, fr->opened, false) =~= f) by {
            assert(with_flags(FormatterView { out: f.out + pairs_out(fr, ps), ..f }, fr->opened, false).frames =~= f.frames);
        }
    } else {
        let pre = ps.drop_last();
        let (k, v) = ps.last();
        if pre.len() > 0 {
            lemma_pairs_depth(ps, pre.len() - 1);
        }
        assert(pairs_depth(pre) <= pairs_depth(ps));
        lemma_pairs_depth(ps, ps.len() - 1);
        lemma_feed_pairs_in_map(f, pre);
        let opened_g = fr->opened || (pre.len() > 0 && !fr->top);
        let g = with_flags(FormatterView { out: f.out + pairs_out(fr, pre), ..f }, opened_g, false);
        lemma_feed_one(g, EventView::Key(k));
        let need_open = !fr->top && !opened_g;
        let h = fmt_key(g, k);
        assert(h =~= with_flags(
            FormatterView {
                out: g.out + (if need_open { seq![OPEN_BRACE, LINE_FEED] } else { seq![] }) + indent_text(inner)
                    + string_text(k) + seq![SPACE],
                ..f
            },
            opened_g || need_open,
            true,
        )) by {
            assert(h.frames =~= with_flags(f, opened_g || need_open, true).frames);
        }
        lemma_feed_value_in_map(h, v);
        lemma_feed3(f, crate::value::pairs_events(pre), seq![EventView::Key(k)], crate::value::value_events(v));
        let target = with_flags(
            FormatterView { out: f.out + pairs_out(fr, ps), ..f },
            fr->opened || !fr->top,
            false,
        );
        assert(pair_lines(ps, inner) == pair_lines(pre, inner) + indent_text(inner) + string_text(k) + seq![SPACE]
            + value_text(v, inner) + seq![LINE_FEED]);
        let final_out = h.out + value_text(v, inner) + seq![LINE_FEED];
        assert(final_out =~= target.out);
        assert(with_flags(FormatterView { out: final_out, ..h }, opened_g || need_open, false) =~= target) by {
            assert(with_flags(FormatterView { out: final_out, ..h }, opened_g || need_open, false).frames =~= target.frames);
        }
    }
}

/// Handing the events of a map to a formatter with no open containers, one
/// call each, writes exactly what [`Formatter::write_value`] writes for
/// that map: driving the formatter incrementally and formatting a whole
/// value give the same text.
pub proof fn lemma_streaming_writes_value(out: Seq<u8>, pairs: Seq<(Seq<char>, ValueView)>)
    requires
        value_depth(ValueView::Dict(pairs)) <= usize::MAX,
    ensures
        feed(FormatterView { out, frames: seq![] }, crate::value::value_events(ValueView::Dict(pairs)))
            == Some(FormatterView { out: out + map_text(pairs, 0, true), frames: seq![] }),
{
    let f = FormatterView { out, frames: seq![] };
    let g = fmt_map_start(f);
    lemma_feed_one(f, EventView::StartMap);
    let gfr = g.frames.last();
    assert(gfr == FmtFrame::Dict { indent: 0, inner: 0, top: true, opened: false, pending: false });
    lemma_feed_pairs_in_map(g, pairs);
    let h = with_flags(FormatterView { out: g.out + pairs_out(gfr, pairs), ..g }, false, false);
    lemma_feed_one(h, EventView::EndMap);
    assert(can_map_end(h));
    lemma_feed3(f, seq![EventView::StartMap], crate::value::pairs_events(pairs), seq![EventView::EndMap]);
    assert(fmt_map_end(h) =~= FormatterView { out: out + map_text(pairs, 0, true), frames: seq![] }) by {
        assert(h.frames.drop_last() =~= Seq::<FmtFrame>::empty());
        assert(fmt_map_end(h).out =~= out + map_text(pairs, 0, true));
    }
}

} // verus!
