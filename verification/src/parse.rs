//! Pull-based parser for the phig format.
//!
//! The parser reads UTF-8 bytes and emits one [`Event`] per call of
//! [`PhigParser::next`]. Its behaviour is stated over [`ParserView`]: the
//! scanning functions of this module (`peek_at`, `wsc_end`, `quoted_scan`,
//! ...) say what each lexical piece of the grammar consumes and yields, and
//! [`step`] says which event a call emits and how the parser state moves.
//!
//! ```text
//!   toplevel = [BOM] _ [pairs] _ EOF
//!   value    = map | list | string
//!   map      = '{' _ [pairs] _ '}'
//!   pairs    = pair { PAIRSEP _ pair }
//!   pair     = string [HSPACE] value [HSPACE] [COMMENT]
//!   list     = '[' _ [items] _ ']'
//!   items    = value { _ [';'] _ value }
//! ```
use vstd::prelude::*;
use vstd::utf8::*;
use crate::error::{Error, ErrorView};
use crate::text::{is_white_space, is_hex_digit, hex_value, char_is_whitespace, char_is_hex_digit, hex_digits_value};

verus! {

broadcast use vstd::string::group_string_axioms;

/// A syntax error found while scanning: its message and the byte position it names.
pub struct Fault {
    pub msg: Seq<char>,
    pub pos: int,
}

pub open spec fn fault(msg: Seq<char>, pos: int) -> Fault {
    Fault { msg, pos }
}

/// `e` is the syntax error that the fault describes.
pub open spec fn is_fault(e: Error, f: Fault) -> bool {
    e@ == (ErrorView::Syntax { msg: f.msg, pos: Some(f.pos as usize) })
}

/// The number of bytes that a UTF-8 character starting with byte `b` takes,
/// judged by its leading bits alone; 0 when `b` cannot start a character.
pub open spec fn char_width(b: u8) -> int {
    if b < 0x80 {
        1
    } else if 0xC0 <= b < 0xE0 {
        2
    } else if 0xE0 <= b < 0xF0 {
        3
    } else if 0xF0 <= b < 0xF8 {
        4
    } else {
        0
    }
}

/// The character at byte position `p` and its width in bytes, `None` at the
/// end of the input, or the fault that decoding it meets.
pub open spec fn peek_at(inp: Seq<u8>, p: int) -> Result<Option<(char, int)>, Fault> {
    if p >= inp.len() {
        Ok(None)
    } else {
        let w = char_width(inp[p]);
        if w == 0 {
            Err(fault("invalid UTF-8"@, p))
        } else if p + w > inp.len() {
            Err(fault("incomplete UTF-8 character"@, p))
        } else if !valid_first_scalar(inp.subrange(p, p + w)) {
            Err(fault("invalid UTF-8"@, p))
        } else {
            Ok(Some((decode_first_scalar(inp.subrange(p, p + w)) as char, w)))
        }
    }
}

/// The character at `p` is `c`.
pub open spec fn char_at_is(inp: Seq<u8>, p: int, c: char) -> bool {
    peek_at(inp, p) matches Ok(Some((d, _))) && d == c
}

/// HSPACE: the position after the spaces and tabs that start at `p`.
pub open spec fn hspace_end(inp: Seq<u8>, p: int) -> Result<int, (int, Fault)>
    decreases inp.len() - p,
{
    match peek_at(inp, p) {
        Err(f) => Err((p, f)),
        Ok(Some((c, w))) => if c == ' ' || c == '\t' {
            hspace_end(inp, p + w)
        } else {
            Ok(p)
        },
        Ok(None) => Ok(p),
    }
}

/// The rest of a comment: the position of the line feed (or the end) that ends it.
pub open spec fn comment_rest(inp: Seq<u8>, p: int) -> Result<int, (int, Fault)>
    decreases inp.len() - p,
{
    match peek_at(inp, p) {
        Err(f) => Err((p, f)),
        Ok(Some((c, w))) => if c == '\n' {
            Ok(p)
        } else {
            comment_rest(inp, p + w)
        },
        Ok(None) => Ok(p),
    }
}

/// COMMENT: a `#` comment at `p`, up to the end of its line; `p` itself when there is none.
pub open spec fn comment_end(inp: Seq<u8>, p: int) -> Result<int, (int, Fault)> {
    match peek_at(inp, p) {
        Err(f) => Err((p, f)),
        Ok(Some((c, _))) => if c == '#' {
            comment_rest(inp, p)
        } else {
            Ok(p)
        },
        Ok(None) => Ok(p),
    }
}

pub proof fn lemma_comment_rest_ge(inp: Seq<u8>, p: int)
    ensures
        comment_rest(inp, p) matches Ok(q) ==> p <= q && (p <= inp.len() ==> q <= inp.len()),
        comment_rest(inp, p) matches Err((q, _)) ==> p <= q && (p <= inp.len() ==> q <= inp.len()),
    decreases inp.len() - p,
{
    if let Ok(Some((c, w))) = peek_at(inp, p) {
        if c != '\n' {
            lemma_comment_rest_ge(inp, p + w);
        }
    }
}

/// A comment runs up to its line's end and stops there: where it ends is
/// the end of the input or a line feed, which the comment leaves in place.
pub proof fn lemma_comment_stops_at_line_feed(inp: Seq<u8>, p: int)
    requires
        p <= inp.len(),
    ensures
        comment_rest(inp, p) matches Ok(q) ==> q == inp.len() || char_at_is(inp, q, '\n'),
    decreases inp.len() - p,
{
    if let Ok(Some((c, w))) = peek_at(inp, p) {
        if c != '\n' {
            lemma_comment_stops_at_line_feed(inp, p + w);
        }
    }
}

/// Horizontal space takes spaces and tabs alike: where it ends there is
/// neither a space nor a tab.
pub proof fn lemma_hspace_stops(inp: Seq<u8>, p: int)
    ensures
        hspace_end(inp, p) matches Ok(q) ==> !char_at_is(inp, q, ' ') && !char_at_is(inp, q, '\t'),
    decreases inp.len() - p,
{
    if let Ok(Some((c, w))) = peek_at(inp, p) {
        if c == ' ' || c == '\t' {
            lemma_hspace_stops(inp, p + w);
        }
    }
}

/// Line breaks are read whole, LF and CR alike: where they end there is
/// neither a line feed nor a carriage return.
pub proof fn lemma_newlines_stop(inp: Seq<u8>, p: int)
    ensures
        newlines_end(inp, p) matches Ok(q) ==> !char_at_is(inp, q, '\n') && !char_at_is(inp, q, '\r'),
    decreases inp.len() - p,
{
    if let Ok(Some((c, w))) = peek_at(inp, p) {
        if c == '\n' {
            lemma_newlines_stop(inp, p + w);
        } else if c == '\r' {
            match peek_at(inp, p + w) {
                Ok(Some((d, w2))) => if d == '\n' {
                    lemma_newlines_stop(inp, p + w + w2);
                } else {
                    lemma_newlines_stop(inp, p + w);
                },
                Ok(None) => lemma_newlines_stop(inp, p + w),
                Err(_) => {},
            }
        }
    }
}

/// `_`: structural white space (space, tab, CR, LF) and comments starting at `p`.
pub open spec fn wsc_end(inp: Seq<u8>, p: int) -> Result<int, (int, Fault)>
    decreases inp.len() - p,
{
    match peek_at(inp, p) {
        Err(f) => Err((p, f)),
        Ok(Some((c, w))) => if c == '#' {
            proof {
                lemma_comment_rest_ge(inp, p + w);
            }
            match comment_rest(inp, p + w) {
                Err(e) => Err(e),
                Ok(q) => wsc_end(inp, q),
            }
        } else if c == ' ' || c == '\t' || c == '\n' || c == '\r' {
            wsc_end(inp, p + w)
        } else {
            Ok(p)
        },
        Ok(None) => Ok(p),
    }
}

/// One or more line breaks (LF or CR LF or a lone CR) starting at `p`.
pub open spec fn newlines_end(inp: Seq<u8>, p: int) -> Result<int, (int, Fault)>
    decreases inp.len() - p,
{
    match peek_at(inp, p) {
        Err(f) => Err((p, f)),
        Ok(Some((c, w))) => if c == '\n' {
            newlines_end(inp, p + w)
        } else if c == '\r' {
            match peek_at(inp, p + w) {
                Err(f) => Err((p + w, f)),
                Ok(Some((d, w2))) => if d == '\n' {
                    newlines_end(inp, p + w + w2)
                } else {
                    newlines_end(inp, p + w)
                },
                Ok(None) => newlines_end(inp, p + w),
            }
        } else {
            Ok(p)
        },
        Ok(None) => Ok(p),
    }
}

/// PAIRSEP: a `;`, or line breaks. The position after it, and whether there was one.
pub open spec fn pairsep_end(inp: Seq<u8>, p: int) -> Result<(int, bool), (int, Fault)> {
    match peek_at(inp, p) {
        Err(f) => Err((p, f)),
        Ok(Some((c, w))) => if c == ';' {
            Ok((p + w, true))
        } else {
            match newlines_end(inp, p) {
                Err(e) => Err(e),
                Ok(q) => Ok((q, q > p)),
            }
        },
        Ok(None) => Ok((p, false)),
    }
}

/// The UTF-8 byte order mark.
pub open spec fn has_bom_at(inp: Seq<u8>, p: int) -> bool {
    &&& 0 <= p
    &&& p + 3 <= inp.len()
    &&& inp[p] == 0xEF
    &&& inp[p + 1] == 0xBB
    &&& inp[p + 2] == 0xBF
}

/// `[BOM]`: the position after an optional byte order mark at `p`.
pub open spec fn bom_end(inp: Seq<u8>, p: int) -> int {
    if has_bom_at(inp, p) {
        p + 3
    } else {
        p
    }
}

/// The characters that end a bare string.
pub open spec fn is_delimiter(c: char) -> bool {
    c == '{' || c == '}' || c == '[' || c == ']' || c == '"' || c == '#' || c == '\'' || c == ';'
}

/// A bare string continues at `p` after the characters `acc`: it runs up to
/// the first white-space character, delimiter or the end of the input.
pub open spec fn bare_scan(inp: Seq<u8>, p: int, acc: Seq<char>) -> Result<
    (int, Seq<char>),
    (int, Fault),
>
    decreases inp.len() - p,
{
    match peek_at(inp, p) {
        Err(f) => Err((p, f)),
        Ok(Some((c, w))) => if is_white_space(c) || is_delimiter(c) {
            Ok((p, acc))
        } else {
            bare_scan(inp, p + w, acc.push(c))
        },
        Ok(None) => Ok((p, acc)),
    }
}

/// A single-quoted raw string continues at `p` after the characters `acc`;
/// it opened at `open`. It ends at the next `'`, and has no escapes.
pub open spec fn raw_scan(inp: Seq<u8>, p: int, open: int, acc: Seq<char>) -> Result<
    (int, Seq<char>),
    (int, Fault),
>
    decreases inp.len() - p,
{
    match peek_at(inp, p) {
        Err(f) => Err((p, f)),
        Ok(Some((c, w))) => if c == '\'' {
            Ok((p + w, acc))
        } else {
            raw_scan(inp, p + w, open, acc.push(c))
        },
        Ok(None) => Err((p, fault("unterminated raw string"@, open))),
    }
}

/// The character that a one-character escape `\c` stands for.
pub open spec fn simple_escape(c: char) -> Option<char> {
    if c == 'n' {
        Some('\n')
    } else if c == 'r' {
        Some('\r')
    } else if c == 't' {
        Some('\t')
    } else if c == '\\' {
        Some('\\')
    } else if c == '"' {
        Some('"')
    } else if c == '0' {
        Some('\0')
    } else {
        None
    }
}

/// The hexadecimal digits of a `\u{...}` escape, from `p` up to the closing
/// `}`; the escape started at `esc`.
pub open spec fn hex_scan(inp: Seq<u8>, p: int, esc: int, acc: Seq<char>) -> Result<
    (int, Seq<char>),
    (int, Fault),
>
    decreases inp.len() - p,
{
    match peek_at(inp, p) {
        Err(f) => Err((p, f)),
        Ok(Some((c, w))) => if c == '}' {
            Ok((p, acc))
        } else if !is_hex_digit(c) {
            Err((p, fault("invalid unicode escape"@, esc)))
        } else {
            hex_scan(inp, p + w, esc, acc.push(c))
        },
        Ok(None) => Err((p, fault("invalid unicode escape"@, esc))),
    }
}

pub proof fn lemma_hex_scan(inp: Seq<u8>, p: int, esc: int, acc: Seq<char>)
    ensures
        hex_scan(inp, p, esc, acc) matches Ok((q, h)) ==> {
            &&& p <= q < inp.len()
            &&& char_at_is(inp, q, '}')
            &&& h.len() >= acc.len()
            &&& h.subrange(0, acc.len() as int) == acc
            &&& forall|i: int| acc.len() <= i < h.len() ==> is_hex_digit(#[trigger] h[i])
        },
        hex_scan(inp, p, esc, acc) matches Err((q, _)) ==> p <= q,
    decreases inp.len() - p,
{
    if let Ok(Some((c, w))) = peek_at(inp, p) {
        if c != '}' && is_hex_digit(c) {
            lemma_hex_scan(inp, p + w, esc, acc.push(c));
            if let Ok((q, h)) = hex_scan(inp, p, esc, acc) {
                assert forall|i: int| acc.len() <= i < h.len() implies is_hex_digit(#[trigger] h[i]) by {
                    if i == acc.len() {
                        assert(h.subrange(0, acc.len() + 1 as int)[i] == acc.push(c)[i]);
                    }
                }
                assert(h.subrange(0, acc.len() as int) =~= h.subrange(0, acc.len() + 1 as int).subrange(0, acc.len() as int));
            }
        }
    }
}

/// A double-quoted string continues at `p` after the decoded characters
/// `acc`; it opened at `open`. It ends at the next unescaped `"`.
pub open spec fn quoted_scan(inp: Seq<u8>, p: int, open: int, acc: Seq<char>) -> Result<
    (int, Seq<char>),
    (int, Fault),
>
    decreases inp.len() - p,
{
    match peek_at(inp, p) {
        Err(f) => Err((p, f)),
        Ok(None) => Err((p, fault("unterminated string"@, open))),
        Ok(Some((c, w))) => if c == '"' {
            Ok((p + w, acc))
        } else if c == '\\' {
            let p1 = p + w;
            match peek_at(inp, p1) {
                Err(f) => Err((p1, f)),
                Ok(None) => Err((p1, fault("unterminated escape"@, p))),
                Ok(Some((e, w1))) => if simple_escape(e) is Some {
                    quoted_scan(inp, p1 + w1, open, acc.push(simple_escape(e)->0))
                } else if e == '\r' {
                    let p2 = p1 + w1;
                    match peek_at(inp, p2) {
                        Err(f) => Err((p2, f)),
                        Ok(Some((d, w2))) => if d == '\n' {
                            quoted_scan(inp, p2 + w2, open, acc)
                        } else {
                            Err((p2, fault("expected LF after CR in line continuation"@, p)))
                        },
                        Ok(None) => Err((p2, fault("expected LF after CR in line continuation"@, p))),
                    }
                } else if e == '\n' {
                    quoted_scan(inp, p1 + w1, open, acc)
                } else if e == 'u' {
                    let p2 = p1 + w1;
                    match peek_at(inp, p2) {
                        Err(f) => Err((p2, f)),
                        Ok(Some((d, w2))) => if d == '{' {
                            proof {
                                lemma_hex_scan(inp, p2 + w2, p, seq![]);
                            }
                            match hex_scan(inp, p2 + w2, p, seq![]) {
                                Err(e) => Err(e),
                                Ok((q, h)) => if h.len() == 0 || h.len() > 6 {
                                    Err((q, fault("invalid unicode escape"@, p)))
                                } else if is_scalar(hex_value(h) as u32) {
                                    quoted_scan(inp, q + 1, open, acc.push((hex_value(h) as u32) as char))
                                } else {
                                    Err((q + 1, fault("unicode codepoint out of range"@, p)))
                                },
                            }
                        } else {
                            Err((p2, fault("expected '{' after \\u"@, p)))
                        },
                        Ok(None) => Err((p2, fault("expected '{' after \\u"@, p))),
                    }
                } else {
                    Err((p1 + w1, fault("invalid escape '\\"@ + seq![e] + "'"@, p)))
                },
            }
        } else {
            quoted_scan(inp, p + w, open, acc.push(c))
        },
    }
}

/// A string (double-quoted, single-quoted raw, or bare) at `p`: the
/// position after it and its characters, or `None` when no string starts there.
pub open spec fn string_scan(inp: Seq<u8>, p: int) -> Result<(int, Option<Seq<char>>), (int, Fault)> {
    match peek_at(inp, p) {
        Err(f) => Err((p, f)),
        Ok(Some((c, w))) => if c == '"' {
            match quoted_scan(inp, p + w, p, seq![]) {
                Err(e) => Err(e),
                Ok((q, s)) => Ok((q, Some(s))),
            }
        } else if c == '\'' {
            match raw_scan(inp, p + w, p, seq![]) {
                Err(e) => Err(e),
                Ok((q, s)) => Ok((q, Some(s))),
            }
        } else {
            bare_string(inp, p)
        },
        Ok(None) => bare_string(inp, p),
    }
}

/// A bare string at `p`, `None` when it would be empty.
pub open spec fn bare_string(inp: Seq<u8>, p: int) -> Result<(int, Option<Seq<char>>), (int, Fault)> {
    match bare_scan(inp, p, seq![]) {
        Err(e) => Err(e),
        Ok((q, s)) => Ok((q, if s.len() == 0 { None } else { Some(s) })),
    }
}


/// Events emitted by [`PhigParser`].
#[derive(Debug, Clone, PartialEq, Eq)]
pub enum Event {
    StartMap,
    EndMap,
    Key(String),
    StartList,
    EndList,
    String(String),
}

/// An [`Event`] with its strings taken as character sequences.
pub enum EventView {
    StartMap,
    EndMap,
    Key(Seq<char>),
    StartList,
    EndList,
    Str(Seq<char>),
}

impl View for Event {
    type V = EventView;

    open spec fn view(&self) -> EventView {
        match self {
            Event::StartMap => EventView::StartMap,
            Event::EndMap => EventView::EndMap,
            Event::Key(k) => EventView::Key(k@),
            Event::StartList => EventView::StartList,
            Event::EndList => EventView::EndList,
            Event::String(s) => EventView::Str(s@),
        }
    }
}

/// Parser states: positions in the grammar.
#[derive(Debug, Clone, Copy, PartialEq, Eq, Structural)]
pub enum State {
    /// toplevel: before BOM / first pair.
    DocStart,
    /// pairs: expecting a key or end of container.
    BeforePair,
    /// pair: key parsed, expecting value.
    AfterKey,
    /// pairs: pair done, expecting PAIRSEP or end of container.
    BetweenPairs,
    /// items: expecting a value or ']'.
    BeforeItem,
    /// items: item done, expecting separator or ']'.
    BetweenItems,
    /// Document fully consumed.
    Done,
}

/// An open container: the document's top-level map, a map, or a list.
struct Frame {
    is_list: bool,
    closing: Option<char>,
    open_pos: usize,
    seen: Option<Vec<String>>,
}

/// An open container as the specification sees it; `seen` holds the keys
/// of a map in the order they came.
pub struct FrameView {
    pub is_list: bool,
    pub closing: Option<char>,
    pub open_pos: int,
    pub seen: Option<Seq<Seq<char>>>,
}

pub open spec fn string_views(v: Seq<String>) -> Seq<Seq<char>> {
    v.map_values(|s: String| s@)
}

impl View for Frame {
    type V = FrameView;

    closed spec fn view(&self) -> FrameView {
        FrameView {
            is_list: self.is_list,
            closing: self.closing,
            open_pos: self.open_pos as int,
            seen: match self.seen {
                Some(v) => Some(string_views(v@)),
                None => None,
            },
        }
    }
}

/// Pull-based parser for the phig configuration language.
///
/// Each call to [`next`](PhigParser::next) returns the next parse [`Event`],
/// or `None` when the input is fully consumed.
pub struct PhigParser {
    input: Vec<u8>,
    pos: usize,
    state: State,
    stack: Vec<Frame>,
}

/// The parser as the specification sees it.
pub struct ParserView {
    pub input: Seq<u8>,
    pub pos: int,
    pub state: State,
    pub stack: Seq<FrameView>,
}

spec fn frame_views(v: Seq<Frame>) -> Seq<FrameView> {
    v.map_values(|f: Frame| f@)
}

impl View for PhigParser {
    type V = ParserView;

    closed spec fn view(&self) -> ParserView {
        ParserView {
            input: self.input@,
            pos: self.pos as int,
            state: self.state,
            stack: frame_views(self.stack@),
        }
    }
}

/// A syntax error at `pos` with the message `msg`.
fn error_at(msg: &str, pos: usize) -> (e: Error)
    ensures
        is_fault(e, fault(msg@, pos as int)),
{
    Error::at(msg.to_string(), pos)
}

impl PhigParser {
    /// Only the position may have moved, and it stays within the input.
    spec fn moved_from(&self, old: &PhigParser) -> bool {
        &&& self.input == old.input
        &&& self.state == old.state
        &&& self.stack == old.stack
        &&& self.pos <= self.input@.len()
    }

    /// Decodes the character at the current position, with its width in bytes.
    fn decode(&self) -> (r: Result<Option<(char, usize)>, Error>)
        requires
            self.pos <= self.input@.len(),
        ensures
            match peek_at(self.input@, self.pos as int) {
                Ok(Some((c, w))) => r matches Ok(Some((c2, w2))) && c2 == c && w2 == w,
                Ok(None) => r matches Ok(None),
                Err(f) => r matches Err(e) && is_fault(e, f),
            },
            r matches Ok(Some((c, w))) ==> 1 <= w && self.pos + w <= self.input@.len(),
    {
        let p = self.pos;
        let len = self.input.len();
        if p >= len {
            return Ok(None);
        }
        let b0 = self.input[p];
        let w: usize = if b0 < 0x80 {
            1
        } else if 0xC0 <= b0 && b0 < 0xE0 {
            2
        } else if 0xE0 <= b0 && b0 < 0xF0 {
            3
        } else if 0xF0 <= b0 && b0 < 0xF8 {
            4
        } else {
            0
        };
        if w == 0 {
            return Err(error_at("invalid UTF-8", p));
        }
        if w > len - p {
            return Err(error_at("incomplete UTF-8 character", p));
        }
        let ghost sub = self.input@.subrange(p as int, p + w);
        assert(sub[0] == b0);
        let cp: u32;
        let valid: bool;
        if w == 1 {
            cp = (b0 & 0x7F) as u32;
            valid = true;
            assert(cp <= 0x7F) by (bit_vector)
                requires
                    cp == (b0 & 0x7F) as u32,
            ;
        } else if w == 2 {
            let b1 = self.input[p + 1];
            assert(sub[1] == b1);
            cp = (((b0 & 0x1F) as u32) << 6) | ((b1 & 0x3F) as u32);
            valid = 0x80 <= b1 && b1 <= 0xBF && 0x80 <= cp;
            assert(cp <= 0x7FF) by (bit_vector)
                requires
                    cp == (((b0 & 0x1F) as u32) << 6) | ((b1 & 0x3F) as u32),
            ;
        } else if w == 3 {
            let b1 = self.input[p + 1];
            let b2 = self.input[p + 2];
            assert(sub[1] == b1 && sub[2] == b2);
            cp = (((b0 & 0x0F) as u32) << 12) | (((b1 & 0x3F) as u32) << 6) | ((b2 & 0x3F) as u32);
            valid = 0x80 <= b1 && b1 <= 0xBF && 0x80 <= b2 && b2 <= 0xBF && 0x800 <= cp && !(0xD800
                <= cp && cp <= 0xDFFF);
            assert(cp <= 0xFFFF) by (bit_vector)
                requires
                    cp == (((b0 & 0x0F) as u32) << 12) | (((b1 & 0x3F) as u32) << 6) | ((b2
                        & 0x3F) as u32),
            ;
        } else {
            let b1 = self.input[p + 1];
            let b2 = self.input[p + 2];
            let b3 = self.input[p + 3];
            assert(sub[1] == b1 && sub[2] == b2 && sub[3] == b3);
            cp = (((b0 & 0x07) as u32) << 18) | (((b1 & 0x3F) as u32) << 12) | (((b2 & 0x3F)
                as u32) << 6) | ((b3 & 0x3F) as u32);
            valid = 0x80 <= b1 && b1 <= 0xBF && 0x80 <= b2 && b2 <= 0xBF && 0x80 <= b3 && b3
                <= 0xBF && 0x10000 <= cp && cp <= 0x10FFFF;
            assert(cp <= 0x1FFFFF) by (bit_vector)
                requires
                    cp == (((b0 & 0x07) as u32) << 18) | (((b1 & 0x3F) as u32) << 12) | (((b2
                        & 0x3F) as u32) << 6) | ((b3 & 0x3F) as u32),
            ;
        }
        assert(valid == valid_first_scalar(sub));
        if !valid {
            return Err(error_at("invalid UTF-8", p));
        }
        assert(cp == decode_first_scalar(sub));
        match core::char::from_u32(cp) {
            Some(c) => Ok(Some((c, w))),
            None => Err(error_at("invalid UTF-8", p)),
        }
    }

    /// The character at the current position.
    fn peek(&self) -> (r: Result<Option<char>, Error>)
        requires
            self.pos <= self.input@.len(),
        ensures
            match peek_at(self.input@, self.pos as int) {
                Ok(Some((c, w))) => r matches Ok(Some(c2)) && c2 == c,
                Ok(None) => r matches Ok(None),
                Err(f) => r matches Err(e) && is_fault(e, f),
            },
    {
        match self.decode()? {
            Some((c, _)) => Ok(Some(c)),
            None => Ok(None),
        }
    }

    /// Consumes the character at the current position and returns it.
    fn advance(&mut self) -> (r: Result<Option<char>, Error>)
        requires
            old(self).pos <= old(self).input@.len(),
        ensures
            final(self).input == old(self).input,
            final(self).state == old(self).state,
            final(self).stack == old(self).stack,
            match peek_at(old(self).input@, old(self).pos as int) {
                Ok(Some((c, w))) => r matches Ok(Some(c2)) && c2 == c && final(self).pos == old(
                    self,
                ).pos + w,
                Ok(None) => r matches Ok(None) && final(self).pos == old(self).pos,
                Err(f) => r matches Err(e) && is_fault(e, f) && final(self).pos == old(self).pos,
            },
            final(self).pos <= final(self).input@.len(),
    {
        let d = self.decode();
        let n = self.input.len();
        match d {
            Err(e) => Err(e),
            Ok(Some((c, w))) => {
                self.pos = self.pos + w;
                Ok(Some(c))
            },
            Ok(None) => Ok(None),
        }
    }
}


/// The position where a scan stops, whether it succeeds or fails.
pub open spec fn stop_pos<T>(s: Result<(int, T), (int, Fault)>) -> int {
    match s {
        Ok((q, _)) => q,
        Err((q, _)) => q,
    }
}

/// The exec result `r` fails exactly when the scan `s` does, with its fault.
pub open spec fn same_failure<T, U>(r: Result<T, Error>, s: Result<U, (int, Fault)>) -> bool {
    match s {
        Ok(_) => r is Ok,
        Err((_, f)) => r matches Err(e) && is_fault(e, f),
    }
}

/// A scan that yields only a position.
pub open spec fn with_unit(s: Result<int, (int, Fault)>) -> Result<(int, ()), (int, Fault)> {
    match s {
        Ok(q) => Ok((q, ())),
        Err(e) => Err(e),
    }
}

impl PhigParser {
    /// Consumes horizontal whitespace (space and tab only).
    fn hspace(&mut self) -> (r: Result<bool, Error>)
        requires
            old(self).pos <= old(self).input@.len(),
        ensures
            final(self).moved_from(old(self)),
            final(self).pos == stop_pos(with_unit(hspace_end(old(self).input@, old(self).pos as int))),
            same_failure(r, hspace_end(old(self).input@, old(self).pos as int)),
            r matches Ok(b) ==> b == (final(self).pos > old(self).pos),
    {
        let start = self.pos;
        loop
            invariant
                self.moved_from(old(self)),
                start == old(self).pos,
                start <= self.pos,
                hspace_end(self.input@, start as int) == hspace_end(self.input@, self.pos as int),
            ensures
                self.moved_from(old(self)),
                start <= self.pos,
                hspace_end(self.input@, start as int) == Ok::<int, (int, Fault)>(self.pos as int),
            decreases self.input@.len() - self.pos,
        {
            let c = self.peek()?;
            match c {
                Some(c) => {
                    if c == ' ' || c == '\t' {
                        self.advance()?;
                    } else {
                        break ;
                    }
                },
                None => {
                    break ;
                },
            }
        }
        Ok(self.pos > start)
    }

    /// Consumes the rest of a comment, up to the line feed that ends it.
    fn comment_body(&mut self)
        -> (r: Result<(), Error>)
        requires
            old(self).pos <= old(self).input@.len(),
        ensures
            final(self).moved_from(old(self)),
            final(self).pos == stop_pos(with_unit(comment_rest(old(self).input@, old(self).pos as int))),
            same_failure(r, comment_rest(old(self).input@, old(self).pos as int)),
    {
        loop
            invariant
                self.moved_from(old(self)),
                old(self).pos <= self.pos,
                comment_rest(self.input@, old(self).pos as int) == comment_rest(self.input@, self.pos as int),
            ensures
                self.moved_from(old(self)),
                comment_rest(self.input@, old(self).pos as int) == Ok::<int, (int, Fault)>(self.pos as int),
            decreases self.input@.len() - self.pos,
        {
            let c = self.peek()?;
            match c {
                Some(c) => {
                    if c == '\n' {
                        break ;
                    } else {
                        self.advance()?;
                    }
                },
                None => {
                    break ;
                },
            }
        }
        Ok(())
    }

    /// Consumes a # comment to end of line.
    fn comment(&mut self) -> (r: Result<bool, Error>)
        requires
            old(self).pos <= old(self).input@.len(),
        ensures
            final(self).moved_from(old(self)),
            final(self).pos == stop_pos(with_unit(comment_end(old(self).input@, old(self).pos as int))),
            same_failure(r, comment_end(old(self).input@, old(self).pos as int)),
            r matches Ok(b) ==> b == char_at_is(old(self).input@, old(self).pos as int, '#'),
    {
        let c = self.peek()?;
        match c {
            Some(c) => {
                if c == '#' {
                    self.comment_body()?;
                    Ok(true)
                } else {
                    Ok(false)
                }
            },
            None => Ok(false),
        }
    }

    /// Consumes structural whitespace (space, tab, CR, LF) and comments.
    fn wsc(&mut self) -> (r: Result<(), Error>)
        requires
            old(self).pos <= old(self).input@.len(),
        ensures
            final(self).moved_from(old(self)),
            final(self).pos == stop_pos(with_unit(wsc_end(old(self).input@, old(self).pos as int))),
            same_failure(r, wsc_end(old(self).input@, old(self).pos as int)),
    {
        loop
            invariant
                self.moved_from(old(self)),
                old(self).pos <= self.pos,
                wsc_end(self.input@, old(self).pos as int) == wsc_end(self.input@, self.pos as int),
            ensures
                self.moved_from(old(self)),
                wsc_end(self.input@, old(self).pos as int) == Ok::<int, (int, Fault)>(self.pos as int),
            decreases self.input@.len() - self.pos,
        {
            let c = self.peek()?;
            match c {
                Some(c) => {
                    if c == '#' {
                        let ghost p = self.pos as int;
                        proof {
                            let w = peek_at(self.input@, p)->Ok_0->Some_0.1;
                            lemma_comment_rest_ge(self.input@, p + w);
                        }
                        self.comment()?;
                    } else if c == ' ' || c == '\t' || c == '\n' || c == '\r' {
                        self.advance()?;
                    } else {
                        break ;
                    }
                },
                None => {
                    break ;
                },
            }
        }
        Ok(())
    }
}


impl PhigParser {
    /// Consumes a pair separator: one or more newlines, or a semicolon.
    fn pairsep(&mut self) -> (r: Result<bool, Error>)
        requires
            old(self).pos <= old(self).input@.len(),
        ensures
            final(self).moved_from(old(self)),
            final(self).pos == stop_pos(pairsep_end(old(self).input@, old(self).pos as int)),
            same_failure(r, pairsep_end(old(self).input@, old(self).pos as int)),
            r matches Ok(b) ==> pairsep_end(old(self).input@, old(self).pos as int) matches Ok((_, b2)) && b == b2,
    {
        let c = self.peek()?;
        if let Some(c) = c {
            if c == ';' {
                self.advance()?;
                return Ok(true);
            }
        }
        let start = self.pos;
        loop
            invariant
                self.moved_from(old(self)),
                start == old(self).pos,
                start <= self.pos,
                newlines_end(self.input@, start as int) == newlines_end(self.input@, self.pos as int),
            ensures
                self.moved_from(old(self)),
                start <= self.pos,
                newlines_end(self.input@, start as int) == Ok::<int, (int, Fault)>(self.pos as int),
            decreases self.input@.len() - self.pos,
        {
            let c = self.peek()?;
            match c {
                Some(c) => {
                    if c == '\n' {
                        self.advance()?;
                    } else if c == '\r' {
                        self.advance()?;
                        let d = self.peek()?;
                        if let Some(d) = d {
                            if d == '\n' {
                                self.advance()?;
                            }
                        }
                    } else {
                        break ;
                    }
                },
                None => {
                    break ;
                },
            }
        }
        Ok(self.pos > start)
    }

    /// Skip an optional UTF-8 BOM (EF BB BF) at the current position.
    fn skip_bom(&mut self)
        requires
            old(self).pos <= old(self).input@.len(),
        ensures
            final(self).moved_from(old(self)),
            final(self).pos == bom_end(old(self).input@, old(self).pos as int),
    {
        let p = self.pos;
        if self.input.len() - p >= 3 && self.input[p] == 0xEF && self.input[p + 1] == 0xBB
            && self.input[p + 2] == 0xBF {
            self.pos = p + 3;
        }
    }

    /// Parses a bare (unquoted) string. Returns `None` if no characters consumed.
    fn bare(&mut self) -> (r: Result<Option<String>, Error>)
        requires
            old(self).pos <= old(self).input@.len(),
        ensures
            final(self).moved_from(old(self)),
            final(self).pos == stop_pos(bare_string(old(self).input@, old(self).pos as int)),
            same_failure(r, bare_string(old(self).input@, old(self).pos as int)),
            r matches Ok(o) ==> bare_string(old(self).input@, old(self).pos as int) matches Ok((_, o2))
                && o2 == string_option_view(o),
    {
        let mut result = String::new();
        loop
            invariant
                self.moved_from(old(self)),
                old(self).pos <= self.pos,
                bare_scan(self.input@, old(self).pos as int, seq![]) == bare_scan(
                    self.input@,
                    self.pos as int,
                    result@,
                ),
            ensures
                self.moved_from(old(self)),
                bare_scan(self.input@, old(self).pos as int, seq![]) == Ok::<
                    (int, Seq<char>),
                    (int, Fault),
                >((self.pos as int, result@)),
            decreases self.input@.len() - self.pos,
        {
            let c = self.peek()?;
            match c {
                Some(c) => {
                    if char_is_whitespace(c) || c == '{' || c == '}' || c == '[' || c == ']' || c
                        == '"' || c == '#' || c == '\'' || c == ';' {
                        break ;
                    }
                    self.advance()?;
                    result.push(c);
                },
                None => {
                    break ;
                },
            }
        }
        if result.as_str().is_empty() {
            Ok(None)
        } else {
            Ok(Some(result))
        }
    }

    /// Parses a single-quoted raw string (no escapes).
    fn qrstring(&mut self) -> (r: Result<String, Error>)
        requires
            old(self).pos <= old(self).input@.len(),
            char_at_is(old(self).input@, old(self).pos as int, '\''),
        ensures
            final(self).moved_from(old(self)),
            final(self).pos == stop_pos(raw_scan(old(self).input@, old(self).pos + 1, old(self).pos as int, seq![])),
            same_failure(r, raw_scan(old(self).input@, old(self).pos + 1, old(self).pos as int, seq![])),
            r matches Ok(t) ==> raw_scan(old(self).input@, old(self).pos + 1, old(self).pos as int, seq![]) matches Ok((_, t2)) && t2 == t@,
    {
        let open = self.pos;
        proof {
            lemma_peek_scalar(self.input@, open as int);
        }
        self.advance()?;
        let mut result = String::new();
        loop
            invariant
                self.moved_from(old(self)),
                open + 1 <= self.pos,
                open == old(self).pos,
                raw_scan(self.input@, open + 1, open as int, seq![]) == raw_scan(
                    self.input@,
                    self.pos as int,
                    open as int,
                    result@,
                ),
            decreases self.input@.len() - self.pos,
        {
            let c = self.peek()?;
            match c {
                None => {
                    return Err(error_at("unterminated raw string", open));
                },
                Some(c) => {
                    if c == '\'' {
                        self.advance()?;
                        return Ok(result);
                    }
                    self.advance()?;
                    result.push(c);
                },
            }
        }
    }
}

/// The characters of an optional string.
pub open spec fn string_option_view(o: Option<String>) -> Option<Seq<char>> {
    match o {
        Some(s) => Some(s@),
        None => None,
    }
}


/// The code points that one to three UTF-8 bytes can carry.
pub proof fn lemma_codepoint_bounds(b0: u8, b1: u8, b2: u8)
    by (bit_vector)
    ensures
        codepoint_width_1(b0) <= 0x7F,
        codepoint_width_2(b0, b1) <= 0x7FF,
        codepoint_width_3(b0, b1, b2) <= 0xFFFF,
{
}

/// The character at `p`, when valid, is the scalar that its bytes encode.
pub proof fn lemma_peek_scalar(inp: Seq<u8>, p: int)
    requires
        0 <= p,
        peek_at(inp, p) is Ok,
        peek_at(inp, p)->Ok_0 is Some,
    ensures
        ({
            let (c, w) = peek_at(inp, p)->Ok_0->Some_0;
            let cp = decode_first_scalar(inp.subrange(p, p + w));
            &&& is_scalar(cp)
            &&& (c as u32) == cp
            &&& 1 <= w <= 4
            &&& (w == 1 <==> cp < 0x80)
        }),
{
    let w = char_width(inp[p]);
    let sub = inp.subrange(p, p + w);
    let cp = decode_first_scalar(sub);
    let b0 = sub[0];
    let b1 = if w >= 2 { sub[1] } else { 0 };
    let b2 = if w >= 3 { sub[2] } else { 0 };
    lemma_codepoint_bounds(b0, b1, b2);
    assert(b0 == inp[p]);
    if w == 1 {
        assert(cp == codepoint_width_1(b0));
    } else if w == 2 {
        assert(cp == codepoint_width_2(b0, b1));
    } else if w == 3 {
        assert(cp == codepoint_width_3(b0, b1, b2));
    }
    assert(is_scalar(cp));
    assert(((cp as char) as u32) == cp);
}


impl PhigParser {
    /// Parses the hexadecimal digits of a `\u{...}` escape, up to the closing `}`.
    fn hex_digits(&mut self, esc_start: usize) -> (r: Result<Vec<char>, Error>)
        requires
            old(self).pos <= old(self).input@.len(),
        ensures
            final(self).moved_from(old(self)),
            final(self).pos == stop_pos(hex_scan(old(self).input@, old(self).pos as int, esc_start as int, seq![])),
            same_failure(r, hex_scan(old(self).input@, old(self).pos as int, esc_start as int, seq![])),
            r matches Ok(h) ==> hex_scan(old(self).input@, old(self).pos as int, esc_start as int, seq![]) matches Ok((_, h2)) && h2 == h@,
    {
        let mut hex: Vec<char> = Vec::new();
        loop
            invariant
                self.moved_from(old(self)),
                old(self).pos <= self.pos,
                hex_scan(self.input@, old(self).pos as int, esc_start as int, seq![]) == hex_scan(
                    self.input@,
                    self.pos as int,
                    esc_start as int,
                    hex@,
                ),
            ensures
                self.moved_from(old(self)),
                hex_scan(self.input@, old(self).pos as int, esc_start as int, seq![]) == Ok::<
                    (int, Seq<char>),
                    (int, Fault),
                >((self.pos as int, hex@)),
            decreases self.input@.len() - self.pos,
        {
            let hc = self.peek()?;
            match hc {
                None => {
                    return Err(error_at("invalid unicode escape", esc_start));
                },
                Some(hc) => {
                    if hc == '}' {
                        break ;
                    }
                    if !char_is_hex_digit(hc) {
                        return Err(error_at("invalid unicode escape", esc_start));
                    }
                    hex.push(hc);
                    self.advance()?;
                },
            }
        }
        Ok(hex)
    }

    /// Parses a double-quoted string with escape sequences.
    fn qstring(&mut self) -> (r: Result<String, Error>)
        requires
            old(self).pos <= old(self).input@.len(),
            char_at_is(old(self).input@, old(self).pos as int, '"'),
        ensures
            final(self).moved_from(old(self)),
            final(self).pos == stop_pos(quoted_scan(old(self).input@, old(self).pos + 1, old(self).pos as int, seq![])),
            same_failure(r, quoted_scan(old(self).input@, old(self).pos + 1, old(self).pos as int, seq![])),
            r matches Ok(t) ==> quoted_scan(old(self).input@, old(self).pos + 1, old(self).pos as int, seq![]) matches Ok((_, t2)) && t2 == t@,
    {
        let open = self.pos;
        proof {
            lemma_peek_scalar(self.input@, open as int);
        }
        self.advance()?;
        let mut result = String::new();
        loop
            invariant
                self.moved_from(old(self)),
                open + 1 <= self.pos,
                open == old(self).pos,
                quoted_scan(self.input@, open + 1, open as int, seq![]) == quoted_scan(
                    self.input@,
                    self.pos as int,
                    open as int,
                    result@,
                ),
            decreases self.input@.len() - self.pos,
        {
            let ch = self.peek()?;
            let ch = match ch {
                None => {
                    return Err(error_at("unterminated string", open));
                },
                Some(ch) => ch,
            };
            if ch == '"' {
                self.advance()?;
                return Ok(result);
            } else if ch == '\\' {
                let esc_start = self.pos;
                self.advance()?;
                let esc = self.peek()?;
                let esc = match esc {
                    None => {
                        return Err(error_at("unterminated escape", esc_start));
                    },
                    Some(esc) => esc,
                };
                if esc == 'n' {
                    result.push('\n');
                    self.advance()?;
                } else if esc == 'r' {
                    result.push('\r');
                    self.advance()?;
                } else if esc == 't' {
                    result.push('\t');
                    self.advance()?;
                } else if esc == '\\' {
                    result.push('\\');
                    self.advance()?;
                } else if esc == '"' {
                    result.push('"');
                    self.advance()?;
                } else if esc == '0' {
                    result.push('\0');
                    self.advance()?;
                } else if esc == '\r' {
                    // line continuation: \<CR><LF>
                    self.advance()?;
                    let lf = self.peek()?;
                    let is_lf = match lf {
                        Some(d) => d == '\n',
                        None => false,
                    };
                    if is_lf {
                        self.advance()?;
                    } else {
                        return Err(error_at("expected LF after CR in line continuation", esc_start));
                    }
                } else if esc == '\n' {
                    // line continuation: \<LF>
                    self.advance()?;
                } else if esc == 'u' {
                    self.advance()?;
                    let brace = self.peek()?;
                    let is_brace = match brace {
                        Some(d) => d == '{',
                        None => false,
                    };
                    if !is_brace {
                        return Err(error_at("expected '{' after \\u", esc_start));
                    }
                    self.advance()?;  // skip {
                    let ghost before_hex = self.pos;
                    proof {
                        lemma_hex_scan(self.input@, self.pos as int, esc_start as int, seq![]);
                    }
                    let hex = self.hex_digits(esc_start)?;
                    if hex.len() == 0 || hex.len() > 6 {
                        return Err(error_at("invalid unicode escape", esc_start));
                    }
                    proof {
                        lemma_peek_scalar(self.input@, self.pos as int);
                        assert(hex@.subrange(0, 0) =~= Seq::<char>::empty());
                    }
                    self.advance()?;  // skip }
                    let cp = hex_digits_value(&hex);
                    match core::char::from_u32(cp) {
                        Some(c) => {
                            result.push(c);
                        },
                        None => {
                            return Err(error_at("unicode codepoint out of range", esc_start));
                        },
                    }
                } else {
                    self.advance()?;
                    let mut m = "invalid escape '\\".to_string();
                    m.push(esc);
                    m.push('\'');
                    proof {
                        reveal_strlit("'");
                        assert(m@ =~= "invalid escape '\\"@ + seq![esc] + "'"@);
                    }
                    return Err(Error::at(m, esc_start));
                }
            } else {
                self.advance()?;
                result.push(ch);
            }
        }
    }

    /// Parses a string value (quoted, raw, or bare). Returns `None` if none found.
    fn string_val(&mut self) -> (r: Result<Option<String>, Error>)
        requires
            old(self).pos <= old(self).input@.len(),
        ensures
            final(self).moved_from(old(self)),
            final(self).pos == stop_pos(string_scan(old(self).input@, old(self).pos as int)),
            same_failure(r, string_scan(old(self).input@, old(self).pos as int)),
            r matches Ok(o) ==> string_scan(old(self).input@, old(self).pos as int) matches Ok((_, o2))
                && o2 == string_option_view(o),
    {
        let c = self.peek()?;
        if let Some(c) = c {
            if c == '"' {
                proof {
                    lemma_peek_scalar(self.input@, self.pos as int);
                }
                let s = self.qstring()?;
                return Ok(Some(s));
            } else if c == '\'' {
                proof {
                    lemma_peek_scalar(self.input@, self.pos as int);
                }
                let s = self.qrstring()?;
                return Ok(Some(s));
            }
        }
        self.bare()
    }
}


// ── the state machine ──────────────────────────────────────────────

/// The frame of the document's top-level map.
pub open spec fn top_frame() -> FrameView {
    FrameView { is_list: false, closing: None, open_pos: 0, seen: Some(seq![]) }
}

/// The frame of a map opened by `{` at `open`.
pub open spec fn map_frame(open: int) -> FrameView {
    FrameView { is_list: false, closing: Some('}'), open_pos: open, seen: Some(seq![]) }
}

/// The frame of a list opened by `[` at `open`.
pub open spec fn list_frame(open: int) -> FrameView {
    FrameView { is_list: true, closing: Some(']'), open_pos: open, seen: None }
}

/// The parser in the state where [`PhigParser::new`] leaves it.
pub open spec fn initial_view(input: Seq<u8>) -> ParserView {
    ParserView { input, pos: 0, state: State::DocStart, stack: seq![] }
}

/// What one call of `next` does: the parser afterwards, and what the call
/// returns (`None` once the document is done).
pub type Step = (ParserView, Option<Result<EventView, Fault>>);

pub open spec fn at_pos(v: ParserView, q: int) -> ParserView {
    ParserView { pos: q, ..v }
}

pub open spec fn in_state(v: ParserView, s: State) -> ParserView {
    ParserView { state: s, ..v }
}

/// The call fails with `f`, having moved to `q`.
pub open spec fn fail(v: ParserView, q: int, f: Fault) -> Step {
    (at_pos(v, q), Some(Err(f)))
}

/// The call returns `e`, leaving the parser as `v`.
pub open spec fn emit(v: ParserView, e: EventView) -> Step {
    (v, Some(Ok(e)))
}

pub open spec fn at_end(v: ParserView) -> bool {
    v.pos >= v.input.len()
}

/// The message that names an unexpected character.
pub open spec fn unexpected(c: char) -> Seq<char> {
    "unexpected '"@ + seq![c] + "'"@
}

/// The character at `p`, when there is one.
pub open spec fn char_at(inp: Seq<u8>, p: int) -> char {
    peek_at(inp, p)->Ok_0->Some_0.0
}

/// Whether the innermost map ends here: at the end of input, or at its closing brace.
pub open spec fn at_map_end(v: ParserView) -> Result<bool, Fault> {
    match v.stack.last().closing {
        None => Ok(at_end(v)),
        Some(c) => if at_end(v) {
            Ok(true)
        } else {
            match peek_at(v.input, v.pos) {
                Err(f) => Err(f),
                Ok(Some((d, _))) => Ok(d == c),
                Ok(None) => Ok(false),
            }
        },
    }
}

/// The state after a container closed: that of its parent, or done.
pub open spec fn after_container(v: ParserView) -> ParserView {
    if v.stack.len() == 0 {
        in_state(v, State::Done)
    } else if v.stack.last().is_list {
        in_state(v, State::BetweenItems)
    } else {
        in_state(v, State::BetweenPairs)
    }
}

/// Pops the innermost container, with the position at `q`.
pub open spec fn popped(v: ParserView, q: int) -> ParserView {
    after_container(ParserView { pos: q, stack: v.stack.drop_last(), ..v })
}

/// Closes the current map: its `}`, or for the top-level map the end of input.
pub open spec fn close_map(v: ParserView) -> Step {
    let fr = v.stack.last();
    match fr.closing {
        Some(c) => match peek_at(v.input, v.pos) {
            Err(f) => fail(v, v.pos, f),
            Ok(Some((d, w))) => if d == c {
                emit(popped(v, v.pos + w), EventView::EndMap)
            } else {
                fail(v, v.pos, fault("unclosed '{'"@, fr.open_pos))
            },
            Ok(None) => fail(v, v.pos, fault("unclosed '{'"@, fr.open_pos)),
        },
        None => match wsc_end(v.input, v.pos) {
            Err((q, f)) => fail(v, q, f),
            Ok(q) => if q >= v.input.len() {
                emit(popped(v, q), EventView::EndMap)
            } else {
                match peek_at(v.input, q) {
                    Err(f) => fail(v, q, f),
                    Ok(_) => fail(v, q, fault(unexpected(char_at(v.input, q)), q)),
                }
            },
        },
    }
}

/// Closes the current list at its `]`.
pub open spec fn close_list(v: ParserView) -> Step {
    match peek_at(v.input, v.pos) {
        Err(f) => fail(v, v.pos, f),
        Ok(Some((c, w))) => if c == ']' {
            emit(popped(v, v.pos + w), EventView::EndList)
        } else {
            fail(v, v.pos, fault("unclosed '['"@, v.stack.last().open_pos))
        },
        Ok(None) => fail(v, v.pos, fault("unclosed '['"@, v.stack.last().open_pos)),
    }
}

/// The innermost frame with `k` added to its keys.
pub open spec fn with_key(v: ParserView, k: Seq<char>) -> Seq<FrameView> {
    let fr = v.stack.last();
    v.stack.update(v.stack.len() - 1, FrameView { seen: Some(fr.seen->Some_0.push(k)), ..fr })
}

/// A key at the start of a pair: it must be new in its map; the spaces after it are consumed.
pub open spec fn parse_key(v: ParserView) -> Step {
    match string_scan(v.input, v.pos) {
        Err((q, f)) => fail(v, q, f),
        Ok((q, None)) => match peek_at(v.input, q) {
            Err(f) => fail(v, q, f),
            Ok(_) => fail(v, q, fault(unexpected(char_at(v.input, q)), q)),
        },
        Ok((q, Some(k))) => if v.stack.last().seen->Some_0.contains(k) {
            fail(v, q, fault("duplicate key '"@ + k + "'"@, v.pos))
        } else {
            let v1 = ParserView { pos: q, stack: with_key(v, k), ..v };
            match hspace_end(v.input, q) {
                Err((q2, f)) => fail(v1, q2, f),
                Ok(q2) => emit(in_state(at_pos(v1, q2), State::AfterKey), EventView::Key(k)),
            }
        },
    }
}

/// A value: a map, a list, or a string (after which the state becomes `after`).
pub open spec fn parse_value(v: ParserView, after: State) -> Step {
    match peek_at(v.input, v.pos) {
        Err(f) => fail(v, v.pos, f),
        Ok(Some((c, w))) => if c == '{' {
            match wsc_end(v.input, v.pos + w) {
                Err((q, f)) => fail(v, q, f),
                Ok(q) => emit(
                    ParserView { pos: q, stack: v.stack.push(map_frame(v.pos)), state: State::BeforePair, ..v },
                    EventView::StartMap,
                ),
            }
        } else if c == '[' {
            match wsc_end(v.input, v.pos + w) {
                Err((q, f)) => fail(v, q, f),
                Ok(q) => emit(
                    ParserView { pos: q, stack: v.stack.push(list_frame(v.pos)), state: State::BeforeItem, ..v },
                    EventView::StartList,
                ),
            }
        } else {
            parse_string_value(v, after)
        },
        Ok(None) => parse_string_value(v, after),
    }
}

/// A string value, or the fault of a missing value.
pub open spec fn parse_string_value(v: ParserView, after: State) -> Step {
    match string_scan(v.input, v.pos) {
        Err((q, f)) => fail(v, q, f),
        Ok((q, Some(s))) => emit(in_state(at_pos(v, q), after), EventView::Str(s)),
        Ok((q, None)) => fail(
            v,
            q,
            fault(
                if after == State::BetweenPairs {
                    "expected value after key"@
                } else {
                    unexpected(char_at(v.input, v.pos))
                },
                q,
            ),
        ),
    }
}

/// pairs: expecting a key or the end of the map.
pub open spec fn before_pair(v: ParserView) -> Step {
    match at_map_end(v) {
        Err(f) => fail(v, v.pos, f),
        Ok(true) => close_map(v),
        Ok(false) => parse_key(v),
    }
}

/// items: expecting a value or `]`.
pub open spec fn before_item(v: ParserView) -> Step {
    if at_end(v) {
        close_list(v)
    } else {
        match peek_at(v.input, v.pos) {
            Err(f) => fail(v, v.pos, f),
            Ok(Some((c, _))) => if c == ']' {
                close_list(v)
            } else {
                parse_value(v, State::BetweenItems)
            },
            Ok(None) => close_list(v),
        }
    }
}

/// After a `;` between pairs another pair must follow: the end of the map
/// there is a fault.
pub open spec fn after_pairsep(v: ParserView, semicolon: bool) -> Step {
    if semicolon && at_map_end(v) == Ok::<bool, Fault>(true) {
        fail(v, v.pos, fault("expected key after ';'"@, v.pos))
    } else {
        before_pair(v)
    }
}

/// After a `;` between items another item must follow: the end of the
/// list there is a fault.
pub open spec fn after_itemsep(v: ParserView, semicolon: bool) -> Step {
    if semicolon && (at_end(v) || char_at_is(v.input, v.pos, ']')) {
        fail(v, v.pos, fault("expected value after ';'"@, v.pos))
    } else {
        before_item(v)
    }
}

/// pairs: a pair is done; then a separator and the next pair, or the end
/// of the map.
pub open spec fn between_pairs(v: ParserView) -> Step {
    match hspace_end(v.input, v.pos) {
        Err((q, f)) => fail(v, q, f),
        Ok(p1) => match comment_end(v.input, p1) {
            Err((q, f)) => fail(v, q, f),
            Ok(p2) => {
                let v2 = at_pos(v, p2);
                match at_map_end(v2) {
                    Err(f) => fail(v, p2, f),
                    Ok(true) => before_pair(in_state(v2, State::BeforePair)),
                    Ok(false) => match pairsep_end(v.input, p2) {
                        Err((q, f)) => fail(v, q, f),
                        Ok((p3, found)) => if !found {
                            fail(v, p3, fault("expected newline or ';' after value"@, p3))
                        } else {
                            match wsc_end(v.input, p3) {
                                Err((q, f)) => fail(v, q, f),
                                Ok(p4) => after_pairsep(
                                    in_state(at_pos(v, p4), State::BeforePair),
                                    char_at_is(v.input, p2, ';'),
                                ),
                            }
                        },
                    },
                }
            },
        },
    }
}

/// items: an item is done; then an optional `;` between white space and
/// the next item, or `]`.
pub open spec fn between_items(v: ParserView) -> Step {
    if at_end(v) || char_at_is(v.input, v.pos, ']') {
        before_item(in_state(v, State::BeforeItem))
    } else if peek_at(v.input, v.pos) is Err {
        fail(v, v.pos, peek_at(v.input, v.pos)->Err_0)
    } else {
        match wsc_end(v.input, v.pos) {
            Err((q, f)) => fail(v, q, f),
            Ok(p1) => match peek_at(v.input, p1) {
                Err(f) => fail(v, p1, f),
                Ok(o) => {
                    let p2 = match o {
                        Some((c, w)) => if c == ';' { p1 + w } else { p1 },
                        None => p1,
                    };
                    match wsc_end(v.input, p2) {
                        Err((q, f)) => fail(v, q, f),
                        Ok(p3) => after_itemsep(in_state(at_pos(v, p3), State::BeforeItem), p2 != p1),
                    }
                },
            },
        }
    }
}

/// toplevel: an optional byte order mark and white space, then the top-level map opens.
pub open spec fn doc_start(v: ParserView) -> Step {
    match wsc_end(v.input, bom_end(v.input, v.pos)) {
        Err((q, f)) => fail(v, q, f),
        Ok(q) => emit(
            ParserView { pos: q, stack: v.stack.push(top_frame()), state: State::BeforePair, ..v },
            EventView::StartMap,
        ),
    }
}

/// One call of [`PhigParser::next`].
pub open spec fn step(v: ParserView) -> Step {
    match v.state {
        State::DocStart => doc_start(v),
        State::BeforePair => before_pair(v),
        State::AfterKey => parse_value(v, State::BetweenPairs),
        State::BetweenPairs => between_pairs(v),
        State::BeforeItem => before_item(v),
        State::BetweenItems => between_items(v),
        State::Done => (v, None),
    }
}

/// A frame below the top-level one: a map or a list.
pub open spec fn inner_frame_ok(fr: FrameView) -> bool {
    ||| fr.is_list && fr.closing == Some(']') && fr.seen is None
    ||| !fr.is_list && fr.closing == Some('}') && fr.seen is Some
}

/// The parser's invariant: the position lies within the input, the stack
/// holds the top-level map below any nested maps and lists, the state fits
/// the innermost container, and the keys seen in each map are distinct.
pub open spec fn parser_wf(v: ParserView) -> bool {
    &&& 0 <= v.pos <= v.input.len()
    &&& (v.state == State::DocStart || v.state == State::Done) <==> v.stack.len() == 0
    &&& v.stack.len() > 0 ==> !v.stack[0].is_list && v.stack[0].closing is None && v.stack[0].seen is Some
    &&& forall|i: int| 0 < i < v.stack.len() ==> inner_frame_ok(#[trigger] v.stack[i])
    &&& forall|i: int| 0 <= i < v.stack.len() && (#[trigger] v.stack[i]).seen is Some ==> v.stack[i].seen->Some_0.no_duplicates()
    &&& (v.state == State::BeforePair || v.state == State::AfterKey || v.state == State::BetweenPairs) ==> !v.stack.last().is_list
    &&& (v.state == State::BeforeItem || v.state == State::BetweenItems) ==> v.stack.last().is_list
}

/// The result of a call matches `out`.
pub open spec fn emitted(r: Option<Result<Event, Error>>, out: Option<Result<EventView, Fault>>) -> bool {
    match out {
        None => r is None,
        Some(Ok(ev)) => r matches Some(Ok(e)) && e@ == ev,
        Some(Err(f)) => r matches Some(Err(e)) && is_fault(e, f),
    }
}

/// The result of a call that always returns an event or an error matches `out`.
pub open spec fn emitted_event(r: Result<Event, Error>, out: Option<Result<EventView, Fault>>) -> bool {
    emitted(Some(r), out)
}


/// Whether `k` is one of the strings in `v`.
fn contains_str(v: &Vec<String>, k: &String) -> (b: bool)
    ensures
        b == string_views(v@).contains(k@),
{
    let mut i: usize = 0;
    while i < v.len()
        invariant
            i <= v@.len(),
            forall|j: int| 0 <= j < i ==> v@[j]@ != k@,
        decreases v@.len() - i,
    {
        if v[i] == *k {
            assert(string_views(v@)[i as int] == k@);
            return true;
        }
        i = i + 1;
    }
    assert forall|j: int| 0 <= j < string_views(v@).len() implies string_views(v@)[j] != k@ by {}
    false
}

/// The error that names an unexpected character at `pos`.
fn unexpected_at(c: char, pos: usize) -> (e: Error)
    ensures
        is_fault(e, fault(unexpected(c), pos as int)),
{
    let mut m = "unexpected '".to_string();
    m.push(c);
    m.push('\'');
    proof {
        reveal_strlit("'");
        assert(m@ =~= unexpected(c));
    }
    Error::at(m, pos)
}

impl PhigParser {
    /// Create a new parser over the bytes of `input`.
    pub fn new(input: &[u8]) -> (p: PhigParser)
        ensures
            p@ == initial_view(input@),
            p.wf(),
    {
        let mut bytes: Vec<u8> = Vec::new();
        let mut i: usize = 0;
        while i < input.len()
            invariant
                i <= input@.len(),
                bytes@ == input@.take(i as int),
            decreases input@.len() - i,
        {
            bytes.push(input[i]);
            i = i + 1;
            assert(bytes@ =~= input@.take(i as int));
        }
        assert(bytes@ =~= input@);
        let p = PhigParser { input: bytes, pos: 0, state: State::DocStart, stack: Vec::new() };
        assert(frame_views(p.stack@) =~= Seq::<FrameView>::empty());
        p
    }

    /// The parser's invariant holds.
    pub open spec fn wf(&self) -> bool {
        parser_wf(self@)
    }

    /// The parser has at most `usize::MAX` containers open.
    pub proof fn lemma_depth_fits(&self)
        ensures
            self@.stack.len() <= usize::MAX,
    {
        assert(self.stack.len() == self.stack@.len());
    }

    fn at_end(&self) -> (b: bool)
        requires
            self.pos <= self.input@.len(),
        ensures
            b == at_end(self@),
    {
        self.pos >= self.input.len()
    }

    /// True when the current position is at the end of the innermost map.
    fn at_map_end(&self) -> (r: Result<bool, Error>)
        requires
            parser_wf(self@),
            self.stack@.len() > 0,
        ensures
            match at_map_end(self@) {
                Ok(b) => r matches Ok(b2) && b == b2,
                Err(f) => r matches Err(e) && is_fault(e, f),
            },
    {
        let closing = self.stack[self.stack.len() - 1].closing;
        match closing {
            None => Ok(self.at_end()),
            Some(c) => {
                if self.at_end() {
                    Ok(true)
                } else {
                    let d = self.peek()?;
                    Ok(
                        match d {
                            Some(d) => d == c,
                            None => false,
                        },
                    )
                }
            },
        }
    }

    /// Sets the state appropriate for the parent context after closing a container.
    fn after_container(&mut self)
        ensures
            final(self)@ == after_container(old(self)@),
            final(self).input == old(self).input,
            final(self).pos == old(self).pos,
            final(self).stack == old(self).stack,
    {
        if self.stack.len() == 0 {
            self.state = State::Done;
        } else {
            let is_list = self.stack[self.stack.len() - 1].is_list;
            self.state = if is_list {
                State::BetweenItems
            } else {
                State::BetweenPairs
            };
        }
    }

    /// Pops the innermost frame and sets the parent's state.
    fn pop_frame(&mut self)
        requires
            old(self).stack@.len() > 0,
        ensures
            final(self)@ == popped(old(self)@, old(self).pos as int),
            final(self).input == old(self).input,
            final(self).pos == old(self).pos,
    {
        self.stack.pop();
        assert(frame_views(self.stack@) =~= frame_views(old(self).stack@).drop_last());
        self.after_container();
    }

    /// Closes the current map: consumes '}' (or verifies EOF for
    /// top-level), pops the frame, and returns [`Event::EndMap`].
    fn close_map(&mut self) -> (r: Result<Event, Error>)
        requires
            parser_wf(old(self)@),
            old(self).stack@.len() > 0,
        ensures
            final(self)@ == close_map(old(self)@).0,
            emitted_event(r, close_map(old(self)@).1),
    {
        let n = self.stack.len();
        let closing = self.stack[n - 1].closing;
        let open_pos = self.stack[n - 1].open_pos;
        match closing {
            Some(c) => {
                let d = self.peek()?;
                let found = match d {
                    Some(d) => d == c,
                    None => false,
                };
                if !found {
                    return Err(error_at("unclosed '{'", open_pos));
                }
                self.advance()?;
            },
            None => {
                self.wsc()?;
                if !self.at_end() {
                    let c = self.peek()?;
                    return Err(unexpected_at(c.unwrap(), self.pos));
                }
            },
        }
        self.pop_frame();
        Ok(Event::EndMap)
    }

    /// Closes the current list: consumes ']', pops the frame,
    /// and returns [`Event::EndList`].
    fn close_list(&mut self) -> (r: Result<Event, Error>)
        requires
            parser_wf(old(self)@),
            old(self).stack@.len() > 0,
        ensures
            final(self)@ == close_list(old(self)@).0,
            emitted_event(r, close_list(old(self)@).1),
    {
        let n = self.stack.len();
        let open_pos = self.stack[n - 1].open_pos;
        let d = self.peek()?;
        let found = match d {
            Some(d) => d == ']',
            None => false,
        };
        if !found {
            return Err(error_at("unclosed '['", open_pos));
        }
        self.advance()?;
        self.pop_frame();
        Ok(Event::EndList)
    }
}


pub proof fn lemma_bare_scan(inp: Seq<u8>, p: int, acc: Seq<char>)
    requires
        0 <= p <= inp.len(),
    ensures
        bare_scan(inp, p, acc) matches Ok((q, s)) ==> p <= q <= inp.len() && acc.len() <= s.len()
            && (s.len() == acc.len() <==> q == p),
        bare_scan(inp, p, acc) matches Err((q, _)) ==> p <= q <= inp.len(),
    decreases inp.len() - p,
{
    if let Ok(Some((c, w))) = peek_at(inp, p) {
        if !(is_white_space(c) || is_delimiter(c)) {
            lemma_bare_scan(inp, p + w, acc.push(c));
        }
    }
}

impl PhigParser {
    /// Parses a key at the start of a pair, checks for duplicates,
    /// consumes trailing HSPACE, and returns [`Event::Key`].
    fn parse_key(&mut self) -> (r: Result<Event, Error>)
        requires
            parser_wf(old(self)@),
            old(self).stack@.len() > 0,
            !old(self)@.stack.last().is_list,
            !at_end(old(self)@),
        ensures
            final(self)@ == parse_key(old(self)@).0,
            emitted_event(r, parse_key(old(self)@).1),
    {
        let start = self.pos;
        proof {
            lemma_bare_scan(self.input@, start as int, seq![]);
        }
        let key = self.string_val()?;
        let key = match key {
            Some(k) => k,
            None => {
                let c = self.peek()?;
                return Err(unexpected_at(c.unwrap(), self.pos));
            },
        };
        let ghost v = old(self)@;
        let n = self.stack.len();
        assert(self.stack@[n - 1]@ == v.stack.last());
        let mut frame = self.stack.pop().unwrap();
        let mut seen = frame.seen.take().unwrap();
        if contains_str(&seen, &key) {
            frame.seen = Some(seen);
            self.stack.push(frame);
            assert(frame_views(self.stack@) =~= v.stack);
            let mut m = "duplicate key '".to_string();
            m.append(key.as_str());
            m.push('\'');
            proof {
                reveal_strlit("'");
                assert(m@ =~= "duplicate key '"@ + key@ + "'"@);
            }
            return Err(Error::at(m, start));
        }
        let ghost seen_before = string_views(seen@);
        seen.push(key.clone());
        assert(string_views(seen@) =~= seen_before.push(key@));
        frame.seen = Some(seen);
        self.stack.push(frame);
        assert(frame_views(self.stack@) =~= with_key(v, key@));
        self.hspace()?;
        self.state = State::AfterKey;
        Ok(Event::Key(key))
    }

    /// Parses a value (map, list, or string) and returns the
    /// corresponding event.
    ///
    /// `after_string` is the state to transition to when the value is a
    /// plain string (for maps/lists the state is set to the
    /// container-interior state instead).
    fn parse_value(&mut self, after_string: State) -> (r: Result<Event, Error>)
        requires
            parser_wf(old(self)@),
            after_string == State::BetweenPairs || !at_end(old(self)@),
        ensures
            final(self)@ == parse_value(old(self)@, after_string).0,
            emitted_event(r, parse_value(old(self)@, after_string).1),
    {
        let ghost v = old(self)@;
        let cp = self.peek()?;
        let (is_map, is_list) = match cp {
            Some(c) => (c == '{', c == '['),
            None => (false, false),
        };
        if is_map {
            let open = self.pos;
            self.advance()?;
            self.wsc()?;
            let keys: Vec<String> = Vec::new();
            assert(string_views(keys@) =~= Seq::<Seq<char>>::empty());
            self.stack.push(Frame { is_list: false, closing: Some('}'), open_pos: open, seen: Some(keys) });
            assert(frame_views(self.stack@) =~= v.stack.push(map_frame(open as int)));
            self.state = State::BeforePair;
            Ok(Event::StartMap)
        } else if is_list {
            let open = self.pos;
            self.advance()?;
            self.wsc()?;
            self.stack.push(Frame { is_list: true, closing: Some(']'), open_pos: open, seen: None });
            assert(frame_views(self.stack@) =~= v.stack.push(list_frame(open as int)));
            self.state = State::BeforeItem;
            Ok(Event::StartList)
        } else {
            proof {
                lemma_bare_scan(self.input@, self.pos as int, seq![]);
            }
            let s = self.string_val()?;
            match s {
                Some(s) => {
                    self.state = after_string;
                    Ok(Event::String(s))
                },
                None => {
                    let msg = if after_string == State::BetweenPairs {
                        "expected value after key".to_string()
                    } else {
                        let mut m = "unexpected '".to_string();
                        m.push(cp.unwrap());
                        m.push('\'');
                        proof {
                            reveal_strlit("'");
                            assert(m@ =~= unexpected(cp.unwrap()));
                        }
                        m
                    };
                    Err(Error::at(msg, self.pos))
                },
            }
        }
    }

    /// pairs: expecting a key or the end of the map.
    fn before_pair(&mut self) -> (r: Result<Event, Error>)
        requires
            parser_wf(old(self)@),
            old(self).state == State::BeforePair,
        ensures
            final(self)@ == before_pair(old(self)@).0,
            emitted_event(r, before_pair(old(self)@).1),
    {
        if self.at_map_end()? {
            return self.close_map();
        }
        self.parse_key()
    }

    /// items: expecting a value or ']'.
    fn before_item(&mut self) -> (r: Result<Event, Error>)
        requires
            parser_wf(old(self)@),
            old(self).state == State::BeforeItem,
        ensures
            final(self)@ == before_item(old(self)@).0,
            emitted_event(r, before_item(old(self)@).1),
    {
        if self.at_end() {
            return self.close_list();
        }
        let c = self.peek()?;
        let at_close = match c {
            Some(c) => c == ']',
            None => true,
        };
        if at_close {
            return self.close_list();
        }
        self.parse_value(State::BetweenItems)
    }

    /// pairs: pair done, expecting PAIRSEP or end of map.
    fn between_pairs(&mut self) -> (r: Result<Event, Error>)
        requires
            parser_wf(old(self)@),
            old(self).state == State::BetweenPairs,
        ensures
            final(self)@ == between_pairs(old(self)@).0,
            emitted_event(r, between_pairs(old(self)@).1),
    {
        self.hspace()?;  // [HSPACE] trailing the pair
        self.comment()?;  // [COMMENT] trailing the pair
        if self.at_map_end()? {
            self.state = State::BeforePair;
            return self.before_pair();
        }
        let first = self.peek()?;
        let semicolon = match first {
            Some(c) => c == ';',
            None => false,
        };
        if !self.pairsep()? {
            return Err(error_at("expected newline or ';' after value", self.pos));
        }
        self.wsc()?;  // _ before next pair
        self.state = State::BeforePair;
        if semicolon && self.at_map_end()? {
            return Err(error_at("expected key after ';'", self.pos));
        }
        self.before_pair()
    }

    /// items: item done, expecting separator or ']'.
    fn between_items(&mut self) -> (r: Result<Event, Error>)
        requires
            parser_wf(old(self)@),
            old(self).state == State::BetweenItems,
        ensures
            final(self)@ == between_items(old(self)@).0,
            emitted_event(r, between_items(old(self)@).1),
    {
        let mut at_close = self.at_end();
        if !at_close {
            let c = self.peek()?;
            at_close = match c {
                Some(c) => c == ']',
                None => false,
            };
        }
        if at_close {
            self.state = State::BeforeItem;
            return self.before_item();
        }
        self.wsc()?;
        let c = self.peek()?;
        let mut semicolon = false;
        if let Some(c) = c {
            if c == ';' {
                self.advance()?;
                semicolon = true;
            }
        }
        self.wsc()?;
        self.state = State::BeforeItem;
        if semicolon {
            let mut at_close = self.at_end();
            if !at_close {
                let d = self.peek()?;
                at_close = match d {
                    Some(d) => d == ']',
                    None => false,
                };
            }
            if at_close {
                return Err(error_at("expected value after ';'", self.pos));
            }
        }
        self.before_item()
    }

    /// toplevel: optional BOM and white space, then the top-level map opens.
    fn doc_start(&mut self) -> (r: Result<Event, Error>)
        requires
            parser_wf(old(self)@),
            old(self).state == State::DocStart,
        ensures
            final(self)@ == doc_start(old(self)@).0,
            emitted_event(r, doc_start(old(self)@).1),
    {
        let ghost v = old(self)@;
        self.skip_bom();
        self.wsc()?;
        let keys: Vec<String> = Vec::new();
        assert(string_views(keys@) =~= Seq::<Seq<char>>::empty());
        self.stack.push(Frame { is_list: false, closing: None, open_pos: 0, seen: Some(keys) });
        assert(frame_views(self.stack@) =~= v.stack.push(top_frame()));
        self.state = State::BeforePair;
        Ok(Event::StartMap)
    }
}


// ── how far the scanners move ───────────────────────────────────────

/// A scan from `p` stops between `p` and the end of the input.
pub open spec fn stops_within<T>(s: Result<(int, T), (int, Fault)>, inp: Seq<u8>, p: int) -> bool {
    p <= stop_pos(s) <= inp.len()
}

pub proof fn lemma_peek_width(inp: Seq<u8>, p: int)
    requires
        0 <= p <= inp.len(),
    ensures
        peek_at(inp, p) matches Ok(Some((c, w))) ==> 1 <= w && p + w <= inp.len(),
        peek_at(inp, p) matches Ok(None) ==> p == inp.len(),
{
}

pub proof fn lemma_hspace_within(inp: Seq<u8>, p: int)
    requires
        0 <= p <= inp.len(),
    ensures
        stops_within(with_unit(hspace_end(inp, p)), inp, p),
    decreases inp.len() - p,
{
    if let Ok(Some((c, w))) = peek_at(inp, p) {
        if c == ' ' || c == '\t' {
            lemma_hspace_within(inp, p + w);
        }
    }
}

pub proof fn lemma_comment_within(inp: Seq<u8>, p: int)
    requires
        0 <= p <= inp.len(),
    ensures
        stops_within(with_unit(comment_rest(inp, p)), inp, p),
        stops_within(with_unit(comment_end(inp, p)), inp, p),
{
    lemma_comment_rest_ge(inp, p);
}

pub proof fn lemma_wsc_within(inp: Seq<u8>, p: int)
    requires
        0 <= p <= inp.len(),
    ensures
        stops_within(with_unit(wsc_end(inp, p)), inp, p),
    decreases inp.len() - p,
{
    if let Ok(Some((c, w))) = peek_at(inp, p) {
        if c == '#' {
            lemma_comment_rest_ge(inp, p + w);
            if let Ok(q) = comment_rest(inp, p + w) {
                lemma_wsc_within(inp, q);
            }
        } else if c == ' ' || c == '\t' || c == '\n' || c == '\r' {
            lemma_wsc_within(inp, p + w);
        }
    }
}

pub proof fn lemma_newlines_within(inp: Seq<u8>, p: int)
    requires
        0 <= p <= inp.len(),
    ensures
        stops_within(with_unit(newlines_end(inp, p)), inp, p),
    decreases inp.len() - p,
{
    if let Ok(Some((c, w))) = peek_at(inp, p) {
        if c == '\n' {
            lemma_newlines_within(inp, p + w);
        } else if c == '\r' {
            lemma_peek_width(inp, p + w);
            match peek_at(inp, p + w) {
                Ok(Some((d, w2))) => {
                    if d == '\n' {
                        lemma_newlines_within(inp, p + w + w2);
                    } else {
                        lemma_newlines_within(inp, p + w);
                    }
                },
                Ok(None) => {
                    lemma_newlines_within(inp, p + w);
                },
                Err(_) => {},
            }
        }
    }
}

pub proof fn lemma_pairsep_within(inp: Seq<u8>, p: int)
    requires
        0 <= p <= inp.len(),
    ensures
        stops_within(pairsep_end(inp, p), inp, p),
        pairsep_end(inp, p) matches Ok((q, found)) ==> (found <==> q > p),
{
    lemma_newlines_within(inp, p);
}

pub proof fn lemma_raw_within(inp: Seq<u8>, p: int, open: int, acc: Seq<char>)
    requires
        0 <= p <= inp.len(),
    ensures
        stops_within(raw_scan(inp, p, open, acc), inp, p),
        raw_scan(inp, p, open, acc) matches Ok((q, _)) ==> p < q,
    decreases inp.len() - p,
{
    if let Ok(Some((c, w))) = peek_at(inp, p) {
        if c != '\'' {
            lemma_raw_within(inp, p + w, open, acc.push(c));
        }
    }
}

pub proof fn lemma_hex_within(inp: Seq<u8>, p: int, esc: int, acc: Seq<char>)
    requires
        0 <= p <= inp.len(),
    ensures
        stops_within(hex_scan(inp, p, esc, acc), inp, p),
    decreases inp.len() - p,
{
    if let Ok(Some((c, w))) = peek_at(inp, p) {
        if c != '}' && is_hex_digit(c) {
            lemma_hex_within(inp, p + w, esc, acc.push(c));
        }
    }
}

pub proof fn lemma_quoted_within(inp: Seq<u8>, p: int, open: int, acc: Seq<char>)
    requires
        0 <= p <= inp.len(),
    ensures
        stops_within(quoted_scan(inp, p, open, acc), inp, p),
        quoted_scan(inp, p, open, acc) matches Ok((q, _)) ==> p < q,
    decreases inp.len() - p,
{
    if let Ok(Some((c, w))) = peek_at(inp, p) {
        if c == '\\' {
            let p1 = p + w;
            lemma_peek_width(inp, p1);
            if let Ok(Some((e, w1))) = peek_at(inp, p1) {
                if simple_escape(e) is Some {
                    lemma_quoted_within(inp, p1 + w1, open, acc.push(simple_escape(e)->0));
                } else if e == '\r' {
                    let p2 = p1 + w1;
                    lemma_peek_width(inp, p2);
                    if let Ok(Some((d, w2))) = peek_at(inp, p2) {
                        if d == '\n' {
                            lemma_quoted_within(inp, p2 + w2, open, acc);
                        }
                    }
                } else if e == '\n' {
                    lemma_quoted_within(inp, p1 + w1, open, acc);
                } else if e == 'u' {
                    let p2 = p1 + w1;
                    lemma_peek_width(inp, p2);
                    if let Ok(Some((d, w2))) = peek_at(inp, p2) {
                        if d == '{' {
                            lemma_hex_scan(inp, p2 + w2, p, seq![]);
                            lemma_hex_within(inp, p2 + w2, p, seq![]);
                            if let Ok((q, h)) = hex_scan(inp, p2 + w2, p, seq![]) {
                                if !(h.len() == 0 || h.len() > 6) && is_scalar(hex_value(h) as u32) {
                                    lemma_quoted_within(inp, q + 1, open, acc.push((hex_value(h) as u32) as char));
                                }
                            }
                        }
                    }
                }
            }
        } else if c != '"' {
            lemma_quoted_within(inp, p + w, open, acc.push(c));
        }
    }
}

pub proof fn lemma_string_within(inp: Seq<u8>, p: int)
    requires
        0 <= p <= inp.len(),
    ensures
        stops_within(string_scan(inp, p), inp, p),
        string_scan(inp, p) matches Ok((q, o)) ==> (o is Some <==> p < q),
{
    lemma_peek_width(inp, p);
    lemma_bare_scan(inp, p, seq![]);
    if let Ok(Some((c, w))) = peek_at(inp, p) {
        if c == '"' {
            lemma_quoted_within(inp, p + w, p, seq![]);
            return;
        } else if c == '\'' {
            lemma_raw_within(inp, p + w, p, seq![]);
            return;
        }
    }
    assert(string_scan(inp, p) == bare_string(inp, p));
    if let Ok((q, s)) = bare_scan(inp, p, seq![]) {
        assert(s.len() == 0 ==> q == p);
        assert(q > p ==> s.len() > 0);
    }
}


// ── the event stream ────────────────────────────────────────────────

/// An open container of an event stream: a map (with the keys it has had,
/// and whether its last key still awaits a value) or a list.
pub enum Open {
    Dict { keys: Seq<Seq<char>>, awaiting: bool },
    List,
}

/// How far an event stream has come: whether it has started, and the
/// containers open at this point, outermost first.
pub struct StreamCtx {
    pub started: bool,
    pub open: Seq<Open>,
}

/// The stream has started and every container it opened is closed again.
pub open spec fn stream_done(c: StreamCtx) -> bool {
    c.started && c.open.len() == 0
}

/// A value has come for the innermost container.
pub open spec fn filled(open: Seq<Open>) -> Seq<Open> {
    if open.len() > 0 && open.last() is Dict {
        open.update(open.len() - 1, Open::Dict { keys: open.last()->keys, awaiting: false })
    } else {
        open
    }
}

/// The well-formed event streams of a document, one event at a time: the
/// stream is one map; a map holds keys, each new in its map and each
/// followed by one value; a list holds values; a value is a string, a map
/// or a list; and every container is closed by its own end event.
/// `None` when `e` cannot come next.
pub open spec fn accept(c: StreamCtx, e: EventView) -> Option<StreamCtx> {
    if !c.started {
        if e is StartMap {
            Some(StreamCtx { started: true, open: seq![Open::Dict { keys: seq![], awaiting: false }] })
        } else {
            None
        }
    } else if c.open.len() == 0 {
        None
    } else {
        let top = c.open.last();
        if top is Dict && !top->awaiting {
            match e {
                EventView::Key(k) => if top->keys.contains(k) {
                    None
                } else {
                    Some(StreamCtx { open: c.open.update(c.open.len() - 1, Open::Dict { keys: top->keys.push(k), awaiting: true }), ..c })
                },
                EventView::EndMap => Some(StreamCtx { open: filled(c.open.drop_last()), ..c }),
                _ => None,
            }
        } else {
            match e {
                EventView::StartMap => Some(StreamCtx { open: c.open.push(Open::Dict { keys: seq![], awaiting: false }), ..c }),
                EventView::StartList => Some(StreamCtx { open: c.open.push(Open::List), ..c }),
                EventView::Str(_) => Some(StreamCtx { open: filled(c.open), ..c }),
                EventView::EndList => if top is List {
                    Some(StreamCtx { open: filled(c.open.drop_last()), ..c })
                } else {
                    None
                },
                _ => None,
            }
        }
    }
}

/// The open container that the parser's frame `i` stands for.
pub open spec fn open_of(v: ParserView, i: int) -> Open {
    let fr = v.stack[i];
    if fr.is_list {
        Open::List
    } else {
        Open::Dict { keys: fr.seen->Some_0, awaiting: i < v.stack.len() - 1 || v.state == State::AfterKey }
    }
}

/// How far the parser's event stream has come.
pub open spec fn ctx_of(v: ParserView) -> StreamCtx {
    StreamCtx { started: v.state != State::DocStart, open: Seq::new(v.stack.len(), |i: int| open_of(v, i)) }
}

/// A bound on the calls of `next` that are left: each event consumes
/// input, but for the first and the last.
pub open spec fn steps_left(v: ParserView) -> int {
    3 * (v.input.len() - v.pos) + if v.state == State::DocStart {
        2int
    } else if v.state == State::Done {
        0int
    } else {
        1int
    }
}

/// What holds after a call from `v` that ended as `st`: the invariant, and
/// for an event, that the stream accepts it and that progress was made.
pub open spec fn step_ok(v: ParserView, st: Step) -> bool {
    &&& parser_wf(st.0)
    &&& st.0.input == v.input
    &&& (st.1 matches Some(Ok(e)) ==> {
        &&& accept(ctx_of(v), e) == Some(ctx_of(st.0))
        &&& steps_left(st.0) < steps_left(v)
    })
}

proof fn lemma_fail_ok(v: ParserView, q: int, f: Fault)
    requires
        parser_wf(v),
        0 <= q <= v.input.len(),
    ensures
        step_ok(v, fail(v, q, f)),
{
    assert forall|i: int| 0 <= i < at_pos(v, q).stack.len() implies #[trigger] at_pos(v, q).stack[i] == v.stack[i] by {}
}

proof fn lemma_close_map(v: ParserView)
    requires
        parser_wf(v),
        v.state == State::BeforePair,
    ensures
        step_ok(v, close_map(v)),
{
    let fr = v.stack.last();
    let n = v.stack.len();
    lemma_peek_width(v.input, v.pos);
    lemma_wsc_within(v.input, v.pos);
    if n > 1 {
        assert(inner_frame_ok(v.stack[n - 1]));
    }
    match fr.closing {
        Some(c) => {
            if let Ok(Some((d, w))) = peek_at(v.input, v.pos) {
                if d == c {
                    lemma_popped(v, v.pos + w);
                    return;
                }
            }
            lemma_fail_ok(v, v.pos, fault("unclosed '{'"@, fr.open_pos));
            if let Err(f) = peek_at(v.input, v.pos) {
                lemma_fail_ok(v, v.pos, f);
            }
        },
        None => {
            match wsc_end(v.input, v.pos) {
                Err((q, f)) => lemma_fail_ok(v, q, f),
                Ok(q) => if q >= v.input.len() {
                    lemma_popped(v, q);
                } else {
                    lemma_fail_ok(v, q, fault(unexpected(char_at(v.input, q)), q));
                    if let Err(f) = peek_at(v.input, q) {
                        lemma_fail_ok(v, q, f);
                    }
                },
            }
        },
    }
}

/// Closing the innermost container keeps the invariant and closes it in the stream.
proof fn lemma_popped(v: ParserView, q: int)
    requires
        parser_wf(v),
        v.state == State::BeforePair || v.state == State::BeforeItem,
        v.pos <= q <= v.input.len(),
        v.stack.len() == 1 ==> v.state == State::BeforePair,
        v.stack.len() > 1 ==> q > v.pos,
    ensures
        parser_wf(popped(v, q)),
        ctx_of(popped(v, q)).open =~= filled(ctx_of(v).open.drop_last()),
        steps_left(popped(v, q)) < steps_left(v),
{
    let v2 = popped(v, q);
    let n = v.stack.len();
    assert forall|i: int| 0 <= i < v2.stack.len() implies #[trigger] v2.stack[i] == v.stack[i] by {}
    if n >= 2 {
        assert(inner_frame_ok(v.stack[n - 1]) || n - 1 == 0);
    }
    let o = ctx_of(v).open.drop_last();
    assert forall|i: int| 0 <= i < v2.stack.len() implies ctx_of(v2).open[i] == filled(o)[i] by {
        assert(v2.stack[i] == v.stack[i]);
    }
}


proof fn lemma_close_list(v: ParserView)
    requires
        parser_wf(v),
        v.state == State::BeforeItem,
    ensures
        step_ok(v, close_list(v)),
{
    lemma_peek_width(v.input, v.pos);
    let n = v.stack.len();
    if n == 1 {
        assert(!v.stack[0].is_list);
    }
    if let Ok(Some((c, w))) = peek_at(v.input, v.pos) {
        if c == ']' {
            lemma_popped(v, v.pos + w);
            return;
        }
    }
    lemma_fail_ok(v, v.pos, fault("unclosed '['"@, v.stack.last().open_pos));
    if let Err(f) = peek_at(v.input, v.pos) {
        lemma_fail_ok(v, v.pos, f);
    }
}

proof fn lemma_parse_key(v: ParserView)
    requires
        parser_wf(v),
        v.state == State::BeforePair,
    ensures
        step_ok(v, parse_key(v)),
{
    lemma_string_within(v.input, v.pos);
    let n = v.stack.len();
    if n > 1 {
        assert(inner_frame_ok(v.stack[n - 1]));
    }
    match string_scan(v.input, v.pos) {
        Err((q, f)) => lemma_fail_ok(v, q, f),
        Ok((q, None)) => {
            lemma_fail_ok(v, q, fault(unexpected(char_at(v.input, q)), q));
            if let Err(f) = peek_at(v.input, q) {
                lemma_fail_ok(v, q, f);
            }
        },
        Ok((q, Some(k))) => {
            let seen = v.stack.last().seen->Some_0;
            if seen.contains(k) {
                lemma_fail_ok(v, q, fault("duplicate key '"@ + k + "'"@, v.pos));
            } else {
                let v1 = ParserView { pos: q, stack: with_key(v, k), ..v };
                assert(seen.push(k).no_duplicates()) by {
                    assert forall|i: int, j: int| 0 <= i < j < seen.push(k).len() implies seen.push(k)[i] != seen.push(k)[j] by {
                        if j == seen.len() {
                            assert(seen[i] == seen.push(k)[i]);
                        }
                    }
                }
                assert(parser_wf(v1)) by {
                    assert forall|i: int| 0 <= i < v1.stack.len() - 1 implies #[trigger] v1.stack[i] == v.stack[i] by {}
                    assert(v1.stack[n - 1].seen->Some_0 == seen.push(k));
                }
                lemma_hspace_within(v.input, q);
                match hspace_end(v.input, q) {
                    Err((q2, f)) => lemma_fail_ok(v1, q2, f),
                    Ok(q2) => {
                        let v2 = in_state(at_pos(v1, q2), State::AfterKey);
                        let c1 = ctx_of(v);
                        let c2 = ctx_of(v2);
                        assert(c2.open =~= c1.open.update(n - 1, Open::Dict { keys: seen.push(k), awaiting: true })) by {
                            assert forall|i: int| 0 <= i < n - 1 implies c2.open[i] == c1.open[i] by {
                                assert(v2.stack[i] == v.stack[i]);
                            }
                        }
                    },
                }
            }
        },
    }
}

proof fn lemma_parse_value(v: ParserView, after: State)
    requires
        parser_wf(v),
        (v.state == State::AfterKey && after == State::BetweenPairs) || (v.state == State::BeforeItem
            && after == State::BetweenItems),
    ensures
        step_ok(v, parse_value(v, after)),
{
    lemma_peek_width(v.input, v.pos);
    lemma_string_within(v.input, v.pos);
    let n = v.stack.len();
    if n > 1 {
        assert(inner_frame_ok(v.stack[n - 1]));
    }
    let c1 = ctx_of(v);
    match peek_at(v.input, v.pos) {
        Err(f) => lemma_fail_ok(v, v.pos, f),
        Ok(Some((c, w))) => if c == '{' || c == '[' {
            lemma_wsc_within(v.input, v.pos + w);
            match wsc_end(v.input, v.pos + w) {
                Err((q, f)) => lemma_fail_ok(v, q, f),
                Ok(q) => {
                    let fr = if c == '{' { map_frame(v.pos) } else { list_frame(v.pos) };
                    let v2 = ParserView {
                        pos: q,
                        stack: v.stack.push(fr),
                        state: if c == '{' { State::BeforePair } else { State::BeforeItem },
                        ..v
                    };
                    assert(parser_wf(v2)) by {
                        assert(inner_frame_ok(v2.stack[n as int]));
                        assert forall|i: int| 0 <= i < n implies #[trigger] v2.stack[i] == v.stack[i] by {}
                    }
                    let c2 = ctx_of(v2);
                    let top = if c == '{' { Open::Dict { keys: seq![], awaiting: false } } else { Open::List };
                    assert(c2.open =~= c1.open.push(top)) by {
                        assert forall|i: int| 0 <= i < n implies c2.open[i] == c1.open[i] by {
                            assert(v2.stack[i] == v.stack[i]);
                        }
                        assert(c2.open[n as int] == top);
                    }
                },
            }
        } else {
            lemma_string_value(v, after);
        },
        Ok(None) => lemma_string_value(v, after),
    }
}

proof fn lemma_string_value(v: ParserView, after: State)
    requires
        parser_wf(v),
        (v.state == State::AfterKey && after == State::BetweenPairs) || (v.state == State::BeforeItem
            && after == State::BetweenItems),
    ensures
        step_ok(v, parse_string_value(v, after)),
{
    lemma_string_within(v.input, v.pos);
    let n = v.stack.len();
    if n > 1 {
        assert(inner_frame_ok(v.stack[n - 1]));
    }
    match string_scan(v.input, v.pos) {
        Err((q, f)) => lemma_fail_ok(v, q, f),
        Ok((q, Some(s))) => {
            let v2 = in_state(at_pos(v, q), after);
            let c1 = ctx_of(v);
            let c2 = ctx_of(v2);
            assert(c2.open =~= filled(c1.open)) by {
                assert forall|i: int| 0 <= i < n implies c2.open[i] == filled(c1.open)[i] by {
                    assert(v2.stack[i] == v.stack[i]);
                }
            }
        },
        Ok((q, None)) => {
            let msg = if after == State::BetweenPairs {
                "expected value after key"@
            } else {
                unexpected(char_at(v.input, v.pos))
            };
            lemma_fail_ok(v, q, fault(msg, q));
        },
    }
}

proof fn lemma_before_pair(v: ParserView)
    requires
        parser_wf(v),
        v.state == State::BeforePair,
    ensures
        step_ok(v, before_pair(v)),
{
    match at_map_end(v) {
        Err(f) => lemma_fail_ok(v, v.pos, f),
        Ok(true) => lemma_close_map(v),
        Ok(false) => lemma_parse_key(v),
    }
}

proof fn lemma_before_item(v: ParserView)
    requires
        parser_wf(v),
        v.state == State::BeforeItem,
    ensures
        step_ok(v, before_item(v)),
{
    lemma_close_list(v);
    lemma_parse_value(v, State::BetweenItems);
    if let Err(f) = peek_at(v.input, v.pos) {
        lemma_fail_ok(v, v.pos, f);
    }
}

/// Moving forward within the input and into `s` keeps the stream where it was.
proof fn lemma_moved(v: ParserView, q: int, s: State)
    requires
        parser_wf(v),
        v.pos <= q <= v.input.len(),
        (v.state == State::BetweenPairs && s == State::BeforePair) || (v.state == State::BetweenItems
            && s == State::BeforeItem),
    ensures
        parser_wf(in_state(at_pos(v, q), s)),
        ctx_of(in_state(at_pos(v, q), s)) == ctx_of(v),
        steps_left(in_state(at_pos(v, q), s)) <= steps_left(v),
{
    let v2 = in_state(at_pos(v, q), s);
    assert(ctx_of(v2).open =~= ctx_of(v).open);
}

proof fn lemma_between_pairs(v: ParserView)
    requires
        parser_wf(v),
        v.state == State::BetweenPairs,
    ensures
        step_ok(v, between_pairs(v)),
{
    lemma_hspace_within(v.input, v.pos);
    match hspace_end(v.input, v.pos) {
        Err((q, f)) => lemma_fail_ok(v, q, f),
        Ok(p1) => {
            lemma_comment_within(v.input, p1);
            match comment_end(v.input, p1) {
                Err((q, f)) => lemma_fail_ok(v, q, f),
                Ok(p2) => {
                    let v2 = at_pos(v, p2);
                    match at_map_end(v2) {
                        Err(f) => lemma_fail_ok(v, p2, f),
                        Ok(true) => {
                            lemma_moved(v, p2, State::BeforePair);
                            lemma_before_pair(in_state(v2, State::BeforePair));
                        },
                        Ok(false) => {
                            lemma_pairsep_within(v.input, p2);
                            match pairsep_end(v.input, p2) {
                                Err((q, f)) => lemma_fail_ok(v, q, f),
                                Ok((p3, found)) => if !found {
                                    lemma_fail_ok(v, p3, fault("expected newline or ';' after value"@, p3));
                                } else {
                                    lemma_wsc_within(v.input, p3);
                                    match wsc_end(v.input, p3) {
                                        Err((q, f)) => lemma_fail_ok(v, q, f),
                                        Ok(p4) => {
                                            lemma_moved(v, p4, State::BeforePair);
                                            lemma_before_pair(in_state(at_pos(v, p4), State::BeforePair));
                                            lemma_fail_ok(in_state(at_pos(v, p4), State::BeforePair), p4, fault("expected key after ';'"@, p4));
                                        },
                                    }
                                },
                            }
                        },
                    }
                },
            }
        },
    }
}

proof fn lemma_between_items(v: ParserView)
    requires
        parser_wf(v),
        v.state == State::BetweenItems,
    ensures
        step_ok(v, between_items(v)),
{
    lemma_peek_width(v.input, v.pos);
    if at_end(v) || char_at_is(v.input, v.pos, ']') {
        lemma_moved(v, v.pos, State::BeforeItem);
        lemma_before_item(in_state(v, State::BeforeItem));
    } else if peek_at(v.input, v.pos) is Err {
        lemma_fail_ok(v, v.pos, peek_at(v.input, v.pos)->Err_0);
    } else {
        lemma_wsc_within(v.input, v.pos);
        match wsc_end(v.input, v.pos) {
            Err((q, f)) => lemma_fail_ok(v, q, f),
            Ok(p1) => {
                lemma_peek_width(v.input, p1);
                match peek_at(v.input, p1) {
                    Err(f) => lemma_fail_ok(v, p1, f),
                    Ok(o) => {
                        let p2 = match o {
                            Some((c, w)) => if c == ';' { p1 + w } else { p1 },
                            None => p1,
                        };
                        lemma_wsc_within(v.input, p2);
                        match wsc_end(v.input, p2) {
                            Err((q, f)) => lemma_fail_ok(v, q, f),
                            Ok(p3) => {
                                lemma_moved(v, p3, State::BeforeItem);
                                lemma_before_item(in_state(at_pos(v, p3), State::BeforeItem));
                                lemma_fail_ok(in_state(at_pos(v, p3), State::BeforeItem), p3, fault("expected value after ';'"@, p3));
                            },
                        }
                    },
                }
            },
        }
    }
}

proof fn lemma_doc_start(v: ParserView)
    requires
        parser_wf(v),
        v.state == State::DocStart,
    ensures
        step_ok(v, doc_start(v)),
{
    let p0 = bom_end(v.input, v.pos);
    lemma_wsc_within(v.input, p0);
    match wsc_end(v.input, p0) {
        Err((q, f)) => lemma_fail_ok(v, q, f),
        Ok(q) => {
            let v2 = ParserView { pos: q, stack: v.stack.push(top_frame()), state: State::BeforePair, ..v };
            assert(ctx_of(v2).open =~= seq![Open::Dict { keys: seq![], awaiting: false }]);
        },
    }
}

/// Every call of `next` keeps the parser's invariant. An event that it
/// returns is one that a well-formed event stream accepts at that point, and
/// consumes input (but for the first and the last event, which may not);
/// `None` comes only once the stream is complete, and leaves the parser as it was.
pub proof fn lemma_step(v: ParserView)
    requires
        parser_wf(v),
    ensures
        step_ok(v, step(v)),
        step(v).1 is None <==> v.state == State::Done,
        step(v).1 is None ==> stream_done(ctx_of(v)) && step(v).0 == v,
{
    match v.state {
        State::DocStart => lemma_doc_start(v),
        State::BeforePair => lemma_before_pair(v),
        State::AfterKey => lemma_parse_value(v, State::BetweenPairs),
        State::BetweenPairs => lemma_between_pairs(v),
        State::BeforeItem => lemma_before_item(v),
        State::BetweenItems => lemma_between_items(v),
        State::Done => {
            assert(ctx_of(v).open =~= Seq::<Open>::empty());
        },
    }
}


impl PhigParser {
    /// Returns the next parse event, an error, or `None` once the input
    /// is fully consumed.
    pub fn next(&mut self) -> (r: Option<Result<Event, Error>>)
        requires
            old(self).wf(),
        ensures
            final(self).wf(),
            final(self)@ == step(old(self)@).0,
            emitted(r, step(old(self)@).1),
    {
        proof {
            lemma_step(self@);
        }
        match self.state {
            State::DocStart => Some(self.doc_start()),
            State::BeforePair => Some(self.before_pair()),
            State::AfterKey => Some(self.parse_value(State::BetweenPairs)),
            State::BetweenPairs => Some(self.between_pairs()),
            State::BeforeItem => Some(self.before_item()),
            State::BetweenItems => Some(self.between_items()),
            State::Done => None,
        }
    }
}

/// The events that the parser emits from `v` on: all of them up to `None`,
/// or the fault of the first call that fails.
pub open spec fn run(v: ParserView) -> Result<Seq<EventView>, Fault>
    decreases steps_left(v),
    when parser_wf(v)
    via run_decreases
{
    match step(v).1 {
        None => Ok(seq![]),
        Some(Err(f)) => Err(f),
        Some(Ok(e)) => match run(step(v).0) {
            Ok(es) => Ok(seq![e] + es),
            Err(f) => Err(f),
        },
    }
}

#[via_fn]
proof fn run_decreases(v: ParserView) {
    lemma_step(v);
}

/// The events of the document `input`, or the fault that ends parsing it.
pub open spec fn document_events(input: Seq<u8>) -> Result<Seq<EventView>, Fault> {
    run(initial_view(input))
}

/// The stream context after the events `es`, if the stream accepts them all.
pub open spec fn accept_all(c: StreamCtx, es: Seq<EventView>) -> Option<StreamCtx>
    decreases es.len(),
{
    if es.len() == 0 {
        Some(c)
    } else {
        match accept(c, es[0]) {
            Some(c2) => accept_all(c2, es.drop_first()),
            None => None,
        }
    }
}

/// The context of a stream that has not started.
pub open spec fn stream_start() -> StreamCtx {
    StreamCtx { started: false, open: seq![] }
}

pub proof fn lemma_run_accepted(v: ParserView)
    requires
        parser_wf(v),
    ensures
        run(v) matches Ok(es) ==> accept_all(ctx_of(v), es) matches Some(c) && stream_done(c),
    decreases steps_left(v),
{
    lemma_step(v);
    if let Some(Ok(e)) = step(v).1 {
        lemma_run_accepted(step(v).0);
        if let Ok(es) = run(step(v).0) {
            let all = seq![e] + es;
            assert(all[0] == e);
            assert(all.drop_first() =~= es);
        }
    }
}

/// The events of every document that parses form one complete, well-formed
/// stream: a single top-level map, containers that nest and close properly,
/// one value after each key, and keys that are distinct within each map.
pub proof fn lemma_document_well_formed(input: Seq<u8>)
    ensures
        document_events(input) matches Ok(es) ==> accept_all(stream_start(), es) matches Some(c)
            && stream_done(c),
{
    let v = initial_view(input);
    assert(ctx_of(v).open =~= Seq::<Open>::empty());
    lemma_run_accepted(v);
}

} // verus!
