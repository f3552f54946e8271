//! Reading typed pieces from the parser's event stream.
//!
//! [`StreamDeserializer`] wraps a [`PhigParser`] with one event of
//! look-ahead. Its methods are the decisions a data-format deserializer
//! makes: which event may come where, and which error is reported when
//! another one comes. What each method does is stated over [`DeView`] with
//! [`pull`], the single step that takes one event.
use vstd::prelude::*;
use crate::error::{Error, ErrorView};
use crate::text::str_chars;
use crate::value::{ValueView, value_events, items_events, pairs_events};
use crate::parse::{
    Event, EventView, PhigParser, ParserView, Fault, step, parser_wf, steps_left, lemma_step,
    ctx_of, initial_view, run,
};

verus! {

broadcast use vstd::string::group_string_axioms;

/// The error that a parser fault is reported as.
pub open spec fn fault_view(f: Fault) -> ErrorView {
    ErrorView::Syntax { msg: f.msg, pos: Some(f.pos as usize) }
}

/// An error with the message `msg` and no position.
pub open spec fn plain_error(msg: Seq<char>) -> ErrorView {
    ErrorView::Syntax { msg, pos: None }
}

/// The deserializer as the specification sees it: the parser, and the
/// event taken from it but not yet consumed.
pub struct DeView {
    pub parser: ParserView,
    pub peeked: Option<EventView>,
}

/// The invariant: the parser's own, and an opening event held back has
/// its container open in the parser already.
pub open spec fn de_wf(d: DeView) -> bool {
    &&& parser_wf(d.parser)
    &&& (d.peeked matches Some(e) && (e is StartMap || e is StartList) ==> d.parser.stack.len() >= 1)
}

/// Taking one event: the one held back if there is one, else the parser's
/// next; `None` at the end of the stream.
#[verifier::opaque]
pub open spec fn pull(d: DeView) -> (DeView, Option<Result<EventView, ErrorView>>) {
    match d.peeked {
        Some(e) => (DeView { peeked: None, ..d }, Some(Ok(e))),
        None => {
            let st = step(d.parser);
            (
                DeView { parser: st.0, peeked: None },
                match st.1 {
                    None => None,
                    Some(Ok(e)) => Some(Ok(e)),
                    Some(Err(f)) => Some(Err(fault_view(f))),
                },
            )
        },
    }
}

/// Taking one event, where the end of the stream is an error.
pub open spec fn take(d: DeView) -> (DeView, Result<EventView, ErrorView>) {
    let (d2, r) = pull(d);
    (
        d2,
        match r {
            None => Err(plain_error("unexpected end of input"@)),
            Some(x) => x,
        },
    )
}

/// Looking at the next event without consuming it.
pub open spec fn peek(d: DeView) -> (DeView, Result<Option<EventView>, ErrorView>) {
    match d.peeked {
        Some(e) => (d, Ok(Some(e))),
        None => {
            let (d2, r) = pull(d);
            match r {
                None => (d2, Ok(None)),
                Some(Ok(e)) => (DeView { peeked: Some(e), ..d2 }, Ok(Some(e))),
                Some(Err(x)) => (d2, Err(x)),
            }
        },
    }
}

pub open spec fn event_result(r: Result<Event, Error>) -> Result<EventView, ErrorView> {
    match r {
        Ok(e) => Ok(e@),
        Err(e) => Err(e@),
    }
}

pub open spec fn unit_result(r: Result<(), Error>) -> Result<(), ErrorView> {
    match r {
        Ok(()) => Ok(()),
        Err(e) => Err(e@),
    }
}

/// Taking a string event: its text, or "expected string" for another event.
pub open spec fn take_string_spec(d: DeView) -> (DeView, Result<Seq<char>, ErrorView>) {
    let (d2, r) = take(d);
    (
        d2,
        match r {
            Ok(EventView::Str(s)) => Ok(s),
            Ok(_) => Err(plain_error("expected string"@)),
            Err(x) => Err(x),
        },
    )
}

/// Consuming the parser's events until `depth` containers have closed.
pub open spec fn skip_rest(v: ParserView, depth: nat) -> (ParserView, Result<(), ErrorView>)
    decreases steps_left(v),
    when parser_wf(v)
    via skip_rest_decreases
{
    if depth == 0 {
        (v, Ok(()))
    } else {
        let st = step(v);
        match st.1 {
            None => (st.0, Err(plain_error("unexpected end of input"@))),
            Some(Err(f)) => (st.0, Err(fault_view(f))),
            Some(Ok(e)) => skip_rest(st.0, (depth + depth_change(e)) as nat),
        }
    }
}

#[via_fn]
proof fn skip_rest_decreases(v: ParserView, depth: nat) {
    lemma_step(v);
}

/// Skipping one value: a string, or a map or list up to its matching end.
/// A key or an end event where a value should start is "unexpected event".
pub open spec fn skip_spec(d: DeView) -> (DeView, Result<(), ErrorView>) {
    let (d2, r) = take(d);
    match r {
        Err(x) => (d2, Err(x)),
        Ok(EventView::Str(_)) => (d2, Ok(())),
        Ok(EventView::StartMap) | Ok(EventView::StartList) => {
            let (p, r2) = skip_rest(d2.parser, 1);
            (DeView { parser: p, peeked: None }, r2)
        },
        Ok(_) => (d2, Err(plain_error("unexpected event"@))),
    }
}

/// Taking an event that must be `want`; another event is the error `msg`.
pub open spec fn expect_spec(d: DeView, want: EventView, msg: Seq<char>) -> (DeView, Result<(), ErrorView>) {
    let (d2, r) = take(d);
    (
        d2,
        match r {
            Ok(e) => if e == want {
                Ok(())
            } else {
                Err(plain_error(msg))
            },
            Err(x) => Err(x),
        },
    )
}

/// Taking the next key of a map: the key, `None` at the end of the map,
/// or "expected key or end of map".
pub open spec fn next_key_spec(d: DeView) -> (DeView, Result<Option<Seq<char>>, ErrorView>) {
    let (d2, r) = take(d);
    (
        d2,
        match r {
            Ok(EventView::Key(k)) => Ok(Some(k)),
            Ok(EventView::EndMap) => Ok(None),
            Ok(_) => Err(plain_error("expected key or end of map"@)),
            Err(x) => Err(x),
        },
    )
}

/// Whether a list has another element: at its end the end event is
/// consumed and the answer is `false`; any other event stays for the
/// element and the answer is `true`; the end of the stream is an error.
pub open spec fn next_element_spec(d: DeView) -> (DeView, Result<bool, ErrorView>) {
    let (d2, r) = peek(d);
    match r {
        Err(x) => (d2, Err(x)),
        Ok(None) => (d2, Err(plain_error("unexpected end of input in list"@))),
        Ok(Some(EventView::EndList)) => (take(d2).0, Ok(false)),
        Ok(Some(_)) => (d2, Ok(true)),
    }
}

/// Taking the first event of a value of any kind: a string, or the start
/// of a map or a list; anything else is "unexpected event".
pub open spec fn take_value_spec(d: DeView) -> (DeView, Result<EventView, ErrorView>) {
    let (d2, r) = take(d);
    (
        d2,
        match r {
            Ok(e) => if e is Str || e is StartMap || e is StartList {
                Ok(e)
            } else {
                Err(plain_error("unexpected event"@))
            },
            Err(x) => Err(x),
        },
    )
}

/// The head of an enum value: a bare string names a unit variant
/// (`false`); a map whose first key names the variant wraps its content
/// (`true`), and is closed by the end of that map.
pub open spec fn enum_start_spec(d: DeView) -> (DeView, Result<(Seq<char>, bool), ErrorView>) {
    let (d2, r) = peek(d);
    match r {
        Err(x) => (d2, Err(x)),
        Ok(Some(EventView::Str(s))) => (take(d2).0, Ok((s, false))),
        Ok(Some(EventView::StartMap)) => {
            let (d4, r4) = take(take(d2).0);
            (
                d4,
                match r4 {
                    Ok(EventView::Key(k)) => Ok((k, true)),
                    Ok(_) => Err(plain_error("expected variant name"@)),
                    Err(x) => Err(x),
                },
            )
        },
        Ok(_) => (d2, Err(plain_error("expected string or map for enum"@))),
    }
}

/// A boolean written as a string: `true` or `false`.
pub open spec fn bool_spec(s: Seq<char>) -> Result<bool, ErrorView> {
    if s == "true"@ {
        Ok(true)
    } else if s == "false"@ {
        Ok(false)
    } else {
        Err(plain_error("expected bool, got '"@ + s + "'"@))
    }
}

/// A character written as a string of exactly one character.
pub open spec fn char_spec(s: Seq<char>) -> Result<char, ErrorView> {
    if s.len() == 1 {
        Ok(s[0])
    } else {
        Err(plain_error("expected single character"@))
    }
}

/// How the number of open containers changes with an event.
pub open spec fn depth_change(e: EventView) -> int {
    match e {
        EventView::StartMap | EventView::StartList => 1,
        EventView::EndMap | EventView::EndList => -1,
        _ => 0,
    }
}

/// Each event the parser emits opens or closes one container of its stack,
/// or leaves the stack as deep as it was.
pub proof fn lemma_step_depth(v: ParserView)
    requires
        parser_wf(v),
    ensures
        step(v).1 matches Some(Ok(e)) ==> step(v).0.stack.len() == v.stack.len() + depth_change(e),
{
    lemma_step(v);
    let v2 = step(v).0;
    assert(ctx_of(v).open.len() == v.stack.len());
    assert(ctx_of(v2).open.len() == v2.stack.len());
}

/// One step of skipping: an error ends it where the step fails, and an event
/// moves the depth by the container it opens or closes.
proof fn lemma_skip_step(v: ParserView, depth: nat)
    requires
        parser_wf(v),
        depth > 0,
    ensures
        parser_wf(step(v).0),
        step(v).1 is None ==> skip_rest(v, depth) == (step(v).0, Err::<(), ErrorView>(plain_error("unexpected end of input"@))),
        step(v).1 matches Some(Err(f)) ==> skip_rest(v, depth) == (step(v).0, Err::<(), ErrorView>(fault_view(f))),
        step(v).1 matches Some(Ok(e)) ==> {
            &&& skip_rest(v, depth) == skip_rest(step(v).0, (depth + depth_change(e)) as nat)
            &&& step(v).0.stack.len() == v.stack.len() + depth_change(e)
            &&& steps_left(step(v).0) < steps_left(v)
        },
{
    lemma_step(v);
    lemma_step_depth(v);
}

/// Peeking consumes nothing: after a peek that shows an event, taking one
/// gives that event and leaves the deserializer as taking without the peek
/// would have.
pub proof fn lemma_peek_then_take(d: DeView)
    requires
        de_wf(d),
        peek(d).1 is Ok,
        peek(d).1->Ok_0 is Some,
    ensures
        take(peek(d).0) == take(d),
        take(d).1 == Ok::<EventView, ErrorView>(peek(d).1->Ok_0->Some_0),
{
    reveal(pull);
}

// ── skipping a value consumes exactly its events ─────────────────────

/// The events still to come: the one held back, then the parser's.
pub open spec fn upcoming(d: DeView) -> Result<Seq<EventView>, Fault> {
    match d.peeked {
        Some(e) => match run(d.parser) {
            Ok(es) => Ok(seq![e] + es),
            Err(f) => Err(f),
        },
        None => run(d.parser),
    }
}

/// The events `es` close `depth` open containers exactly at their end,
/// and none of them closes the last one earlier.
pub open spec fn closes(es: Seq<EventView>, depth: int) -> bool
    decreases es.len(),
{
    if es.len() == 0 {
        depth == 0
    } else {
        depth > 0 && closes(es.drop_first(), depth + depth_change(es[0]))
    }
}

/// The parser emits its next event first.
proof fn lemma_run_first(v: ParserView, es: Seq<EventView>)
    requires
        parser_wf(v),
        run(v) matches Ok(all) && all.len() > 0 && all == es,
    ensures
        step(v).1 == Some(Ok::<EventView, Fault>(es[0])),
        run(step(v).0) == Ok::<Seq<EventView>, Fault>(es.drop_first()),
        parser_wf(step(v).0),
{
    lemma_step(v);
    if let Some(Ok(e)) = step(v).1 {
        if let Ok(tail) = run(step(v).0) {
            assert((seq![e] + tail)[0] == e);
            assert((seq![e] + tail).drop_first() =~= tail);
        }
    }
}

/// Skipping from depth `depth` consumes the events that close it, and the
/// parser then emits the rest.
proof fn lemma_skip_rest_events(v: ParserView, depth: int, es: Seq<EventView>, rest: Seq<EventView>)
    requires
        parser_wf(v),
        depth >= 0,
        run(v) == Ok::<Seq<EventView>, Fault>(es + rest),
        closes(es, depth),
    ensures
        skip_rest(v, depth as nat).1 == Ok::<(), ErrorView>(()),
        parser_wf(skip_rest(v, depth as nat).0),
        run(skip_rest(v, depth as nat).0) == Ok::<Seq<EventView>, Fault>(rest),
    decreases es.len(),
{
    if es.len() == 0 {
        assert(es + rest =~= rest);
    } else {
        lemma_run_first(v, es + rest);
        lemma_step(v);
        assert((es + rest)[0] == es[0]);
        assert((es + rest).drop_first() =~= es.drop_first() + rest);
        lemma_step_depth(v);
        lemma_skip_rest_events(step(v).0, depth + depth_change(es[0]), es.drop_first(), rest);
    }
}

/// A value's events, at any depth inside a container, come back to that depth at their end.
proof fn lemma_closes_value(x: ValueView, tail: Seq<EventView>, depth: int)
    requires
        depth > 0,
        closes(tail, depth),
    ensures
        closes(value_events(x) + tail, depth),
    decreases x, 1int,
{
    match x {
        ValueView::Str(s) => {
            assert((value_events(x) + tail).drop_first() =~= tail);
        },
        ValueView::List(items) => {
            let inner = seq![EventView::EndList] + tail;
            assert(inner.drop_first() =~= tail);
            lemma_closes_items(items, inner, depth + 1);
            let all = value_events(x) + tail;
            assert(all.drop_first() =~= items_events(items) + inner);
        },
        ValueView::Dict(pairs) => {
            let inner = seq![EventView::EndMap] + tail;
            assert(inner.drop_first() =~= tail);
            lemma_closes_pairs(pairs, inner, depth + 1);
            let all = value_events(x) + tail;
            assert(all.drop_first() =~= pairs_events(pairs) + inner);
        },
    }
}

proof fn lemma_closes_items(items: Seq<ValueView>, tail: Seq<EventView>, depth: int)
    requires
        depth > 0,
        closes(tail, depth),
    ensures
        closes(items_events(items) + tail, depth),
    decreases items, 0int,
{
    if items.len() > 0 {
        lemma_closes_value(items.last(), tail, depth);
        lemma_closes_items(items.drop_last(), value_events(items.last()) + tail, depth);
        assert(items_events(items) + tail =~= items_events(items.drop_last()) + (value_events(items.last()) + tail));
    } else {
        assert(items_events(items) + tail =~= tail);
    }
}

proof fn lemma_closes_pairs(pairs: Seq<(Seq<char>, ValueView)>, tail: Seq<EventView>, depth: int)
    requires
        depth > 0,
        closes(tail, depth),
    ensures
        closes(pairs_events(pairs) + tail, depth),
    decreases pairs, 0int,
{
    if pairs.len() > 0 {
        let last = pairs.last();
        lemma_closes_value(last.1, tail, depth);
        let t2 = seq![EventView::Key(last.0)] + (value_events(last.1) + tail);
        assert(t2.drop_first() =~= value_events(last.1) + tail);
        lemma_closes_pairs(pairs.drop_last(), t2, depth);
        assert(pairs_events(pairs) + tail =~= pairs_events(pairs.drop_last()) + t2);
    } else {
        assert(pairs_events(pairs) + tail =~= tail);
    }
}

/// Taking an event takes the first of those still to come.
proof fn lemma_take_first(d: DeView, all: Seq<EventView>)
    requires
        de_wf(d),
        upcoming(d) == Ok::<Seq<EventView>, Fault>(all),
        all.len() > 0,
    ensures
        take(d).1 == Ok::<EventView, ErrorView>(all[0]),
        take(d).0.peeked is None,
        parser_wf(take(d).0.parser),
        run(take(d).0.parser) == Ok::<Seq<EventView>, Fault>(all.drop_first()),
{
    reveal(pull);
    if d.peeked is Some {
        let es = run(d.parser)->Ok_0;
        assert((seq![d.peeked->Some_0] + es)[0] == d.peeked->Some_0);
        assert((seq![d.peeked->Some_0] + es).drop_first() =~= es);
    } else {
        lemma_run_first(d.parser, all);
    }
}

/// What taking an event does, spelled out.
pub proof fn lemma_take_shape(d: DeView)
    ensures
        take(d).0.peeked is None,
        d.peeked is Some ==> take(d).0.parser == d.parser && take(d).1 == Ok::<EventView, ErrorView>(d.peeked->Some_0),
        d.peeked is None ==> take(d).0.parser == step(d.parser).0 && take(d).1 == match step(d.parser).1 {
            None => Err(plain_error("unexpected end of input"@)),
            Some(Ok(e)) => Ok(e),
            Some(Err(f)) => Err(fault_view(f)),
        },
{
    reveal(pull);
}

/// Taking a string gives exactly the whole text of the next event when
/// that is a string, and the stream goes on right after it; when the next
/// event is anything else, the answer is "expected string".
pub proof fn lemma_take_string_text(d: DeView, es: Seq<EventView>)
    requires
        de_wf(d),
        upcoming(d) == Ok::<Seq<EventView>, Fault>(es),
        es.len() > 0,
    ensures
        es[0] is Str ==> take_string_spec(d).1 == Ok::<Seq<char>, ErrorView>(es[0]->Str_0),
        es[0] is Str ==> upcoming(take_string_spec(d).0) == Ok::<Seq<EventView>, Fault>(es.drop_first()),
        !(es[0] is Str) ==> take_string_spec(d).1 == Err::<Seq<char>, ErrorView>(plain_error("expected string"@)),
{
    lemma_take_first(d, es);
}

/// Peeking shows the first of the events still to come and consumes none.
pub proof fn lemma_peek_events(d: DeView, es: Seq<EventView>)
    requires
        de_wf(d),
        upcoming(d) == Ok::<Seq<EventView>, Fault>(es),
        es.len() > 0,
    ensures
        peek(d).1 == Ok::<Option<EventView>, ErrorView>(Some(es[0])),
        de_wf(peek(d).0),
        upcoming(peek(d).0) == Ok::<Seq<EventView>, Fault>(es),
{
    reveal(pull);
    if d.peeked is None {
        lemma_run_first(d.parser, es);
        lemma_step_depth(d.parser);
        assert(seq![es[0]] + es.drop_first() =~= es);
    }
}

/// Reading a map's next key follows the events: a key event gives that
/// key, the end of the map gives `None`, each consumed; any other event is
/// "expected key or end of map".
pub proof fn lemma_next_key_events(d: DeView, es: Seq<EventView>)
    requires
        de_wf(d),
        upcoming(d) == Ok::<Seq<EventView>, Fault>(es),
        es.len() > 0,
    ensures
        es[0] matches EventView::Key(k) ==> next_key_spec(d).1 == Ok::<Option<Seq<char>>, ErrorView>(Some(k)),
        es[0] == EventView::EndMap ==> next_key_spec(d).1 == Ok::<Option<Seq<char>>, ErrorView>(None),
        (es[0] is Key || es[0] is EndMap) ==> upcoming(next_key_spec(d).0) == Ok::<Seq<EventView>, Fault>(es.drop_first()),
        !(es[0] is Key || es[0] is EndMap) ==> next_key_spec(d).1 == Err::<Option<Seq<char>>, ErrorView>(
            plain_error("expected key or end of map"@),
        ),
{
    lemma_take_first(d, es);
}

/// Opening (or closing) a container follows the events: the expected event
/// is consumed, and any other is the error `msg`.
pub proof fn lemma_expect_events(d: DeView, es: Seq<EventView>, want: EventView, msg: Seq<char>)
    requires
        de_wf(d),
        upcoming(d) == Ok::<Seq<EventView>, Fault>(es),
        es.len() > 0,
    ensures
        es[0] == want ==> expect_spec(d, want, msg).1 == Ok::<(), ErrorView>(()),
        es[0] == want ==> upcoming(expect_spec(d, want, msg).0) == Ok::<Seq<EventView>, Fault>(es.drop_first()),
        es[0] != want ==> expect_spec(d, want, msg).1 == Err::<(), ErrorView>(plain_error(msg)),
{
    lemma_take_first(d, es);
}

/// Taking a value's first event follows the events: a string or the start
/// of a map or list is given and consumed; any other event is "unexpected
/// event".
pub proof fn lemma_take_value_events(d: DeView, es: Seq<EventView>)
    requires
        de_wf(d),
        upcoming(d) == Ok::<Seq<EventView>, Fault>(es),
        es.len() > 0,
    ensures
        (es[0] is Str || es[0] is StartMap || es[0] is StartList) ==> take_value_spec(d).1 == Ok::<EventView, ErrorView>(es[0]),
        (es[0] is Str || es[0] is StartMap || es[0] is StartList) ==> upcoming(take_value_spec(d).0) == Ok::<Seq<EventView>, Fault>(
            es.drop_first(),
        ),
        !(es[0] is Str || es[0] is StartMap || es[0] is StartList) ==> take_value_spec(d).1 == Err::<EventView, ErrorView>(
            plain_error("unexpected event"@),
        ),
{
    lemma_take_first(d, es);
}

/// Asking a list for another element follows the events: at the end of
/// the list the end is consumed and the answer is `false`; before any other
/// event the answer is `true` and nothing is consumed.
pub proof fn lemma_next_element_events(d: DeView, es: Seq<EventView>)
    requires
        de_wf(d),
        upcoming(d) == Ok::<Seq<EventView>, Fault>(es),
        es.len() > 0,
    ensures
        es[0] == EventView::EndList ==> next_element_spec(d).1 == Ok::<bool, ErrorView>(false),
        es[0] == EventView::EndList ==> upcoming(next_element_spec(d).0) == Ok::<Seq<EventView>, Fault>(es.drop_first()),
        es[0] != EventView::EndList ==> next_element_spec(d).1 == Ok::<bool, ErrorView>(true),
        es[0] != EventView::EndList ==> upcoming(next_element_spec(d).0) == Ok::<Seq<EventView>, Fault>(es),
{
    lemma_peek_events(d, es);
    if es[0] == EventView::EndList {
        lemma_take_first(peek(d).0, es);
    }
}

/// The head of an enum follows the events: a string names a unit variant;
/// a map's start followed by a key names the variant it wraps, both
/// consumed; a map's start followed by anything else is "expected variant
/// name"; any other event is "expected string or map for enum".
pub proof fn lemma_enum_start_events(d: DeView, es: Seq<EventView>)
    requires
        de_wf(d),
        upcoming(d) == Ok::<Seq<EventView>, Fault>(es),
        es.len() > 1,
    ensures
        es[0] matches EventView::Str(s) ==> enum_start_spec(d).1 == Ok::<(Seq<char>, bool), ErrorView>((s, false)),
        es[0] is Str ==> upcoming(enum_start_spec(d).0) == Ok::<Seq<EventView>, Fault>(es.drop_first()),
        es[1] matches EventView::Key(k) ==> (es[0] is StartMap ==> enum_start_spec(d).1 == Ok::<(Seq<char>, bool), ErrorView>(
            (k, true),
        )),
        (es[0] is StartMap && es[1] is Key) ==> upcoming(enum_start_spec(d).0) == Ok::<Seq<EventView>, Fault>(
            es.drop_first().drop_first(),
        ),
        (es[0] is StartMap && !(es[1] is Key)) ==> enum_start_spec(d).1 == Err::<(Seq<char>, bool), ErrorView>(
            plain_error("expected variant name"@),
        ),
        !(es[0] is Str || es[0] is StartMap) ==> enum_start_spec(d).1 == Err::<(Seq<char>, bool), ErrorView>(
            plain_error("expected string or map for enum"@),
        ),
{
    lemma_peek_events(d, es);
    let d2 = peek(d).0;
    if es[0] is Str || es[0] is StartMap {
        lemma_take_first(d2, es);
        if es[0] is StartMap {
            let d3 = take(d2).0;
            assert(upcoming(d3) == Ok::<Seq<EventView>, Fault>(es.drop_first()));
            lemma_take_first(d3, es.drop_first());
        }
    }
}

/// Skipping a value consumes exactly that value's events: when the events
/// still to come are those of a value `x` followed by `rest`, skipping
/// succeeds and `rest` is what then comes.
pub proof fn lemma_skip_value(d: DeView, x: ValueView, rest: Seq<EventView>)
    requires
        de_wf(d),
        upcoming(d) == Ok::<Seq<EventView>, Fault>(value_events(x) + rest),
    ensures
        skip_spec(d).1 == Ok::<(), ErrorView>(()),
        upcoming(skip_spec(d).0) == Ok::<Seq<EventView>, Fault>(rest),
{
    let all = value_events(x) + rest;
    assert(all[0] == value_events(x)[0]);
    let after = all.drop_first();
    lemma_take_first(d, all);
    let d2 = take(d).0;
    match x {
        ValueView::Str(_) => {
            assert(after =~= rest);
        },
        ValueView::List(items) => {
            let close = seq![EventView::EndList];
            assert(closes(close, 1)) by {
                reveal_with_fuel(closes, 2);
                assert(close.drop_first() =~= Seq::<EventView>::empty());
            }
            lemma_closes_items(items, close, 1);
            assert(after =~= (items_events(items) + close) + rest);
            lemma_skip_rest_events(d2.parser, 1, items_events(items) + close, rest);
        },
        ValueView::Dict(pairs) => {
            let close = seq![EventView::EndMap];
            assert(closes(close, 1)) by {
                reveal_with_fuel(closes, 2);
                assert(close.drop_first() =~= Seq::<EventView>::empty());
            }
            lemma_closes_pairs(pairs, close, 1);
            assert(after =~= (pairs_events(pairs) + close) + rest);
            lemma_skip_rest_events(d2.parser, 1, pairs_events(pairs) + close, rest);
        },
    }
}

/// Reads events from a parser, with one event of look-ahead.
pub struct StreamDeserializer {
    parser: PhigParser,
    peeked: Option<Event>,
}

impl View for StreamDeserializer {
    type V = DeView;

    closed spec fn view(&self) -> DeView {
        DeView {
            parser: self.parser@,
            peeked: match self.peeked {
                Some(e) => Some(e@),
                None => None,
            },
        }
    }
}

impl StreamDeserializer {
    /// The deserializer's invariant holds.
    pub open spec fn wf(&self) -> bool {
        de_wf(self@)
    }

    /// A deserializer over the bytes of `input`.
    pub fn new(input: &[u8]) -> (d: StreamDeserializer)
        ensures
            d@ == (DeView { parser: initial_view(input@), peeked: None }),
            upcoming(d@) == crate::parse::document_events(input@),
            d.wf(),
    {
        StreamDeserializer { parser: PhigParser::new(input), peeked: None }
    }

    /// The next event, left in place for the next call that takes one;
    /// `None` at the end of the stream.
    pub fn peek_event(&mut self) -> (r: Result<Option<&Event>, Error>)
        requires
            old(self).wf(),
        ensures
            final(self).wf(),
            final(self)@ == peek(old(self)@).0,
            match r {
                Ok(Some(e)) => peek(old(self)@).1 == Ok::<Option<EventView>, ErrorView>(Some(e@)),
                Ok(None) => peek(old(self)@).1 == Ok::<Option<EventView>, ErrorView>(None),
                Err(e) => peek(old(self)@).1 == Err::<Option<EventView>, ErrorView>(e@),
            },
    {
        proof {
            reveal(pull);
        }
        if self.peeked.is_none() {
            proof {
                lemma_step_depth(self.parser@);
                lemma_step(self.parser@);
            }
            match self.parser.next() {
                None => {},
                Some(Ok(e)) => {
                    self.peeked = Some(e);
                },
                Some(Err(e)) => {
                    return Err(e);
                },
            }
        }
        Ok(self.peeked.as_ref())
    }

    /// Takes the next event; the end of the stream is an error.
    pub fn take_event(&mut self) -> (r: Result<Event, Error>)
        requires
            old(self).wf(),
        ensures
            final(self).wf(),
            final(self)@ == take(old(self)@).0,
            event_result(r) == take(old(self)@).1,
    {
        proof {
            reveal(pull);
        }
        if self.peeked.is_some() {
            let e = self.peeked.take().unwrap();
            return Ok(e);
        }
        proof {
            lemma_step(self.parser@);
        }
        match self.parser.next() {
            None => Err(Error::new("unexpected end of input")),
            Some(r) => r,
        }
    }

    /// Takes a string event and returns its text.
    pub fn take_string(&mut self) -> (r: Result<String, Error>)
        requires
            old(self).wf(),
        ensures
            final(self).wf(),
            final(self)@ == take_string_spec(old(self)@).0,
            match r {
                Ok(s) => take_string_spec(old(self)@).1 == Ok::<Seq<char>, ErrorView>(s@),
                Err(e) => take_string_spec(old(self)@).1 == Err::<Seq<char>, ErrorView>(e@),
            },
    {
        match self.take_event() {
            Ok(Event::String(s)) => Ok(s),
            Ok(_) => Err(Error::new("expected string")),
            Err(e) => Err(e),
        }
    }

    /// Skips one value: a string, or a whole map or list.
    pub fn skip_value(&mut self) -> (r: Result<(), Error>)
        requires
            old(self).wf(),
        ensures
            final(self).wf(),
            final(self)@ == skip_spec(old(self)@).0,
            unit_result(r) == skip_spec(old(self)@).1,
    {
        let ghost d0 = self@;
        proof {
            lemma_step_depth(self@.parser);
            lemma_take_shape(self@);
        }
        let first = self.take_event();
        match first {
            Err(e) => Err(e),
            Ok(Event::String(_)) => Ok(()),
            Ok(Event::StartMap) | Ok(Event::StartList) => {
                let ghost goal = skip_rest(self@.parser, 1);
                let mut depth: usize = 1;
                while depth > 0
                    invariant
                        self.wf(),
                        self@.peeked is None,
                        depth <= self@.parser.stack.len(),
                        skip_rest(self@.parser, depth as nat) == goal,
                        skip_spec(d0) == (DeView { parser: goal.0, peeked: None }, goal.1),
                        d0 == old(self)@,
                    decreases steps_left(self@.parser),
                {
                    let ghost before = self@.parser;
                    proof {
                        lemma_skip_step(before, depth as nat);
                        lemma_take_shape(self@);
                    }
                    match self.take_event() {
                        Err(e) => {
                            return Err(e);
                        },
                        Ok(ev) => {
                            proof {
                                self.parser.lemma_depth_fits();
                            }
                            match ev {
                                Event::StartMap | Event::StartList => {
                                    depth = depth + 1;
                                },
                                Event::EndMap | Event::EndList => {
                                    depth = depth - 1;
                                },
                                _ => {},
                            }
                        },
                    }
                }
                Ok(())
            },
            Ok(_) => Err(Error::new("unexpected event")),
        }
    }

    /// Takes an event that must be `want`, the start or end of a
    /// container, else fails with `msg`.
    fn expect_event(&mut self, want: Event, msg: &str) -> (r: Result<(), Error>)
        requires
            old(self).wf(),
            want is StartMap || want is EndMap || want is StartList || want is EndList,
        ensures
            final(self).wf(),
            final(self)@ == expect_spec(old(self)@, want@, msg@).0,
            unit_result(r) == expect_spec(old(self)@, want@, msg@).1,
    {
        match self.take_event() {
            Ok(e) => {
                let same = match e {
                    Event::StartMap => matches!(want, Event::StartMap),
                    Event::EndMap => matches!(want, Event::EndMap),
                    Event::StartList => matches!(want, Event::StartList),
                    Event::EndList => matches!(want, Event::EndList),
                    _ => false,
                };
                if same {
                    Ok(())
                } else {
                    Err(Error::new(msg))
                }
            },
            Err(e) => Err(e),
        }
    }

    /// Opens a list: the next event must start one.
    pub fn begin_list(&mut self) -> (r: Result<(), Error>)
        requires
            old(self).wf(),
        ensures
            final(self).wf(),
            final(self)@ == expect_spec(old(self)@, EventView::StartList, "expected list"@).0,
            unit_result(r) == expect_spec(old(self)@, EventView::StartList, "expected list"@).1,
    {
        self.expect_event(Event::StartList, "expected list")
    }

    /// Opens a map: the next event must start one.
    pub fn begin_map(&mut self) -> (r: Result<(), Error>)
        requires
            old(self).wf(),
        ensures
            final(self).wf(),
            final(self)@ == expect_spec(old(self)@, EventView::StartMap, "expected map"@).0,
            unit_result(r) == expect_spec(old(self)@, EventView::StartMap, "expected map"@).1,
    {
        self.expect_event(Event::StartMap, "expected map")
    }

    /// Closes the map that wraps an enum variant.
    pub fn enum_end(&mut self) -> (r: Result<(), Error>)
        requires
            old(self).wf(),
        ensures
            final(self).wf(),
            final(self)@ == expect_spec(old(self)@, EventView::EndMap, "expected end of enum map"@).0,
            unit_result(r) == expect_spec(old(self)@, EventView::EndMap, "expected end of enum map"@).1,
    {
        self.expect_event(Event::EndMap, "expected end of enum map")
    }

    /// The next key of the current map, or `None` at its end.
    pub fn next_key(&mut self) -> (r: Result<Option<String>, Error>)
        requires
            old(self).wf(),
        ensures
            final(self).wf(),
            final(self)@ == next_key_spec(old(self)@).0,
            match r {
                Ok(Some(k)) => next_key_spec(old(self)@).1 == Ok::<Option<Seq<char>>, ErrorView>(Some(k@)),
                Ok(None) => next_key_spec(old(self)@).1 == Ok::<Option<Seq<char>>, ErrorView>(None),
                Err(e) => next_key_spec(old(self)@).1 == Err::<Option<Seq<char>>, ErrorView>(e@),
            },
    {
        match self.take_event() {
            Ok(Event::Key(k)) => Ok(Some(k)),
            Ok(Event::EndMap) => Ok(None),
            Ok(_) => Err(Error::new("expected key or end of map")),
            Err(e) => Err(e),
        }
    }

    /// Whether the current list has another element; its end is consumed.
    pub fn next_element(&mut self) -> (r: Result<bool, Error>)
        requires
            old(self).wf(),
        ensures
            final(self).wf(),
            final(self)@ == next_element_spec(old(self)@).0,
            match r {
                Ok(b) => next_element_spec(old(self)@).1 == Ok::<bool, ErrorView>(b),
                Err(e) => next_element_spec(old(self)@).1 == Err::<bool, ErrorView>(e@),
            },
    {
        proof {
            reveal(pull);
        }
        let at_end = match self.peek_event() {
            Err(e) => {
                return Err(e);
            },
            Ok(None) => {
                return Err(Error::new("unexpected end of input in list"));
            },
            Ok(Some(Event::EndList)) => true,
            Ok(Some(_)) => false,
        };
        if at_end {
            let _ = self.take_event();
            Ok(false)
        } else {
            Ok(true)
        }
    }

    /// Takes the first event of a value: a string or the start of a map or list.
    pub fn take_value(&mut self) -> (r: Result<Event, Error>)
        requires
            old(self).wf(),
        ensures
            final(self).wf(),
            final(self)@ == take_value_spec(old(self)@).0,
            event_result(r) == take_value_spec(old(self)@).1,
    {
        match self.take_event() {
            Ok(Event::String(s)) => Ok(Event::String(s)),
            Ok(Event::StartMap) => Ok(Event::StartMap),
            Ok(Event::StartList) => Ok(Event::StartList),
            Ok(_) => Err(Error::new("unexpected event")),
            Err(e) => Err(e),
        }
    }

    /// Reads the head of an enum value: the variant's name, and whether a
    /// map wraps its content.
    pub fn enum_start(&mut self) -> (r: Result<(String, bool), Error>)
        requires
            old(self).wf(),
        ensures
            final(self).wf(),
            final(self)@ == enum_start_spec(old(self)@).0,
            match r {
                Ok((name, wrapped)) => enum_start_spec(old(self)@).1 == Ok::<(Seq<char>, bool), ErrorView>((name@, wrapped)),
                Err(e) => enum_start_spec(old(self)@).1 == Err::<(Seq<char>, bool), ErrorView>(e@),
            },
    {
        proof {
            reveal(pull);
        }
        let kind: u8 = match self.peek_event() {
            Err(e) => {
                return Err(e);
            },
            Ok(Some(Event::String(_))) => 0,
            Ok(Some(Event::StartMap)) => 1,
            Ok(_) => 2,
        };
        if kind == 0 {
            match self.take_event() {
                Ok(Event::String(s)) => Ok((s, false)),
                _ => Err(Error::new("expected string or map for enum")),
            }
        } else if kind == 1 {
            let _ = self.take_event();
            match self.take_event() {
                Ok(Event::Key(k)) => Ok((k, true)),
                Ok(_) => Err(Error::new("expected variant name")),
                Err(e) => Err(e),
            }
        } else {
            Err(Error::new("expected string or map for enum"))
        }
    }
}


/// Reads a boolean written as `true` or `false`.
pub fn parse_bool(s: &str) -> (r: Result<bool, Error>)
    ensures
        match r {
            Ok(b) => bool_spec(s@) == Ok::<bool, ErrorView>(b),
            Err(e) => bool_spec(s@) == Err::<bool, ErrorView>(e@),
        },
{
    let t = s.to_string();
    if t == "true".to_string() {
        Ok(true)
    } else if t == "false".to_string() {
        Ok(false)
    } else {
        let mut m = "expected bool, got '".to_string();
        m.append(s);
        m.append("'");
        Err(Error::Syntax { msg: m, pos: None })
    }
}

/// Reads a character written as a string of one character.
pub fn parse_char(s: &str) -> (r: Result<char, Error>)
    ensures
        match r {
            Ok(c) => char_spec(s@) == Ok::<char, ErrorView>(c),
            Err(e) => char_spec(s@) == Err::<char, ErrorView>(e@),
        },
{
    let cs = str_chars(s);
    if cs.len() == 1 {
        Ok(cs[0])
    } else {
        Err(Error::new("expected single character"))
    }
}

/// The error for a string that does not read as a number; `detail` says why.
pub fn invalid_number(s: &str, detail: &str) -> (e: Error)
    ensures
        e@ == plain_error("invalid number '"@ + s@ + "': "@ + detail@),
{
    let mut m = "invalid number '".to_string();
    m.append(s);
    m.append("': ");
    m.append(detail);
    Error::Syntax { msg: m, pos: None }
}

} // verus!
