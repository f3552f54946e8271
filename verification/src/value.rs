//! The dynamically-typed [`Value`] tree, and reading a document into one.
use vstd::prelude::*;
use crate::error::{Error, ErrorView};
use crate::parse::{
    PhigParser, Event, EventView, Open, ParserView, document_events, run, ctx_of,
    filled, stream_done, steps_left, parser_wf, is_fault, lemma_step,
    emitted, Fault,
};

verus! {

broadcast use vstd::string::group_string_axioms;

/// A dynamically-typed phig value.
///
/// Phig has three types: strings, ordered lists, and ordered maps with
/// unique string keys. Use the accessor methods ([`as_str`](Value::as_str),
/// [`as_list`](Value::as_list), [`as_map`](Value::as_map), [`get`](Value::get)).
#[derive(Debug, PartialEq)]
pub enum Value {
    /// A string.
    String(String),
    /// An ordered sequence of values.
    List(Vec<Value>),
    /// An ordered sequence of key-value pairs with unique string keys.
    Dict(Vec<(String, Value)>),
}

/// A [`Value`] as the specification sees it.
pub enum ValueView {
    Str(Seq<char>),
    List(Seq<ValueView>),
    Dict(Seq<(Seq<char>, ValueView)>),
}

pub open spec fn value_view(v: Value) -> ValueView
    decreases v,
{
    match v {
        Value::String(s) => ValueView::Str(s@),
        Value::List(items) => ValueView::List(items_view(items@)),
        Value::Dict(pairs) => ValueView::Dict(pairs_view(pairs@)),
    }
}

pub open spec fn items_view(items: Seq<Value>) -> Seq<ValueView>
    decreases items,
{
    if items.len() == 0 {
        seq![]
    } else {
        items_view(items.drop_last()).push(value_view(items.last()))
    }
}

pub open spec fn pairs_view(pairs: Seq<(String, Value)>) -> Seq<(Seq<char>, ValueView)>
    decreases pairs,
{
    if pairs.len() == 0 {
        seq![]
    } else {
        pairs_view(pairs.drop_last()).push((pairs.last().0@, value_view(pairs.last().1)))
    }
}

impl View for Value {
    type V = ValueView;

    open spec fn view(&self) -> ValueView {
        value_view(*self)
    }
}

pub proof fn lemma_items_view_push(items: Seq<Value>, v: Value)
    ensures
        items_view(items.push(v)) == items_view(items).push(v@),
{
    assert(items.push(v).drop_last() =~= items);
}

pub proof fn lemma_pairs_view_push(pairs: Seq<(String, Value)>, k: String, v: Value)
    ensures
        pairs_view(pairs.push((k, v))) == pairs_view(pairs).push((k@, v@)),
{
    assert(pairs.push((k, v)).drop_last() =~= pairs);
}

pub proof fn lemma_items_view_index(items: Seq<Value>, i: int)
    requires
        0 <= i < items.len(),
    ensures
        items_view(items).len() == items.len(),
        items_view(items)[i] == value_view(items[i]),
    decreases items.len(),
{
    lemma_views_len(items, seq![]);
    if i < items.len() - 1 {
        lemma_items_view_index(items.drop_last(), i);
    }
}

pub proof fn lemma_pairs_view_index(pairs: Seq<(String, Value)>, i: int)
    requires
        0 <= i < pairs.len(),
    ensures
        pairs_view(pairs).len() == pairs.len(),
        pairs_view(pairs)[i] == (pairs[i].0@, value_view(pairs[i].1)),
    decreases pairs.len(),
{
    lemma_views_len(seq![], pairs);
    if i < pairs.len() - 1 {
        lemma_pairs_view_index(pairs.drop_last(), i);
    }
}

pub proof fn lemma_views_len(items: Seq<Value>, pairs: Seq<(String, Value)>)
    ensures
        items_view(items).len() == items.len(),
        pairs_view(pairs).len() == pairs.len(),
    decreases items.len() + pairs.len(),
{
    if items.len() > 0 {
        lemma_views_len(items.drop_last(), pairs);
    } else if pairs.len() > 0 {
        lemma_views_len(items, pairs.drop_last());
    }
}

/// The events that describe a value, in the order a parser emits them.
pub open spec fn value_events(v: ValueView) -> Seq<EventView>
    decreases v,
{
    match v {
        ValueView::Str(s) => seq![EventView::Str(s)],
        ValueView::List(items) => seq![EventView::StartList] + items_events(items) + seq![EventView::EndList],
        ValueView::Dict(pairs) => seq![EventView::StartMap] + pairs_events(pairs) + seq![EventView::EndMap],
    }
}

/// The events of the items of a list, one value after the other.
pub open spec fn items_events(items: Seq<ValueView>) -> Seq<EventView>
    decreases items,
{
    if items.len() == 0 {
        seq![]
    } else {
        items_events(items.drop_last()) + value_events(items.last())
    }
}

/// The events of the pairs of a map: each key, then its value.
pub open spec fn pairs_events(pairs: Seq<(Seq<char>, ValueView)>) -> Seq<EventView>
    decreases pairs,
{
    if pairs.len() == 0 {
        seq![]
    } else {
        pairs_events(pairs.drop_last()) + seq![EventView::Key(pairs.last().0)] + value_events(
            pairs.last().1,
        )
    }
}

/// The keys of a map, in order.
pub open spec fn dict_keys(pairs: Seq<(Seq<char>, ValueView)>) -> Seq<Seq<char>> {
    pairs.map_values(|p: (Seq<char>, ValueView)| p.0)
}

/// Every map in the value has distinct keys.
pub open spec fn value_wf(v: ValueView) -> bool
    decreases v,
{
    match v {
        ValueView::Str(_) => true,
        ValueView::List(items) => items_wf(items),
        ValueView::Dict(pairs) => dict_keys(pairs).no_duplicates() && pairs_wf(pairs),
    }
}

pub open spec fn items_wf(items: Seq<ValueView>) -> bool
    decreases items,
{
    if items.len() == 0 {
        true
    } else {
        items_wf(items.drop_last()) && value_wf(items.last())
    }
}

pub open spec fn pairs_wf(pairs: Seq<(Seq<char>, ValueView)>) -> bool
    decreases pairs,
{
    if pairs.len() == 0 {
        true
    } else {
        pairs_wf(pairs.drop_last()) && value_wf(pairs.last().1)
    }
}

/// The value of the first pair whose key is `key`.
pub open spec fn lookup(pairs: Seq<(String, Value)>, key: Seq<char>) -> Option<Value>
    decreases pairs.len(),
{
    if pairs.len() == 0 {
        None
    } else if pairs[0].0@ == key {
        Some(pairs[0].1)
    } else {
        lookup(pairs.drop_first(), key)
    }
}

/// The value under `key`, when `v` is a map that has it.
pub open spec fn map_get(v: Value, key: Seq<char>) -> Option<Value> {
    match v {
        Value::Dict(pairs) => lookup(pairs@, key),
        _ => None,
    }
}

/// Looking a key up among pairs finds the first pair whose key equals it
/// exactly, and nothing only when no pair has that key.
pub proof fn lemma_lookup_equal_key(pairs: Seq<(String, Value)>, key: Seq<char>)
    ensures
        lookup(pairs, key) is Some ==> exists|i: int|
            0 <= i < pairs.len() && #[trigger] pairs[i].0@ == key && pairs[i].1 == lookup(pairs, key)->0
                && forall|j: int| 0 <= j < i ==> pairs[j].0@ != key,
        lookup(pairs, key) is None <==> forall|i: int| 0 <= i < pairs.len() ==> #[trigger] pairs[i].0@ != key,
    decreases pairs.len(),
{
    if pairs.len() > 0 {
        let rest = pairs.drop_first();
        lemma_lookup_equal_key(rest, key);
        if pairs[0].0@ == key {
            assert(pairs[0].0@ == key);
        } else {
            if lookup(rest, key) is Some {
                let i = choose|i: int|
                    0 <= i < rest.len() && #[trigger] rest[i].0@ == key && rest[i].1 == lookup(rest, key)->0
                        && forall|j: int| 0 <= j < i ==> rest[j].0@ != key;
                assert(pairs[i + 1] == rest[i]);
                assert forall|j: int| 0 <= j < i + 1 implies pairs[j].0@ != key by {
                    if j > 0 {
                        assert(pairs[j] == rest[j - 1]);
                    }
                }
            }
            assert((forall|i: int| 0 <= i < rest.len() ==> #[trigger] rest[i].0@ != key)
                <==> (forall|i: int| 0 <= i < pairs.len() ==> #[trigger] pairs[i].0@ != key)) by {
                if forall|i: int| 0 <= i < rest.len() ==> #[trigger] rest[i].0@ != key {
                    assert forall|i: int| 0 <= i < pairs.len() implies #[trigger] pairs[i].0@ != key by {
                        if i > 0 {
                            assert(pairs[i] == rest[i - 1]);
                        }
                    }
                }
                if forall|i: int| 0 <= i < pairs.len() ==> #[trigger] pairs[i].0@ != key {
                    assert forall|i: int| 0 <= i < rest.len() implies #[trigger] rest[i].0@ != key by {
                        assert(pairs[i + 1] == rest[i]);
                    }
                }
            }
        }
    }
}

/// [`Value::get`] gives the value of the first pair whose key equals the
/// query exactly, and `None` when the value is no map or no key equals it.
pub proof fn lemma_get_equal_key(v: Value, key: Seq<char>)
    ensures
        map_get(v, key) is Some ==> (v matches Value::Dict(pairs) && exists|i: int|
            0 <= i < pairs@.len() && #[trigger] pairs@[i].0@ == key && pairs@[i].1 == map_get(v, key)->0
                && forall|j: int| 0 <= j < i ==> pairs@[j].0@ != key),
        map_get(v, key) is None <==> !(v matches Value::Dict(pairs) && exists|i: int|
            0 <= i < pairs@.len() && #[trigger] pairs@[i].0@ == key),
{
    if let Value::Dict(pairs) = v {
        lemma_lookup_equal_key(pairs@, key);
    }
}

impl Value {
    /// Returns the string contents if this is a `Value::String`.
    pub fn as_str(&self) -> (r: Option<&str>)
        ensures
            match self {
                Value::String(s) => r matches Some(t) && t@ == s@,
                _ => r is None,
            },
    {
        match self {
            Value::String(s) => Some(s.as_str()),
            _ => None,
        }
    }

    /// Returns the items if this is a `Value::List`.
    pub fn as_list(&self) -> (r: Option<&[Value]>)
        ensures
            match self {
                Value::List(items) => r matches Some(t) && t@ == items@,
                _ => r is None,
            },
    {
        match self {
            Value::List(v) => Some(v.as_slice()),
            _ => None,
        }
    }

    /// Returns the key-value pairs if this is a `Value::Dict`.
    pub fn as_map(&self) -> (r: Option<&[(String, Value)]>)
        ensures
            match self {
                Value::Dict(pairs) => r matches Some(t) && t@ == pairs@,
                _ => r is None,
            },
    {
        match self {
            Value::Dict(m) => Some(m.as_slice()),
            _ => None,
        }
    }

    /// Looks up a key in a map. Returns `None` if not a map or key is absent.
    pub fn get(&self, key: &str) -> (r: Option<&Value>)
        ensures
            match map_get(*self, key@) {
                Some(v) => r matches Some(x) && *x == v,
                None => r is None,
            },
    {
        match self {
            Value::Dict(pairs) => {
                let k = key.to_string();
                assert(k@ == key@);
                let mut i: usize = 0;
                assert(pairs@.subrange(0, pairs@.len() as int) =~= pairs@);
                while i < pairs.len()
                    invariant
                        i <= pairs@.len(),
                        k@ == key@,
                        map_get(*self, key@) == lookup(pairs@, key@),
                        lookup(pairs@, key@) == lookup(pairs@.subrange(i as int, pairs@.len() as int), key@),
                    decreases pairs@.len() - i,
                {
                    let ghost rest = pairs@.subrange(i as int, pairs@.len() as int);
                    assert(rest[0] == pairs@[i as int]);
                    let pair = &pairs[i];
                    let found = pair.0 == k;
                    assert(*pair == pairs@[i as int]);
                    if found {
                        assert(pairs@[i as int].0@ == key@);
                        assert(lookup(rest, key@) == Some(rest[0].1));
                        return Some(&pair.1);
                    }
                    assert(rest.drop_first() =~= pairs@.subrange(i + 1, pairs@.len() as int));
                    i = i + 1;
                }
                None
            },
            _ => None,
        }
    }
}


/// A container being built from the events read so far.
enum BuildFrame {
    Dict { pairs: Vec<(String, Value)>, pending_key: Option<String> },
    List { items: Vec<Value> },
}

/// The key that still awaits its value, as a sequence of zero or one keys.
spec fn pending_seq(k: Option<String>) -> Seq<Seq<char>> {
    match k {
        Some(k) => seq![k@],
        None => seq![],
    }
}

/// The stream's view of a container being built.
spec fn frame_open(f: BuildFrame) -> Open {
    match f {
        BuildFrame::Dict { pairs, pending_key } => Open::Dict {
            keys: dict_keys(pairs_view(pairs@)) + pending_seq(pending_key),
            awaiting: pending_key is Some,
        },
        BuildFrame::List { .. } => Open::List,
    }
}

/// The events read so far for a container being built.
spec fn frame_events(f: BuildFrame) -> Seq<EventView> {
    match f {
        BuildFrame::Dict { pairs, pending_key } => seq![EventView::StartMap] + pairs_events(pairs_view(pairs@))
            + match pending_key {
            Some(k) => seq![EventView::Key(k@)],
            None => seq![],
        },
        BuildFrame::List { items } => seq![EventView::StartList] + items_events(items_view(items@)),
    }
}

/// The values held by a container being built satisfy `value_wf`.
spec fn frame_wf(f: BuildFrame) -> bool {
    match f {
        BuildFrame::Dict { pairs, .. } => pairs_wf(pairs_view(pairs@)),
        BuildFrame::List { items } => items_wf(items_view(items@)),
    }
}

spec fn stack_events(fs: Seq<BuildFrame>) -> Seq<EventView>
    decreases fs.len(),
{
    if fs.len() == 0 {
        seq![]
    } else {
        stack_events(fs.drop_last()) + frame_events(fs.last())
    }
}

spec fn stack_opens(fs: Seq<BuildFrame>) -> Seq<Open> {
    fs.map_values(|f: BuildFrame| frame_open(f))
}

spec fn stack_wf(fs: Seq<BuildFrame>) -> bool {
    forall|i: int| 0 <= i < fs.len() ==> frame_wf(#[trigger] fs[i])
}

/// The events `es` come first, then those of `r`.
pub open spec fn after_events(es: Seq<EventView>, r: Result<Seq<EventView>, Fault>) -> Result<
    Seq<EventView>,
    Fault,
> {
    match r {
        Ok(rest) => Ok(es + rest),
        Err(f) => Err(f),
    }
}

/// The shape of the stream at a parser state: maps below the innermost
/// container await values, and the keys of each map are distinct.
proof fn lemma_ctx_shape(v: ParserView)
    requires
        parser_wf(v),
    ensures
        forall|i: int|
            0 <= i < ctx_of(v).open.len() - 1 && (#[trigger] ctx_of(v).open[i]) is Dict
                ==> ctx_of(v).open[i]->awaiting,
        forall|i: int|
            0 <= i < ctx_of(v).open.len() && (#[trigger] ctx_of(v).open[i]) is Dict
                ==> ctx_of(v).open[i]->keys.no_duplicates(),
        ctx_of(v).open.len() > 0 ==> ctx_of(v).open[0] is Dict,
{
    assert forall|i: int| 0 <= i < ctx_of(v).open.len() && (#[trigger] ctx_of(v).open[i]) is Dict
        implies ctx_of(v).open[i]->keys.no_duplicates() by {
        assert(v.stack[i].seen is Some) by {
            if i > 0 {
                assert(crate::parse::inner_frame_ok(v.stack[i]));
            }
        }
    }
}

/// Adds a finished value to the innermost container, or makes it the result.
fn push_value(stack: &mut Vec<BuildFrame>, result: &mut Option<Value>, value: Value)
    requires
        old(stack)@.len() > 0 ==> frame_open(old(stack)@.last()) is List || frame_open(
            old(stack)@.last(),
        )->awaiting,
    ensures
        old(stack)@.len() == 0 ==> *final(result) == Some(value) && final(stack)@ == old(stack)@,
        old(stack)@.len() > 0 ==> {
            &&& *final(result) == *old(result)
            &&& stack_opens(final(stack)@) == filled(stack_opens(old(stack)@))
            &&& stack_events(final(stack)@) == stack_events(old(stack)@) + value_events(value@)
            &&& (stack_wf(old(stack)@) && value_wf(value@) ==> stack_wf(final(stack)@))
            &&& final(stack)@.len() == old(stack)@.len()
            &&& (old(stack)@[0] is Dict ==> final(stack)@[0] is Dict)
        },
{
    let ghost old_stack = stack@;
    match stack.pop() {
        Some(BuildFrame::Dict { mut pairs, pending_key }) => {
            let ghost old_pairs = pairs@;
            let key = pending_key.unwrap();
            let ghost key_view = key@;
            proof {
                lemma_pairs_view_push(old_pairs, key, value);
            }
            pairs.push((key, value));
            assert(pairs@ == old_pairs.push((key, value)));
            assert(pairs_view(pairs@).drop_last() =~= pairs_view(old_pairs));
            assert(dict_keys(pairs_view(pairs@)) =~= dict_keys(pairs_view(old_pairs)) + seq![key_view]);
            let frame = BuildFrame::Dict { pairs, pending_key: None };
            assert(frame_events(frame) =~= frame_events(old_stack.last()) + value_events(value@));
            stack.push(frame);
            assert(stack@.drop_last() =~= old_stack.drop_last());
            assert(stack_opens(stack@) =~= filled(stack_opens(old_stack)));
            assert(stack_events(stack@) =~= stack_events(old_stack) + value_events(value@));
            assert(stack_wf(old_stack) && value_wf(value@) ==> stack_wf(stack@)) by {
                if stack_wf(old_stack) && value_wf(value@) {
                    assert forall|i: int| 0 <= i < stack@.len() implies frame_wf(#[trigger] stack@[i]) by {
                        if i < stack@.len() - 1 {
                            assert(stack@[i] == old_stack[i]);
                        } else {
                            assert(frame_wf(old_stack[i]));
                        }
                    }
                }
            }
        },
        Some(BuildFrame::List { mut items }) => {
            let ghost old_items = items@;
            proof {
                lemma_items_view_push(old_items, value);
            }
            items.push(value);
            assert(items_view(items@).drop_last() =~= items_view(old_items));
            let frame = BuildFrame::List { items };
            assert(frame_events(frame) =~= frame_events(old_stack.last()) + value_events(value@));
            stack.push(frame);
            assert(stack@.drop_last() =~= old_stack.drop_last());
            assert(stack_opens(stack@) =~= filled(stack_opens(old_stack)));
            assert(stack_events(stack@) =~= stack_events(old_stack) + value_events(value@));
            assert(stack_wf(old_stack) && value_wf(value@) ==> stack_wf(stack@)) by {
                if stack_wf(old_stack) && value_wf(value@) {
                    assert forall|i: int| 0 <= i < stack@.len() implies frame_wf(#[trigger] stack@[i]) by {
                        if i < stack@.len() - 1 {
                            assert(stack@[i] == old_stack[i]);
                        } else {
                            assert(frame_wf(old_stack[i]));
                        }
                    }
                }
            }
        },
        None => {
            *result = Some(value);
        },
    }
}


proof fn lemma_after_events_assoc(a: Seq<EventView>, b: Seq<EventView>, r: Result<Seq<EventView>, Fault>)
    ensures
        after_events(a, after_events(b, r)) == after_events(a + b, r),
{
    if let Ok(rest) = r {
        assert(a + (b + rest) =~= (a + b) + rest);
    }
}

impl Value {
    /// The value under `key` in a map, which must hold it; as indexing a
    /// map by a key.
    pub fn index_by_key(&self, key: &str) -> (r: &Value)
        requires
            map_get(*self, key@) is Some,
        ensures
            *r == map_get(*self, key@)->0,
    {
        self.get(key).unwrap()
    }

    /// The item at position `i` of a list, which must have it; as indexing
    /// a list by a position.
    pub fn index_by_position(&self, i: usize) -> (r: &Value)
        requires
            self matches Value::List(items) && i < items@.len(),
        ensures
            self matches Value::List(items) && *r == items@[i as int],
    {
        match self {
            Value::List(items) => &items[i],
            _ => self,
        }
    }
}

/// A deep copy of a value: the same strings, lists and maps.
pub fn clone_value(v: &Value) -> (r: Value)
    ensures
        r@ == v@,
    decreases v,
{
    match v {
        Value::String(s) => Value::String(s.clone()),
        Value::List(items) => {
            let mut out: Vec<Value> = Vec::new();
            let mut i: usize = 0;
            while i < items.len()
                invariant
                    i <= items@.len(),
                    items_view(out@) == items_view(items@.take(i as int)),
                    forall|j: int| 0 <= j < items@.len() ==> decreases_to!(*v => #[trigger] items@[j]),
                decreases items@.len() - i,
            {
                proof {
                    assert(decreases_to!(*v => items@[i as int]));
                }
                let c = clone_value(&items[i]);
                proof {
                    lemma_items_view_push(out@, c);
                    lemma_items_view_push(items@.take(i as int), items@[i as int]);
                    assert(items@.take(i + 1) =~= items@.take(i as int).push(items@[i as int]));
                }
                out.push(c);
                i = i + 1;
            }
            assert(items@.take(items@.len() as int) =~= items@);
            Value::List(out)
        },
        Value::Dict(pairs) => {
            let mut out: Vec<(String, Value)> = Vec::new();
            let mut i: usize = 0;
            while i < pairs.len()
                invariant
                    i <= pairs@.len(),
                    pairs_view(out@) == pairs_view(pairs@.take(i as int)),
                    forall|j: int| 0 <= j < pairs@.len() ==> decreases_to!(*v => #[trigger] pairs@[j].1),
                decreases pairs@.len() - i,
            {
                let pair = &pairs[i];
                let k = pair.0.clone();
                let c = clone_value(&pair.1);
                proof {
                    lemma_pairs_view_push(out@, k, c);
                    lemma_pairs_view_push(pairs@.take(i as int), pairs@[i as int].0, pairs@[i as int].1);
                    assert(pairs@.take(i + 1) =~= pairs@.take(i as int).push(pairs@[i as int]));
                }
                out.push((k, c));
                i = i + 1;
            }
            assert(pairs@.take(pairs@.len() as int) =~= pairs@);
            Value::Dict(out)
        },
    }
}

impl Clone for Value {
    /// A deep copy, as [`clone_value`].
    fn clone(&self) -> (r: Self)
        ensures
            r@ == self@,
    {
        clone_value(self)
    }
}

/// An error with the message `msg` and no position.
pub open spec fn kind_error(msg: Seq<char>) -> ErrorView {
    ErrorView::Syntax { msg, pos: None }
}

impl Value {
    /// Fails unless the value is a map: a phig document is one map.
    pub fn require_map(&self) -> (r: Result<(), Error>)
        ensures
            r is Ok <==> self is Dict,
            r matches Err(e) ==> e@ == kind_error("top-level value must be a map"@),
    {
        match self {
            Value::Dict(_) => Ok(()),
            _ => Err(Error::new("top-level value must be a map")),
        }
    }

    /// The text of a string value; a list or a map is the error `msg`.
    pub fn into_string(self, msg: &str) -> (r: Result<String, Error>)
        ensures
            match self {
                Value::String(s) => r matches Ok(t) && t@ == s@,
                _ => r matches Err(e) && e@ == kind_error(msg@),
            },
    {
        match self {
            Value::String(s) => Ok(s),
            _ => Err(Error::new(msg)),
        }
    }

    /// An enum written as a value: a string names a unit variant; a map of
    /// exactly one pair names the variant by its key and holds its content.
    pub fn into_variant(self) -> (r: Result<(String, Option<Value>), Error>)
        ensures
            match self {
                Value::String(s) => r matches Ok((n, c)) && n@ == s@ && c is None,
                Value::Dict(pairs) => if pairs@.len() == 1 {
                    r matches Ok((n, Some(c))) && n == pairs@[0].0 && c == pairs@[0].1
                } else {
                    r matches Err(e) && e@ == kind_error("expected single-entry map for enum"@)
                },
                Value::List(_) => r matches Err(e) && e@ == kind_error("expected string or map for enum"@),
            },
    {
        match self {
            Value::String(s) => Ok((s, None)),
            Value::Dict(pairs) => {
                if pairs.len() != 1 {
                    return Err(Error::new("expected single-entry map for enum"));
                }
                let mut pairs = pairs;
                let (k, v) = pairs.remove(0);
                Ok((k, Some(v)))
            },
            Value::List(_) => Err(Error::new("expected string or map for enum")),
        }
    }
}

/// What reading the document `input` gives: the map whose events are
/// exactly those the parser emits for it, or the error at which the
/// parser stops.
pub open spec fn parse_outcome(input: Seq<u8>, r: Result<Value, Error>) -> bool {
    match document_events(input) {
        Ok(es) => r matches Ok(v) && value_events(v@) == es && value_wf(v@) && v is Dict,
        Err(f) => r matches Err(e) && is_fault(e, f),
    }
}

/// Parse phig input into a [`Value`] tree.
///
/// The result is the map whose events are exactly those the parser emits
/// for the input, or the error at which the parser stops.
#[verifier::spinoff_prover]
#[verifier::rlimit(60)]
pub fn parse_to_value(input: &[u8]) -> (r: Result<Value, Error>)
    ensures
        parse_outcome(input@, r),
{
    let mut parser = PhigParser::new(input);
    let mut stack: Vec<BuildFrame> = Vec::new();
    let mut result: Option<Value> = None;
    let ghost mut emitted: Seq<EventView> = seq![];
    proof {
        assert(stack_opens(stack@) =~= ctx_of(parser@).open);
        assert(after_events(emitted, run(parser@)) == run(parser@)) by {
            if let Ok(rest) = run(parser@) {
                assert(emitted + rest =~= rest);
            }
        }
    }
    loop
        invariant
            parser.wf(),
            document_events(input@) == after_events(emitted, run(parser@)),
            stack_opens(stack@) == ctx_of(parser@).open,
            stack_wf(stack@),
            stack@.len() > 0 ==> stack@[0] is Dict,
            !ctx_of(parser@).started ==> stack@.len() == 0 && result is None && emitted.len() == 0,
            result is None ==> emitted == stack_events(stack@),
            result matches Some(v) ==> stack@.len() == 0 && emitted == value_events(v@) && value_wf(v@) && v is Dict,
            ctx_of(parser@).started && stack@.len() == 0 ==> result is Some,
        ensures
            parser.wf(),
            document_events(input@) == after_events(emitted, run(parser@)),
            run(parser@) == Ok::<Seq<EventView>, Fault>(seq![]),
            stream_done(ctx_of(parser@)),
            stack_opens(stack@) == ctx_of(parser@).open,
            result matches Some(v) ==> stack@.len() == 0 && emitted == value_events(v@) && value_wf(v@) && v is Dict,
            ctx_of(parser@).started && stack@.len() == 0 ==> result is Some,
        decreases steps_left(parser@),
    {
        let ghost v = parser@;
        proof {
            lemma_step(v);
            lemma_ctx_shape(v);
        }
        let next = parser.next();
        let event = match next {
            None => {
                break ;
            },
            Some(Err(e)) => {
                return Err(e);
            },
            Some(Ok(event)) => event,
        };
        let ghost old_stack = stack@;
        let ghost old_emitted = emitted;
        proof {
            lemma_after_events_assoc(emitted, seq![event@], run(parser@));
            emitted = emitted + seq![event@];
        }
        match event {
            Event::StartMap => {
                let pairs: Vec<(String, Value)> = Vec::new();
                assert(dict_keys(pairs_view(pairs@)) =~= Seq::<Seq<char>>::empty());
                let frame = BuildFrame::Dict { pairs, pending_key: None };
                stack.push(frame);
                assert(stack@.drop_last() =~= old_stack);
                assert(stack_opens(stack@) =~= ctx_of(parser@).open);
                assert(stack_wf(stack@)) by {
                    assert forall|i: int| 0 <= i < stack@.len() implies frame_wf(#[trigger] stack@[i]) by {
                        if i < old_stack.len() {
                            assert(stack@[i] == old_stack[i]);
                        }
                    }
                }
            },
            Event::StartList => {
                stack.push(BuildFrame::List { items: Vec::new() });
                assert(stack@.drop_last() =~= old_stack);
                assert(stack_opens(stack@) =~= ctx_of(parser@).open);
                assert(stack_wf(stack@)) by {
                    assert forall|i: int| 0 <= i < stack@.len() implies frame_wf(#[trigger] stack@[i]) by {
                        if i < old_stack.len() {
                            assert(stack@[i] == old_stack[i]);
                        }
                    }
                }
            },
            Event::Key(k) => {
                match stack.pop() {
                    Some(BuildFrame::Dict { pairs, pending_key }) => {
                        let ghost k_view = k@;
                        let frame = BuildFrame::Dict { pairs, pending_key: Some(k) };
                        stack.push(frame);
                        assert(stack@.drop_last() =~= old_stack.drop_last());
                        assert(stack_opens(stack@) =~= ctx_of(parser@).open);
                        assert(stack_wf(stack@)) by {
                            assert forall|i: int| 0 <= i < stack@.len() implies frame_wf(#[trigger] stack@[i]) by {
                                assert(frame_wf(old_stack[i]));
                            }
                        }
                    },
                    _ => {},
                }
            },
            Event::String(s) => {
                push_value(&mut stack, &mut result, Value::String(s));
            },
            Event::EndMap => {
                let frame = stack.pop();
                let value = match frame {
                    Some(BuildFrame::Dict { pairs, .. }) => Value::Dict(pairs),
                    Some(BuildFrame::List { items }) => Value::List(items),
                    None => Value::String(String::new()),
                };
                proof {
                    assert(stack@ =~= old_stack.drop_last());
                    assert(frame_wf(old_stack.last()));
                    assert(stack_wf(stack@)) by {
                        assert forall|i: int| 0 <= i < stack@.len() implies frame_wf(#[trigger] stack@[i]) by {
                            assert(frame_wf(old_stack[i]));
                        }
                    }
                    assert(stack_opens(stack@) =~= stack_opens(old_stack).drop_last());
                    assert(value_events(value@) =~= frame_events(old_stack.last()) + seq![EventView::EndMap]);
                }
                push_value(&mut stack, &mut result, value);
            },
            Event::EndList => {
                let frame = stack.pop();
                let value = match frame {
                    Some(BuildFrame::List { items }) => Value::List(items),
                    Some(BuildFrame::Dict { pairs, .. }) => Value::Dict(pairs),
                    None => Value::String(String::new()),
                };
                proof {
                    assert(stack@ =~= old_stack.drop_last());
                    assert(frame_wf(old_stack.last()));
                    assert(stack_wf(stack@)) by {
                        assert forall|i: int| 0 <= i < stack@.len() implies frame_wf(#[trigger] stack@[i]) by {
                            assert(frame_wf(old_stack[i]));
                        }
                    }
                    assert(stack_opens(stack@) =~= stack_opens(old_stack).drop_last());
                    assert(value_events(value@) =~= frame_events(old_stack.last()) + seq![EventView::EndList]);
                }
                push_value(&mut stack, &mut result, value);
            },
        }
    }
    match result {
        Some(v) => {
            proof {
                assert(emitted + seq![] =~= emitted);
            }
            Ok(v)
        },
        None => Err(Error::new("no value produced")),
    }
}


/// The UTF-8 bytes of a string.
pub open spec fn str_bytes(s: Seq<char>) -> Seq<u8> {
    vstd::utf8::encode_utf8(s)
}

/// Reads a phig document held in a string into a [`Value`]; as
/// [`parse_to_value`] on its UTF-8 bytes.
pub fn from_str(s: &str) -> (r: Result<Value, Error>)
    ensures
        parse_outcome(str_bytes(s@), r),
{
    parse_to_value(s.as_bytes())
}

impl std::str::FromStr for Value {
    type Err = Error;

    /// As [`from_str`]: the document's value, or the parser's first error.
    fn from_str(s: &str) -> (r: Result<Self, Self::Err>)
        ensures
            parse_outcome(str_bytes(s@), r),
    {
        parse_to_value(s.as_bytes())
    }
}

} // verus!
