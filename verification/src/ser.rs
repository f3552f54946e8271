//! Writing typed data through the [`Formatter`].
//!
//! [`StreamSerializer`] holds the decisions a data-format serializer makes
//! around the formatter: the output must be one top-level map, so a scalar
//! or a list met before any map is refused, and it counts the containers
//! it has opened.
use vstd::prelude::*;
use crate::error::{Error, ErrorView};
use crate::fmt::{
    Formatter, FormatterView, fmt_wf, fmt_string, fmt_map_start, fmt_map_end, fmt_list_start,
    fmt_list_end, fmt_key, can_string, can_key, can_map_end, can_list_end, list_end_fits,
};

verus! {

broadcast use vstd::string::group_string_axioms;

/// The error for a value that is not nested in the top-level map.
pub open spec fn top_level_error() -> ErrorView {
    ErrorView::Syntax { msg: "top-level value must be a map"@, pos: None }
}

/// The serializer as the specification sees it: the formatter, and how
/// many containers the serializer has opened and not yet closed.
pub struct SerView {
    pub fmt: FormatterView,
    pub depth: nat,
}

/// Serializes values as phig text into a byte buffer.
pub struct StreamSerializer {
    fmt: Formatter,
    depth: u32,
}

impl View for StreamSerializer {
    type V = SerView;

    closed spec fn view(&self) -> SerView {
        SerView { fmt: self.fmt@, depth: self.depth as nat }
    }
}

impl StreamSerializer {
    /// The serializer's invariant: the formatter's.
    pub open spec fn wf(&self) -> bool {
        fmt_wf(self@.fmt)
    }

    /// A serializer that appends to `writer`.
    pub fn new(writer: Vec<u8>) -> (s: StreamSerializer)
        ensures
            s@.fmt.out == writer@,
            s@.fmt.frames.len() == 0,
            s@.depth == 0,
            s.wf(),
    {
        StreamSerializer { fmt: Formatter::new(writer), depth: 0 }
    }

    /// The formatter that the serializer drives.
    pub fn formatter(&self) -> (f: &Formatter)
        ensures
            f@ == self@.fmt,
            f.wf() == self.wf(),
    {
        &self.fmt
    }

    /// How many containers are open.
    pub fn depth(&self) -> (d: u32)
        ensures
            d == self@.depth,
    {
        self.depth
    }

    /// The bytes written.
    pub fn into_inner(self) -> (w: Vec<u8>)
        ensures
            w@ == self@.fmt.out,
    {
        self.fmt.into_inner()
    }

    /// Fails unless a container is open: phig output is a single map.
    pub fn require_nested(&self) -> (r: Result<(), Error>)
        ensures
            r is Ok <==> self@.depth > 0,
            r matches Err(e) ==> e@ == top_level_error(),
    {
        if self.depth == 0 {
            Err(Error::new("top-level value must be a map"))
        } else {
            Ok(())
        }
    }

    /// Writes a string value inside the open container.
    pub fn scalar(&mut self, value: String) -> (r: Result<(), Error>)
        requires
            old(self).wf(),
            old(self)@.depth > 0 ==> can_string(old(self)@.fmt),
        ensures
            final(self).wf(),
            old(self)@.depth == 0 ==> final(self)@ == old(self)@ && (r matches Err(e) && e@ == top_level_error()),
            old(self)@.depth > 0 ==> r is Ok && final(self)@ == (SerView { fmt: fmt_string(old(self)@.fmt, value@), depth: old(self)@.depth }),
    {
        if self.depth == 0 {
            return Err(Error::new("top-level value must be a map"));
        }
        self.fmt.string(value)
    }

    /// Opens a map, the top-level one or one nested in the open container.
    pub fn begin_map(&mut self) -> (r: Result<(), Error>)
        requires
            old(self).wf(),
            old(self)@.depth < u32::MAX,
        ensures
            final(self).wf(),
            r is Ok,
            final(self)@ == (SerView { fmt: fmt_map_start(old(self)@.fmt), depth: old(self)@.depth + 1 }),
    {
        let r = self.fmt.map_start();
        self.depth = self.depth + 1;
        r
    }

    /// Opens a list inside the open container.
    pub fn begin_list(&mut self) -> (r: Result<(), Error>)
        requires
            old(self).wf(),
            old(self)@.depth < u32::MAX,
        ensures
            final(self).wf(),
            old(self)@.depth == 0 ==> final(self)@ == old(self)@ && (r matches Err(e) && e@ == top_level_error()),
            old(self)@.depth > 0 ==> r is Ok && final(self)@ == (SerView { fmt: fmt_list_start(old(self)@.fmt), depth: old(self)@.depth + 1 }),
    {
        if self.depth == 0 {
            return Err(Error::new("top-level value must be a map"));
        }
        let r = self.fmt.list_start();
        self.depth = self.depth + 1;
        r
    }

    /// Closes the innermost map.
    pub fn end_map(&mut self) -> (r: Result<(), Error>)
        requires
            old(self).wf(),
            old(self)@.depth > 0,
            can_map_end(old(self)@.fmt),
        ensures
            final(self).wf(),
            r is Ok,
            final(self)@ == (SerView { fmt: fmt_map_end(old(self)@.fmt), depth: (old(self)@.depth - 1) as nat }),
    {
        self.depth = self.depth - 1;
        self.fmt.map_end()
    }

    /// Closes the innermost list.
    pub fn end_list(&mut self) -> (r: Result<(), Error>)
        requires
            old(self).wf(),
            old(self)@.depth > 0,
            can_list_end(old(self)@.fmt),
            list_end_fits(old(self)@.fmt),
        ensures
            final(self).wf(),
            r is Ok,
            final(self)@ == (SerView { fmt: fmt_list_end(old(self)@.fmt), depth: (old(self)@.depth - 1) as nat }),
    {
        self.depth = self.depth - 1;
        self.fmt.list_end()
    }

    /// Writes a key of the innermost map.
    pub fn key(&mut self, k: String) -> (r: Result<(), Error>)
        requires
            old(self).wf(),
            can_key(old(self)@.fmt),
        ensures
            final(self).wf(),
            r is Ok,
            final(self)@ == (SerView { fmt: fmt_key(old(self)@.fmt, k@), depth: old(self)@.depth }),
    {
        self.fmt.key(k)
    }

    /// Opens the map that wraps an enum variant's content, keyed by the
    /// variant's name.
    pub fn begin_variant(&mut self, variant: &str) -> (r: Result<(), Error>)
        requires
            old(self).wf(),
            old(self)@.depth < u32::MAX,
        ensures
            final(self).wf(),
            old(self)@.depth == 0 ==> final(self)@ == old(self)@ && (r matches Err(e) && e@ == top_level_error()),
            old(self)@.depth > 0 ==> r is Ok && final(self)@ == (SerView {
                fmt: fmt_key(fmt_map_start(old(self)@.fmt), variant@),
                depth: old(self)@.depth + 1,
            }),
    {
        if self.depth == 0 {
            return Err(Error::new("top-level value must be a map"));
        }
        let _ = self.fmt.map_start();
        self.depth = self.depth + 1;
        self.fmt.key(variant.to_string())
    }
}

} // verus!
