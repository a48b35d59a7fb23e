//! Opaque keyset pagination: cursors, page arguments and page results.

use vstd::prelude::*;

verus! {

/// The sort direction a reader was declared with.
#[derive(Clone, Copy, PartialEq, Eq, Structural, Debug)]
pub enum Order {
    Asc,
    Desc,
}

/// An opaque cursor: a URL-safe base64 string that clients pass back
/// unchanged. Only the codec can compare or interpret it.
#[derive(Debug)]
pub struct Value(pub String);

impl View for Value {
    type V = Seq<char>;

    open spec fn view(&self) -> Seq<char> {
        self.0@
    }
}

impl Clone for Value {
    fn clone(&self) -> (r: Self)
        ensures
            r@ == self@,
    {
        Value(self.0.clone())
    }
}

/// One row of a page together with the cursor that addresses it.
pub struct Edge<N> {
    pub cursor: Value,
    pub node: N,
}

/// Position information of a page within the full result.
pub struct PageInfo {
    pub has_previous_page: bool,
    pub has_next_page: bool,
    pub start_cursor: Option<Value>,
    pub end_cursor: Option<Value>,
}

/// A page of rows: the edges in ascending sort-key order, plus page info.
pub struct ReadResult<N> {
    pub edges: Vec<Edge<N>>,
    pub page_info: PageInfo,
}

/// Pagination arguments. "Backward" iff `last` or `before` is set and
/// neither `first` nor `after` is; otherwise "forward".
pub struct Args {
    pub first: Option<u16>,
    pub after: Option<Value>,
    pub last: Option<u16>,
    pub before: Option<Value>,
}

/// The default page size when neither `first` nor `last` is given.
pub const DEFAULT_LIMIT: u16 = 40;

impl Args {
    /// Whether these arguments ask for a backward page.
    pub open spec fn spec_is_backward(&self) -> bool {
        (self.last is Some || self.before is Some) && self.first is None && self.after is None
    }

    /// The effective page size: `last` for a backward page, `first` otherwise,
    /// defaulting to [`DEFAULT_LIMIT`].
    pub open spec fn spec_limit(&self) -> u16 {
        if self.spec_is_backward() {
            match self.last {
                Some(n) => n,
                None => DEFAULT_LIMIT,
            }
        } else {
            match self.first {
                Some(n) => n,
                None => DEFAULT_LIMIT,
            }
        }
    }

    /// The effective cursor string: `before` for a backward page, `after` otherwise.
    pub open spec fn spec_cursor(&self) -> Option<Seq<char>> {
        if self.spec_is_backward() {
            match self.before {
                Some(ref v) => Some(v@),
                None => None,
            }
        } else {
            match self.after {
                Some(ref v) => Some(v@),
                None => None,
            }
        }
    }

    /// Arguments for a forward page of at most `first` rows after `after`.
    pub fn forward(first: u16, after: Option<Value>) -> (r: Self)
        ensures
            r.first == Some(first),
            match (r.after, after) {
                (Some(ref a), Some(ref b)) => a@ == b@,
                (None, None) => true,
                _ => false,
            },
            r.last is None,
            r.before is None,
            !r.spec_is_backward(),
    {
        Args { first: Some(first), after, last: None, before: None }
    }

    /// Arguments for a backward page of at most `last` rows before `before`.
    pub fn backward(last: u16, before: Option<Value>) -> (r: Self)
        ensures
            r.last == Some(last),
            match (r.before, before) {
                (Some(ref a), Some(ref b)) => a@ == b@,
                (None, None) => true,
                _ => false,
            },
            r.first is None,
            r.after is None,
            r.spec_is_backward(),
    {
        Args { first: None, after: None, last: Some(last), before }
    }

    /// Whether these arguments ask for a backward page.
    pub fn is_backward(&self) -> (r: bool)
        ensures
            r == self.spec_is_backward(),
    {
        (self.last.is_some() || self.before.is_some()) && self.first.is_none()
            && self.after.is_none()
    }

    /// The effective limit and cursor of these arguments.
    pub fn get_info(&self) -> (r: (u16, Option<Value>))
        ensures
            r.0 == self.spec_limit(),
            match (r.1, self.spec_cursor()) {
                (Some(ref v), Some(c)) => v@ == c,
                (None, None) => true,
                _ => false,
            },
    {
        if self.is_backward() {
            let limit = match self.last {
                Some(n) => n,
                None => DEFAULT_LIMIT,
            };
            let cur = match &self.before {
                Some(v) => Some(v.clone()),
                None => None,
            };
            (limit, cur)
        } else {
            let limit = match self.first {
                Some(n) => n,
                None => DEFAULT_LIMIT,
            };
            let cur = match &self.after {
                Some(v) => Some(v.clone()),
                None => None,
            };
            (limit, cur)
        }
    }
}

} // verus!
