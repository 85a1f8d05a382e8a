//! Requests to be made one after the other.

use crate::path;
use crate::port::{Request, RequestView};
use vstd::prelude::*;

verus! {

/// Puts one more request behind `requests`.
pub(crate) fn ask(requests: &mut Vec<Request>, request: Request)
    ensures
        path::views(final(requests)@) == path::views(old(requests)@).push(request@),
{
    proof {
        path::lemma_views_push(requests@, request);
    }
    requests.push(request);
}

/// Requests to be made in order, and how many of them have been.
#[derive(Debug, Clone, PartialEq, Eq)]
pub struct Script {
    requests: Vec<Request>,
    at: usize,
}

/// The view of a [`Script`].
pub struct ScriptView {
    /// The requests, in order.
    pub requests: Seq<RequestView>,
    /// How many have been made.
    pub at: int,
}

impl View for Script {
    type V = ScriptView;

    closed spec fn view(&self) -> ScriptView {
        ScriptView { requests: path::views(self.requests@), at: self.at as int }
    }
}

impl ScriptView {
    /// A script of which nothing has been made.
    pub open spec fn of(requests: Seq<RequestView>) -> ScriptView {
        ScriptView { requests, at: 0 }
    }

    /// Whether there is a request left to make.
    pub open spec fn pending(self) -> bool {
        0 <= self.at < self.requests.len()
    }

    /// The request to make next.
    pub open spec fn current(self) -> RequestView {
        self.requests[self.at]
    }

    /// The script with one more request made.
    pub open spec fn advanced(self) -> ScriptView {
        ScriptView { requests: self.requests, at: self.at + 1 }
    }
}

impl Script {
    /// A script of which nothing has been made.
    pub fn new(requests: Vec<Request>) -> (script: Script)
        ensures
            script@ == ScriptView::of(path::views(requests@)),
    {
        Script { requests, at: 0 }
    }

    /// Whether there is a request left to make.
    pub fn is_pending(&self) -> (pending: bool)
        ensures
            pending == self@.pending(),
    {
        self.at < self.requests.len()
    }

    /// The request to make next.
    pub fn current(&self) -> (request: Request)
        requires
            self@.pending(),
        ensures
            request@ == self@.current(),
    {
        self.requests[self.at].copy()
    }

    /// The script with one more request made.
    pub fn advance(self) -> (script: Script)
        requires
            self@.pending(),
        ensures
            script@ == self@.advanced(),
    {
        assert(self.at < self.requests.len());
        Script { requests: self.requests, at: self.at + 1 }
    }
}

} // verus!
