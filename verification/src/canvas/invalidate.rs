//! What a change asks the host to redo.

use vstd::prelude::*;

verus! {

/// What a state change asks the host to redo.
///
/// Lets an operation be written once and applied through whichever context the caller
/// happens to hold.
#[derive(Clone, Copy, Debug, PartialEq, Eq, Structural)]
#[must_use]
pub enum Invalidate {
    Nothing,
    Layout,
    LayoutAndPaint,
}

/// One thing that a host can be asked for.
#[derive(Clone, Copy, Debug, PartialEq, Eq, Structural)]
pub enum Request {
    /// A layout pass.
    Layout,
    /// A repaint, and nothing else.
    Paint,
}

/// The part of a host's context that is needed to invalidate a widget.
pub trait Invalidator {
    /// What has been asked for so far, in order.
    spec fn asked(&self) -> Seq<Request>;

    /// Asks for a layout pass.
    fn request_layout(&mut self)
        ensures
            final(self).asked() == old(self).asked().push(Request::Layout),
    ;

    /// Asks for a repaint, and for nothing else.
    fn request_paint_only(&mut self)
        ensures
            final(self).asked() == old(self).asked().push(Request::Paint),
    ;
}

/// Requests in the order they were made, for a host that takes them later.
#[derive(Debug, PartialEq, Eq)]
pub struct RequestLog {
    pub asked: Vec<Request>,
}

impl Invalidator for RequestLog {
    open spec fn asked(&self) -> Seq<Request> {
        self.asked@
    }

    fn request_layout(&mut self) {
        self.asked.push(Request::Layout);
    }

    fn request_paint_only(&mut self) {
        self.asked.push(Request::Paint);
    }
}

impl RequestLog {
    /// A log of nothing.
    pub fn new() -> (r: RequestLog)
        ensures
            r.asked() == Seq::<Request>::empty(),
    {
        RequestLog { asked: Vec::new() }
    }

    /// What the log comes to, however often a thing was asked for.
    pub fn summary(&self) -> (r: Requests)
        ensures
            r.layout == self.asked().contains(Request::Layout),
            r.paint == self.asked().contains(Request::Paint),
    {
        let mut requests = Requests::none();
        let mut i: usize = 0;
        while i < self.asked.len()
            invariant
                i <= self.asked@.len(),
                requests.layout == self.asked@.take(i as int).contains(Request::Layout),
                requests.paint == self.asked@.take(i as int).contains(Request::Paint),
            decreases self.asked@.len() - i,
        {
            let ghost before = self.asked@.take(i as int);
            match self.asked[i] {
                Request::Layout => {
                    requests.layout = true;
                },
                Request::Paint => {
                    requests.paint = true;
                },
            }
            proof {
                let now = self.asked@.take(i + 1);
                assert(now =~= before.push(self.asked@[i as int]));
                let last = self.asked@[i as int];
                vstd::seq_lib::lemma_seq_contains_after_push(before, last, Request::Layout);
                vstd::seq_lib::lemma_seq_contains_after_push(before, last, Request::Paint);
            }
            i += 1;
        }
        proof {
            assert(self.asked@.take(i as int) =~= self.asked@);
        }
        requests
    }
}

/// Which requests a host has to take.
#[derive(Clone, Copy, Debug, PartialEq, Eq, Structural)]
pub struct Requests {
    pub layout: bool,
    pub paint: bool,
}

impl Requests {
    pub open spec fn spec_none() -> Requests {
        Requests { layout: false, paint: false }
    }

    /// Nothing asked for.
    #[verifier::when_used_as_spec(spec_none)]
    pub fn none() -> (r: Requests)
        ensures
            r == Requests::none(),
    {
        Requests { layout: false, paint: false }
    }
}

impl Invalidate {
    /// Whether this asks for a layout pass.
    pub open spec fn wants_layout(self) -> bool {
        self != Invalidate::Nothing
    }

    /// Whether this asks for a repaint.
    pub open spec fn wants_paint(self) -> bool {
        self == Invalidate::LayoutAndPaint
    }

    /// The requests that this comes to, in order.
    pub open spec fn wants(self) -> Seq<Request> {
        match self {
            Invalidate::Nothing => seq![],
            Invalidate::Layout => seq![Request::Layout],
            Invalidate::LayoutAndPaint => seq![Request::Layout, Request::Paint],
        }
    }

    /// What the requests come to, without their order.
    pub proof fn lemma_wants(self)
        ensures
            self.wants().contains(Request::Layout) == self.wants_layout(),
            self.wants().contains(Request::Paint) == self.wants_paint(),
    {
        let wants = self.wants();
        if self != Invalidate::Nothing {
            assert(wants[0] == Request::Layout);
        }
        if self == Invalidate::LayoutAndPaint {
            assert(wants[1] == Request::Paint);
        }
    }

    /// Asks `ctx` for what has to be redone: each thing once, layout before paint.
    pub fn apply(self, ctx: &mut impl Invalidator)
        ensures
            final(ctx).asked() == old(ctx).asked() + self.wants(),
            self == Invalidate::Nothing ==> *final(ctx) == *old(ctx),
    {
        match self {
            Invalidate::Nothing => {
                assert(ctx.asked() + self.wants() =~= ctx.asked());
            },
            Invalidate::Layout => {
                ctx.request_layout();
            },
            Invalidate::LayoutAndPaint => {
                ctx.request_layout();
                ctx.request_paint_only();
            },
        }
    }
}

} // verus!
