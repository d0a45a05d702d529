//! Leaves and route descriptors. A leaf is the terminal record of one
//! registered path: its declared parameter names, its static-mount and
//! catch-all marks, and the handler reference stored for each kind.

use vstd::prelude::*;
use vstd::string::*;
use crate::handler::{HandlerKind, KindView, kind_of_method, handler_set, handlers_set};
use crate::path::str_eq;

verus! {

/// Terminal record of a registered path.
pub struct Leaf {
    /// Declared parameter names, in declaration order; fixed once the
    /// leaf exists.
    pub declared_parameters: Vec<String>,
    /// True for catch-all routes and static mounts: the handler is then
    /// selected regardless of scope kind and method.
    pub is_catch_all: bool,
    /// The registered mount path, when this leaf is a static mount.
    pub static_mount_prefix: Option<String>,
    /// One handler reference per handler kind.
    pub handlers: Vec<(HandlerKind, u64)>,
}

/// The mathematical image of a `Leaf`.
pub struct LeafView {
    pub params: Seq<Seq<char>>,
    pub is_catch_all: bool,
    pub static_prefix: Option<Seq<char>>,
    pub handlers: Seq<(KindView, u64)>,
}

impl View for Leaf {
    type V = LeafView;

    open spec fn view(&self) -> LeafView {
        LeafView {
            params: self.declared_parameters.deep_view(),
            is_catch_all: self.is_catch_all,
            static_prefix: self.static_mount_prefix.deep_view(),
            handlers: self.handlers.deep_view(),
        }
    }
}

/// What a route is, as the host classified it once at registration time:
/// an HTTP route with one built handler per method name, a WebSocket
/// route, a catch-all route, or a classification the table does not
/// recognize (always rejected).
pub enum RouteKind {
    Http(Vec<(String, u64)>),
    WebSocket(u64),
    CatchAll(u64),
    Unrecognized,
}

/// The mathematical image of a `RouteKind`.
pub enum RouteKindView {
    Http(Seq<(Seq<char>, u64)>),
    WebSocket(u64),
    CatchAll(u64),
    Unrecognized,
}

impl View for RouteKind {
    type V = RouteKindView;

    open spec fn view(&self) -> RouteKindView {
        match self {
            RouteKind::Http(ms) => RouteKindView::Http(ms.deep_view()),
            RouteKind::WebSocket(h) => RouteKindView::WebSocket(*h),
            RouteKind::CatchAll(h) => RouteKindView::CatchAll(*h),
            RouteKind::Unrecognized => RouteKindView::Unrecognized,
        }
    }
}

/// One route, ready for registration: its normalized path, its declared
/// parameter names, whether the host marked it as a static mount, and
/// its classification with the already built handler references.
pub struct RouteDef {
    pub path: String,
    pub param_names: Vec<String>,
    pub is_static_mount: bool,
    pub kind: RouteKind,
}

/// The mathematical image of a `RouteDef`.
pub struct RouteDefView {
    pub path: Seq<char>,
    pub params: Seq<Seq<char>>,
    pub is_static_mount: bool,
    pub kind: RouteKindView,
}

impl View for RouteDef {
    type V = RouteDefView;

    open spec fn view(&self) -> RouteDefView {
        RouteDefView {
            path: self.path@,
            params: self.param_names.deep_view(),
            is_static_mount: self.is_static_mount,
            kind: self.kind@,
        }
    }
}

impl DeepView for RouteDef {
    type V = RouteDefView;

    open spec fn deep_view(&self) -> RouteDefView {
        self@
    }
}

/// A leaf as first created for a route: the declared parameters recorded,
/// no marks, no handlers yet.
pub open spec fn fresh_leaf(params: Seq<Seq<char>>) -> LeafView {
    LeafView { params, is_catch_all: false, static_prefix: None, handlers: Seq::empty() }
}

/// Handler entries after storing every method's handler of an HTTP route,
/// in order.
pub open spec fn add_http_handlers(
    h: Seq<(KindView, u64)>,
    ms: Seq<(Seq<char>, u64)>,
) -> Seq<(KindView, u64)>
    decreases ms.len(),
{
    if ms.len() == 0 {
        h
    } else {
        add_http_handlers(handler_set(h, kind_of_method(ms[0].0), ms[0].1), ms.drop_first())
    }
}

/// A leaf after one route is registered onto it: `l0` is the existing
/// leaf, if any; a missing leaf is first created with the route's
/// parameters. A static mount sets the catch-all mark and records the
/// mount path; then the route's handlers are stored by kind.
pub open spec fn merged_leaf(l0: Option<LeafView>, r: RouteDefView) -> LeafView {
    let base = match l0 {
        Some(l) => l,
        None => fresh_leaf(r.params),
    };
    let marked = if r.is_static_mount {
        LeafView {
            params: base.params,
            is_catch_all: true,
            static_prefix: Some(r.path),
            handlers: base.handlers,
        }
    } else {
        base
    };
    match r.kind {
        RouteKindView::Http(ms) => LeafView {
            params: marked.params,
            is_catch_all: marked.is_catch_all,
            static_prefix: marked.static_prefix,
            handlers: add_http_handlers(marked.handlers, ms),
        },
        RouteKindView::WebSocket(h) => LeafView {
            params: marked.params,
            is_catch_all: marked.is_catch_all,
            static_prefix: marked.static_prefix,
            handlers: handler_set(marked.handlers, KindView::WebSocket, h),
        },
        RouteKindView::CatchAll(h) => LeafView {
            params: marked.params,
            is_catch_all: true,
            static_prefix: marked.static_prefix,
            handlers: handler_set(marked.handlers, KindView::CatchAll, h),
        },
        RouteKindView::Unrecognized => marked,
    }
}

/// Copies a list of strings.
pub fn clone_strings(v: &Vec<String>) -> (r: Vec<String>)
    ensures
        r.deep_view() == v.deep_view(),
{
    let mut r: Vec<String> = Vec::new();
    let mut i: usize = 0;
    while i < v.len()
        invariant
            i <= v.len(),
            r.deep_view() == v.deep_view().take(i as int),
        decreases v.len() - i,
    {
        let ghost pre = r.deep_view();
        r.push(v[i].clone());
        proof {
            assert(r.deep_view() =~= pre.push(v.deep_view()[i as int]));
            assert(r.deep_view() =~= v.deep_view().take(i + 1));
        }
        i = i + 1;
    }
    proof {
        assert(v.deep_view().take(v.deep_view().len() as int) =~= v.deep_view());
    }
    r
}

/// Element-for-element equality of two lists of strings.
pub fn params_eq(a: &Vec<String>, b: &Vec<String>) -> (r: bool)
    ensures
        r == (a.deep_view() == b.deep_view()),
{
    if a.len() != b.len() {
        proof {
            assert(a.deep_view().len() != b.deep_view().len());
        }
        return false;
    }
    let mut i: usize = 0;
    while i < a.len()
        invariant
            i <= a.len(),
            a.len() == b.len(),
            forall|j: int| 0 <= j < i ==> a.deep_view()[j] == b.deep_view()[j],
        decreases a.len() - i,
    {
        if !str_eq(a[i].as_str(), b[i].as_str()) {
            proof {
                assert(a.deep_view()[i as int] != b.deep_view()[i as int]);
            }
            return false;
        }
        i = i + 1;
    }
    proof {
        assert(a.deep_view() =~= b.deep_view());
    }
    true
}

impl Leaf {
    /// A new leaf seeded with a route's declared parameters.
    pub fn new(params: &Vec<String>) -> (l: Leaf)
        ensures
            l@ == fresh_leaf(params.deep_view()),
    {
        let l = Leaf {
            declared_parameters: clone_strings(params),
            is_catch_all: false,
            static_mount_prefix: None,
            handlers: Vec::new(),
        };
        proof {
            assert(l@.handlers =~= Seq::<(KindView, u64)>::empty());
        }
        l
    }

    /// Registers one route onto this leaf: marks it when the route is a
    /// static mount and stores the route's handlers by kind.
    pub fn merge_route(&mut self, route: &RouteDef)
        ensures
            final(self)@ == merged_leaf(Some(old(self)@), route@),
    {
        if route.is_static_mount {
            self.is_catch_all = true;
            self.static_mount_prefix = Some(route.path.clone());
        }
        let ghost marked = self@;
        match &route.kind {
            RouteKind::Http(ms) => {
                let ghost msv = ms.deep_view();
                proof {
                    assert(msv.skip(0) =~= msv);
                }
                let mut i: usize = 0;
                while i < ms.len()
                    invariant
                        msv == ms.deep_view(),
                        i <= ms.len(),
                        msv.len() == ms.len(),
                        self@.params == marked.params,
                        self@.is_catch_all == marked.is_catch_all,
                        self@.static_prefix == marked.static_prefix,
                        add_http_handlers(self@.handlers, msv.skip(i as int))
                            == add_http_handlers(marked.handlers, msv),
                    decreases ms.len() - i,
                {
                    let ghost hs_pre = self@.handlers;
                    let (m, h) = &ms[i];
                    let k = HandlerKind::from_http_method(m.as_str());
                    handlers_set(&mut self.handlers, k, *h);
                    proof {
                        assert(msv.skip(i as int)[0] == msv[i as int]);
                        assert(msv.skip(i as int).drop_first() =~= msv.skip(i + 1));
                        assert(add_http_handlers(hs_pre, msv.skip(i as int))
                            == add_http_handlers(self@.handlers, msv.skip(i + 1)));
                    }
                    i = i + 1;
                }
                proof {
                    assert(msv.skip(ms.len() as int) =~= Seq::<(Seq<char>, u64)>::empty());
                }
            },
            RouteKind::WebSocket(h) => {
                handlers_set(&mut self.handlers, HandlerKind::WebSocket, *h);
            },
            RouteKind::CatchAll(h) => {
                handlers_set(&mut self.handlers, HandlerKind::CatchAll, *h);
                self.is_catch_all = true;
            },
            RouteKind::Unrecognized => {},
        }
    }
}

} // verus!
