//! Handler kinds: the closed tag set that keys a leaf's handler slots,
//! and the association list that maps a kind to a handler reference.

use vstd::prelude::*;
use vstd::string::*;
use crate::path::str_eq;

verus! {

/// The kind of slot a handler occupies on a leaf: the catch-all slot,
/// the WebSocket slot, or one HTTP-method slot. Non-standard verbs fall
/// into `HttpOther`.
pub enum HandlerKind {
    CatchAll,
    WebSocket,
    HttpGet,
    HttpPost,
    HttpDelete,
    HttpPatch,
    HttpPut,
    HttpHead,
    HttpOther(String),
}

/// The mathematical image of a `HandlerKind`, with the non-standard verb
/// as a character sequence.
pub enum KindView {
    CatchAll,
    WebSocket,
    HttpGet,
    HttpPost,
    HttpDelete,
    HttpPatch,
    HttpPut,
    HttpHead,
    HttpOther(Seq<char>),
}

impl View for HandlerKind {
    type V = KindView;

    open spec fn view(&self) -> KindView {
        match self {
            HandlerKind::CatchAll => KindView::CatchAll,
            HandlerKind::WebSocket => KindView::WebSocket,
            HandlerKind::HttpGet => KindView::HttpGet,
            HandlerKind::HttpPost => KindView::HttpPost,
            HandlerKind::HttpDelete => KindView::HttpDelete,
            HandlerKind::HttpPatch => KindView::HttpPatch,
            HandlerKind::HttpPut => KindView::HttpPut,
            HandlerKind::HttpHead => KindView::HttpHead,
            HandlerKind::HttpOther(s) => KindView::HttpOther(s@),
        }
    }
}

impl DeepView for HandlerKind {
    type V = KindView;

    open spec fn deep_view(&self) -> KindView {
        self@
    }
}

/// The handler kind an HTTP method name selects.
pub open spec fn kind_of_method(m: Seq<char>) -> KindView {
    if m == "GET"@ {
        KindView::HttpGet
    } else if m == "POST"@ {
        KindView::HttpPost
    } else if m == "DELETE"@ {
        KindView::HttpDelete
    } else if m == "PATCH"@ {
        KindView::HttpPatch
    } else if m == "PUT"@ {
        KindView::HttpPut
    } else if m == "HEAD"@ {
        KindView::HttpHead
    } else {
        KindView::HttpOther(m)
    }
}

impl HandlerKind {
    /// Maps an HTTP method name to its handler kind; the well-known verbs
    /// get their own tag, anything else is carried as `HttpOther`.
    pub fn from_http_method(method: &str) -> (k: HandlerKind)
        ensures
            k@ == kind_of_method(method@),
    {
        if str_eq(method, "GET") {
            HandlerKind::HttpGet
        } else if str_eq(method, "POST") {
            HandlerKind::HttpPost
        } else if str_eq(method, "DELETE") {
            HandlerKind::HttpDelete
        } else if str_eq(method, "PATCH") {
            HandlerKind::HttpPatch
        } else if str_eq(method, "PUT") {
            HandlerKind::HttpPut
        } else if str_eq(method, "HEAD") {
            HandlerKind::HttpHead
        } else {
            HandlerKind::HttpOther(String::from_str(method))
        }
    }

    /// Structural equality of two handler kinds.
    pub fn kind_eq(&self, other: &HandlerKind) -> (r: bool)
        ensures
            r == (self@ == other@),
    {
        match (self, other) {
            (HandlerKind::CatchAll, HandlerKind::CatchAll) => true,
            (HandlerKind::WebSocket, HandlerKind::WebSocket) => true,
            (HandlerKind::HttpGet, HandlerKind::HttpGet) => true,
            (HandlerKind::HttpPost, HandlerKind::HttpPost) => true,
            (HandlerKind::HttpDelete, HandlerKind::HttpDelete) => true,
            (HandlerKind::HttpPatch, HandlerKind::HttpPatch) => true,
            (HandlerKind::HttpPut, HandlerKind::HttpPut) => true,
            (HandlerKind::HttpHead, HandlerKind::HttpHead) => true,
            (HandlerKind::HttpOther(a), HandlerKind::HttpOther(b)) => str_eq(a.as_str(), b.as_str()),
            _ => false,
        }
    }
}

/// Position of the first entry for kind `k` in the handler list, looking
/// from position `i` on; `-1` if none follows.
pub open spec fn handler_idx(s: Seq<(KindView, u64)>, k: KindView, i: int) -> int
    decreases s.len() - i when 0 <= i <= s.len()
{
    if i >= s.len() {
        -1
    } else if s[i].0 == k {
        i
    } else {
        handler_idx(s, k, i + 1)
    }
}

/// The handler reference stored for kind `k`, if any.
pub open spec fn handler_get(s: Seq<(KindView, u64)>, k: KindView) -> Option<u64> {
    let i = handler_idx(s, k, 0);
    if i == -1 {
        None
    } else {
        Some(s[i].1)
    }
}

/// The handler list after storing `v` under kind `k`: the existing entry
/// for `k` is overwritten, otherwise an entry is appended.
pub open spec fn handler_set(s: Seq<(KindView, u64)>, k: KindView, v: u64) -> Seq<(KindView, u64)> {
    let i = handler_idx(s, k, 0);
    if i == -1 {
        s.push((k, v))
    } else {
        s.update(i, (k, v))
    }
}

/// Looks up the handler stored under kind `k`.
pub fn handlers_get(hs: &Vec<(HandlerKind, u64)>, k: &HandlerKind) -> (r: Option<u64>)
    ensures
        r == handler_get(hs.deep_view(), k@),
{
    let ghost s = hs.deep_view();
    let mut i: usize = 0;
    while i < hs.len()
        invariant
            s == hs.deep_view(),
            i <= hs.len(),
            s.len() == hs.len(),
            handler_idx(s, k@, 0) == handler_idx(s, k@, i as int),
        decreases hs.len() - i,
    {
        let (ek, ev) = &hs[i];
        if ek.kind_eq(k) {
            proof {
                assert(s[i as int].0 == k@);
                assert(handler_idx(s, k@, i as int) == i as int);
            }
            return Some(*ev);
        }
        proof {
            assert(s[i as int].0 != k@);
        }
        i = i + 1;
    }
    None
}

/// Stores `v` under kind `k`, overwriting the entry for `k` if one exists.
pub fn handlers_set(hs: &mut Vec<(HandlerKind, u64)>, k: HandlerKind, v: u64)
    ensures
        final(hs).deep_view() == handler_set(old(hs).deep_view(), k@, v),
{
    let ghost s = hs.deep_view();
    let mut i: usize = 0;
    while i < hs.len()
        invariant
            s == hs.deep_view(),
            s == old(hs).deep_view(),
            i <= hs.len(),
            s.len() == hs.len(),
            handler_idx(s, k@, 0) == handler_idx(s, k@, i as int),
        decreases hs.len() - i,
    {
        let found = hs[i].0.kind_eq(&k);
        if found {
            proof {
                assert(s[i as int].0 == k@);
                assert(handler_idx(s, k@, i as int) == i as int);
            }
            hs.set(i, (k, v));
            proof {
                assert(hs.deep_view() =~= s.update(i as int, (k@, v)));
            }
            return;
        }
        proof {
            assert(s[i as int].0 != k@);
        }
        i = i + 1;
    }
    hs.push((k, v));
    proof {
        assert(hs.deep_view() =~= s.push((k@, v)));
    }
}

} // verus!
