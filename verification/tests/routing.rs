use route_trie::handler::HandlerKind;
use route_trie::leaf::{RouteDef, RouteKind};
use route_trie::table::{RegisterError, ResolveError, RouteTable};

fn http_route(path: &str, params: &[&str], methods: &[(&str, u64)]) -> RouteDef {
    RouteDef {
        path: String::from(path),
        param_names: params.iter().map(|p| String::from(*p)).collect(),
        is_static_mount: false,
        kind: RouteKind::Http(
            methods.iter().map(|(m, h)| (String::from(*m), *h)).collect(),
        ),
    }
}

fn resolve(
    table: &RouteTable,
    path: &str,
    scope: &str,
    method: &str,
) -> Result<(u64, Vec<String>, String), ResolveError> {
    let mut p = String::from(path);
    let r = table.resolve(&mut p, scope, method)?;
    Ok((r.handler, r.captured, p))
}

#[test]
fn exact_route_resolves() {
    let mut t = RouteTable::new();
    t.register_route(&http_route("/users", &[], &[("GET", 1)])).unwrap();
    t.register_route(&http_route("/items/{id}", &["id"], &[("GET", 2)])).unwrap();
    let (h, caps, p) = resolve(&t, "/users", "http", "GET").unwrap();
    assert_eq!(h, 1);
    assert!(caps.is_empty());
    assert_eq!(p, "/users");
}

#[test]
fn conflicting_parameters_rejected_and_first_leaf_kept() {
    let mut t = RouteTable::new();
    t.register_route(&http_route("/items/{id}", &["id"], &[("GET", 1)])).unwrap();
    let second = http_route("/items/{key}", &["key"], &[("GET", 2)]);
    assert_eq!(
        t.register_route(&second),
        Err(RegisterError::ConflictingParameters)
    );
    let mut p = String::from("/items/7");
    let r = t.resolve(&mut p, "http", "GET").unwrap();
    assert_eq!(r.handler, 1);
    assert_eq!(r.param_names, vec![String::from("id")]);
    assert_eq!(r.captured, vec![String::from("7")]);
}

#[test]
fn literal_beats_placeholder() {
    let mut t = RouteTable::new();
    t.register_route(&http_route("/items/active", &[], &[("GET", 10)])).unwrap();
    t.register_route(&http_route("/items/{id}", &["id"], &[("GET", 20)])).unwrap();
    let (h, caps, _) = resolve(&t, "/items/active", "http", "GET").unwrap();
    assert_eq!(h, 10);
    assert!(caps.is_empty());
    let (h, caps, _) = resolve(&t, "/items/42", "http", "GET").unwrap();
    assert_eq!(h, 20);
    assert_eq!(caps, vec![String::from("42")]);
}

#[test]
fn literal_beats_placeholder_inside_trie() {
    let mut t = RouteTable::new();
    t.register_route(&http_route("/shop/{id}", &["id"], &[("GET", 5)])).unwrap();
    t.register_route(&http_route("/shop/cart/{id}", &["id"], &[("GET", 6)])).unwrap();
    let (h, caps, _) = resolve(&t, "/shop/cart/9", "http", "GET").unwrap();
    assert_eq!(h, 6);
    assert_eq!(caps, vec![String::from("9")]);
    let (h, caps, _) = resolve(&t, "/shop/other", "http", "GET").unwrap();
    assert_eq!(h, 5);
    assert_eq!(caps, vec![String::from("other")]);
}

#[test]
fn trailing_slash_is_normalized() {
    let mut t = RouteTable::new();
    t.register_route(&http_route("/users", &[], &[("GET", 1)])).unwrap();
    let (h, _, _) = resolve(&t, "/users/", "http", "GET").unwrap();
    assert_eq!(h, 1);
    let (h, _, _) = resolve(&t, "/users", "http", "GET").unwrap();
    assert_eq!(h, 1);
}

#[test]
fn root_resolves_and_empty_path_never_crashes() {
    let mut t = RouteTable::new();
    t.register_route(&http_route("/", &[], &[("GET", 3)])).unwrap();
    let (h, _, _) = resolve(&t, "/", "http", "GET").unwrap();
    assert_eq!(h, 3);
    let (h, _, _) = resolve(&t, "", "http", "GET").unwrap();
    assert_eq!(h, 3);
}

#[test]
fn static_mount_strips_prefix() {
    let mut t = RouteTable::new();
    let mount = RouteDef {
        path: String::from("/static"),
        param_names: Vec::new(),
        is_static_mount: true,
        kind: RouteKind::CatchAll(9),
    };
    t.register_route(&mount).unwrap();
    let mut p = String::from("/static/css/app.css");
    let r = t.resolve(&mut p, "http", "GET").unwrap();
    assert_eq!(r.handler, 9);
    assert_eq!(p, "/css/app.css");
}

#[test]
fn method_dispatch() {
    let mut t = RouteTable::new();
    t.register_route(&http_route("/items", &[], &[("GET", 1), ("POST", 2)])).unwrap();
    let (h, _, _) = resolve(&t, "/items", "http", "GET").unwrap();
    assert_eq!(h, 1);
    let (h, _, _) = resolve(&t, "/items", "http", "POST").unwrap();
    assert_eq!(h, 2);
    assert_eq!(
        resolve(&t, "/items", "http", "DELETE"),
        Err(ResolveError::MethodNotAllowed)
    );
    assert_eq!(
        resolve(&t, "/missing", "http", "GET"),
        Err(ResolveError::NotFound)
    );
}

#[test]
fn deep_chain_registers_resolves_and_tears_down() {
    let depth = 10_000;
    let mut path = String::new();
    for _ in 0..depth - 1 {
        path.push_str("/a");
    }
    path.push_str("/{p}");
    let route = http_route(&path, &["p"], &[("GET", 77)]);
    let mut t = RouteTable::new();
    t.register_route(&route).unwrap();
    assert_eq!(t.handler_refs(), vec![77]);

    t.clear();
    assert_eq!(resolve(&t, "/a", "http", "GET"), Err(ResolveError::NotFound));
    assert!(t.handler_refs().is_empty());

    let mut t2 = RouteTable::new();
    t2.register_route(&route).unwrap();
    drop(t2);
}

#[test]
fn websocket_scope_selects_websocket_slot() {
    let mut t = RouteTable::new();
    let ws = RouteDef {
        path: String::from("/ws"),
        param_names: Vec::new(),
        is_static_mount: false,
        kind: RouteKind::WebSocket(3),
    };
    t.register_route(&ws).unwrap();
    let (h, _, _) = resolve(&t, "/ws", "websocket", "").unwrap();
    assert_eq!(h, 3);
    assert_eq!(
        resolve(&t, "/ws", "http", "GET"),
        Err(ResolveError::MethodNotAllowed)
    );
}

#[test]
fn catch_all_ignores_scope_and_method() {
    let mut t = RouteTable::new();
    let asgi = RouteDef {
        path: String::from("/app"),
        param_names: Vec::new(),
        is_static_mount: false,
        kind: RouteKind::CatchAll(4),
    };
    t.register_route(&asgi).unwrap();
    let (h, _, _) = resolve(&t, "/app", "http", "DELETE").unwrap();
    assert_eq!(h, 4);
    let (h, _, _) = resolve(&t, "/app", "websocket", "").unwrap();
    assert_eq!(h, 4);
}

#[test]
fn unrecognized_kind_is_fatal_and_leaves_no_trace() {
    let mut t = RouteTable::new();
    let odd = RouteDef {
        path: String::from("/odd"),
        param_names: Vec::new(),
        is_static_mount: false,
        kind: RouteKind::Unrecognized,
    };
    assert_eq!(
        t.register_route(&odd),
        Err(RegisterError::UnrecognizedRouteKind)
    );
    assert_eq!(resolve(&t, "/odd", "http", "GET"), Err(ResolveError::NotFound));
}

#[test]
fn later_registration_overwrites_a_kind_slot() {
    let mut t = RouteTable::new();
    t.register_route(&http_route("/items", &[], &[("GET", 1)])).unwrap();
    t.register_route(&http_route("/items", &[], &[("GET", 7)])).unwrap();
    let (h, _, _) = resolve(&t, "/items", "http", "GET").unwrap();
    assert_eq!(h, 7);
}

#[test]
fn captures_come_in_path_order() {
    let mut t = RouteTable::new();
    t.register_route(&http_route("/a/{x}/{y}", &["x", "y"], &[("GET", 1)])).unwrap();
    let mut p = String::from("/a/first/second");
    let r = t.resolve(&mut p, "http", "GET").unwrap();
    assert_eq!(r.captured, vec![String::from("first"), String::from("second")]);
    assert_eq!(r.param_names, vec![String::from("x"), String::from("y")]);
}

#[test]
fn non_standard_verbs_dispatch_by_name() {
    let mut t = RouteTable::new();
    t.register_route(&http_route("/q", &[], &[("QUERY", 11), ("PATCH", 12)])).unwrap();
    let (h, _, _) = resolve(&t, "/q", "http", "QUERY").unwrap();
    assert_eq!(h, 11);
    let (h, _, _) = resolve(&t, "/q", "http", "PATCH").unwrap();
    assert_eq!(h, 12);
    assert_eq!(
        resolve(&t, "/q", "http", "TRACE"),
        Err(ResolveError::MethodNotAllowed)
    );
}

#[test]
fn undeclared_braced_segment_is_literal() {
    let mut t = RouteTable::new();
    t.register_route(&http_route("/x/{id}/{other}", &["other"], &[("GET", 8)])).unwrap();
    let (h, caps, _) = resolve(&t, "/x/{id}/val", "http", "GET").unwrap();
    assert_eq!(h, 8);
    assert_eq!(caps, vec![String::from("val")]);
    assert_eq!(resolve(&t, "/x/abc/val", "http", "GET"), Err(ResolveError::NotFound));
}

#[test]
fn batch_stops_at_first_failure_and_keeps_earlier_routes() {
    let mut t = RouteTable::new();
    let routes = vec![
        http_route("/a/{x}", &["x"], &[("GET", 1)]),
        http_route("/a/{y}", &["y"], &[("GET", 2)]),
        http_route("/b", &[], &[("GET", 3)]),
    ];
    assert_eq!(t.register(&routes), Err(RegisterError::ConflictingParameters));
    let (h, _, _) = resolve(&t, "/a/z", "http", "GET").unwrap();
    assert_eq!(h, 1);
    assert_eq!(resolve(&t, "/b", "http", "GET"), Err(ResolveError::NotFound));
}

#[test]
fn handler_refs_enumerates_every_handle_once() {
    let mut t = RouteTable::new();
    t.register_route(&http_route("/users", &[], &[("GET", 1), ("POST", 2)])).unwrap();
    t.register_route(&http_route("/items/{id}", &["id"], &[("GET", 3)])).unwrap();
    let ws = RouteDef {
        path: String::from("/ws"),
        param_names: Vec::new(),
        is_static_mount: false,
        kind: RouteKind::WebSocket(4),
    };
    t.register_route(&ws).unwrap();
    let mut refs = t.handler_refs();
    refs.sort();
    assert_eq!(refs, vec![1, 2, 3, 4]);
}

#[test]
fn method_names_map_to_their_slots() {
    for (name, expected) in [
        ("GET", 0u64),
        ("POST", 1),
        ("DELETE", 2),
        ("PATCH", 3),
        ("PUT", 4),
        ("HEAD", 5),
    ] {
        let mut t = RouteTable::new();
        t.register_route(&http_route("/m", &[], &[(name, expected)])).unwrap();
        let (h, _, _) = resolve(&t, "/m", "http", name).unwrap();
        assert_eq!(h, expected);
    }
    let k = HandlerKind::from_http_method("OPTIONS");
    assert!(matches!(k, HandlerKind::HttpOther(ref s) if s == "OPTIONS"));
}

#[test]
fn static_mount_at_root_does_not_rewrite() {
    let mut t = RouteTable::new();
    let mount = RouteDef {
        path: String::from("/"),
        param_names: Vec::new(),
        is_static_mount: true,
        kind: RouteKind::CatchAll(6),
    };
    t.register_route(&mount).unwrap();
    let mut p = String::from("/anything/here");
    let r = t.resolve(&mut p, "http", "GET").unwrap();
    assert_eq!(r.handler, 6);
    assert_eq!(p, "/anything/here");
}

#[test]
fn static_mount_without_catch_all_handler_is_not_found() {
    let mut t = RouteTable::new();
    let mount = RouteDef {
        path: String::from("/assets"),
        param_names: Vec::new(),
        is_static_mount: true,
        kind: RouteKind::Http(vec![(String::from("GET"), 1)]),
    };
    t.register_route(&mount).unwrap();
    // The mount marks the leaf catch-all, so selection looks only at the
    // catch-all slot, and no catch-all handler was registered.
    assert_eq!(
        resolve(&t, "/assets/logo.png", "http", "GET"),
        Err(ResolveError::NotFound)
    );
}
