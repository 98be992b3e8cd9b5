use nuclear_router::error::ErrorKind;
use nuclear_router::router::Router;

fn pairs<'a>(r: &Option<(&usize, nuclear_router::captures::Captures<'a>)>) -> Vec<(String, String)> {
    let (_, caps) = r.as_ref().unwrap();
    caps.to_vec()
        .into_iter()
        .map(|(k, v)| (k.to_string(), v.to_string()))
        .collect()
}

fn owned(v: &[(&str, &str)]) -> Vec<(String, String)> {
    v.iter().map(|(k, v)| (k.to_string(), v.to_string())).collect()
}

#[test]
fn router_common() {
    let mut router: Router<usize> = Router::new();
    router
        .nest("/user/:user_id", |user| {
            user.insert("/post/:post_id", 1)
                .insert("/profile", 2)
                .insert("/file/**", 3)
                .insert("/", 4);
        })
        .insert("/explore", 5)
        .nest("/pan", |pan| {
            pan.insert("/**", 6);
        });

    let cases: &[(&str, usize, &[(&str, &str)])] = &[
        ("/user/asd/post/123", 1, &[("user_id", "asd"), ("post_id", "123")]),
        ("/user/asd/profile", 2, &[("user_id", "asd")]),
        (
            "/user/asd/file/home/asd/.bashrc",
            3,
            &[("user_id", "asd"), ("*", "/home/asd/.bashrc")],
        ),
        ("/user/asd/", 4, &[("user_id", "asd")]),
        ("/explore", 5, &[]),
        ("/pan/home/asd", 6, &[("*", "/home/asd")]),
    ];

    for &(url, data, captures) in cases.iter() {
        let ret = router.find(url);
        assert!(ret.is_some(), "{}", url);
        assert_eq!(*ret.as_ref().unwrap().0, data, "{}", url);
        assert_eq!(pairs(&ret), owned(captures), "{}", url);
    }
}

#[test]
fn router_collision() {
    let mut router: Router<usize> = Router::new();
    assert!(router.try_insert("/u/:id/p/:id", 1).is_ok());
    assert!(router.try_insert("/u/:uid/p/:pid", 2).is_err());

    let mut router: Router<usize> = Router::new();
    assert!(router.try_insert("/u/:id/p/:id", 1).is_ok());
    assert!(router.try_insert("/u/:uid/p", 2).is_ok());

    let mut router: Router<usize> = Router::new();
    assert!(router.try_insert("/u/:id/**", 1).is_ok());
    assert!(router.try_insert("/u/:id/", 2).is_ok());

    let mut router: Router<usize> = Router::new();
    assert!(router.try_insert("/u/:id/**", 1).is_ok());
    assert!(router.try_insert("/u/:id/**", 2).is_err());

    let mut router: Router<usize> = Router::new();
    assert!(router.try_insert("/application/c/:a", 1).is_ok());
    assert!(router.try_insert("/application/b", 2).is_ok());
    assert!(router.try_insert("/application/b/:id", 3).is_ok());

    let mut router: Router<usize> = Router::new();
    assert!(router.try_insert("/application/**", 1).is_ok());
    assert!(router
        .try_nest("/application", |r| {
            r.insert("/**", 2);
        })
        .is_err());
}

#[test]
fn router_single() {
    let mut router: Router<usize> = Router::new();
    router.insert("/hello/:name", 1);

    assert_eq!(*router.find("/hello/world").unwrap().0, 1);
    assert!(router.find("/hello/world/asd").is_none());
    assert!(router.find("/hello").is_none());
}

#[test]
fn router_prefix() {
    let mut router: Router<usize> = Router::new();
    router.insert("/hello/world/:name", 1);
    router.insert("/hello/earth/", 2);
    router.insert("/asd", 3);

    assert!(router.find("/hello").is_none());
}

#[test]
fn router_nested() {
    let mut router: Router<usize> = Router::new();

    router.nest("/v1", |v1| {
        v1.nest("/u/:uid", |u| {
            u.insert("/p/:pid", 1);
        });
    });

    assert_eq!(*router.find("/v1/u/asd/p/qwe").unwrap().0, 1);
}

#[test]
fn scenario_user_routes() {
    let mut router: Router<usize> = Router::new();
    router
        .insert("/user/:user_id/post/:post_id", 1)
        .insert("/user/:user_id/profile", 2)
        .insert("/user/:user_id/file/*rest", 3)
        .insert("/user/:user_id/", 4)
        .insert("/explore", 5);

    let r = router.find("/user/asd/post/123");
    assert_eq!(*r.as_ref().unwrap().0, 1);
    assert_eq!(pairs(&r), owned(&[("user_id", "asd"), ("post_id", "123")]));

    let r = router.find("/user/asd/file/home/asd/.bashrc");
    assert_eq!(*r.as_ref().unwrap().0, 3);
    assert_eq!(pairs(&r), owned(&[("user_id", "asd"), ("rest", "/home/asd/.bashrc")]));

    let r = router.find("/explore");
    assert_eq!(*r.as_ref().unwrap().0, 5);
    assert_eq!(pairs(&r), owned(&[]));

    let r = router.find("/user/asd/profile");
    assert_eq!(*r.as_ref().unwrap().0, 2);
    let r = router.find("/user/asd/");
    assert_eq!(*r.as_ref().unwrap().0, 4);
}

#[test]
fn scenario_same_rank_collides() {
    let mut router: Router<usize> = Router::new();
    assert!(router.try_insert("/u/:id/p/:id2", 1).is_ok());
    let err = router.try_insert("/u/:uid/p/:pid", 2).err().unwrap();
    assert_eq!(err.kind(), ErrorKind::Collision);
}

#[test]
fn scenario_distinct_ranks_accepted() {
    let mut router: Router<usize> = Router::new();
    assert!(router.try_insert("/application/c/:a", 1).is_ok());
    assert!(router.try_insert("/application/b", 2).is_ok());
    assert!(router.try_insert("/application/b/:id", 3).is_ok());
    assert_eq!(*router.find("/application/c/x").unwrap().0, 1);
    assert_eq!(*router.find("/application/b").unwrap().0, 2);
    assert_eq!(*router.find("/application/b/7").unwrap().0, 3);
}

#[test]
fn scenario_nested_wildcard_collides() {
    let mut router: Router<usize> = Router::new();
    assert!(router.try_insert("/application/**", 1).is_ok());
    let err = router
        .try_nest("/application", |r| {
            r.insert("/*rest", 2);
        })
        .err()
        .unwrap();
    assert_eq!(err.kind(), ErrorKind::Collision);
    assert_eq!(*router.find("/application/x/y").unwrap().0, 1);
}

#[test]
fn scenario_length_mismatch_no_match() {
    let mut router: Router<usize> = Router::new();
    router.insert("/a/b/c", 1).insert("/a/:x/c", 2);
    assert!(router.find("/a/b").is_none());
    assert!(router.find("/a").is_none());
    assert!(router.find("/a/b/c/d").is_none());
    assert_eq!(*router.find("/a/b/c").unwrap().0, 1);
}

#[test]
fn empty_router_finds_nothing() {
    let router: Router<usize> = Router::new();
    assert!(router.find("/").is_none());
    assert!(router.find("").is_none());
    assert_eq!(router.len(), 0);
}

#[test]
fn malformed_patterns() {
    let mut router: Router<usize> = Router::new();
    let kinds = [
        ("no/slash", ErrorKind::MalformedPattern),
        ("/a/*", ErrorKind::MalformedPattern),
        ("/a/:", ErrorKind::MalformedPattern),
        ("/a/*w/b", ErrorKind::MalformedPattern),
        ("", ErrorKind::MalformedPattern),
    ];
    for (p, k) in kinds.iter() {
        let e = router.try_insert(p, 0).err().unwrap();
        assert_eq!(e.kind(), *k, "{}", p);
    }
    let e = router.try_insert_router("/a/*w", Router::new()).err().unwrap();
    assert_eq!(e.kind(), ErrorKind::MalformedPattern);
    assert_eq!(router.len(), 0);
}

#[test]
fn capacity_limits() {
    let mut router: Router<usize> = Router::new();
    for i in 0..128 {
        let p = format!("/r{}", i);
        assert!(router.try_insert(&p, i).is_ok());
    }
    let e = router.try_insert("/more", 128).err().unwrap();
    assert_eq!(e.kind(), ErrorKind::CapacityExceeded);
    assert_eq!(*router.find("/r127").unwrap().0, 127);

    let mut router: Router<usize> = Router::new();
    let long64: String = (0..64).map(|_| "/s").collect();
    assert!(router.try_insert(&long64, 1).is_ok());
    let long65: String = (0..65).map(|_| "/s").collect();
    let e = router.try_insert(&long65, 2).err().unwrap();
    assert_eq!(e.kind(), ErrorKind::CapacityExceeded);
}

#[test]
fn failed_insert_keeps_matching() {
    let mut router: Router<usize> = Router::new();
    router.insert("/a/:x", 1).insert("/b/*rest", 2);
    assert!(router.try_insert("/a/:y", 3).is_err());
    assert!(router.try_insert("/b/*tail", 4).is_err());
    assert_eq!(router.len(), 2);
    let r = router.find("/a/q");
    assert_eq!(*r.as_ref().unwrap().0, 1);
    assert_eq!(pairs(&r), owned(&[("x", "q")]));
    let r = router.find("/b/c/d");
    assert_eq!(*r.as_ref().unwrap().0, 2);
    assert_eq!(pairs(&r), owned(&[("rest", "/c/d")]));
}

#[test]
fn collision_in_either_order() {
    let pairs_of_patterns = [
        ("/u/:a/p", "/u/:b/p", true),
        ("/x/:a", "/y/:b", false),
        ("/x/:a", "/x/b", false),
        ("/x/*a", "/x/*b", true),
    ];
    for (a, b, collide) in pairs_of_patterns.iter() {
        let mut r1: Router<usize> = Router::new();
        r1.insert(a, 1);
        let mut r2: Router<usize> = Router::new();
        r2.insert(b, 2);
        assert_eq!(r1.try_insert(b, 2).is_err(), *collide, "{} {}", a, b);
        assert_eq!(r2.try_insert(a, 1).is_err(), *collide, "{} {}", a, b);
    }
}

#[test]
fn literal_beats_capture() {
    let mut router: Router<usize> = Router::new();
    router.insert("/a/:x/c", 1).insert("/a/b/:y", 2);
    assert_eq!(*router.find("/a/b/c").unwrap().0, 2);
    let mut router: Router<usize> = Router::new();
    router.insert("/a/b/:y", 2).insert("/a/:x/c", 1);
    assert_eq!(*router.find("/a/b/c").unwrap().0, 2);
    assert_eq!(*router.find("/a/z/c").unwrap().0, 1);
}

#[test]
fn longer_route_beats_wildcard() {
    let mut router: Router<usize> = Router::new();
    router.insert("/f/*rest", 1).insert("/f/a/b", 2);
    assert_eq!(*router.find("/f/a/b").unwrap().0, 2);
    assert_eq!(*router.find("/f/a/c").unwrap().0, 1);
    let r = router.find("/f/a/c");
    assert_eq!(pairs(&r), owned(&[("rest", "/a/c")]));
}

#[test]
fn captures_are_slices_of_path() {
    let mut router: Router<usize> = Router::new();
    router.insert("/x/:first/y/:second", 1);
    let path = String::from("/x/héllo/y/wörld");
    let (v, caps) = router.find(&path).unwrap();
    assert_eq!(*v, 1);
    assert_eq!(caps.get("first"), Some("héllo"));
    assert_eq!(caps.get("second"), Some("wörld"));
    assert_eq!(caps.get("third"), None);
    assert_eq!(caps.len(), 2);
    for k in 0..caps.len() {
        let (s, e) = caps.offsets_at(k);
        let expect: String = path.chars().skip(s).take(e - s).collect();
        assert_eq!(caps.value_at(k), expect);
    }
}

#[test]
fn path_without_leading_slash() {
    let mut router: Router<usize> = Router::new();
    router.insert("/a/:x", 1).insert("/*all", 2);
    let (v, caps) = router.find("a/b").unwrap();
    assert_eq!(*v, 1);
    assert_eq!(caps.get("x"), Some("b"));
    let (v, caps) = router.find("q/r").unwrap();
    assert_eq!(*v, 2);
    assert_eq!(caps.get("all"), Some("q/r"));
    let (v, caps) = router.find("/q/r").unwrap();
    assert_eq!(*v, 2);
    assert_eq!(caps.get("all"), Some("/q/r"));
}

#[test]
fn clear_empties_router() {
    let mut router: Router<usize> = Router::new();
    router.insert("/a", 1);
    router.clear();
    assert!(router.find("/a").is_none());
    assert_eq!(router.len(), 0);
    assert!(router.try_insert("/a", 2).is_ok());
    assert_eq!(*router.find("/a").unwrap().0, 2);
}

#[test]
fn nested_lookup_does_not_backtrack() {
    let mut router: Router<usize> = Router::new();
    router.nest("/api", |api| {
        api.insert("/v1", 1);
    });
    assert_eq!(*router.find("/api/v1").unwrap().0, 1);
    assert!(router.find("/api/v2").is_none());
    let mut inner: Router<usize> = Router::new();
    inner.insert("/:id", 7);
    assert!(router.try_insert_router("/items", inner).is_ok());
    let (v, caps) = router.find("/items/42").unwrap();
    assert_eq!(*v, 7);
    assert_eq!(caps.get("id"), Some("42"));
}

#[test]
fn find_mut_changes_found_value() {
    let mut router: Router<usize> = Router::new();
    router.insert("/a/:x", 1).nest("/n", |n| {
        n.insert("/v/:id", 2);
    });
    {
        let (v, caps) = router.find_mut("/a/q").unwrap();
        assert_eq!(caps.get("x"), Some("q"));
        *v = 10;
    }
    assert_eq!(*router.find("/a/q").unwrap().0, 10);
    {
        let (v, caps) = router.find_mut("/n/v/9").unwrap();
        assert_eq!(caps.get("id"), Some("9"));
        *v += 5;
    }
    assert_eq!(*router.find("/n/v/9").unwrap().0, 7);
    assert!(router.find_mut("/zzz").is_none());
    assert_eq!(*router.find("/a/b").unwrap().0, 10);
}

#[test]
fn collision_outcome_independent_of_order() {
    let orders: [(&str, &str); 2] = [("/:x", "/:x/:y"), ("/a", "/:x/a")];
    for (a, b) in orders.iter() {
        let mut r1: Router<usize> = Router::new();
        r1.insert("/q/r/s", 0);
        let mut r2: Router<usize> = Router::new();
        r2.insert("/q/r/s", 0);
        let first = r1.try_insert(a, 1).is_ok() && r1.try_insert(b, 2).is_ok();
        let second = r2.try_insert(b, 2).is_ok() && r2.try_insert(a, 1).is_ok();
        assert!(first, "{} {}", a, b);
        assert_eq!(first, second, "{} {}", a, b);
    }
}

#[test]
fn literal_first_beats_later_literals() {
    let mut router: Router<usize> = Router::new();
    router.insert("/a/:y/*w", 1).insert("/:x/b/c", 2);
    assert_eq!(*router.find("/a/b/c").unwrap().0, 1);
    let mut router: Router<usize> = Router::new();
    router.insert("/:x/b/c", 2).insert("/a/:y/*w", 1);
    assert_eq!(*router.find("/a/b/c").unwrap().0, 1);
    assert_eq!(*router.find("/z/b/c").unwrap().0, 2);
}

#[test]
fn nest_registers_the_built_router() {
    let mut router: Router<usize> = Router::new();
    assert!(router
        .try_nest("/n/:id", |n| {
            n.insert("/leaf", 3);
        })
        .is_ok());
    let (v, caps) = router.find("/n/5/leaf").unwrap();
    assert_eq!(*v, 3);
    assert_eq!(caps.get("id"), Some("5"));
    assert!(router.find("/n/5/other").is_none());
}
