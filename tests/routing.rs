use composites::composite::{CompositeMakeService, CompositeService};
use composites::routing::{dispatch, Dispatch};

fn handler(entries: Vec<(&'static str, u32)>) -> CompositeService<u32> {
    CompositeService::new(entries)
}

#[test]
fn routes_to_matching_prefix() {
    let h = handler(vec![("/a", 1), ("/b", 2)]);
    assert_eq!(h.route("/a/x"), Dispatch::Forward(0));
    assert_eq!(h.route("/b"), Dispatch::Forward(1));
    assert_eq!(h.route("/c"), Dispatch::NotFound(404));
}

#[test]
fn first_match_wins_over_longest() {
    let h = handler(vec![("/", 1), ("/special", 2)]);
    assert_eq!(h.route("/special/page"), Dispatch::Forward(0));
}

#[test]
fn no_entries_is_not_found() {
    let h = handler(vec![]);
    assert_eq!(h.route("/"), Dispatch::NotFound(404));
    assert_eq!(h.route(""), Dispatch::NotFound(404));
    assert_eq!(h.route("/anything/at/all"), Dispatch::NotFound(404));
}

#[test]
fn prefix_match_ignores_segment_boundaries() {
    let h = handler(vec![("/a", 1)]);
    assert_eq!(h.route("/ab"), Dispatch::Forward(0));
    assert_eq!(h.route("/"), Dispatch::NotFound(404));
    assert_eq!(h.route("a"), Dispatch::NotFound(404));
}

#[test]
fn prefix_longer_than_path_does_not_match() {
    let h = handler(vec![("/abc", 1), ("/ab", 2)]);
    assert_eq!(h.route("/ab"), Dispatch::Forward(1));
}

#[test]
fn multibyte_prefixes_match_by_characters() {
    let h = handler(vec![("/\u{e9}t\u{e9}", 1), ("/\u{e9}", 2)]);
    assert_eq!(h.route("/\u{e9}t\u{e9}/x"), Dispatch::Forward(0));
    assert_eq!(h.route("/\u{e9}x"), Dispatch::Forward(1));
    assert_eq!(h.route("/e"), Dispatch::NotFound(404));
}

#[test]
fn later_duplicate_is_shadowed() {
    let with_dup = handler(vec![("/a", 1), ("/b", 2), ("/a", 3)]);
    let without = handler(vec![("/a", 1), ("/b", 2)]);
    for path in ["/a", "/a/x", "/b", "/c", ""] {
        let chosen = |h: &CompositeService<u32>| match h.route(path) {
            Dispatch::Forward(i) => Some(h.0[i].1),
            Dispatch::NotFound(_) => None,
        };
        assert_eq!(chosen(&with_dup), chosen(&without));
    }
    assert_eq!(with_dup.route("/a/y"), Dispatch::Forward(0));
}

#[test]
fn reordering_registrations_changes_routing() {
    let h1 = handler(vec![("/", 1), ("/x", 2)]);
    let h2 = handler(vec![("/x", 2), ("/", 1)]);
    assert_eq!(h1.route("/x/y"), Dispatch::Forward(0));
    assert_eq!(h1.0[0].1, 1);
    assert_eq!(h2.route("/x/y"), Dispatch::Forward(0));
    assert_eq!(h2.0[0].1, 2);
}

#[test]
fn dispatch_on_plain_list() {
    let entries: Vec<(&'static str, ())> = vec![("/p", ()), ("/q", ())];
    assert_eq!(dispatch(&entries, "/q/1"), Dispatch::Forward(1));
    assert_eq!(dispatch(&entries, "/r"), Dispatch::NotFound(404));
}

#[test]
fn new_factory_is_empty() {
    let f: CompositeMakeService<u8> = CompositeMakeService::new();
    assert_eq!(f.len(), 0);
    assert!(f.inner.is_empty());
}

#[test]
fn push_appends_in_order() {
    let mut f = CompositeMakeService::new();
    f.push("/a", 'a');
    f.push("/b", 'b');
    assert_eq!(f.len(), 2);
    assert_eq!(f.inner, vec![("/a", 'a'), ("/b", 'b')]);
}

#[test]
fn assemble_keeps_registration_order() {
    let mut f = CompositeMakeService::new();
    f.push("/a", "factory a");
    f.push("/b", "factory b");
    f.push("/", "factory root");
    let built: Vec<Result<u32, String>> = vec![Ok(10), Ok(20), Ok(30)];
    let h = match f.assemble(built) {
        Ok(h) => h,
        Err(_) => panic!("every child was built"),
    };
    assert_eq!(h.len(), 3);
    assert_eq!(h.0, vec![("/a", 10), ("/b", 20), ("/", 30)]);
    assert_eq!(h.route("/b/1"), Dispatch::Forward(1));
    assert_eq!(h.route("/zzz"), Dispatch::Forward(2));
}

#[test]
fn assemble_fails_when_one_child_fails() {
    let mut f = CompositeMakeService::new();
    f.push("/a", ());
    f.push("/b", ());
    let built: Vec<Result<u32, String>> = vec![Ok(1), Err("b is down".to_string())];
    match f.assemble(built) {
        Ok(_) => panic!("no handler may be produced"),
        Err(e) => assert_eq!(e, "b is down"),
    }
}

#[test]
fn assemble_reports_the_first_failure() {
    let mut f = CompositeMakeService::new();
    f.push("/a", ());
    f.push("/b", ());
    f.push("/c", ());
    let built: Vec<Result<u32, &str>> = vec![Ok(1), Err("second"), Err("third")];
    assert!(matches!(f.assemble(built), Err("second")));
    let built: Vec<Result<u32, &str>> = vec![Err("first"), Ok(2), Err("third")];
    assert!(matches!(f.assemble(built), Err("first")));
}

#[test]
fn assemble_empty_factory() {
    let f: CompositeMakeService<()> = CompositeMakeService::new();
    let built: Vec<Result<u32, String>> = vec![];
    let h = match f.assemble(built) {
        Ok(h) => h,
        Err(_) => panic!("nothing can fail"),
    };
    assert_eq!(h.len(), 0);
    assert_eq!(h.route("/a"), Dispatch::NotFound(404));
}

#[test]
fn empty_prefix_matches_every_path() {
    let h = handler(vec![("", 7), ("/a", 8)]);
    assert_eq!(h.route("/a"), Dispatch::Forward(0));
    assert_eq!(h.route(""), Dispatch::Forward(0));
}
