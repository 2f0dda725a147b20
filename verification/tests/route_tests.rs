use dispatch_core::route::Route;
use dispatch_core::stream::{Pulled, Stream};
use dispatch_core::{Error, Method, RegisterOptions};

fn sample_route() -> Route<&'static str, u8> {
    let mut route: Route<&'static str, u8> = Route::new();
    route
        .register(b"/a", Method::Get, "H1", None, RegisterOptions::default())
        .unwrap();
    route
}

#[test]
fn duplicate_registration_fails_and_keeps_the_first() {
    let mut route = sample_route();
    let second = route.register(b"/a", Method::Get, "H2", None, RegisterOptions::default());
    assert!(matches!(second, Err(Error::MethodAlreadyRegistered)));
    // the first registration still resolves
    let mut s = Stream::new();
    s.feed(b"/a ");
    let mut len: usize = 0;
    match route.find(&mut s, &Method::Get, &mut len) {
        Ok(Pulled::Ready(d)) => assert_eq!(d.creator, "H1"),
        _ => panic!("the first registration was lost"),
    }
}

#[test]
fn resolve_registered_path_and_method() {
    let route = sample_route();
    let mut s = Stream::new();
    s.feed(b"/a ");
    let mut len: usize = 0;
    match route.find(&mut s, &Method::Get, &mut len) {
        Ok(Pulled::Ready(d)) => {
            assert_eq!(d.creator, "H1");
            assert_eq!(d.context, None);
        },
        _ => panic!("resolve failed"),
    }
    // the path bytes and the separator were examined
    assert_eq!(len, 3);
    assert_eq!(s.count_clone(), 3);
}

#[test]
fn resolve_with_unregistered_method_is_method_not_allowed() {
    let route = sample_route();
    let mut s = Stream::new();
    s.feed(b"/a ");
    let mut len: usize = 0;
    assert!(matches!(
        route.find(&mut s, &Method::Post, &mut len),
        Err(Error::MethodNotAllowed)
    ));
}

#[test]
fn resolve_unregistered_path_is_no_match() {
    let route = sample_route();
    let mut s = Stream::new();
    s.feed(b"/b ");
    let mut len: usize = 0;
    assert!(matches!(route.find(&mut s, &Method::Get, &mut len), Err(Error::NoMatch)));
}

#[test]
fn register_empty_path_is_refused() {
    let mut route: Route<&'static str, u8> = Route::new();
    assert!(matches!(
        route.register(b"", Method::Get, "H1", None, RegisterOptions::default()),
        Err(Error::EmptyKey)
    ));
}

#[test]
fn two_methods_share_one_path() {
    let mut route = sample_route();
    route
        .register(b"/a", Method::Post, "H2", None, RegisterOptions::default())
        .unwrap();
    let mut s = Stream::new();
    s.feed(b"/a ");
    let mut len: usize = 0;
    match route.find(&mut s, &Method::Post, &mut len) {
        Ok(Pulled::Ready(d)) => assert_eq!(d.creator, "H2"),
        _ => panic!("second method did not resolve"),
    }
    let mut s2 = Stream::new();
    s2.feed(b"/a ");
    match route.find(&mut s2, &Method::Get, &mut len) {
        Ok(Pulled::Ready(d)) => assert_eq!(d.creator, "H1"),
        _ => panic!("first method did not resolve"),
    }
}

#[test]
fn other_paths_are_untouched_by_registration() {
    let mut route = sample_route();
    route
        .register(b"/bb", Method::Get, "H3", None, RegisterOptions::default())
        .unwrap();
    let mut s = Stream::new();
    s.feed(b"/a ");
    let mut len: usize = 0;
    match route.find(&mut s, &Method::Get, &mut len) {
        Ok(Pulled::Ready(d)) => assert_eq!(d.creator, "H1"),
        _ => panic!("existing path was disturbed"),
    }
    let mut s2 = Stream::new();
    s2.feed(b"/bb ");
    match route.find(&mut s2, &Method::Get, &mut len) {
        Ok(Pulled::Ready(d)) => assert_eq!(d.creator, "H3"),
        _ => panic!("new path did not resolve"),
    }
}

#[test]
fn resolve_suspends_on_a_partial_path() {
    let route = sample_route();
    let mut s = Stream::new();
    s.feed(b"/a");
    let mut len: usize = 0;
    assert!(matches!(route.find(&mut s, &Method::Get, &mut len), Ok(Pulled::NeedInput)));
}

#[test]
fn route_paths_are_case_sensitive() {
    let route = sample_route();
    let mut s = Stream::new();
    s.feed(b"/A ");
    let mut len: usize = 0;
    assert!(matches!(route.find(&mut s, &Method::Get, &mut len), Err(Error::NoMatch)));
}
