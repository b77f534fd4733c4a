use mj_dom::navigation::{
    dispatch, route, FetchRequest, MjCliArgs, MjProtocolHandlerState, MjWebViewMessage, NavigateTo,
    WebviewAction,
};

#[test]
fn file_urls_are_read_from_disk() {
    match dispatch(NavigateTo("file:///tmp/page.html".to_string())) {
        Some(FetchRequest::File(f)) => assert_eq!(f.url, "file:///tmp/page.html"),
        _ => panic!("expected a file fetch"),
    }
}

#[test]
fn other_schemes_go_over_the_network() {
    match dispatch(NavigateTo("https://example.org/".to_string())) {
        Some(FetchRequest::Http(h)) => assert_eq!(h.url, "https://example.org/"),
        _ => panic!("expected a network fetch"),
    }
}

#[test]
fn text_that_is_no_url_is_refused() {
    assert!(dispatch(NavigateTo("not a url".to_string())).is_none());
}

#[test]
fn scheme_decides_the_route() {
    assert!(matches!(route("x".to_string(), Some("file".to_string())), Some(FetchRequest::File(_))));
    assert!(matches!(route("x".to_string(), Some("ftp".to_string())), Some(FetchRequest::Http(_))));
    assert!(route("x".to_string(), None).is_none());
}

#[test]
fn command_line_url_becomes_the_navigation() {
    let nav = MjCliArgs { url: "file:///a.html".to_string() }.navigation();
    assert_eq!(nav.0, "file:///a.html");
}

#[test]
fn stale_fetch_results_are_ignored() {
    let mut state = MjProtocolHandlerState::new();
    let first = match state.handle(MjWebViewMessage::Navigate(NavigateTo("file:///one.html".to_string()))) {
        WebviewAction::Fetch { navigation, .. } => navigation,
        _ => panic!("expected a fetch"),
    };
    let second = match state.handle(MjWebViewMessage::Navigate(NavigateTo("https://two.example/".to_string()))) {
        WebviewAction::Fetch { navigation, .. } => navigation,
        _ => panic!("expected a fetch"),
    };
    assert_eq!(first, 0);
    assert_eq!(second, 1);
    assert!(matches!(
        state.handle(MjWebViewMessage::Fetched { navigation: first, content: "old".to_string() }),
        WebviewAction::Ignore
    ));
    match state.handle(MjWebViewMessage::Fetched { navigation: second, content: "<p>new</p>".to_string() }) {
        WebviewAction::StartParse(text) => assert_eq!(text, "<p>new</p>"),
        _ => panic!("expected parsing to start"),
    }
    assert!(state.in_flight.is_none());
    assert!(matches!(state.handle(MjWebViewMessage::FetchFailed { navigation: second }), WebviewAction::Ignore));
}

#[test]
fn invalid_navigation_keeps_the_pending_fetch() {
    let mut state = MjProtocolHandlerState::new();
    state.handle(MjWebViewMessage::Navigate(NavigateTo("file:///one.html".to_string())));
    assert!(matches!(state.handle(MjWebViewMessage::Navigate(NavigateTo("::".to_string()))), WebviewAction::ReportInvalidUrl));
    assert_eq!(state.in_flight, Some(0));
    assert!(matches!(state.handle(MjWebViewMessage::FetchFailed { navigation: 0 }), WebviewAction::ReportFetchFailed));
}
