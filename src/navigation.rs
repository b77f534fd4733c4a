use vstd::prelude::*;

verus! {

/// A request to show the document at a URL.
pub struct NavigateTo(pub String);

/// The command line of the browser: the URL to open.
pub struct MjCliArgs {
    pub url: String,
}

/// A fetch of a `file:` URL.
pub struct MjFileProtocolHandler {
    pub url: String,
}

/// A fetch over the network, for every scheme but `file`.
pub struct MjHttpProtocolHandler {
    pub url: String,
}

/// How the content of a URL is to be fetched.
pub enum FetchRequest {
    File(MjFileProtocolHandler),
    Http(MjHttpProtocolHandler),
}

/// The scheme of a URL, as the `url` crate parses it; none where it does
/// not parse.
pub uninterp spec fn parsed_scheme(s: Seq<char>) -> Option<Seq<char>>;

/// Relies on `url::Url::parse` and `Url::scheme`: the scheme of the URL,
/// where the text parses as one.
#[verifier::external_body]
fn url_scheme(s: &str) -> (r: Option<String>)
    ensures
        match r {
            Some(sc) => parsed_scheme(s@) == Some(sc@),
            None => parsed_scheme(s@) is None,
        },
{
    match url::Url::parse(s) {
        Ok(u) => Some(u.scheme().to_string()),
        Err(_) => None,
    }
}

/// The request for `url`, given its parsed scheme.
pub open spec fn route_spec(url: Seq<char>, scheme: Option<Seq<char>>) -> Option<(bool, Seq<char>)> {
    match scheme {
        None => None,
        Some(sc) => Some((sc == "file"@, url)),
    }
}

pub open spec fn request_view(r: Option<FetchRequest>) -> Option<(bool, Seq<char>)> {
    match r {
        None => None,
        Some(FetchRequest::File(f)) => Some((true, f.url@)),
        Some(FetchRequest::Http(h)) => Some((false, h.url@)),
    }
}

/// Chooses how to fetch `url` from its scheme: `file` reads a file, any
/// other scheme goes over the network, and a URL that did not parse is
/// refused.
pub fn route(url: String, scheme: Option<String>) -> (r: Option<FetchRequest>)
    ensures
        request_view(r) == route_spec(
            url@,
            match scheme {
                Some(s) => Some(s@),
                None => None,
            },
        ),
{
    match scheme {
        None => None,
        Some(sc) => {
            proof {
                reveal_strlit("file");
            }
            if crate::node::same_chars(sc.as_str(), "file") {
                Some(FetchRequest::File(MjFileProtocolHandler { url }))
            } else {
                Some(FetchRequest::Http(MjHttpProtocolHandler { url }))
            }
        },
    }
}

/// Chooses how to fetch the target of a navigation.
pub fn dispatch(nav: NavigateTo) -> (r: Option<FetchRequest>)
    ensures
        request_view(r) == route_spec(nav.0@, parsed_scheme(nav.0@)),
{
    let scheme = url_scheme(nav.0.as_str());
    route(nav.0, scheme)
}

impl MjCliArgs {
    /// The navigation that the command line asks for.
    pub fn navigation(self) -> (r: NavigateTo)
        ensures
            r.0@ == self.url@,
    {
        NavigateTo(self.url)
    }
}

/// What a webview hears: a navigation, or how the fetch of one ended.
pub enum MjWebViewMessage {
    Navigate(NavigateTo),
    Fetched { navigation: u64, content: String },
    FetchFailed { navigation: u64 },
}

/// What the webview's owner is to do next.
pub enum WebviewAction {
    /// Fetch, for the navigation with this number.
    Fetch { navigation: u64, request: FetchRequest },
    /// Build a new document from the fetched text.
    StartParse(String),
    /// The URL did not parse.
    ReportInvalidUrl,
    /// The fetch of the current navigation failed.
    ReportFetchFailed,
    /// The message belongs to a navigation that was left; nothing to do.
    Ignore,
}

/// The fetch that a webview waits for. A new navigation replaces it, so the
/// outcome of a fetch that was left behind is ignored.
pub struct MjProtocolHandlerState {
    pub in_flight: Option<u64>,
    pub next_navigation: u64,
}

impl MjProtocolHandlerState {
    pub fn new() -> (r: MjProtocolHandlerState)
        ensures
            r.in_flight is None,
            r.next_navigation == 0,
    {
        MjProtocolHandlerState { in_flight: None, next_navigation: 0 }
    }

    /// Decides what a message leads to.
    pub fn handle(&mut self, msg: MjWebViewMessage) -> (r: WebviewAction)
        requires
            old(self).next_navigation < u64::MAX,
        ensures
            match msg {
                MjWebViewMessage::Navigate(nav) => match route_spec(nav.0@, parsed_scheme(nav.0@)) {
                    Some(req) => {
                        &&& r matches WebviewAction::Fetch { navigation, request }
                        &&& navigation == old(self).next_navigation
                        &&& request_view(Some(request)) == Some(req)
                        &&& final(self).in_flight == Some(old(self).next_navigation)
                        &&& final(self).next_navigation == old(self).next_navigation + 1
                    },
                    None => {
                        &&& r is ReportInvalidUrl
                        &&& *final(self) == *old(self)
                    },
                },
                MjWebViewMessage::Fetched { navigation, content } => if old(self).in_flight == Some(
                    navigation,
                ) {
                    &&& r matches WebviewAction::StartParse(text)
                    &&& text@ == content@
                    &&& final(self).in_flight is None
                    &&& final(self).next_navigation == old(self).next_navigation
                } else {
                    &&& r is Ignore
                    &&& *final(self) == *old(self)
                },
                MjWebViewMessage::FetchFailed { navigation } => if old(self).in_flight == Some(
                    navigation,
                ) {
                    &&& r is ReportFetchFailed
                    &&& final(self).in_flight is None
                    &&& final(self).next_navigation == old(self).next_navigation
                } else {
                    &&& r is Ignore
                    &&& *final(self) == *old(self)
                },
            },
    {
        match msg {
            MjWebViewMessage::Navigate(nav) => match dispatch(nav) {
                Some(request) => {
                    let navigation = self.next_navigation;
                    self.in_flight = Some(navigation);
                    self.next_navigation = navigation + 1;
                    WebviewAction::Fetch { navigation, request }
                },
                None => WebviewAction::ReportInvalidUrl,
            },
            MjWebViewMessage::Fetched { navigation, content } => {
                if self.in_flight == Some(navigation) {
                    self.in_flight = None;
                    WebviewAction::StartParse(content)
                } else {
                    WebviewAction::Ignore
                }
            },
            MjWebViewMessage::FetchFailed { navigation } => {
                if self.in_flight == Some(navigation) {
                    self.in_flight = None;
                    WebviewAction::ReportFetchFailed
                } else {
                    WebviewAction::Ignore
                }
            },
        }
    }
}

} // verus!
