use virtual_hosts::conf::{SubPathEntry, TryIntoHandler, VirtualHostEntry, VirtualHostsConf};
use virtual_hosts::dispatch::{Session, VirtualHostsCtx};
use virtual_hosts::table::VirtualHostsHandler;

#[derive(Debug, Clone, Copy, PartialEq, Eq)]
enum RequestFilterResult {
    Unhandled,
    Handled,
    ResponseSent,
}

#[derive(Debug, Clone, Copy, PartialEq, Eq)]
struct Conf {
    result: RequestFilterResult,
}

#[derive(Debug, Clone, Copy, PartialEq, Eq)]
struct Handler {
    result: RequestFilterResult,
}

impl TryIntoHandler for Conf {
    type Handler = Handler;
    type Error = String;

    fn try_into_handler(&self) -> Result<Handler, String> {
        Ok(Handler { result: self.result })
    }
}

fn sub(rule: &str, strip_prefix: bool, result: RequestFilterResult) -> SubPathEntry<Conf> {
    SubPathEntry {
        rule: rule.as_bytes().to_vec(),
        strip_prefix,
        config: Conf { result },
    }
}

fn vhost(
    hosts: &[&str],
    default: bool,
    result: RequestFilterResult,
    subpaths: Vec<SubPathEntry<Conf>>,
) -> VirtualHostEntry<Conf> {
    VirtualHostEntry {
        hosts: hosts.iter().map(|h| h.as_bytes().to_vec()).collect(),
        default,
        config: Conf { result },
        subpaths,
    }
}

fn handler(add_default: bool) -> (VirtualHostsHandler<Handler>, VirtualHostsCtx<()>) {
    let conf = VirtualHostsConf {
        vhosts: vec![
            vhost(
                &["localhost:8080", "127.0.0.1:8080", "[::1]:8080"],
                add_default,
                RequestFilterResult::ResponseSent,
                vec![
                    sub("/subdir/*", true, RequestFilterResult::Unhandled),
                    sub("/subdir/file.txt", false, RequestFilterResult::ResponseSent),
                    sub("/subdir/subsub/*", false, RequestFilterResult::Handled),
                ],
            ),
            vhost(
                &["example.com", "example.com:8080"],
                false,
                RequestFilterResult::Handled,
                vec![],
            ),
            vhost(&["example.info"], false, RequestFilterResult::Handled, vec![]),
        ],
    };
    let (h, _warnings) = VirtualHostsHandler::compile(&conf).ok().unwrap();
    (h, VirtualHostsCtx::new_ctx(()))
}

/// Resolves the session state as the surrounding transport would: the Host
/// header when present, the URI authority otherwise.
fn make_session(uri: &str, host: Option<&str>) -> Session {
    let (authority, path) = match uri.find("://") {
        Some(i) => {
            let rest = &uri[i + 3..];
            match rest.find('/') {
                Some(j) => (Some(&rest[..j]), &rest[j..]),
                None => (Some(rest), ""),
            }
        }
        None => (None, uri),
    };
    let resolved = host.or(authority).unwrap_or("");
    Session {
        host: resolved.as_bytes().to_vec(),
        path_and_query: path.as_bytes().to_vec(),
        token: None,
    }
}

fn run_filter(
    h: &VirtualHostsHandler<Handler>,
    session: &mut Session,
    ctx: &mut VirtualHostsCtx<()>,
) -> RequestFilterResult {
    match h.request_filter(session, ctx) {
        Some(inner) => inner.result,
        None => RequestFilterResult::Unhandled,
    }
}

#[test]
fn host_match() {
    let (handler, mut ctx) = handler(true);
    let mut session = make_session("/", Some("example.com"));
    assert_eq!(
        run_filter(&handler, &mut session, &mut ctx),
        RequestFilterResult::Handled
    );
}

#[test]
fn host_alias_match() {
    let (handler, mut ctx) = handler(false);
    let mut session = make_session("/", Some("[::1]:8080"));
    assert_eq!(
        run_filter(&handler, &mut session, &mut ctx),
        RequestFilterResult::ResponseSent
    );
}

#[test]
fn uri_match() {
    let (handler, mut ctx) = handler(false);
    let mut session = make_session("https://example.com/", None);
    assert_eq!(
        run_filter(&handler, &mut session, &mut ctx),
        RequestFilterResult::Handled
    );
}

#[test]
fn uri_alias_match() {
    let (handler, mut ctx) = handler(false);
    let mut session = make_session("http://[::1]:8080/", None);
    assert_eq!(
        run_filter(&handler, &mut session, &mut ctx),
        RequestFilterResult::ResponseSent
    );
}

#[test]
fn host_precedence() {
    let (handler, mut ctx) = handler(false);
    let mut session = make_session("https://localhost:8080/", Some("example.com"));
    assert_eq!(
        run_filter(&handler, &mut session, &mut ctx),
        RequestFilterResult::Handled
    );
}

#[test]
fn default_fallback() {
    let (handler, mut ctx) = handler(true);
    let mut session = make_session("/", Some("example.net"));
    assert_eq!(
        run_filter(&handler, &mut session, &mut ctx),
        RequestFilterResult::ResponseSent
    );
}

#[test]
fn no_default_fallback() {
    let (handler, mut ctx) = handler(false);
    let mut session = make_session("/", Some("example.net"));
    assert_eq!(
        run_filter(&handler, &mut session, &mut ctx),
        RequestFilterResult::Unhandled
    );
}

#[test]
fn subdir_match() {
    let (handler, mut ctx) = handler(true);
    let mut session = make_session("/subdir/", Some("localhost:8080"));
    let original = session.path_and_query.clone();
    assert_eq!(
        run_filter(&handler, &mut session, &mut ctx),
        RequestFilterResult::Unhandled
    );
    assert_eq!(session.path_and_query, b"/".to_vec());
    assert_eq!(original, b"/subdir/".to_vec());
}

#[test]
fn subdir_match_without_slash() {
    let (handler, mut ctx) = handler(true);
    let mut session = make_session("/subdir", Some("localhost:8080"));
    let original = session.path_and_query.clone();
    assert_eq!(
        run_filter(&handler, &mut session, &mut ctx),
        RequestFilterResult::Unhandled
    );
    assert_eq!(session.path_and_query, b"/".to_vec());
    assert_eq!(original, b"/subdir".to_vec());
}

#[test]
fn subdir_match_with_suffix() {
    let (handler, mut ctx) = handler(true);
    let mut session = make_session("/subdir/xyz?abc", Some("localhost:8080"));
    let original = session.path_and_query.clone();
    assert_eq!(
        run_filter(&handler, &mut session, &mut ctx),
        RequestFilterResult::Unhandled
    );
    assert_eq!(session.path_and_query, b"/xyz?abc".to_vec());
    assert_eq!(original, b"/subdir/xyz?abc".to_vec());
}

#[test]
fn subdir_match_extra_slashes() {
    let (handler, mut ctx) = handler(true);
    let mut session = make_session("//subdir///xyz//", Some("localhost:8080"));
    let original = session.path_and_query.clone();
    assert_eq!(
        run_filter(&handler, &mut session, &mut ctx),
        RequestFilterResult::Unhandled
    );
    assert_eq!(session.path_and_query, b"///xyz//".to_vec());
    assert_eq!(original, b"//subdir///xyz//".to_vec());
}

#[test]
fn subdir_no_match() {
    let (handler, mut ctx) = handler(true);
    let mut session = make_session("/subdir_xyz", Some("localhost:8080"));
    assert_eq!(
        run_filter(&handler, &mut session, &mut ctx),
        RequestFilterResult::ResponseSent
    );
    assert_eq!(session.path_and_query, b"/subdir_xyz".to_vec());
}

#[test]
fn subdir_longer_match() {
    let (handler, mut ctx) = handler(true);
    let mut session = make_session("/subdir/subsub/xyz", Some("localhost:8080"));
    assert_eq!(
        run_filter(&handler, &mut session, &mut ctx),
        RequestFilterResult::Handled
    );
    assert_eq!(session.path_and_query, b"/subdir/subsub/xyz".to_vec());
}

#[test]
fn subdir_alias_match() {
    let (handler, mut ctx) = handler(false);
    let mut session = make_session("/subdir/xyz?abc", Some("127.0.0.1:8080"));
    let original = session.path_and_query.clone();
    assert_eq!(
        run_filter(&handler, &mut session, &mut ctx),
        RequestFilterResult::Unhandled
    );
    assert_eq!(session.path_and_query, b"/xyz?abc".to_vec());
    assert_eq!(original, b"/subdir/xyz?abc".to_vec());
}

#[test]
fn subdir_default_match() {
    let (handler, mut ctx) = handler(true);
    let mut session = make_session("/subdir/xyz?abc", Some("unknown"));
    let original = session.path_and_query.clone();
    assert_eq!(
        run_filter(&handler, &mut session, &mut ctx),
        RequestFilterResult::Unhandled
    );
    assert_eq!(session.path_and_query, b"/xyz?abc".to_vec());
    assert_eq!(original, b"/subdir/xyz?abc".to_vec());
}

#[test]
fn subpath_exact_match() {
    let (handler, mut ctx) = handler(true);
    let mut session = make_session("/subdir/file.txt", Some("localhost:8080"));
    assert_eq!(
        run_filter(&handler, &mut session, &mut ctx),
        RequestFilterResult::ResponseSent
    );
    assert_eq!(session.path_and_query, b"/subdir/file.txt".to_vec());
}

#[test]
fn subpath_exact_match_trailing_slash() {
    let (handler, mut ctx) = handler(true);
    let mut session = make_session("/subdir/file.txt/", Some("localhost:8080"));
    assert_eq!(
        run_filter(&handler, &mut session, &mut ctx),
        RequestFilterResult::ResponseSent
    );
    assert_eq!(session.path_and_query, b"/subdir/file.txt/".to_vec());
}

#[test]
fn subpath_exact_match_with_suffix() {
    let (handler, mut ctx) = handler(true);
    let mut session = make_session("/subdir/file.txt/xyz", Some("localhost:8080"));
    let original = session.path_and_query.clone();
    assert_eq!(
        run_filter(&handler, &mut session, &mut ctx),
        RequestFilterResult::Unhandled
    );
    assert_eq!(session.path_and_query, b"/file.txt/xyz".to_vec());
    assert_eq!(original, b"/subdir/file.txt/xyz".to_vec());
}
