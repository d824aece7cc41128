use virtual_hosts::conf::{
    CompileWarning, SubPathEntry, TryIntoHandler, VirtualHostEntry, VirtualHostsConf,
};
use virtual_hosts::dispatch::{Session, VirtualHostsCtx};
use virtual_hosts::table::VirtualHostsHandler;

#[derive(Debug, Clone, Copy, PartialEq, Eq)]
struct Conf {
    tag: u32,
}

#[derive(Debug, Clone, Copy, PartialEq, Eq)]
struct Handler {
    tag: u32,
}

impl TryIntoHandler for Conf {
    type Handler = Handler;
    type Error = String;

    fn try_into_handler(&self) -> Result<Handler, String> {
        if self.tag == 999 {
            Err(String::from("conversion refused"))
        } else {
            Ok(Handler { tag: self.tag })
        }
    }
}

fn vhost(hosts: &[&str], default: bool, tag: u32) -> VirtualHostEntry<Conf> {
    VirtualHostEntry {
        hosts: hosts.iter().map(|h| h.as_bytes().to_vec()).collect(),
        default,
        config: Conf { tag },
        subpaths: vec![],
    }
}

fn session(host: &str, pq: &str) -> Session {
    Session {
        host: host.as_bytes().to_vec(),
        path_and_query: pq.as_bytes().to_vec(),
        token: None,
    }
}

#[test]
fn duplicate_default_observable() {
    let conf = VirtualHostsConf {
        vhosts: vec![
            vhost(&["first.example"], true, 1),
            vhost(&["second.example"], true, 2),
        ],
    };
    let (handler, warnings) = VirtualHostsHandler::compile(&conf).ok().unwrap();
    assert_eq!(warnings, vec![CompileWarning::DuplicateDefault { group: 1 }]);
    // the fallback serves the first-declared default
    let mut ctx = VirtualHostsCtx::new_ctx(());
    let mut s = session("unknown.example", "/");
    let inner = handler.request_filter(&mut s, &mut ctx).unwrap();
    assert_eq!(inner.tag, 1);
    // the second host still serves its own name
    let mut ctx2 = VirtualHostsCtx::new_ctx(());
    let mut s2 = session("second.example", "/");
    let inner2 = handler.request_filter(&mut s2, &mut ctx2).unwrap();
    assert_eq!(inner2.tag, 2);
}

#[test]
fn empty_host_name_warned_and_dropped() {
    let conf = VirtualHostsConf {
        vhosts: vec![vhost(&["a.example", "", "b.example"], false, 7)],
    };
    let (handler, warnings) = VirtualHostsHandler::compile(&conf).ok().unwrap();
    assert_eq!(
        warnings,
        vec![CompileWarning::EmptyHostName { group: 0, pos: 1 }]
    );
    // the empty name registers nothing: no default-host fallback appears
    let mut ctx = VirtualHostsCtx::new_ctx(());
    let mut s = session("unknown.example", "/");
    assert!(handler.request_filter(&mut s, &mut ctx).is_none());
    let mut ctx2 = VirtualHostsCtx::new_ctx(());
    let mut s2 = session("b.example", "/");
    assert_eq!(handler.request_filter(&mut s2, &mut ctx2).unwrap().tag, 7);
}

#[test]
fn duplicate_alias_warned_and_dropped() {
    let conf = VirtualHostsConf {
        vhosts: vec![vhost(&["a.example", "b.example", "a.example"], false, 7)],
    };
    let (handler, warnings) = VirtualHostsHandler::compile(&conf).ok().unwrap();
    assert_eq!(
        warnings,
        vec![CompileWarning::DuplicateAlias { group: 0, pos: 2 }]
    );
    let mut ctx = VirtualHostsCtx::new_ctx(());
    let mut s = session("a.example", "/");
    assert_eq!(handler.request_filter(&mut s, &mut ctx).unwrap().tag, 7);
}

#[test]
fn conversion_failure_aborts_compilation() {
    let conf = VirtualHostsConf {
        vhosts: vec![vhost(&["a.example"], false, 1), vhost(&["b.example"], false, 999)],
    };
    let r = VirtualHostsHandler::compile(&conf);
    assert_eq!(r.err().unwrap(), String::from("conversion refused"));
}

#[test]
fn subpath_conversion_failure_aborts_compilation() {
    let mut entry = vhost(&["a.example"], false, 1);
    entry.subpaths.push(SubPathEntry {
        rule: b"/x/*".to_vec(),
        strip_prefix: false,
        config: Conf { tag: 999 },
    });
    let conf = VirtualHostsConf { vhosts: vec![entry] };
    let r = VirtualHostsHandler::compile(&conf);
    assert_eq!(r.err().unwrap(), String::from("conversion refused"));
}

#[test]
fn token_recovers_selection_without_context() {
    let conf = VirtualHostsConf {
        vhosts: vec![vhost(&["a.example"], false, 1), vhost(&["b.example"], false, 2)],
    };
    let (handler, _) = VirtualHostsHandler::compile(&conf).ok().unwrap();
    let mut ctx = VirtualHostsCtx::new_ctx(());
    let mut s = session("b.example", "/");
    assert_eq!(handler.request_filter(&mut s, &mut ctx).unwrap().tag, 2);
    // the context is intentionally cleared: only the session token is left
    ctx.index = None;
    let recovered = handler.response_filter::<()>(&s, None).unwrap();
    assert_eq!(recovered.tag, 2);
    let recovered2 = handler.response_filter(&s, Some(&ctx)).unwrap();
    assert_eq!(recovered2.tag, 2);
    let recovered3 = handler.upstream_peer(&s, &ctx).unwrap();
    assert_eq!(recovered3.tag, 2);
    let recovered4 = handler.logging(&s, &ctx).unwrap();
    assert_eq!(recovered4.tag, 2);
}

#[test]
fn context_index_outranks_token() {
    let conf = VirtualHostsConf {
        vhosts: vec![vhost(&["a.example"], false, 1), vhost(&["b.example"], false, 2)],
    };
    let (handler, _) = VirtualHostsHandler::compile(&conf).ok().unwrap();
    let mut ctx = VirtualHostsCtx::new_ctx(());
    let mut s = session("a.example", "/");
    assert_eq!(handler.request_filter(&mut s, &mut ctx).unwrap().tag, 1);
    // a later phase prefers the context index over a diverging token
    s.token = Some(usize::MAX);
    assert_eq!(handler.upstream_peer(&s, &ctx).unwrap().tag, 1);
}

#[test]
fn nothing_recovered_before_selection() {
    let conf = VirtualHostsConf { vhosts: vec![vhost(&["a.example"], false, 1)] };
    let (handler, _) = VirtualHostsHandler::compile(&conf).ok().unwrap();
    let ctx: VirtualHostsCtx<()> = VirtualHostsCtx::new_ctx(());
    let s = session("a.example", "/");
    assert!(handler.as_inner(&ctx).is_none());
    assert!(handler.upstream_peer(&s, &ctx).is_none());
    assert!(handler.response_filter(&s, Some(&ctx)).is_none());
    assert!(handler.response_filter::<()>(&s, None).is_none());
    assert!(handler.logging(&s, &ctx).is_none());
}

#[test]
fn stale_token_degrades_to_noop() {
    let conf = VirtualHostsConf { vhosts: vec![vhost(&["a.example"], false, 1)] };
    let (handler, _) = VirtualHostsHandler::compile(&conf).ok().unwrap();
    let ctx: VirtualHostsCtx<()> = VirtualHostsCtx::new_ctx(());
    let mut s = session("a.example", "/");
    s.token = Some(1000);
    assert!(handler.upstream_peer(&s, &ctx).is_none());
    assert!(handler.retrieve(1000).is_none());
}

#[test]
fn as_inner_returns_selected_handler() {
    let conf = VirtualHostsConf {
        vhosts: vec![vhost(&["a.example"], false, 1), vhost(&["b.example"], false, 2)],
    };
    let (handler, _) = VirtualHostsHandler::compile(&conf).ok().unwrap();
    let mut ctx = VirtualHostsCtx::new_ctx(());
    let mut s = session("b.example", "/");
    handler.request_filter(&mut s, &mut ctx);
    assert_eq!(handler.as_inner(&ctx).unwrap().tag, 2);
}

#[test]
fn selection_unmodified_on_miss() {
    let conf = VirtualHostsConf { vhosts: vec![vhost(&["a.example"], false, 1)] };
    let (handler, _) = VirtualHostsHandler::compile(&conf).ok().unwrap();
    let mut ctx = VirtualHostsCtx::new_ctx(());
    let mut s = session("other.example", "/x?q");
    assert!(handler.request_filter(&mut s, &mut ctx).is_none());
    assert_eq!(s.path_and_query, b"/x?q".to_vec());
    assert!(s.token.is_none());
    assert!(ctx.index.is_none());
}

#[test]
fn strip_marker_ignored_on_exact_rule() {
    // a strip request on an exact rule does not rewrite the path: only
    // prefix rules carry the strip marker
    let mut entry = vhost(&["a.example"], false, 1);
    entry.subpaths.push(SubPathEntry {
        rule: b"/file.txt".to_vec(),
        strip_prefix: true,
        config: Conf { tag: 5 },
    });
    let conf = VirtualHostsConf { vhosts: vec![entry] };
    let (handler, _) = VirtualHostsHandler::compile(&conf).ok().unwrap();
    let mut ctx = VirtualHostsCtx::new_ctx(());
    let mut s = session("a.example", "/file.txt");
    assert_eq!(handler.request_filter(&mut s, &mut ctx).unwrap().tag, 5);
    assert_eq!(s.path_and_query, b"/file.txt".to_vec());
}

#[test]
fn root_wildcard_rule_strips_nothing_but_leading_segments() {
    // a bare "/*" rule matches everything; stripping zero segments keeps
    // the path, and an empty path becomes "/"
    let mut entry = vhost(&["a.example"], false, 1);
    entry.subpaths.push(SubPathEntry {
        rule: b"/*".to_vec(),
        strip_prefix: true,
        config: Conf { tag: 5 },
    });
    let conf = VirtualHostsConf { vhosts: vec![entry] };
    let (handler, _) = VirtualHostsHandler::compile(&conf).ok().unwrap();
    let mut ctx = VirtualHostsCtx::new_ctx(());
    let mut s = session("a.example", "/abc");
    assert_eq!(handler.request_filter(&mut s, &mut ctx).unwrap().tag, 5);
    assert_eq!(s.path_and_query, b"/abc".to_vec());
    let mut ctx2 = VirtualHostsCtx::new_ctx(());
    let mut s2 = session("a.example", "");
    assert_eq!(handler.request_filter(&mut s2, &mut ctx2).unwrap().tag, 5);
    assert_eq!(s2.path_and_query, b"/".to_vec());
}

#[test]
fn later_entry_overrides_on_identical_key() {
    // two entries registering the same host: the later root entry wins for
    // lookup, while both stay retrievable by index
    let conf = VirtualHostsConf {
        vhosts: vec![vhost(&["a.example"], false, 1), vhost(&["a.example"], false, 2)],
    };
    let (handler, _) = VirtualHostsHandler::compile(&conf).ok().unwrap();
    let mut ctx = VirtualHostsCtx::new_ctx(());
    let mut s = session("a.example", "/");
    assert_eq!(handler.request_filter(&mut s, &mut ctx).unwrap().tag, 2);
    assert_eq!(handler.retrieve(0).unwrap().tag, 1);
    assert_eq!(handler.retrieve(1).unwrap().tag, 2);
}
