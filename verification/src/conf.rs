//! Typed virtual-host configuration.
//!
//! A configuration is an ordered list of virtual-host entries. Each entry
//! names its hosts and aliases, may claim the default-host role, carries a
//! handler configuration, and maps sub-path rules to overriding handler
//! configurations. A sub-path rule whose last segment is `*` is a prefix
//! rule; any other rule requires full path equality.

use vstd::prelude::*;

use crate::segments::{segments_of, view_segs};

verus! {

/// Converts a handler configuration into a live downstream handler; the
/// conversion may fail, and a failure aborts table compilation.
pub trait TryIntoHandler {
    /// The live handler produced from this configuration.
    type Handler;

    /// The conversion failure carried out of compilation.
    type Error;

    /// Builds the handler this configuration describes.
    fn try_into_handler(&self) -> Result<Self::Handler, Self::Error>;
}

/// One sub-path override under a virtual host.
pub struct SubPathEntry<C> {
    /// The configured rule text, e.g. `/subdir/*`.
    pub rule: Vec<u8>,
    /// Whether a prefix match rewrites the path by dropping the prefix.
    pub strip_prefix: bool,
    /// Handler configuration for requests this rule captures.
    pub config: C,
}

/// One configured virtual host.
pub struct VirtualHostEntry<C> {
    /// Host names and aliases; empty names are rejected with a warning.
    pub hosts: Vec<Vec<u8>>,
    /// Whether this host also serves requests whose host matches nothing.
    pub default: bool,
    /// Handler configuration for the host itself.
    pub config: C,
    /// Sub-path overrides, in configuration order.
    pub subpaths: Vec<SubPathEntry<C>>,
}

/// A whole virtual-hosts configuration, in declaration order.
pub struct VirtualHostsConf<C> {
    /// The configured virtual hosts.
    pub vhosts: Vec<VirtualHostEntry<C>>,
}

/// Model of one sub-path override: its raw rule text and strip flag.
pub ghost struct SubRuleModel {
    pub key: Seq<u8>,
    pub strip_prefix: bool,
}

/// Model of one virtual-host entry.
pub ghost struct GroupModel {
    pub hosts: Seq<Seq<u8>>,
    pub is_default: bool,
    pub subpaths: Seq<SubRuleModel>,
}

impl<C> View for SubPathEntry<C> {
    type V = SubRuleModel;

    open spec fn view(&self) -> SubRuleModel {
        SubRuleModel { key: self.rule@, strip_prefix: self.strip_prefix }
    }
}

impl<C> View for VirtualHostEntry<C> {
    type V = GroupModel;

    open spec fn view(&self) -> GroupModel {
        GroupModel {
            hosts: view_segs(self.hosts@),
            is_default: self.default,
            subpaths: Seq::new(self.subpaths@.len(), |i: int| self.subpaths@[i]@),
        }
    }
}

impl<C> View for VirtualHostsConf<C> {
    type V = Seq<GroupModel>;

    open spec fn view(&self) -> Seq<GroupModel> {
        Seq::new(self.vhosts@.len(), |i: int| self.vhosts@[i]@)
    }
}

/// The wildcard segment `*` that marks a prefix rule.
pub open spec fn star_seg() -> Seq<u8> {
    seq![42u8]
}

/// The path segments a rule text stands for, the wildcard marker excluded.
pub open spec fn rule_segments(key: Seq<u8>) -> Seq<Seq<u8>> {
    let s = segments_of(key);
    if s.len() > 0 && s.last() == star_seg() {
        s.drop_last()
    } else {
        s
    }
}

/// Whether a rule text demands full path equality (no wildcard marker).
pub open spec fn rule_exact(key: Seq<u8>) -> bool {
    let s = segments_of(key);
    !(s.len() > 0 && s.last() == star_seg())
}

/// A sub-path rule in canonical form: its segments and its exact flag.
pub struct PathRule {
    /// The path segments the rule matches against.
    pub segments: Vec<Vec<u8>>,
    /// Whether the whole path must equal the segments, rather than start
    /// with them.
    pub exact: bool,
}

/// Normalizes a configured rule text: a rule whose last segment is `*`
/// matches any path starting with the preceding segments; any other rule
/// matches exactly its own segments.
pub fn normalize_rule(key: &[u8]) -> (r: PathRule)
    ensures
        view_segs(r.segments@) == rule_segments(key@),
        r.exact == rule_exact(key@),
{
    let mut segs = crate::segments::split_segments(key);
    let mut exact = true;
    if segs.len() > 0 {
        let last = &segs[segs.len() - 1];
        if last.len() == 1 && last[0] == 42 {
            exact = false;
        }
        proof {
            let sv = view_segs(segs@);
            assert(sv.last() == segs@[segs@.len() - 1]@);
            if last@.len() == 1 && last@[0] == 42 {
                assert(last@ =~= star_seg());
            }
            if sv.last() == star_seg() {
                assert(last@ == star_seg());
                assert(last@[0] == 42 && last@.len() == 1);
            }
        }
    }
    if !exact {
        segs.pop();
        proof {
            assert(view_segs(segs@) =~= rule_segments(key@));
        }
    }
    PathRule { segments: segs, exact }
}

/// A non-fatal finding of table compilation, in the order the compiler came
/// across them.
#[derive(Clone, Copy, Debug, PartialEq, Eq, Structural)]
pub enum CompileWarning {
    /// The entry at `group` claims the default-host role although an
    /// earlier entry already holds it; the claim is ignored.
    DuplicateDefault { group: usize },
    /// The host name at position `pos` of the entry at `group` is empty and
    /// is dropped; the default-host role is claimed by the flag instead.
    EmptyHostName { group: usize, pos: usize },
    /// The host name at position `pos` of the entry at `group` repeats an
    /// earlier name of the same entry and is dropped.
    DuplicateAlias { group: usize, pos: usize },
}

} // verus!
