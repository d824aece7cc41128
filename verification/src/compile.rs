//! Table compilation.
//!
//! Compilation walks the configured virtual hosts in declaration order and
//! flattens them into routing entries. For each host entry it converts the
//! handler configuration once, collects the ordered unique host names (with
//! the empty sentinel name first when the entry holds the default-host
//! role), registers one catch-all root entry per name, and then registers
//! the sub-path rules — all prefix rules before all exact rules, each
//! otherwise in configuration order, so that an exact rule overrides a
//! prefix rule that collides with it on the same key. Any conversion
//! failure aborts compilation; empty host names, repeated host names and a
//! second default-host claim are dropped with a warning instead.

use vstd::prelude::*;

use crate::conf::{
    rule_exact, rule_segments, CompileWarning, GroupModel, SubRuleModel, TryIntoHandler,
    VirtualHostEntry, VirtualHostsConf,
};
use crate::segments::view_segs;
use crate::table::{entry_seq, EntryModel, TableEntry, VirtualHostsHandler};

verus! {

/// The configured host names with empty names and repetitions dropped,
/// first occurrences kept in order.
pub open spec fn clean_names(hosts: Seq<Seq<u8>>) -> Seq<Seq<u8>>
    decreases hosts.len(),
{
    if hosts.len() == 0 {
        Seq::empty()
    } else {
        let prev = clean_names(hosts.drop_last());
        let h = hosts.last();
        if h.len() == 0 || prev.contains(h) {
            prev
        } else {
            prev.push(h)
        }
    }
}

/// The names a host entry's routing entries are registered under: the empty
/// default-host sentinel first if the entry takes the default role, then
/// its cleaned host names.
pub open spec fn group_names(hosts: Seq<Seq<u8>>, take_default: bool) -> Seq<Seq<u8>> {
    if take_default {
        seq![Seq::<u8>::empty()] + clean_names(hosts)
    } else {
        clean_names(hosts)
    }
}

/// The sub-path rules whose exactness is `want_exact`, in configuration
/// order.
pub open spec fn filter_subs(sps: Seq<SubRuleModel>, want_exact: bool) -> Seq<SubRuleModel>
    decreases sps.len(),
{
    if sps.len() == 0 {
        Seq::empty()
    } else {
        let prev = filter_subs(sps.drop_last(), want_exact);
        if rule_exact(sps.last().key) == want_exact {
            prev.push(sps.last())
        } else {
            prev
        }
    }
}

/// Sub-path rules in commit order: all prefix rules, then all exact rules.
pub open spec fn sorted_subs(sps: Seq<SubRuleModel>) -> Seq<SubRuleModel> {
    filter_subs(sps, false) + filter_subs(sps, true)
}

/// One batch of entries: the same rule registered under each name in turn.
pub open spec fn batch_entries(
    names: Seq<Seq<u8>>,
    segments: Seq<Seq<u8>>,
    exact: bool,
    strip: bool,
    hid: int,
) -> Seq<EntryModel>
    decreases names.len(),
{
    if names.len() == 0 {
        Seq::empty()
    } else {
        batch_entries(names.drop_last(), segments, exact, strip, hid).push(
            EntryModel { host: names.last(), segments, exact, strip, hid },
        )
    }
}

/// The entries of a run of sub-path rules, the rule at position `j` served
/// by handler `first_hid + j`.
pub open spec fn subs_entries(
    names: Seq<Seq<u8>>,
    sorted: Seq<SubRuleModel>,
    first_hid: int,
) -> Seq<EntryModel>
    decreases sorted.len(),
{
    if sorted.len() == 0 {
        Seq::empty()
    } else {
        let s = sorted.last();
        subs_entries(names, sorted.drop_last(), first_hid) + batch_entries(
            names,
            rule_segments(s.key),
            rule_exact(s.key),
            !rule_exact(s.key) && s.strip_prefix,
            first_hid + sorted.len() - 1,
        )
    }
}

/// All entries of one host entry: a catch-all root entry per name served by
/// handler `base`, then the sorted sub-path rules served by the handlers
/// after it.
pub open spec fn group_entries(g: GroupModel, take_default: bool, base: int) -> Seq<EntryModel> {
    let names = group_names(g.hosts, take_default);
    batch_entries(names, Seq::empty(), false, false, base) + subs_entries(
        names,
        sorted_subs(g.subpaths),
        base + 1,
    )
}

/// Whether one of the first `n` host entries claims the default role.
pub open spec fn default_before(groups: Seq<GroupModel>, n: int) -> bool
    decreases n,
{
    if n <= 0 {
        false
    } else {
        default_before(groups, n - 1) || groups[n - 1].is_default
    }
}

/// Whether the host entry at `n` takes the default role: it claims it and
/// no earlier entry did.
pub open spec fn take_default_at(groups: Seq<GroupModel>, n: int) -> bool {
    groups[n].is_default && !default_before(groups, n)
}

/// Handlers converted for the first `n` host entries: one per entry plus
/// one per sub-path rule.
pub open spec fn handler_count(groups: Seq<GroupModel>, n: int) -> int
    decreases n,
{
    if n <= 0 {
        0
    } else {
        handler_count(groups, n - 1) + 1 + groups[n - 1].subpaths.len()
    }
}

/// The routing entries of the first `n` host entries.
pub open spec fn table_entries(groups: Seq<GroupModel>, n: int) -> Seq<EntryModel>
    decreases n,
{
    if n <= 0 {
        Seq::empty()
    } else {
        table_entries(groups, n - 1) + group_entries(
            groups[n - 1],
            take_default_at(groups, n - 1),
            handler_count(groups, n - 1),
        )
    }
}

/// The warnings of one host entry's name list.
pub open spec fn host_warns(hosts: Seq<Seq<u8>>, gi: int) -> Seq<CompileWarning>
    decreases hosts.len(),
{
    if hosts.len() == 0 {
        Seq::empty()
    } else {
        let prev = host_warns(hosts.drop_last(), gi);
        let h = hosts.last();
        let pos = hosts.len() - 1;
        if h.len() == 0 {
            prev.push(CompileWarning::EmptyHostName { group: gi as usize, pos: pos as usize })
        } else if clean_names(hosts.drop_last()).contains(h) {
            prev.push(CompileWarning::DuplicateAlias { group: gi as usize, pos: pos as usize })
        } else {
            prev
        }
    }
}

/// The warnings of one host entry.
pub open spec fn group_warns(g: GroupModel, gi: int, dup_default: bool) -> Seq<CompileWarning> {
    (if dup_default {
        seq![CompileWarning::DuplicateDefault { group: gi as usize }]
    } else {
        Seq::empty()
    }) + host_warns(g.hosts, gi)
}

/// The warnings of the first `n` host entries.
pub open spec fn table_warns(groups: Seq<GroupModel>, n: int) -> Seq<CompileWarning>
    decreases n,
{
    if n <= 0 {
        Seq::empty()
    } else {
        table_warns(groups, n - 1) + group_warns(
            groups[n - 1],
            n - 1,
            groups[n - 1].is_default && default_before(groups, n - 1),
        )
    }
}

/// Each batch entry serves the batch's rule under one name.
pub proof fn lemma_batch_props(
    names: Seq<Seq<u8>>,
    segments: Seq<Seq<u8>>,
    exact: bool,
    strip: bool,
    hid: int,
)
    ensures
        batch_entries(names, segments, exact, strip, hid).len() == names.len(),
        forall|t: int|
            0 <= t < names.len() ==> batch_entries(names, segments, exact, strip, hid)[t]
                == (EntryModel { host: names[t], segments, exact, strip, hid }),
    decreases names.len(),
{
    if names.len() > 0 {
        lemma_batch_props(names.drop_last(), segments, exact, strip, hid);
    }
}

/// Whether a name is kept is unchanged by cleaning.
pub proof fn lemma_clean_contains(hosts: Seq<Seq<u8>>, h: Seq<u8>)
    requires
        h.len() > 0,
    ensures
        clean_names(hosts).contains(h) <==> hosts.contains(h),
    decreases hosts.len(),
{
    if hosts.len() > 0 {
        let prev_hosts = hosts.drop_last();
        lemma_clean_contains(prev_hosts, h);
        let prev = clean_names(prev_hosts);
        let last = hosts.last();
        let kept = !(last.len() == 0 || prev.contains(last));
        if hosts.contains(h) {
            let w = choose|w: int| 0 <= w < hosts.len() && hosts[w] == h;
            if w < hosts.len() - 1 {
                assert(prev_hosts[w] == h);
                assert(prev_hosts.contains(h));
                assert(prev.contains(h));
                if kept {
                    let wc = choose|wc: int| 0 <= wc < prev.len() && prev[wc] == h;
                    assert(clean_names(hosts)[wc] == h);
                }
            } else {
                if kept {
                    assert(clean_names(hosts)[prev.len() as int] == h);
                } else {
                    assert(prev.contains(h));
                }
            }
            assert(clean_names(hosts).contains(h));
        }
        if clean_names(hosts).contains(h) {
            let w = choose|w: int| 0 <= w < clean_names(hosts).len() && clean_names(
                hosts,
            )[w] == h;
            if kept && w == prev.len() {
                assert(hosts[hosts.len() - 1] == h);
            } else {
                assert(prev[w] == h);
                assert(prev.contains(h));
                let v = choose|v: int| 0 <= v < prev_hosts.len() && prev_hosts[v] == h;
                assert(hosts[v] == h);
            }
            assert(hosts.contains(h));
        }
    }
}

/// Cleaning never keeps an empty name.
pub proof fn lemma_clean_no_empty(hosts: Seq<Seq<u8>>)
    ensures
        forall|t: int| 0 <= t < clean_names(hosts).len() ==> clean_names(hosts)[t].len() > 0,
    decreases hosts.len(),
{
    if hosts.len() > 0 {
        lemma_clean_no_empty(hosts.drop_last());
        let prev = clean_names(hosts.drop_last());
        let last = hosts.last();
        if !(last.len() == 0 || prev.contains(last)) {
            assert forall|t: int|
                0 <= t < clean_names(hosts).len() implies clean_names(hosts)[t].len() > 0 by {
                if t < prev.len() {
                    assert(clean_names(hosts)[t] == prev[t]);
                } else {
                    assert(clean_names(hosts)[t] == last);
                }
            }
        }
    }
}

/// Prefix rules and exact rules partition the sub-path rules.
pub proof fn lemma_filter_partition(sps: Seq<SubRuleModel>)
    ensures
        filter_subs(sps, false).len() + filter_subs(sps, true).len() == sps.len(),
    decreases sps.len(),
{
    if sps.len() > 0 {
        lemma_filter_partition(sps.drop_last());
    }
}

/// Entries of a concatenated rule run split at the concatenation.
pub proof fn lemma_subs_entries_concat(
    names: Seq<Seq<u8>>,
    a: Seq<SubRuleModel>,
    b: Seq<SubRuleModel>,
    fh: int,
)
    ensures
        subs_entries(names, a + b, fh) == subs_entries(names, a, fh) + subs_entries(
            names,
            b,
            fh + a.len(),
        ),
    decreases b.len(),
{
    if b.len() == 0 {
        assert(a + b =~= a);
        assert(subs_entries(names, a, fh) + subs_entries(names, b, fh + a.len()) =~= subs_entries(
            names,
            a,
            fh,
        ));
    } else {
        lemma_subs_entries_concat(names, a, b.drop_last(), fh);
        assert((a + b).drop_last() =~= a + b.drop_last());
        assert((a + b).last() == b.last());
        let tail = batch_entries(
            names,
            rule_segments(b.last().key),
            rule_exact(b.last().key),
            !rule_exact(b.last().key) && b.last().strip_prefix,
            fh + (a + b).len() - 1,
        );
        assert(subs_entries(names, a + b, fh) == subs_entries(names, a + b.drop_last(), fh)
            + tail);
        assert((subs_entries(names, a, fh) + subs_entries(names, b.drop_last(), fh + a.len()))
            + tail =~= subs_entries(names, a, fh) + (subs_entries(names, b.drop_last(), fh
            + a.len()) + tail));
    }
}

/// Whether `h` occurs in `names`.
#[verifier::loop_isolation(false)]
fn names_contains(names: &Vec<Vec<u8>>, h: &[u8]) -> (r: bool)
    ensures
        r <==> view_segs(names@).contains(h@),
{
    let mut i: usize = 0;
    while i < names.len()
        invariant
            i <= names@.len(),
            forall|t: int| 0 <= t < i ==> view_segs(names@)[t] != h@,
        decreases names@.len() - i,
    {
        if crate::segments::bytes_eq(names[i].as_slice(), h) {
            proof {
                assert(view_segs(names@)[i as int] == h@);
            }
            return true;
        }
        i = i + 1;
    }
    false
}

/// Copy of a segment list.
#[verifier::loop_isolation(false)]
fn clone_segs(v: &Vec<Vec<u8>>) -> (r: Vec<Vec<u8>>)
    ensures
        view_segs(r@) == view_segs(v@),
{
    let mut r: Vec<Vec<u8>> = Vec::new();
    let mut i: usize = 0;
    while i < v.len()
        invariant
            i <= v@.len(),
            r@.len() == i,
            forall|t: int| 0 <= t < i ==> view_segs(r@)[t] == view_segs(v@)[t],
        decreases v@.len() - i,
    {
        r.push(crate::segments::clone_bytes(&v[i]));
        i = i + 1;
    }
    proof {
        assert(view_segs(r@) =~= view_segs(v@));
    }
    r
}

/// Collects a host entry's registration names and warns about dropped
/// names: empty names and repetitions are dropped, and the empty sentinel
/// name leads when the entry takes the default-host role.
#[verifier::loop_isolation(false)]
fn build_names(
    hosts: &Vec<Vec<u8>>,
    take_default: bool,
    gi: usize,
    warns: &mut Vec<CompileWarning>,
) -> (names: Vec<Vec<u8>>)
    ensures
        view_segs(names@) == group_names(view_segs(hosts@), take_default),
        final(warns)@ == old(warns)@ + host_warns(view_segs(hosts@), gi as int),
{
    let ghost hv = view_segs(hosts@);
    let mut names: Vec<Vec<u8>> = Vec::new();
    let mut j: usize = 0;
    proof {
        assert(hv.take(0) =~= Seq::<Seq<u8>>::empty());
        assert(view_segs(names@) =~= clean_names(hv.take(0)));
        assert(old(warns)@ + host_warns(hv.take(0), gi as int) =~= old(warns)@);
    }
    while j < hosts.len()
        invariant
            j <= hosts@.len(),
            view_segs(names@) == clean_names(hv.take(j as int)),
            warns@ == old(warns)@ + host_warns(hv.take(j as int), gi as int),
        decreases hosts@.len() - j,
    {
        let h = &hosts[j];
        proof {
            assert(hv.take(j + 1).drop_last() =~= hv.take(j as int));
            assert(hv.take(j + 1).last() == h@);
        }
        if h.len() == 0 {
            warns.push(CompileWarning::EmptyHostName { group: gi, pos: j });
        } else if names_contains(&names, h.as_slice()) {
            warns.push(CompileWarning::DuplicateAlias { group: gi, pos: j });
        } else {
            names.push(crate::segments::clone_bytes(h));
            proof {
                assert(view_segs(names@) =~= clean_names(hv.take(j as int)).push(h@));
            }
        }
        proof {
            assert(warns@ =~= old(warns)@ + host_warns(hv.take(j + 1), gi as int));
        }
        j = j + 1;
    }
    proof {
        assert(hv.take(hosts@.len() as int) =~= hv);
    }
    if take_default {
        names.insert(0, Vec::new());
        proof {
            assert(view_segs(names@) =~= group_names(hv, true));
        }
    }
    names
}

/// Registers one batch of entries: the given rule under each name in turn,
/// all served by handler `hid`.
#[verifier::loop_isolation(false)]
fn push_batch(
    entries: &mut Vec<TableEntry>,
    names: &Vec<Vec<u8>>,
    segments: &Vec<Vec<u8>>,
    exact: bool,
    strip: bool,
    hid: usize,
)
    ensures
        entry_seq(final(entries)@) == entry_seq(old(entries)@) + batch_entries(
            view_segs(names@),
            view_segs(segments@),
            exact,
            strip,
            hid as int,
        ),
        final(entries)@.len() == old(entries)@.len() + names@.len(),
        forall|t: int|
            0 <= t < old(entries)@.len() ==> final(entries)@[t] == old(entries)@[t],
        forall|t: int|
            old(entries)@.len() <= t < final(entries)@.len()
                ==> (#[trigger] final(entries)@[t]).hid == hid,
{
    let ghost nv = view_segs(names@);
    let ghost sv = view_segs(segments@);
    let mut t: usize = 0;
    proof {
        assert(nv.take(0) =~= Seq::<Seq<u8>>::empty());
        assert(entry_seq(entries@) =~= entry_seq(entries@) + batch_entries(
            nv.take(0),
            sv,
            exact,
            strip,
            hid as int,
        ));
    }
    while t < names.len()
        invariant
            t <= names@.len(),
            entry_seq(entries@) == entry_seq(old(entries)@) + batch_entries(
                nv.take(t as int),
                sv,
                exact,
                strip,
                hid as int,
            ),
            entries@.len() == old(entries)@.len() + t,
            forall|u: int| 0 <= u < old(entries)@.len() ==> entries@[u] == old(entries)@[u],
            forall|u: int|
                old(entries)@.len() <= u < entries@.len() ==> (#[trigger] entries@[u]).hid
                    == hid,
        decreases names@.len() - t,
    {
        let e = TableEntry {
            host: crate::segments::clone_bytes(&names[t]),
            segments: clone_segs(segments),
            exact,
            strip,
            hid,
        };
        proof {
            assert(e@ == (EntryModel { host: nv[t as int], segments: sv, exact, strip, hid:
                hid as int }));
            assert(nv.take(t + 1).drop_last() =~= nv.take(t as int));
            assert(nv.take(t + 1).last() == nv[t as int]);
            assert(entry_seq(entries@.push(e)) =~= entry_seq(entries@).push(e@));
        }
        entries.push(e);
        t = t + 1;
    }
    proof {
        assert(nv.take(names@.len() as int) =~= nv);
    }
}

/// Registers the host entry's sub-path rules of one exactness class, in
/// configuration order, converting each rule's handler configuration.
#[verifier::loop_isolation(false)]
fn process_subpaths<C, H>(
    g: &VirtualHostEntry<C>,
    names: &Vec<Vec<u8>>,
    want_exact: bool,
    entries: &mut Vec<TableEntry>,
    handlers: &mut Vec<H>,
) -> (r: Result<(), C::Error>)
    where C: TryIntoHandler<Handler = H>
    requires
        forall|t: int|
            0 <= t < old(entries)@.len() ==> (#[trigger] old(entries)@[t]).hid
                < old(handlers)@.len(),
    ensures
        forall|t: int|
            0 <= t < final(entries)@.len() ==> (#[trigger] final(entries)@[t]).hid
                < final(handlers)@.len(),
        r is Ok ==> {
            let flt = filter_subs(g@.subpaths, want_exact);
            &&& final(handlers)@.len() == old(handlers)@.len() + flt.len()
            &&& entry_seq(final(entries)@) == entry_seq(old(entries)@) + subs_entries(
                view_segs(names@),
                flt,
                old(handlers)@.len() as int,
            )
        },
{
    let ghost nv = view_segs(names@);
    let ghost sps = g@.subpaths;
    let ghost base = old(handlers)@.len() as int;
    let mut j: usize = 0;
    proof {
        assert(sps.take(0) =~= Seq::<SubRuleModel>::empty());
        assert(entry_seq(entries@) =~= entry_seq(entries@) + subs_entries(
            nv,
            filter_subs(sps.take(0), want_exact),
            base,
        ));
    }
    while j < g.subpaths.len()
        invariant
            j <= g.subpaths@.len(),
            handlers@.len() == base + filter_subs(sps.take(j as int), want_exact).len(),
            entry_seq(entries@) == entry_seq(old(entries)@) + subs_entries(
                nv,
                filter_subs(sps.take(j as int), want_exact),
                base,
            ),
            forall|t: int|
                0 <= t < entries@.len() ==> (#[trigger] entries@[t]).hid < handlers@.len(),
        decreases g.subpaths@.len() - j,
    {
        let sp = &g.subpaths[j];
        proof {
            assert(sps[j as int] == g.subpaths@[j as int]@);
            assert(sps.take(j + 1).drop_last() =~= sps.take(j as int));
            assert(sps.take(j + 1).last() == sps[j as int]);
        }
        let rule = crate::conf::normalize_rule(sp.rule.as_slice());
        if rule.exact == want_exact {
            let h = match sp.config.try_into_handler() {
                Ok(h) => h,
                Err(e) => {
                    return Err(e);
                },
            };
            let hid = handlers.len();
            handlers.push(h);
            let strip = !rule.exact && sp.strip_prefix;
            let ghost before = entries@;
            push_batch(entries, names, &rule.segments, rule.exact, strip, hid);
            proof {
                assert forall|t: int|
                    0 <= t < entries@.len() implies (#[trigger] entries@[t]).hid
                    < handlers@.len() by {
                    if t < before.len() {
                        assert(entries@[t] == before[t]);
                    } else {
                        assert(entries@[t].hid == hid);
                    }
                }
                let flt = filter_subs(sps.take(j as int), want_exact);
                let flt1 = filter_subs(sps.take(j + 1), want_exact);
                assert(flt1 == flt.push(sps[j as int]));
                assert(flt1.drop_last() =~= flt);
                assert(subs_entries(nv, flt1, base) == subs_entries(nv, flt, base)
                    + batch_entries(
                    nv,
                    rule_segments(sps[j as int].key),
                    rule_exact(sps[j as int].key),
                    !rule_exact(sps[j as int].key) && sps[j as int].strip_prefix,
                    base + flt1.len() - 1,
                ));
                assert(entry_seq(entries@) =~= entry_seq(old(entries)@) + subs_entries(
                    nv,
                    flt1,
                    base,
                ));
            }
        }
        j = j + 1;
    }
    proof {
        assert(sps.take(g.subpaths@.len() as int) =~= sps);
    }
    Ok(())
}

impl<H> VirtualHostsHandler<H> {
    /// Compiles a typed virtual-host configuration into a dispatcher.
    ///
    /// Converts each handler configuration into a live handler; the first
    /// failing conversion aborts compilation and is returned unchanged. On
    /// success the routing table holds exactly the modelled entries, in
    /// commit order, and the warnings report every dropped name and every
    /// ignored second default-host claim, in the order the compiler came
    /// across them.
    #[verifier::loop_isolation(false)]
    pub fn compile<C>(conf: &VirtualHostsConf<C>) -> (r: Result<
        (Self, Vec<CompileWarning>),
        C::Error,
    >)
        where C: TryIntoHandler<Handler = H>
        ensures
            r matches Ok(p) ==> {
                &&& p.0.table() == table_entries(conf@, conf@.len() as int)
                &&& p.0.pool().len() == handler_count(conf@, conf@.len() as int)
                &&& p.1@ == table_warns(conf@, conf@.len() as int)
            },
    {
        let ghost groups = conf@;
        let mut entries: Vec<TableEntry> = Vec::new();
        let mut handlers: Vec<H> = Vec::new();
        let mut warns: Vec<CompileWarning> = Vec::new();
        let mut default_seen = false;
        let mut gi: usize = 0;
        proof {
            assert(entry_seq(entries@) =~= table_entries(groups, 0));
            assert(warns@ =~= table_warns(groups, 0));
        }
        while gi < conf.vhosts.len()
            invariant
                gi <= conf.vhosts@.len(),
                entry_seq(entries@) == table_entries(groups, gi as int),
                handlers@.len() == handler_count(groups, gi as int),
                warns@ == table_warns(groups, gi as int),
                default_seen == default_before(groups, gi as int),
                forall|t: int|
                    0 <= t < entries@.len() ==> (#[trigger] entries@[t]).hid < handlers@.len(),
            decreases conf.vhosts@.len() - gi,
        {
            let g = &conf.vhosts[gi];
            proof {
                assert(groups[gi as int] == g@);
            }
            let base = handlers.len();
            let h = match g.config.try_into_handler() {
                Ok(h) => h,
                Err(e) => {
                    return Err(e);
                },
            };
            handlers.push(h);
            let take_default = g.default && !default_seen;
            if g.default {
                if default_seen {
                    warns.push(CompileWarning::DuplicateDefault { group: gi });
                } else {
                    default_seen = true;
                }
            }
            let names = build_names(&g.hosts, take_default, gi, &mut warns);
            proof {
                assert(view_segs(names@) =~= group_names(g@.hosts, take_default));
                assert(warns@ =~= table_warns(groups, gi as int) + group_warns(
                    g@,
                    gi as int,
                    g@.is_default && default_before(groups, gi as int),
                ));
                assert(warns@ =~= table_warns(groups, gi + 1));
            }
            let empty_segs: Vec<Vec<u8>> = Vec::new();
            proof {
                assert(view_segs(empty_segs@) =~= Seq::<Seq<u8>>::empty());
            }
            let ghost before_root = entries@;
            push_batch(&mut entries, &names, &empty_segs, false, false, base);
            proof {
                assert forall|t: int|
                    0 <= t < entries@.len() implies (#[trigger] entries@[t]).hid
                    < handlers@.len() by {
                    if t < before_root.len() {
                        assert(entries@[t] == before_root[t]);
                    } else {
                        assert(entries@[t].hid == base);
                    }
                }
            }
            let ghost after_root = entry_seq(entries@);
            match process_subpaths(g, &names, false, &mut entries, &mut handlers) {
                Ok(u) => u,
                Err(e) => {
                    return Err(e);
                },
            };
            let ghost after_prefix = entry_seq(entries@);
            match process_subpaths(g, &names, true, &mut entries, &mut handlers) {
                Ok(u) => u,
                Err(e) => {
                    return Err(e);
                },
            };
            proof {
                let nv = group_names(g@.hosts, take_default);
                let pre = filter_subs(g@.subpaths, false);
                let exa = filter_subs(g@.subpaths, true);
                lemma_filter_partition(g@.subpaths);
                lemma_subs_entries_concat(nv, pre, exa, base + 1);
                assert(entry_seq(entries@) =~= table_entries(groups, gi as int) + (batch_entries(
                    nv,
                    Seq::empty(),
                    false,
                    false,
                    base as int,
                ) + subs_entries(nv, sorted_subs(g@.subpaths), base + 1)));
                assert(take_default == take_default_at(groups, gi as int));
                assert(entry_seq(entries@) =~= table_entries(groups, gi + 1));
            }
            gi = gi + 1;
        }
        proof {
            assert(gi as int == groups.len());
        }
        let table = VirtualHostsHandler::from_parts(entries, handlers);
        Ok((table, warns))
    }
}

} // verus!
