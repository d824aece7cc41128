//! Laws of the compiled table.
//!
//! These proofs state the guarantees that hold across several functions:
//! aliases of one virtual host are served identically, the first declared
//! default host wins and a second claim is observable, requests for
//! unregistered hosts fall back to the default host exactly when one is
//! configured, and a selection recorded only in the session token is still
//! recovered by later phases.
//!
//! The common tool is the *profile* of a host name: the sequence of rules
//! registered under that name, in registration order, with the host name
//! itself projected away. Lookup behaves identically for two names with
//! equal profiles.

use vstd::prelude::*;

use crate::compile::{
    batch_entries, clean_names, default_before, group_entries, group_names, group_warns,
    handler_count, host_warns, lemma_clean_no_empty, sorted_subs, subs_entries, table_entries,
    table_warns, take_default_at,
};
use crate::conf::{rule_exact, rule_segments, CompileWarning, GroupModel, SubRuleModel};
use crate::dispatch::recovered_handler;
use crate::table::{
    best_upto, entry_matches, host_present, lemma_best_none_if_absent, lemma_best_some_if_match,
    lookup_spec, rank_le, sel_host, EntryModel,
};

verus! {

/// A routing entry with its host name projected away: what a request
/// observes of the entry.
pub ghost struct ProfModel {
    pub segments: Seq<Seq<u8>>,
    pub exact: bool,
    pub strip: bool,
    pub hid: int,
}

/// The host-less remainder of an entry.
pub open spec fn prof(e: EntryModel) -> ProfModel {
    ProfModel { segments: e.segments, exact: e.exact, strip: e.strip, hid: e.hid }
}

/// The profile of host name `h`: the entries registered under `h`, in
/// order, each with the host projected away.
pub open spec fn profile(entries: Seq<EntryModel>, h: Seq<u8>) -> Seq<ProfModel>
    decreases entries.len(),
{
    if entries.len() == 0 {
        Seq::empty()
    } else {
        profile(entries.drop_last(), h) + (if entries.last().host == h {
            seq![prof(entries.last())]
        } else {
            Seq::empty()
        })
    }
}

/// The profile contributed by a run of sub-path rules.
pub open spec fn subs_profs(sorted: Seq<SubRuleModel>, first_hid: int) -> Seq<ProfModel>
    decreases sorted.len(),
{
    if sorted.len() == 0 {
        Seq::empty()
    } else {
        let s = sorted.last();
        subs_profs(sorted.drop_last(), first_hid).push(
            ProfModel {
                segments: rule_segments(s.key),
                exact: rule_exact(s.key),
                strip: !rule_exact(s.key) && s.strip_prefix,
                hid: first_hid + sorted.len() - 1,
            },
        )
    }
}

/// The profile every registered name of one host entry shares: the
/// catch-all root rule, then the sorted sub-path rules.
pub open spec fn group_profs(g: GroupModel, base: int) -> Seq<ProfModel> {
    seq![
        ProfModel { segments: Seq::empty(), exact: false, strip: false, hid: base },
    ] + subs_profs(sorted_subs(g.subpaths), base + 1)
}

/// Pairwise-distinct names.
pub open spec fn distinct_names(s: Seq<Seq<u8>>) -> bool {
    forall|i: int, j: int| 0 <= i < j < s.len() ==> s[i] != s[j]
}

/// Profiles split at a concatenation.
pub proof fn lemma_profile_concat(a: Seq<EntryModel>, b: Seq<EntryModel>, h: Seq<u8>)
    ensures
        profile(a + b, h) == profile(a, h) + profile(b, h),
    decreases b.len(),
{
    if b.len() == 0 {
        assert(a + b =~= a);
        assert(profile(a, h) + profile(b, h) =~= profile(a, h));
    } else {
        lemma_profile_concat(a, b.drop_last(), h);
        assert((a + b).drop_last() =~= a + b.drop_last());
        assert((a + b).last() == b.last());
        let tail = if b.last().host == h {
            seq![prof(b.last())]
        } else {
            Seq::<ProfModel>::empty()
        };
        assert((profile(a, h) + profile(b.drop_last(), h)) + tail =~= profile(a, h) + (profile(
            b.drop_last(),
            h,
        ) + tail));
    }
}

/// A name outside a batch's name list gets nothing from the batch.
pub proof fn lemma_batch_profile_absent(
    names: Seq<Seq<u8>>,
    segments: Seq<Seq<u8>>,
    exact: bool,
    strip: bool,
    hid: int,
    h: Seq<u8>,
)
    requires
        !names.contains(h),
    ensures
        profile(batch_entries(names, segments, exact, strip, hid), h) == Seq::<
            ProfModel,
        >::empty(),
    decreases names.len(),
{
    if names.len() > 0 {
        if names.drop_last().contains(h) {
            let w = choose|w: int|
                0 <= w < names.drop_last().len() && names.drop_last()[w] == h;
            assert(names[w] == h);
        }
        lemma_batch_profile_absent(names.drop_last(), segments, exact, strip, hid, h);
        let b = batch_entries(names, segments, exact, strip, hid);
        assert(b.drop_last() =~= batch_entries(names.drop_last(), segments, exact, strip, hid));
        assert(b.last().host == names.last());
        assert(names[names.len() - 1] != h);
        assert(profile(b, h) =~= Seq::<ProfModel>::empty());
    }
}

/// A name of a batch's distinct name list gets exactly the batch's rule.
pub proof fn lemma_batch_profile_present(
    names: Seq<Seq<u8>>,
    segments: Seq<Seq<u8>>,
    exact: bool,
    strip: bool,
    hid: int,
    h: Seq<u8>,
)
    requires
        distinct_names(names),
        names.contains(h),
    ensures
        profile(batch_entries(names, segments, exact, strip, hid), h) == seq![
            (ProfModel { segments, exact, strip, hid }),
        ],
    decreases names.len(),
{
    let b = batch_entries(names, segments, exact, strip, hid);
    assert(b.drop_last() =~= batch_entries(names.drop_last(), segments, exact, strip, hid));
    assert(b.last().host == names.last());
    let w = choose|w: int| 0 <= w < names.len() && names[w] == h;
    if w == names.len() - 1 {
        if names.drop_last().contains(h) {
            let v = choose|v: int|
                0 <= v < names.drop_last().len() && names.drop_last()[v] == h;
            assert(names[v] == h);
            assert(false);
        }
        lemma_batch_profile_absent(names.drop_last(), segments, exact, strip, hid, h);
        assert(profile(b, h) =~= seq![(ProfModel { segments, exact, strip, hid })]);
    } else {
        assert(names.drop_last()[w] == h);
        assert(names.drop_last().contains(h));
        assert(distinct_names(names.drop_last()));
        lemma_batch_profile_present(names.drop_last(), segments, exact, strip, hid, h);
        assert(names.last() != h);
        assert(profile(b, h) =~= seq![(ProfModel { segments, exact, strip, hid })]);
    }
}

/// A name outside the name list gets nothing from a rule run.
pub proof fn lemma_subs_profile_absent(
    names: Seq<Seq<u8>>,
    sorted: Seq<SubRuleModel>,
    first_hid: int,
    h: Seq<u8>,
)
    requires
        !names.contains(h),
    ensures
        profile(subs_entries(names, sorted, first_hid), h) == Seq::<ProfModel>::empty(),
    decreases sorted.len(),
{
    if sorted.len() > 0 {
        let s = sorted.last();
        lemma_subs_profile_absent(names, sorted.drop_last(), first_hid, h);
        lemma_batch_profile_absent(
            names,
            rule_segments(s.key),
            rule_exact(s.key),
            !rule_exact(s.key) && s.strip_prefix,
            first_hid + sorted.len() - 1,
            h,
        );
        lemma_profile_concat(
            subs_entries(names, sorted.drop_last(), first_hid),
            batch_entries(
                names,
                rule_segments(s.key),
                rule_exact(s.key),
                !rule_exact(s.key) && s.strip_prefix,
                first_hid + sorted.len() - 1,
            ),
            h,
        );
        assert(profile(subs_entries(names, sorted, first_hid), h) =~= Seq::<
            ProfModel,
        >::empty());
    }
}

/// A name of the distinct name list gets one entry per rule of the run.
pub proof fn lemma_subs_profile_present(
    names: Seq<Seq<u8>>,
    sorted: Seq<SubRuleModel>,
    first_hid: int,
    h: Seq<u8>,
)
    requires
        distinct_names(names),
        names.contains(h),
    ensures
        profile(subs_entries(names, sorted, first_hid), h) == subs_profs(sorted, first_hid),
    decreases sorted.len(),
{
    if sorted.len() == 0 {
        assert(profile(subs_entries(names, sorted, first_hid), h) =~= subs_profs(
            sorted,
            first_hid,
        ));
    } else {
        let s = sorted.last();
        lemma_subs_profile_present(names, sorted.drop_last(), first_hid, h);
        lemma_batch_profile_present(
            names,
            rule_segments(s.key),
            rule_exact(s.key),
            !rule_exact(s.key) && s.strip_prefix,
            first_hid + sorted.len() - 1,
            h,
        );
        lemma_profile_concat(
            subs_entries(names, sorted.drop_last(), first_hid),
            batch_entries(
                names,
                rule_segments(s.key),
                rule_exact(s.key),
                !rule_exact(s.key) && s.strip_prefix,
                first_hid + sorted.len() - 1,
            ),
            h,
        );
        assert(profile(subs_entries(names, sorted, first_hid), h) =~= subs_profs(
            sorted,
            first_hid,
        ));
    }
}

/// A name outside a host entry's names gets nothing from its entries.
pub proof fn lemma_group_profile_absent(g: GroupModel, take_default: bool, base: int, h: Seq<u8>)
    requires
        !group_names(g.hosts, take_default).contains(h),
    ensures
        profile(group_entries(g, take_default, base), h) == Seq::<ProfModel>::empty(),
{
    let names = group_names(g.hosts, take_default);
    lemma_batch_profile_absent(names, Seq::empty(), false, false, base, h);
    lemma_subs_profile_absent(names, sorted_subs(g.subpaths), base + 1, h);
    lemma_profile_concat(
        batch_entries(names, Seq::empty(), false, false, base),
        subs_entries(names, sorted_subs(g.subpaths), base + 1),
        h,
    );
    assert(profile(group_entries(g, take_default, base), h) =~= Seq::<ProfModel>::empty());
}

/// Every registered name of one host entry has the group's profile.
pub proof fn lemma_group_profile_present(g: GroupModel, take_default: bool, base: int, h: Seq<u8>)
    requires
        distinct_names(group_names(g.hosts, take_default)),
        group_names(g.hosts, take_default).contains(h),
    ensures
        profile(group_entries(g, take_default, base), h) == group_profs(g, base),
{
    let names = group_names(g.hosts, take_default);
    lemma_batch_profile_present(names, Seq::empty(), false, false, base, h);
    lemma_subs_profile_present(names, sorted_subs(g.subpaths), base + 1, h);
    lemma_profile_concat(
        batch_entries(names, Seq::empty(), false, false, base),
        subs_entries(names, sorted_subs(g.subpaths), base + 1),
        h,
    );
    assert(profile(group_entries(g, take_default, base), h) =~= group_profs(g, base));
}

/// Cleaned names are pairwise distinct.
pub proof fn lemma_clean_distinct(hosts: Seq<Seq<u8>>)
    ensures
        distinct_names(clean_names(hosts)),
    decreases hosts.len(),
{
    if hosts.len() > 0 {
        lemma_clean_distinct(hosts.drop_last());
        let prev = clean_names(hosts.drop_last());
        let last = hosts.last();
        if !(last.len() == 0 || prev.contains(last)) {
            let c = clean_names(hosts);
            assert forall|i: int, j: int| 0 <= i < j < c.len() implies c[i] != c[j] by {
                if j < prev.len() {
                    assert(c[i] == prev[i] && c[j] == prev[j]);
                } else {
                    assert(c[j] == last);
                    assert(c[i] == prev[i]);
                    if prev[i] == last {
                        assert(prev.contains(last));
                    }
                }
            }
        }
    }
}

/// The registered names of one host entry are pairwise distinct.
pub proof fn lemma_group_names_distinct(hosts: Seq<Seq<u8>>, take_default: bool)
    ensures
        distinct_names(group_names(hosts, take_default)),
{
    lemma_clean_distinct(hosts);
    lemma_clean_no_empty(hosts);
    let names = group_names(hosts, take_default);
    if take_default {
        assert forall|i: int, j: int| 0 <= i < j < names.len() implies names[i] != names[j] by {
            if i == 0 {
                assert(names[j] == clean_names(hosts)[j - 1]);
                assert(names[i].len() == 0);
            } else {
                assert(names[i] == clean_names(hosts)[i - 1]);
                assert(names[j] == clean_names(hosts)[j - 1]);
            }
        }
    }
}

/// The empty sentinel is registered exactly for the entry that takes the
/// default-host role.
pub proof fn lemma_group_names_empty(hosts: Seq<Seq<u8>>, take_default: bool)
    ensures
        group_names(hosts, take_default).contains(Seq::<u8>::empty()) <==> take_default,
{
    lemma_clean_no_empty(hosts);
    let names = group_names(hosts, take_default);
    if take_default {
        assert(names[0] == Seq::<u8>::empty());
    }
    if names.contains(Seq::<u8>::empty()) {
        let w = choose|w: int| 0 <= w < names.len() && names[w] == Seq::<u8>::empty();
        if take_default {
        } else {
            assert(clean_names(hosts)[w].len() > 0);
            assert(false);
        }
    }
}

/// A name registered by no host entry gets nothing from the whole table.
pub proof fn lemma_table_profile_absent(groups: Seq<GroupModel>, n: int, h: Seq<u8>)
    requires
        n <= groups.len(),
        forall|k: int|
            0 <= k < n ==> !group_names(
                (#[trigger] groups[k]).hosts,
                take_default_at(groups, k),
            ).contains(h),
    ensures
        profile(table_entries(groups, n), h) == Seq::<ProfModel>::empty(),
    decreases n,
{
    if n > 0 {
        lemma_table_profile_absent(groups, n - 1, h);
        lemma_group_profile_absent(
            groups[n - 1],
            take_default_at(groups, n - 1),
            handler_count(groups, n - 1),
            h,
        );
        lemma_profile_concat(
            table_entries(groups, n - 1),
            group_entries(groups[n - 1], take_default_at(groups, n - 1), handler_count(
                groups,
                n - 1,
            )),
            h,
        );
        assert(profile(table_entries(groups, n), h) =~= Seq::<ProfModel>::empty());
    }
}

/// A name registered by exactly one host entry gets exactly that entry's
/// group profile from the whole table.
pub proof fn lemma_table_profile_present(groups: Seq<GroupModel>, n: int, g: int, h: Seq<u8>)
    requires
        0 <= g < n <= groups.len(),
        group_names(groups[g].hosts, take_default_at(groups, g)).contains(h),
        forall|k: int|
            0 <= k < n && k != g ==> !group_names(
                (#[trigger] groups[k]).hosts,
                take_default_at(groups, k),
            ).contains(h),
    ensures
        profile(table_entries(groups, n), h) == group_profs(groups[g], handler_count(groups, g)),
    decreases n,
{
    lemma_profile_concat(
        table_entries(groups, n - 1),
        group_entries(groups[n - 1], take_default_at(groups, n - 1), handler_count(
            groups,
            n - 1,
        )),
        h,
    );
    if n - 1 == g {
        lemma_table_profile_absent(groups, n - 1, h);
        lemma_group_names_distinct(groups[g].hosts, take_default_at(groups, g));
        lemma_group_profile_present(
            groups[g],
            take_default_at(groups, g),
            handler_count(groups, g),
            h,
        );
        assert(profile(table_entries(groups, n), h) =~= group_profs(
            groups[g],
            handler_count(groups, g),
        ));
    } else {
        lemma_table_profile_present(groups, n - 1, g, h);
        lemma_group_profile_absent(
            groups[n - 1],
            take_default_at(groups, n - 1),
            handler_count(groups, n - 1),
            h,
        );
        assert(profile(table_entries(groups, n), h) =~= group_profs(
            groups[g],
            handler_count(groups, g),
        ));
    }
}

/// A name's profile is non-empty exactly when the name is registered.
pub proof fn lemma_profile_member(entries: Seq<EntryModel>, h: Seq<u8>)
    ensures
        profile(entries, h).len() > 0 <==> host_present(entries, h),
    decreases entries.len(),
{
    if entries.len() > 0 {
        lemma_profile_member(entries.drop_last(), h);
        if entries.last().host == h {
            assert(entries[entries.len() - 1].host == h);
            assert(host_present(entries, h));
        } else {
            if host_present(entries, h) {
                let w = choose|w: int| 0 <= w < entries.len() && entries[w].host == h;
                assert(entries.drop_last()[w] == entries[w]);
                assert(host_present(entries.drop_last(), h));
            }
            if host_present(entries.drop_last(), h) {
                let w = choose|w: int|
                    0 <= w < entries.drop_last().len() && entries.drop_last()[w].host == h;
                assert(entries[w].host == h);
                assert(host_present(entries, h));
            }
        }
    }
}

/// Every profile element is witnessed by an entry of the table.
pub proof fn lemma_profile_index(entries: Seq<EntryModel>, h: Seq<u8>, t: int)
    requires
        0 <= t < profile(entries, h).len(),
    ensures
        exists|w: int|
            0 <= w < entries.len() && (#[trigger] entries[w]).host == h && prof(entries[w])
                == profile(entries, h)[t],
    decreases entries.len(),
{
    let p = profile(entries, h);
    let p0 = profile(entries.drop_last(), h);
    if t < p0.len() {
        lemma_profile_index(entries.drop_last(), h, t);
        let w = choose|w: int|
            0 <= w < entries.drop_last().len() && (#[trigger] entries.drop_last()[w]).host == h
                && prof(entries.drop_last()[w]) == p0[t];
        assert(entries[w] == entries.drop_last()[w]);
        assert(p[t] == p0[t]);
    } else {
        assert(entries.last().host == h);
        assert(entries[entries.len() - 1].host == h && prof(entries[entries.len() - 1])
            == p[t]);
    }
}

/// Lookup runs identically for two host classes with equal profiles: it
/// selects corresponding entries, or nothing in both.
pub proof fn lemma_best_profile_sim(
    e1: Seq<EntryModel>,
    h1: Seq<u8>,
    n1: int,
    e2: Seq<EntryModel>,
    h2: Seq<u8>,
    n2: int,
    psegs: Seq<Seq<u8>>,
)
    requires
        0 <= n1 <= e1.len(),
        0 <= n2 <= e2.len(),
        profile(e1.take(n1), h1) == profile(e2.take(n2), h2),
    ensures
        ({
            match (best_upto(e1, h1, psegs, n1), best_upto(e2, h2, psegs, n2)) {
                (Some(i), Some(j)) => 0 <= i < n1 && 0 <= j < n2 && prof(e1[i]) == prof(
                    e2[j],
                ),
                (None, None) => true,
                _ => false,
            }
        }),
    decreases n1 + n2,
{
    if n1 > 0 && e1[n1 - 1].host != h1 {
        assert(e1.take(n1).drop_last() =~= e1.take(n1 - 1));
        assert(e1.take(n1).last() == e1[n1 - 1]);
        assert(profile(e1.take(n1), h1) =~= profile(e1.take(n1 - 1), h1));
        lemma_best_profile_sim(e1, h1, n1 - 1, e2, h2, n2, psegs);
    } else if n2 > 0 && e2[n2 - 1].host != h2 {
        assert(e2.take(n2).drop_last() =~= e2.take(n2 - 1));
        assert(e2.take(n2).last() == e2[n2 - 1]);
        assert(profile(e2.take(n2), h2) =~= profile(e2.take(n2 - 1), h2));
        lemma_best_profile_sim(e1, h1, n1, e2, h2, n2 - 1, psegs);
    } else if n1 > 0 && n2 > 0 {
        let p1 = profile(e1.take(n1 - 1), h1);
        let p2 = profile(e2.take(n2 - 1), h2);
        assert(e1.take(n1).drop_last() =~= e1.take(n1 - 1));
        assert(e1.take(n1).last() == e1[n1 - 1]);
        assert(e2.take(n2).drop_last() =~= e2.take(n2 - 1));
        assert(e2.take(n2).last() == e2[n2 - 1]);
        assert(profile(e1.take(n1), h1) =~= p1.push(prof(e1[n1 - 1])));
        assert(profile(e2.take(n2), h2) =~= p2.push(prof(e2[n2 - 1])));
        assert(p1.push(prof(e1[n1 - 1])).len() == p2.push(prof(e2[n2 - 1])).len());
        assert(prof(e1[n1 - 1]) == p1.push(prof(e1[n1 - 1])).last());
        assert(prof(e1[n1 - 1]) == prof(e2[n2 - 1]));
        assert forall|t: int| 0 <= t < p1.len() implies p1[t] == p2[t] by {
            assert(p1[t] == p1.push(prof(e1[n1 - 1]))[t]);
            assert(p2[t] == p2.push(prof(e2[n2 - 1]))[t]);
        }
        assert(p1 =~= p2);
        lemma_best_profile_sim(e1, h1, n1 - 1, e2, h2, n2 - 1, psegs);
        assert(entry_matches(e1[n1 - 1], psegs) == entry_matches(e2[n2 - 1], psegs));
        match (best_upto(e1, h1, psegs, n1 - 1), best_upto(e2, h2, psegs, n2 - 1)) {
            (Some(p), Some(q)) => {
                assert(rank_le(e1[p], e1[n1 - 1]) == rank_le(e2[q], e2[n2 - 1]));
            },
            _ => {},
        }
    } else if n1 == 0 && n2 > 0 {
        assert(e2.take(n2).drop_last() =~= e2.take(n2 - 1));
        assert(e2.take(n2).last() == e2[n2 - 1]);
        assert(profile(e2.take(n2), h2).len() == profile(e2.take(n2 - 1), h2).len() + 1);
        assert(e1.take(0) =~= Seq::<EntryModel>::empty());
        assert(false);
    } else if n2 == 0 && n1 > 0 {
        assert(e1.take(n1).drop_last() =~= e1.take(n1 - 1));
        assert(e1.take(n1).last() == e1[n1 - 1]);
        assert(profile(e1.take(n1), h1).len() == profile(e1.take(n1 - 1), h1).len() + 1);
        assert(e2.take(0) =~= Seq::<EntryModel>::empty());
        assert(false);
    }
}

/// No host entry before `m` claims the default role, so none holds it.
pub proof fn lemma_default_before_none(groups: Seq<GroupModel>, m: int)
    requires
        forall|k: int| 0 <= k < m ==> !(#[trigger] groups[k]).is_default,
    ensures
        !default_before(groups, m),
    decreases m,
{
    if m > 0 {
        lemma_default_before_none(groups, m - 1);
    }
}

/// A default claim at `d` makes the role taken from `d + 1` on.
pub proof fn lemma_default_before_some(groups: Seq<GroupModel>, d: int, m: int)
    requires
        0 <= d < m,
        groups[d].is_default,
    ensures
        default_before(groups, m),
    decreases m,
{
    if d < m - 1 {
        lemma_default_before_some(groups, d, m - 1);
    }
}

/// Warnings of every compiled host entry stay in the table's warnings.
pub proof fn lemma_table_warns_contains(
    groups: Seq<GroupModel>,
    k: int,
    n: int,
    x: CompileWarning,
)
    requires
        0 <= k < n <= groups.len(),
        group_warns(groups[k], k, groups[k].is_default && default_before(groups, k)).contains(x),
    ensures
        table_warns(groups, n).contains(x),
    decreases n,
{
    if k == n - 1 {
        let gw = group_warns(groups[k], k, groups[k].is_default && default_before(groups, k));
        let w = choose|w: int| 0 <= w < gw.len() && gw[w] == x;
        assert(table_warns(groups, n)[table_warns(groups, n - 1).len() + w] == x);
    } else {
        lemma_table_warns_contains(groups, k, n - 1, x);
        let w = choose|w: int|
            0 <= w < table_warns(groups, n - 1).len() && #[trigger] table_warns(
                groups,
                n - 1,
            )[w] == x;
        assert(table_warns(groups, n)[w] == x);
    }
}

/// Law: a request whose host equals a configured alias is served the same
/// way whichever alias string of that virtual host it used — lookup selects
/// entries with the same handler, the same rule segments and exactness, and
/// the same strip marker, so the downstream handler and any path rewrite
/// agree; or it selects nothing for both. `a` and `b` are non-empty names
/// registered by the host entry at `g` and by no other entry.
pub proof fn lemma_alias_equivalence(
    groups: Seq<GroupModel>,
    g: int,
    a: Seq<u8>,
    b: Seq<u8>,
    path: Seq<u8>,
)
    requires
        0 <= g < groups.len(),
        group_names(groups[g].hosts, take_default_at(groups, g)).contains(a),
        group_names(groups[g].hosts, take_default_at(groups, g)).contains(b),
        a.len() > 0,
        b.len() > 0,
        forall|k: int|
            0 <= k < groups.len() && k != g ==> !group_names(
                (#[trigger] groups[k]).hosts,
                take_default_at(groups, k),
            ).contains(a),
        forall|k: int|
            0 <= k < groups.len() && k != g ==> !group_names(
                (#[trigger] groups[k]).hosts,
                take_default_at(groups, k),
            ).contains(b),
    ensures
        ({
            let tv = table_entries(groups, groups.len() as int);
            match (lookup_spec(tv, a, path), lookup_spec(tv, b, path)) {
                (Some(i), Some(j)) => tv[i].hid == tv[j].hid && tv[i].segments
                    == tv[j].segments && tv[i].exact == tv[j].exact && tv[i].strip
                    == tv[j].strip,
                (None, None) => true,
                _ => false,
            }
        }),
{
    let n = groups.len() as int;
    let tv = table_entries(groups, n);
    let m = tv.len() as int;
    lemma_group_names_distinct(groups[g].hosts, take_default_at(groups, g));
    lemma_table_profile_present(groups, n, g, a);
    lemma_table_profile_present(groups, n, g, b);
    lemma_profile_member(tv, a);
    lemma_profile_member(tv, b);
    assert(group_profs(groups[g], handler_count(groups, g)).len() > 0);
    assert(sel_host(tv, a) == a);
    assert(sel_host(tv, b) == b);
    assert(tv.take(m) =~= tv);
    lemma_best_profile_sim(tv, a, m, tv, b, m, crate::segments::segments_of(path));
}

/// Law: when several host entries claim the default role, compilation
/// still succeeds, the default host serves exactly the first claimant's
/// entries, and every later claim is observable as a warning.
pub proof fn lemma_first_default_wins(groups: Seq<GroupModel>, g1: int, g2: int)
    requires
        0 <= g1 < g2 < groups.len(),
        groups[g1].is_default,
        groups[g2].is_default,
        forall|k: int| 0 <= k < g1 ==> !(#[trigger] groups[k]).is_default,
    ensures
        profile(table_entries(groups, groups.len() as int), Seq::<u8>::empty()) == group_profs(
            groups[g1],
            handler_count(groups, g1),
        ),
        table_warns(groups, groups.len() as int).contains(
            CompileWarning::DuplicateDefault { group: g2 as usize },
        ),
{
    let n = groups.len() as int;
    lemma_default_before_none(groups, g1);
    assert(take_default_at(groups, g1));
    lemma_group_names_empty(groups[g1].hosts, true);
    assert forall|k: int|
        0 <= k < n && k != g1 implies !group_names(
        (#[trigger] groups[k]).hosts,
        take_default_at(groups, k),
    ).contains(Seq::<u8>::empty()) by {
        if k > g1 {
            lemma_default_before_some(groups, g1, k);
        }
        assert(!take_default_at(groups, k));
        lemma_group_names_empty(groups[k].hosts, false);
    }
    lemma_table_profile_present(groups, n, g1, Seq::<u8>::empty());
    lemma_default_before_some(groups, g1, g2);
    let gw = group_warns(groups[g2], g2, groups[g2].is_default && default_before(groups, g2));
    assert(gw[0] == (CompileWarning::DuplicateDefault { group: g2 as usize }));
    assert(gw.contains(CompileWarning::DuplicateDefault { group: g2 as usize }));
    lemma_table_warns_contains(
        groups,
        g2,
        n,
        CompileWarning::DuplicateDefault { group: g2 as usize },
    );
}

/// Law: a request whose host no entry registered is unhandled when no
/// entry holds the default role — lookup selects nothing, whatever the
/// path.
pub proof fn lemma_unregistered_host_unhandled(
    groups: Seq<GroupModel>,
    host: Seq<u8>,
    path: Seq<u8>,
)
    requires
        forall|k: int|
            0 <= k < groups.len() ==> !group_names(
                (#[trigger] groups[k]).hosts,
                take_default_at(groups, k),
            ).contains(host),
        forall|k: int| 0 <= k < groups.len() ==> !(#[trigger] groups[k]).is_default,
    ensures
        lookup_spec(table_entries(groups, groups.len() as int), host, path) is None,
{
    let n = groups.len() as int;
    let tv = table_entries(groups, n);
    lemma_table_profile_absent(groups, n, host);
    lemma_profile_member(tv, host);
    assert forall|k: int|
        0 <= k < n implies !group_names(
        (#[trigger] groups[k]).hosts,
        take_default_at(groups, k),
    ).contains(Seq::<u8>::empty()) by {
        assert(!take_default_at(groups, k));
        lemma_group_names_empty(groups[k].hosts, false);
    }
    lemma_table_profile_absent(groups, n, Seq::<u8>::empty());
    lemma_profile_member(tv, Seq::<u8>::empty());
    assert(sel_host(tv, host) == Seq::<u8>::empty());
    lemma_best_none_if_absent(tv, Seq::<u8>::empty(), crate::segments::segments_of(path), tv.len() as int);
}

/// Law: with a default host configured, a request whose host no entry
/// registered is still served — lookup selects an entry of the default
/// host, whatever the path.
pub proof fn lemma_default_fallback(
    groups: Seq<GroupModel>,
    g1: int,
    host: Seq<u8>,
    path: Seq<u8>,
)
    requires
        0 <= g1 < groups.len(),
        groups[g1].is_default,
        forall|k: int| 0 <= k < g1 ==> !(#[trigger] groups[k]).is_default,
        forall|k: int|
            0 <= k < groups.len() ==> !group_names(
                (#[trigger] groups[k]).hosts,
                take_default_at(groups, k),
            ).contains(host),
    ensures
        ({
            let tv = table_entries(groups, groups.len() as int);
            lookup_spec(tv, host, path) matches Some(i) && tv[i].host == Seq::<u8>::empty()
        }),
{
    let n = groups.len() as int;
    let tv = table_entries(groups, n);
    let psegs = crate::segments::segments_of(path);
    lemma_table_profile_absent(groups, n, host);
    lemma_profile_member(tv, host);
    lemma_default_before_none(groups, g1);
    assert(take_default_at(groups, g1));
    lemma_group_names_empty(groups[g1].hosts, true);
    assert forall|k: int|
        0 <= k < n && k != g1 implies !group_names(
        (#[trigger] groups[k]).hosts,
        take_default_at(groups, k),
    ).contains(Seq::<u8>::empty()) by {
        if k > g1 {
            lemma_default_before_some(groups, g1, k);
        }
        assert(!take_default_at(groups, k));
        lemma_group_names_empty(groups[k].hosts, false);
    }
    lemma_table_profile_present(groups, n, g1, Seq::<u8>::empty());
    assert(profile(tv, Seq::<u8>::empty())[0] == (ProfModel {
        segments: Seq::empty(),
        exact: false,
        strip: false,
        hid: handler_count(groups, g1),
    }));
    lemma_profile_index(tv, Seq::<u8>::empty(), 0);
    let w = choose|w: int|
        0 <= w < tv.len() && (#[trigger] tv[w]).host == Seq::<u8>::empty() && prof(tv[w])
            == profile(tv, Seq::<u8>::empty())[0];
    assert(Seq::<Seq<u8>>::empty().is_prefix_of(psegs)) by {
        assert(psegs.take(0) =~= Seq::<Seq<u8>>::empty());
    }
    assert(entry_matches(tv[w], psegs));
    assert(sel_host(tv, host) == Seq::<u8>::empty());
    lemma_best_some_if_match(tv, Seq::<u8>::empty(), psegs, tv.len() as int, w);
    crate::table::lemma_best_upto_props(
        tv,
        Seq::<u8>::empty(),
        psegs,
        tv.len() as int,
    );
}

/// Law: stripping a matched prefix of `k` segments removes exactly those
/// segments — the remainder's segments are the path's remaining segments.
/// The remainder itself keeps its raw bytes, consecutive separators
/// included, since it is a literal suffix of the path.
pub proof fn lemma_strip_removes_matched_segments(p: Seq<u8>, k: nat)
    requires
        k <= crate::segments::segments_of(p).len(),
    ensures
        crate::segments::segments_of(crate::segments::after_segments(p, k))
            == crate::segments::segments_of(p).skip(k as int),
    decreases p.len(),
{
    let seg = crate::segments::segments_of(p);
    if k == 0 {
        assert(seg.skip(0) =~= seg);
    } else if p.len() == 0 {
        assert(false);
    } else if p[0] == crate::segments::SEP {
        lemma_strip_removes_matched_segments(p.drop_first(), k);
    } else {
        crate::segments::lemma_first_seg_len_bound(p.drop_first());
        let n = 1 + crate::segments::first_seg_len(p.drop_first());
        let rest = p.skip(n as int);
        assert(seg == seq![p.take(n as int)] + crate::segments::segments_of(rest));
        assert(k - 1 <= crate::segments::segments_of(rest).len());
        lemma_strip_removes_matched_segments(rest, (k - 1) as nat);
        assert(seg.skip(k as int) =~= crate::segments::segments_of(rest).skip(k - 1));
    }
}

/// Law: a selection recorded only in the session-attached token — the
/// context field empty or the context absent altogether — is recovered by
/// the later phases exactly as a selection recorded in the context.
pub proof fn lemma_token_recovery(
    entries: Seq<EntryModel>,
    host: Seq<u8>,
    path: Seq<u8>,
    tok: usize,
)
    requires
        lookup_spec(entries, host, path) == Some(tok as int),
    ensures
        recovered_handler(entries, None, Some(tok)) == Some(entries[tok as int].hid),
        recovered_handler(entries, None, Some(tok)) == recovered_handler(
            entries,
            Some(tok),
            None,
        ),
{
    crate::table::lemma_best_upto_props(
        entries,
        sel_host(entries, host),
        crate::segments::segments_of(path),
        entries.len() as int,
    );
}

} // verus!
