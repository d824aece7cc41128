//! The compiled routing table.
//!
//! A table is a flat, ordered list of routing entries plus the pool of
//! downstream handlers they point at. Each entry carries a host name, a path
//! rule (segments plus an exact flag), a strip marker and the index of its
//! handler in the pool. An entry's position in the list is its stable,
//! zero-based identity: later request phases recall the selected handler by
//! this index alone, never by a second host/path lookup.
//!
//! Lookup picks the host class first (entries whose host equals the request
//! host if any exist, otherwise the empty-string default-host entries), then
//! the best match within the class: exact rules beat prefix rules, longer
//! prefixes beat shorter ones, and on equal precedence the entry registered
//! last wins.

use vstd::prelude::*;

use crate::segments::{segments_of, view_segs};

verus! {

/// One routing entry of the compiled table.
pub struct TableEntry {
    /// Host name this entry is registered under; empty for the default host.
    pub host: Vec<u8>,
    /// Path rule, as normalized segments.
    pub segments: Vec<Vec<u8>>,
    /// Whether the rule requires full path equality rather than a prefix.
    pub exact: bool,
    /// Whether a match rewrites the path by stripping the matched segments.
    pub strip: bool,
    /// Index of the entry's handler in the table's handler pool.
    pub hid: usize,
}

/// Mathematical model of one routing entry.
pub ghost struct EntryModel {
    pub host: Seq<u8>,
    pub segments: Seq<Seq<u8>>,
    pub exact: bool,
    pub strip: bool,
    pub hid: int,
}

impl View for TableEntry {
    type V = EntryModel;

    open spec fn view(&self) -> EntryModel {
        EntryModel {
            host: self.host@,
            segments: view_segs(self.segments@),
            exact: self.exact,
            strip: self.strip,
            hid: self.hid as int,
        }
    }
}

/// The model of a whole entry list.
pub open spec fn entry_seq(v: Seq<TableEntry>) -> Seq<EntryModel> {
    Seq::new(v.len(), |i: int| v[i]@)
}

/// Whether entry `e` matches a request path with segments `psegs`.
pub open spec fn entry_matches(e: EntryModel, psegs: Seq<Seq<u8>>) -> bool {
    if e.exact {
        e.segments == psegs
    } else {
        e.segments.is_prefix_of(psegs)
    }
}

/// Match precedence: `a` ranks no higher than `b`. Exact rules outrank
/// prefix rules; among prefix rules a longer one outranks a shorter one.
pub open spec fn rank_le(a: EntryModel, b: EntryModel) -> bool {
    (!a.exact && b.exact) || (a.exact == b.exact && a.segments.len() <= b.segments.len())
}

/// Whether some entry of `entries` is registered under host `h`.
pub open spec fn host_present(entries: Seq<EntryModel>, h: Seq<u8>) -> bool {
    exists|i: int| 0 <= i < entries.len() && entries[i].host == h
}

/// The host class a request for `host` is served from: the host itself when
/// it is registered, the default (empty) host otherwise.
pub open spec fn sel_host(entries: Seq<EntryModel>, host: Seq<u8>) -> Seq<u8> {
    if host_present(entries, host) {
        host
    } else {
        Seq::empty()
    }
}

/// Index of the best match for `psegs` among the first `n` entries whose
/// host is `host`: highest rank first, later registration breaking ties.
pub open spec fn best_upto(
    entries: Seq<EntryModel>,
    host: Seq<u8>,
    psegs: Seq<Seq<u8>>,
    n: int,
) -> Option<int>
    decreases n,
{
    if n <= 0 {
        None
    } else {
        let prev = best_upto(entries, host, psegs, n - 1);
        if entries[n - 1].host == host && entry_matches(entries[n - 1], psegs) {
            match prev {
                None => Some(n - 1),
                Some(p) => if rank_le(entries[p], entries[n - 1]) {
                    Some(n - 1)
                } else {
                    Some(p)
                },
            }
        } else {
            prev
        }
    }
}

/// Index of the entry a request for `host` and path `path` resolves to.
pub open spec fn lookup_spec(entries: Seq<EntryModel>, host: Seq<u8>, path: Seq<u8>) -> Option<
    int,
> {
    best_upto(entries, sel_host(entries, host), segments_of(path), entries.len() as int)
}

pub proof fn lemma_best_upto_props(
    entries: Seq<EntryModel>,
    host: Seq<u8>,
    psegs: Seq<Seq<u8>>,
    n: int,
)
    requires
        n <= entries.len(),
    ensures
        best_upto(entries, host, psegs, n) matches Some(i) ==> 0 <= i < n
            && entries[i].host == host && entry_matches(entries[i], psegs),
    decreases n,
{
    if n > 0 {
        lemma_best_upto_props(entries, host, psegs, n - 1);
    }
}

/// Law: the selected entry has the highest rank of every matching entry of
/// its host class — in particular an exact rule outranks every overlapping
/// prefix rule — and every matching entry registered after it ranks
/// strictly below it: on equal precedence the latest registration wins.
pub proof fn lemma_best_is_max_rank(
    entries: Seq<EntryModel>,
    host: Seq<u8>,
    psegs: Seq<Seq<u8>>,
    n: int,
)
    requires
        n <= entries.len(),
    ensures
        best_upto(entries, host, psegs, n) matches Some(i) ==> forall|w: int|
            0 <= w < n && (#[trigger] entries[w]).host == host && entry_matches(
                entries[w],
                psegs,
            ) ==> rank_le(entries[w], entries[i]),
        best_upto(entries, host, psegs, n) matches Some(i) ==> forall|w: int|
            i < w < n && (#[trigger] entries[w]).host == host && entry_matches(
                entries[w],
                psegs,
            ) ==> !rank_le(entries[i], entries[w]),
    decreases n,
{
    if n > 0 {
        lemma_best_is_max_rank(entries, host, psegs, n - 1);
        lemma_best_upto_props(entries, host, psegs, n - 1);
        let prev = best_upto(entries, host, psegs, n - 1);
        let cur = best_upto(entries, host, psegs, n);
        if entries[n - 1].host == host && entry_matches(entries[n - 1], psegs) {
            match prev {
                None => {
                    assert forall|w: int|
                        0 <= w < n && (#[trigger] entries[w]).host == host && entry_matches(
                            entries[w],
                            psegs,
                        ) implies rank_le(entries[w], entries[n - 1]) by {
                        if w < n - 1 {
                            assert(best_upto(entries, host, psegs, n - 1) is Some) by {
                                lemma_best_some_if_match(entries, host, psegs, n - 1, w);
                            }
                        }
                    }
                },
                Some(p) => {
                    if rank_le(entries[p], entries[n - 1]) {
                        assert(cur == Some(n - 1));
                        assert forall|w: int|
                            0 <= w < n && (#[trigger] entries[w]).host == host
                                && entry_matches(entries[w], psegs) implies rank_le(
                            entries[w],
                            entries[n - 1],
                        ) by {
                            if w < n - 1 {
                                assert(rank_le(entries[w], entries[p]));
                            }
                        }
                    } else {
                        assert(cur == Some(p));
                    }
                },
            }
        }
    }
}

/// A class with some matching entry yields a selection.
pub proof fn lemma_best_some_if_match(
    entries: Seq<EntryModel>,
    host: Seq<u8>,
    psegs: Seq<Seq<u8>>,
    n: int,
    w: int,
)
    requires
        0 <= w < n <= entries.len(),
        entries[w].host == host,
        entry_matches(entries[w], psegs),
    ensures
        best_upto(entries, host, psegs, n) is Some,
    decreases n,
{
    if w < n - 1 {
        lemma_best_some_if_match(entries, host, psegs, n - 1, w);
    }
}

/// A class with no entry at all yields no selection.
pub proof fn lemma_best_none_if_absent(
    entries: Seq<EntryModel>,
    host: Seq<u8>,
    psegs: Seq<Seq<u8>>,
    n: int,
)
    requires
        n <= entries.len(),
        !host_present(entries, host),
    ensures
        best_upto(entries, host, psegs, n) is None,
    decreases n,
{
    if n > 0 {
        lemma_best_none_if_absent(entries, host, psegs, n - 1);
        if entries[n - 1].host == host {
            assert(host_present(entries, host));
        }
    }
}

/// Law: when any exact rule of the host class matches the path, the
/// selected entry is an exact rule — an exact rule is never shadowed by a
/// prefix rule.
pub proof fn lemma_exact_outranks_prefix(
    entries: Seq<EntryModel>,
    host: Seq<u8>,
    psegs: Seq<Seq<u8>>,
    n: int,
    w: int,
)
    requires
        0 <= w < n <= entries.len(),
        entries[w].host == host,
        entries[w].exact,
        entry_matches(entries[w], psegs),
    ensures
        best_upto(entries, host, psegs, n) matches Some(i) && entries[i].exact,
{
    lemma_best_some_if_match(entries, host, psegs, n, w);
    lemma_best_is_max_rank(entries, host, psegs, n);
}

/// The compiled virtual-host dispatcher: the routing table and the pool of
/// downstream handlers it selects from.
pub struct VirtualHostsHandler<H> {
    /// Routing entries; a position in this list is the entry's identity.
    entries: Vec<TableEntry>,
    /// Downstream handlers, one per converted handler configuration.
    handlers: Vec<H>,
}

impl<H> VirtualHostsHandler<H> {
    /// Every entry points at a handler of the pool.
    #[verifier::type_invariant]
    pub closed spec fn wf(self) -> bool {
        forall|i: int|
            0 <= i < self.entries@.len() ==> (#[trigger] self.entries@[i]).hid
                < self.handlers@.len()
    }

    /// The model of the routing table.
    pub closed spec fn table(&self) -> Seq<EntryModel> {
        entry_seq(self.entries@)
    }

    /// The model of the handler pool.
    pub closed spec fn pool(&self) -> Seq<H> {
        self.handlers@
    }

    /// Assembles a table from its parts.
    pub(crate) fn from_parts(entries: Vec<TableEntry>, handlers: Vec<H>) -> (r: Self)
        requires
            forall|i: int|
                0 <= i < entries@.len() ==> (#[trigger] entries@[i]).hid < handlers@.len(),
        ensures
            r.table() == entry_seq(entries@),
            r.pool() == handlers@,
    {
        VirtualHostsHandler { entries, handlers }
    }

    /// Resolves a request host and path (query excluded) to the index of
    /// the routing entry that serves it.
    #[verifier::loop_isolation(false)]
    pub fn lookup(&self, host: &[u8], path: &[u8]) -> (r: Option<usize>)
        ensures
            r is Some <==> lookup_spec(self.table(), host@, path@) is Some,
            r matches Some(i) ==> lookup_spec(self.table(), host@, path@) == Some(i as int),
    {
        let psegs = crate::segments::split_segments(path);
        // decide the host class
        let mut present = false;
        let mut i: usize = 0;
        while i < self.entries.len()
            invariant
                i <= self.entries@.len(),
                present == host_present(entry_seq(self.entries@.take(i as int)), host@),
            decreases self.entries@.len() - i,
        {
            if crate::segments::bytes_eq(self.entries[i].host.as_slice(), host) {
                present = true;
            }
            proof {
                let prefix = entry_seq(self.entries@.take(i as int));
                let next = entry_seq(self.entries@.take(i + 1));
                assert(next =~= prefix.push(self.entries@[i as int]@));
                if self.entries@[i as int]@.host == host@ {
                    assert(next[i as int].host == host@);
                    assert(host_present(next, host@));
                } else if host_present(prefix, host@) {
                    let w = choose|w: int|
                        0 <= w < prefix.len() && prefix[w].host == host@;
                    assert(next[w].host == host@);
                    assert(host_present(next, host@));
                } else if host_present(next, host@) {
                    let w = choose|w: int| 0 <= w < next.len() && next[w].host == host@;
                    assert(w < i ==> prefix[w] == next[w]);
                    assert(false);
                }
            }
            i = i + 1;
        }
        proof {
            assert(self.entries@.take(self.entries@.len() as int) =~= self.entries@);
        }
        let ghost cls = sel_host(self.table(), host@);
        // find the best match within the class
        let mut best: Option<usize> = None;
        let mut j: usize = 0;
        while j < self.entries.len()
            invariant
                j <= self.entries@.len(),
                best is Some <==> best_upto(self.table(), cls, segments_of(path@), j as int)
                    is Some,
                best matches Some(b) ==> b < j && best_upto(
                    self.table(),
                    cls,
                    segments_of(path@),
                    j as int,
                ) == Some(b as int),
            decreases self.entries@.len() - j,
        {
            let e = &self.entries[j];
            let host_ok = if present {
                crate::segments::bytes_eq(e.host.as_slice(), host)
            } else {
                e.host.len() == 0
            };
            proof {
                if !present {
                    assert(e.host@.len() == 0 ==> e.host@ =~= Seq::<u8>::empty());
                    assert(e.host@ == Seq::<u8>::empty() ==> e.host@.len() == 0);
                }
            }
            if host_ok && entry_match(e, &psegs) {
                best = match best {
                    None => Some(j),
                    Some(b) => {
                        let eb = &self.entries[b];
                        if (!eb.exact && e.exact) || (eb.exact == e.exact
                            && eb.segments.len() <= e.segments.len()) {
                            Some(j)
                        } else {
                            Some(b)
                        }
                    },
                };
            }
            j = j + 1;
        }
        best
    }

    /// The entry at a valid index.
    pub(crate) fn entry_at(&self, i: usize) -> (e: &TableEntry)
        requires
            (i as int) < self.table().len(),
        ensures
            e@ == self.table()[i as int],
            e@.hid < self.pool().len(),
    {
        proof {
            use_type_invariant(self);
        }
        &self.entries[i]
    }

    /// The handler at a valid pool index.
    pub(crate) fn handler_at(&self, hid: usize) -> (h: &H)
        requires
            (hid as int) < self.pool().len(),
        ensures
            *h == self.pool()[hid as int],
    {
        &self.handlers[hid]
    }

    /// Returns the handler of the entry at `index`, the identity assigned
    /// at build time, without any host or path lookup.
    pub fn retrieve(&self, index: usize) -> (r: Option<&H>)
        ensures
            (index as int) < self.table().len() ==> (r matches Some(h) && *h
                == self.pool()[self.table()[index as int].hid]),
            (index as int) >= self.table().len() ==> r is None,
    {
        proof {
            use_type_invariant(self);
        }
        if index < self.entries.len() {
            Some(&self.handlers[self.entries[index].hid])
        } else {
            None
        }
    }
}

/// Whether `e` matches a path with segments `psegs`.
fn entry_match(e: &TableEntry, psegs: &Vec<Vec<u8>>) -> (r: bool)
    ensures
        r <==> entry_matches(e@, view_segs(psegs@)),
{
    if e.exact {
        segs_eq(&e.segments, psegs)
    } else {
        segs_prefix_of(&e.segments, psegs)
    }
}

/// Segment-wise equality of two segment lists.
#[verifier::loop_isolation(false)]
fn segs_eq(a: &Vec<Vec<u8>>, b: &Vec<Vec<u8>>) -> (r: bool)
    ensures
        r <==> view_segs(a@) == view_segs(b@),
{
    if a.len() != b.len() {
        proof {
            assert(view_segs(a@).len() != view_segs(b@).len());
        }
        return false;
    }
    let mut i: usize = 0;
    while i < a.len()
        invariant
            i <= a@.len(),
            forall|t: int| 0 <= t < i ==> view_segs(a@)[t] == view_segs(b@)[t],
        decreases a@.len() - i,
    {
        if !crate::segments::bytes_eq(a[i].as_slice(), b[i].as_slice()) {
            proof {
                assert(view_segs(a@)[i as int] == a@[i as int]@);
                assert(view_segs(b@)[i as int] == b@[i as int]@);
            }
            return false;
        }
        i = i + 1;
    }
    proof {
        assert(view_segs(a@) =~= view_segs(b@));
    }
    true
}

/// Whether segment list `a` is a prefix of segment list `b`.
#[verifier::loop_isolation(false)]
fn segs_prefix_of(a: &Vec<Vec<u8>>, b: &Vec<Vec<u8>>) -> (r: bool)
    ensures
        r <==> view_segs(a@).is_prefix_of(view_segs(b@)),
{
    if a.len() > b.len() {
        return false;
    }
    let mut i: usize = 0;
    while i < a.len()
        invariant
            i <= a@.len(),
            a@.len() <= b@.len(),
            forall|t: int| 0 <= t < i ==> view_segs(a@)[t] == view_segs(b@)[t],
        decreases a@.len() - i,
    {
        if !crate::segments::bytes_eq(a[i].as_slice(), b[i].as_slice()) {
            proof {
                assert(view_segs(b@).take(a@.len() as int)[i as int] == view_segs(b@)[i as int]);
            }
            return false;
        }
        i = i + 1;
    }
    proof {
        assert(view_segs(a@) =~= view_segs(b@).take(a@.len() as int));
    }
    true
}

} // verus!
