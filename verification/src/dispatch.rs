//! Request dispatch across the four request-lifecycle phases.
//!
//! The selection phase is the only one that looks a request's host and path
//! up in the table. It records the selected entry's index twice: in the
//! per-request context and as a session-attached token, because a later
//! phase may run with a fresh context — or, for response shaping, with no
//! context at all. The later phases recover the handler from the context
//! index first and the session token second, and degrade to a no-op when
//! neither holds a valid index. When the selected entry carries the strip
//! marker, the selection phase rewrites the request path in place: the
//! matched segments are removed, an empty remainder becomes `/`, and the
//! query component is kept unchanged.

use vstd::prelude::*;

use crate::segments::{after_segments, query_start, segments_of, SEP};
use crate::table::{lookup_spec, EntryModel, VirtualHostsHandler};

verus! {

/// The per-request view of the session, as this dispatch layer reads and
/// writes it: the resolved host name (empty when the request carries none),
/// the raw request path with its query component, and the session-attached
/// slot holding the cross-phase selection token.
pub struct Session {
    /// Request host, resolved by the surrounding transport; empty for none.
    pub host: Vec<u8>,
    /// Raw request path, the query component (from the first `?`) included.
    pub path_and_query: Vec<u8>,
    /// Session-attached token: the selected entry, surviving lost contexts.
    pub token: Option<usize>,
}

/// Context for the virtual hosts handler: the selected entry's index and
/// the downstream handler's own context.
pub struct VirtualHostsCtx<Ctx> {
    /// Index of the entry selected for this request, once one is selected.
    pub index: Option<usize>,
    /// The downstream handler's context.
    pub handler: Ctx,
}

impl<Ctx> VirtualHostsCtx<Ctx> {
    /// A fresh context around the downstream handler's context: nothing is
    /// selected yet.
    pub fn new_ctx(handler: Ctx) -> (r: Self)
        ensures
            r.index is None,
            r.handler == handler,
    {
        VirtualHostsCtx { index: None, handler }
    }
}

/// The path component of a raw path-and-query: everything before the first
/// `?`.
pub open spec fn request_path(pq: Seq<u8>) -> Seq<u8> {
    pq.take(query_start(pq))
}

/// The raw path-and-query after stripping the first `k` path segments: an
/// empty remainder becomes `/`, and the query component is kept unchanged.
pub open spec fn stripped_pq(pq: Seq<u8>, k: nat) -> Seq<u8> {
    let rem = after_segments(request_path(pq), k);
    (if rem.len() == 0 {
        seq![SEP]
    } else {
        rem
    }) + pq.skip(query_start(pq))
}

/// The index a later phase recovers the selection from: the context field
/// first, the session token second.
pub open spec fn recover_index(ctx_index: Option<usize>, token: Option<usize>) -> Option<usize> {
    if ctx_index is Some {
        ctx_index
    } else {
        token
    }
}

/// The handler a later phase acts for, given what it can recover: the
/// entry's handler if the recovered index is valid, none otherwise.
pub open spec fn recovered_handler(
    entries: Seq<EntryModel>,
    ctx_index: Option<usize>,
    token: Option<usize>,
) -> Option<int> {
    match recover_index(ctx_index, token) {
        Some(i) => if (i as int) < entries.len() {
            Some(entries[i as int].hid)
        } else {
            None
        },
        None => None,
    }
}

impl<H> VirtualHostsHandler<H> {
    /// Selection phase, the first and only phase that looks host and path
    /// up. On a match it records the entry's index in the context and as
    /// the session token, rewrites the path if the matched rule strips its
    /// prefix, and returns the handler to delegate to; on a miss it leaves
    /// request state untouched and returns nothing, the unhandled outcome.
    pub fn request_filter<'a, Ctx>(
        &'a self,
        session: &mut Session,
        ctx: &mut VirtualHostsCtx<Ctx>,
    ) -> (r: Option<&'a H>)
        ensures
            ({
                let res = lookup_spec(
                    self.table(),
                    old(session).host@,
                    request_path(old(session).path_and_query@),
                );
                &&& (r is Some <==> res is Some)
                &&& (res is None ==> *final(session) == *old(session) && *final(ctx) == *old(
                    ctx,
                ))
                &&& (res matches Some(i) ==> {
                    let e = self.table()[i];
                    &&& (r matches Some(h) && *h == self.pool()[e.hid])
                    &&& final(ctx).index == Some(i as usize)
                    &&& final(ctx).handler == old(ctx).handler
                    &&& final(session).host == old(session).host
                    &&& final(session).token == Some(i as usize)
                    &&& final(session).path_and_query@ == (if e.strip {
                        stripped_pq(old(session).path_and_query@, e.segments.len())
                    } else {
                        old(session).path_and_query@
                    })
                })
            }),
    {
        let qpos = crate::segments::find_query(session.path_and_query.as_slice());
        let path = vstd::slice::slice_to_vec(
            vstd::slice::slice_subrange(session.path_and_query.as_slice(), 0, qpos),
        );
        let m = self.lookup(session.host.as_slice(), path.as_slice());
        match m {
            None => None,
            Some(i) => {
                proof {
                    use_type_invariant(self);
                    crate::table::lemma_best_upto_props(
                        self.table(),
                        crate::table::sel_host(self.table(), session.host@),
                        segments_of(path@),
                        self.table().len() as int,
                    );
                }
                ctx.index = Some(i);
                session.token = Some(i);
                let e = self.entry_at(i);
                if e.strip {
                    proof {
                        if e@.exact {
                            assert(e@.segments.len() == segments_of(path@).len());
                        } else {
                            assert(e@.segments.is_prefix_of(segments_of(path@)));
                        }
                    }
                    let mut new_pq = crate::segments::strip_segments(
                        path.as_slice(),
                        e.segments.len(),
                    );
                    if new_pq.len() == 0 {
                        new_pq.push(SEP);
                        proof {
                            assert(new_pq@ =~= seq![SEP]);
                        }
                    }
                    let mut suffix = vstd::slice::slice_to_vec(
                        vstd::slice::slice_subrange(
                            session.path_and_query.as_slice(),
                            qpos,
                            session.path_and_query.len(),
                        ),
                    );
                    new_pq.append(&mut suffix);
                    proof {
                        assert(new_pq@ =~= stripped_pq(
                            session.path_and_query@,
                            e@.segments.len(),
                        ));
                    }
                    session.path_and_query = new_pq;
                }
                Some(self.handler_at(self.entry_at(i).hid))
            },
        }
    }

    /// Retrieves the handler which was previously called for this virtual
    /// host.
    ///
    /// This returns nothing if the selection phase was not called for this
    /// context yet or did not find a matching handler.
    pub fn as_inner<'a, Ctx>(&'a self, ctx: &VirtualHostsCtx<Ctx>) -> (r: Option<&'a H>)
        ensures
            ({
                let rec = recovered_handler(self.table(), ctx.index, None);
                &&& (rec matches Some(hid) ==> (r matches Some(h) && *h == self.pool()[hid]))
                &&& (rec is None ==> r is None)
            }),
    {
        match ctx.index {
            Some(i) => self.retrieve(i),
            None => None,
        }
    }

    /// Upstream-peer phase: recovers the selected handler from the context
    /// index, falling back to the session token, and returns it so the
    /// caller can delegate peer selection; with nothing to recover the
    /// caller reports that no peer was chosen.
    pub fn upstream_peer<'a, Ctx>(
        &'a self,
        session: &Session,
        ctx: &VirtualHostsCtx<Ctx>,
    ) -> (r: Option<&'a H>)
        ensures
            ({
                let rec = recovered_handler(self.table(), ctx.index, session.token);
                &&& (rec matches Some(hid) ==> (r matches Some(h) && *h == self.pool()[hid]))
                &&& (rec is None ==> r is None)
            }),
    {
        match ctx.index {
            Some(i) => self.retrieve(i),
            None => match session.token {
                Some(i) => self.retrieve(i),
                None => None,
            },
        }
    }

    /// Response-shaping phase: may run without any context, so recovery
    /// uses the context index only if a context is present, then the
    /// session token; with nothing to recover the phase is a no-op.
    pub fn response_filter<'a, Ctx>(
        &'a self,
        session: &Session,
        ctx: Option<&VirtualHostsCtx<Ctx>>,
    ) -> (r: Option<&'a H>)
        ensures
            ({
                let ci = match ctx {
                    Some(c) => c.index,
                    None => None,
                };
                let rec = recovered_handler(self.table(), ci, session.token);
                &&& (rec matches Some(hid) ==> (r matches Some(h) && *h == self.pool()[hid]))
                &&& (rec is None ==> r is None)
            }),
    {
        let ci = match ctx {
            Some(c) => c.index,
            None => None,
        };
        match ci {
            Some(i) => self.retrieve(i),
            None => match session.token {
                Some(i) => self.retrieve(i),
                None => None,
            },
        }
    }

    /// Logging phase, the last one: recovers the selected handler like the
    /// upstream-peer phase and returns it so the caller can delegate
    /// logging, together with any terminal error of the pipeline.
    pub fn logging<'a, Ctx>(
        &'a self,
        session: &Session,
        ctx: &VirtualHostsCtx<Ctx>,
    ) -> (r: Option<&'a H>)
        ensures
            ({
                let rec = recovered_handler(self.table(), ctx.index, session.token);
                &&& (rec matches Some(hid) ==> (r matches Some(h) && *h == self.pool()[hid]))
                &&& (rec is None ==> r is None)
            }),
    {
        self.upstream_peer(session, ctx)
    }
}

} // verus!
