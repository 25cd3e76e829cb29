//! The service registry: owns the dependency graph of service descriptors, a
//! redirection table from names and capability tags to graph handles, and a
//! per-service runtime-state table; links descriptor batches into the graph
//! and decides the start orchestration.

use vstd::prelude::*;
use crate::command::Command;
use crate::dep_graph::{seq_views, CycleError, DepGraph, Index};
use crate::maps::{IndexMap, StrMap};
use crate::service::{CredWarning, MethodError, Service, ServiceState};

verus! {

/// A dependency name that could not be resolved when a batch was linked: the
/// edge is dropped (never repaired later) and the dependent still starts once
/// its resolvable dependencies are satisfied.
#[derive(Debug, PartialEq, Eq)]
pub struct LinkWarning {
    /// The service whose dependency list names the missing name.
    pub service: String,
    /// The name or capability tag that no registered service provides.
    pub dependency: String,
}

/// The decision `start_service` reaches for one service.
#[derive(Debug)]
pub enum StartAction {
    /// The service is already Online; nothing is launched.
    AlreadyOnline,
    /// Launch this request, then report the outcome with
    /// `note_start_result`; the warnings are credential names that could not
    /// be honoured.
    Launch(Command, Vec<CredWarning>),
}

/// Why a start attempt produced no launch request.
#[derive(Clone, Copy, Debug, PartialEq, Eq)]
pub enum StartError {
    /// The handle names no registered service.
    ServiceNotFound,
    /// The service's "start" method could not be resolved.
    Method(MethodError),
}

/// The redirection table after registering the tags of one list, in order,
/// all pointing at `i`.
pub open spec fn spec_register_tags(
    m: Map<Seq<char>, Index>,
    tags: Seq<String>,
    i: Index,
) -> Map<Seq<char>, Index>
    decreases tags.len(),
{
    if tags.len() == 0 {
        m
    } else {
        spec_register_tags(m, tags.drop_last(), i).insert(tags.last()@, i)
    }
}

/// The redirection table after registering one service at `i`: first its
/// provided capability tags, then its own name, so the name wins a collision
/// with one of its own tags; a later registration of an equal name wins over
/// an earlier one.
pub open spec fn spec_register_service(
    m: Map<Seq<char>, Index>,
    s: Service,
    i: Index,
) -> Map<Seq<char>, Index> {
    spec_register_tags(
        m,
        match s.provides {
            Some(p) => p@,
            None => Seq::empty(),
        },
        i,
    ).insert(s.name@, i)
}

/// The redirection table after registering a whole batch, in order.
pub open spec fn spec_register_batch(
    m: Map<Seq<char>, Index>,
    services: Seq<Service>,
    idxs: Seq<Index>,
) -> Map<Seq<char>, Index>
    decreases services.len(),
{
    if services.len() == 0 {
        m
    } else {
        spec_register_service(
            spec_register_batch(m, services.drop_last(), idxs.drop_last()),
            services.last(),
            idxs.last(),
        )
    }
}

/// The dependency names of a service, as written.
pub open spec fn spec_dep_names(s: Service) -> Seq<String> {
    match s.dependencies {
        Some(d) => d@,
        None => Seq::empty(),
    }
}

/// The graph edges a dependency-name list resolves to under a redirection
/// table: each resolvable name contributes its handle, in order; unresolved
/// names are dropped.
pub open spec fn spec_resolve_deps(names: Seq<String>, m: Map<Seq<char>, Index>) -> Seq<Index>
    decreases names.len(),
{
    if names.len() == 0 {
        Seq::empty()
    } else {
        spec_resolve_deps(names.drop_last(), m) + (if m.dom().contains(names.last()@) {
            seq![m[names.last()@]]
        } else {
            Seq::empty()
        })
    }
}

/// The warnings one service's dependency list yields under a redirection
/// table: one per unresolved name, in order.
pub open spec fn spec_unresolved_warnings(
    sname: String,
    names: Seq<String>,
    m: Map<Seq<char>, Index>,
) -> Seq<LinkWarning>
    decreases names.len(),
{
    if names.len() == 0 {
        Seq::empty()
    } else {
        spec_unresolved_warnings(sname, names.drop_last(), m) + (if m.dom().contains(
            names.last()@,
        ) {
            Seq::empty()
        } else {
            seq![LinkWarning { service: sname, dependency: names.last() }]
        })
    }
}

/// The warnings a whole batch yields, in order.
pub open spec fn spec_batch_warnings(
    services: Seq<Service>,
    m: Map<Seq<char>, Index>,
) -> Seq<LinkWarning>
    decreases services.len(),
{
    if services.len() == 0 {
        Seq::empty()
    } else {
        spec_batch_warnings(services.drop_last(), m) + spec_unresolved_warnings(
            services.last().name,
            spec_dep_names(services.last()),
            m,
        )
    }
}

/// Registering tags only adds bindings to `i`: every binding of the result
/// is either `i` or was already in `m`.
proof fn lemma_register_tags_targets(m: Map<Seq<char>, Index>, tags: Seq<String>, i: Index)
    ensures
        forall|k: Seq<char>|
            #[trigger] spec_register_tags(m, tags, i).dom().contains(k) ==> spec_register_tags(
                m,
                tags,
                i,
            )[k] == i || (m.dom().contains(k) && spec_register_tags(m, tags, i)[k] == m[k]),
    decreases tags.len(),
{
    if tags.len() > 0 {
        lemma_register_tags_targets(m, tags.drop_last(), i);
        assert forall|k: Seq<char>|
            #[trigger] spec_register_tags(m, tags, i).dom().contains(k) implies spec_register_tags(
            m,
            tags,
            i,
        )[k] == i || (m.dom().contains(k) && spec_register_tags(m, tags, i)[k] == m[k]) by {
            if k != tags.last()@ {
                assert(spec_register_tags(m, tags.drop_last(), i).dom().contains(k));
                assert(spec_register_tags(m, tags, i)[k] == spec_register_tags(
                    m,
                    tags.drop_last(),
                    i,
                )[k]);
            }
        }
    }
}

/// The registry: one dependency graph of services, the name/tag redirection
/// table, and the runtime-state table.
pub struct ServiceGraph {
    graph: DepGraph<Service>,
    redirect_map: StrMap<Index>,
    state_map: IndexMap<ServiceState>,
}

impl ServiceGraph {
    /// Internal well-formedness: the graph's own invariant holds, every
    /// redirection target is a present node, and only present nodes carry a
    /// runtime state.
    pub closed spec fn wf(self) -> bool {
        &&& self.graph.wf()
        &&& forall|k: Seq<char>|
            #[trigger] self.redirect_map@.dom().contains(k) ==> self.graph.spec_contains(
                self.redirect_map@[k],
            )
        &&& forall|i: Index|
            #[trigger] self.state_map@.dom().contains(i) ==> self.graph.spec_contains(i)
    }

    /// Whether `i` names a registered service.
    pub closed spec fn spec_contains(self, i: Index) -> bool {
        self.graph.spec_contains(i)
    }

    /// The descriptor registered at `i`.
    pub closed spec fn service_at(self, i: Index) -> Service {
        self.graph.value_of(i)
    }

    /// The resolved dependency edges of the service at `i`.
    pub closed spec fn deps_at(self, i: Index) -> Seq<Index> {
        self.graph.deps_of(i)
    }

    /// The redirection table: service names and capability tags to handles.
    pub closed spec fn redirect(self) -> Map<Seq<char>, Index> {
        self.redirect_map@
    }

    /// The runtime state recorded for `i`; a service with no recorded state
    /// counts as Offline.
    pub closed spec fn state_of(self, i: Index) -> ServiceState {
        if self.state_map@.dom().contains(i) {
            self.state_map@[i]
        } else {
            ServiceState::Offline
        }
    }

    /// The dependency graph itself, for stating resolution properties.
    pub closed spec fn spec_graph(self) -> DepGraph<Service> {
        self.graph
    }

    /// Register a batch of services: insert every descriptor into the graph
    /// (state Offline), register its name and every provided capability tag
    /// in the redirection table (the name over its own tags, later services
    /// over earlier ones), and only then — so that forward references within
    /// the batch resolve — link every declared dependency name through the
    /// table into a graph edge.  A name the table does not know yields a
    /// warning and the edge is dropped for good; nothing already registered
    /// changes.  Returns the handles assigned to the batch, in order, and the
    /// warnings.
    pub fn push_services(&mut self, services: Vec<Service>) -> (r: (Vec<Index>, Vec<LinkWarning>))
        requires
            old(self).wf(),
        ensures
            final(self).wf(),
            r.0@.len() == services@.len(),
            forall|a: int, b: int| 0 <= a < b < r.0@.len() ==> r.0@[a] != r.0@[b],
            forall|k: int|
                0 <= k < r.0@.len() ==> {
                    &&& final(self).spec_contains(#[trigger] r.0@[k])
                    &&& !old(self).spec_contains(r.0@[k])
                    &&& final(self).service_at(r.0@[k]) == services@[k]
                    &&& final(self).deps_at(r.0@[k]) == spec_resolve_deps(
                        spec_dep_names(services@[k]),
                        final(self).redirect(),
                    )
                    &&& final(self).state_of(r.0@[k]) is Offline
                },
            forall|i: Index|
                #[trigger] old(self).spec_contains(i) ==> final(self).spec_contains(i)
                    && final(self).service_at(i) == old(self).service_at(i)
                    && final(self).deps_at(i) == old(self).deps_at(i)
                    && final(self).state_of(i) == old(self).state_of(i),
            forall|i: Index|
                #[trigger] final(self).spec_contains(i) ==> old(self).spec_contains(i)
                    || r.0@.contains(i),
            final(self).redirect() == spec_register_batch(old(self).redirect(), services@, r.0@),
            r.1@ == spec_batch_warnings(services@, final(self).redirect()),
    {
        let mut services = services;
        let ghost all = services@;
        let ghost m0 = old(self).redirect();
        let n = services.len();
        self.graph.reserve(n);
        self.state_map.reserve(n);
        self.redirect_map.reserve(n);
        let mut idxs: Vec<Index> = Vec::new();
        for k in 0..n
            invariant
                self.wf(),
                n == all.len(),
                services@ =~= all.skip(k as int),
                idxs@.len() == k,
                forall|a: int, b: int| 0 <= a < b < idxs@.len() ==> idxs@[a] != idxs@[b],
                forall|k2: int|
                    0 <= k2 < idxs@.len() ==> {
                        &&& self.graph.spec_contains(#[trigger] idxs@[k2])
                        &&& !old(self).graph.spec_contains(idxs@[k2])
                        &&& self.graph.value_of(idxs@[k2]) == all[k2]
                        &&& self.graph.deps_of(idxs@[k2]) == Seq::<Index>::empty()
                        &&& self.state_map@.dom().contains(idxs@[k2])
                        &&& self.state_map@[idxs@[k2]] is Offline
                    },
                forall|i: Index|
                    #[trigger] old(self).graph.spec_contains(i) ==> self.graph.spec_contains(i)
                        && self.graph.value_of(i) == old(self).graph.value_of(i)
                        && self.graph.deps_of(i) == old(self).graph.deps_of(i),
                forall|i: Index|
                    #[trigger] self.graph.spec_contains(i) ==> old(self).graph.spec_contains(i)
                        || idxs@.contains(i),
                forall|i: Index|
                    !idxs@.contains(i) ==> (#[trigger] self.state_map@.dom().contains(i)
                        <==> old(self).state_map@.dom().contains(i))
                        && (old(self).state_map@.dom().contains(i) ==> self.state_map@[i] == old(self).state_map@[i]),
                self.redirect_map@ == spec_register_batch(m0, all.take(k as int), idxs@),
        {
            let ghost pre = *self;
            let ghost old_idxs = idxs@;
            let s = services.remove(0);
            proof {
                assert(services@ =~= all.skip(k + 1));
                assert(s == all[k as int]);
            }
            let name = s.name.clone();
            let mut provides: Vec<String> = Vec::new();
            if let Some(p) = &s.provides {
                let pn = p.len();
                for t in 0..pn
                    invariant
                        pn == p@.len(),
                        provides@ == p@.subrange(0, t as int),
                {
                    provides.push(p[t].clone());
                    proof {
                        assert(provides@ =~= p@.subrange(0, t + 1));
                    }
                }
                proof {
                    assert(provides@ =~= p@);
                }
            }
            let ghost stags = match all[k as int].provides {
                Some(p) => p@,
                None => Seq::<String>::empty(),
            };
            proof {
                assert(provides@ == stags);
            }
            let index = self.graph.insert(s);
            let ghost g1 = *self;
            let ghost mk = spec_register_batch(m0, all.take(k as int), old_idxs);
            proof {
                assert(self.redirect_map@ == mk);
            }
            let pn = provides.len();
            for t in 0..pn
                invariant
                    pn == provides@.len(),
                    provides@ == stags,
                    self.graph == g1.graph,
                    self.state_map == g1.state_map,
                    self.redirect_map@ == spec_register_tags(mk, stags.take(t as int), index),
            {
                self.redirect_map.insert(provides[t].clone(), index);
                proof {
                    assert(stags.take(t + 1).drop_last() =~= stags.take(t as int));
                    assert(stags.take(t + 1).last() == stags[t as int]);
                }
            }
            proof {
                assert(stags.take(pn as int) =~= stags);
            }
            self.redirect_map.insert(name, index);
            self.state_map.insert(index, ServiceState::default());
            idxs.push(index);
            proof {
                lemma_register_tags_targets(mk, stags, index);
                assert forall|kk: Seq<char>|
                    #[trigger] self.redirect_map@.dom().contains(kk) implies self.graph.spec_contains(
                    self.redirect_map@[kk],
                ) by {
                    if self.redirect_map@[kk] != index {
                        assert(spec_register_tags(mk, stags, index).dom().contains(kk));
                        assert(mk.dom().contains(kk) && self.redirect_map@[kk] == mk[kk]);
                        assert(pre.graph.spec_contains(mk[kk]));
                    }
                }
                assert forall|i: Index|
                    #[trigger] self.state_map@.dom().contains(i) implies self.graph.spec_contains(
                    i,
                ) by {
                    if i != index {
                        assert(pre.state_map@.dom().contains(i));
                        assert(pre.graph.spec_contains(i));
                    }
                }
                assert(!pre.state_map@.dom().contains(index));
                assert(idxs@.drop_last() =~= old_idxs);
                assert(idxs@.last() == index);
                assert(all.take(k + 1).drop_last() =~= all.take(k as int));
                assert(all.take(k + 1).last() == all[k as int]);
                assert(spec_register_batch(m0, all.take(k + 1), idxs@) == spec_register_service(
                    spec_register_batch(m0, all.take(k as int), old_idxs),
                    all[k as int],
                    index,
                ));
                assert(self.redirect_map@ == spec_register_tags(mk, stags, index).insert(
                    all[k as int].name@,
                    index,
                ));
                assert forall|i: Index|
                    !idxs@.contains(i) implies (#[trigger] self.state_map@.dom().contains(i)
                    <==> old(self).state_map@.dom().contains(i))
                    && (old(self).state_map@.dom().contains(i) ==> self.state_map@[i] == old(self).state_map@[i]) by {
                    assert(i != index);
                    assert(!old_idxs.contains(i));
                }
                assert forall|a: int, b: int|
                    0 <= a < b < idxs@.len() implies idxs@[a] != idxs@[b] by {
                    if b == idxs@.len() - 1 {
                        assert(pre.graph.spec_contains(idxs@[a]));
                        assert(!pre.graph.spec_contains(index));
                    }
                }
            }
        }
        proof {
            assert(all.take(n as int) =~= all);
        }
        let ghost m = self.redirect_map@;
        let mut warnings: Vec<LinkWarning> = Vec::new();
        let ghost phase1 = *self;
        for k in 0..n
            invariant
                self.wf(),
                n == all.len(),
                idxs@.len() == n,
                self.redirect_map@ == m,
                self.state_map == phase1.state_map,
                m == spec_register_batch(m0, all, idxs@),
                forall|a: int, b: int| 0 <= a < b < idxs@.len() ==> idxs@[a] != idxs@[b],
                forall|k2: int|
                    0 <= k2 < n ==> {
                        &&& self.graph.spec_contains(#[trigger] idxs@[k2])
                        &&& !old(self).graph.spec_contains(idxs@[k2])
                        &&& self.graph.value_of(idxs@[k2]) == all[k2]
                        &&& self.state_map@.dom().contains(idxs@[k2])
                        &&& self.state_map@[idxs@[k2]] is Offline
                    },
                forall|k2: int|
                    0 <= k2 < k ==> self.graph.deps_of(#[trigger] idxs@[k2]) == spec_resolve_deps(
                        spec_dep_names(all[k2]),
                        m,
                    ),
                forall|k2: int|
                    k <= k2 < n ==> self.graph.deps_of(#[trigger] idxs@[k2]) == Seq::<
                        Index,
                    >::empty(),
                forall|i: Index|
                    #[trigger] old(self).graph.spec_contains(i) ==> self.graph.spec_contains(i)
                        && self.graph.value_of(i) == old(self).graph.value_of(i)
                        && self.graph.deps_of(i) == old(self).graph.deps_of(i),
                forall|i: Index|
                    #[trigger] self.graph.spec_contains(i) ==> old(self).graph.spec_contains(i)
                        || idxs@.contains(i),
                forall|i: Index|
                    !idxs@.contains(i) ==> (#[trigger] self.state_map@.dom().contains(i)
                        <==> old(self).state_map@.dom().contains(i))
                        && (old(self).state_map@.dom().contains(i) ==> self.state_map@[i] == old(self).state_map@[i]),
                warnings@ == spec_batch_warnings(all.take(k as int), m),
        {
            let parent = idxs[k];
            let mut sname: String = String::new();
            let mut dep_names: Vec<String> = Vec::new();
            match self.graph.get(parent) {
                Some(service_ref) => {
                    sname = service_ref.name.clone();
                    if let Some(d) = &service_ref.dependencies {
                        let dn = d.len();
                        for t in 0..dn
                            invariant
                                dn == d@.len(),
                                dep_names@ == d@.subrange(0, t as int),
                        {
                            dep_names.push(d[t].clone());
                            proof {
                                assert(dep_names@ =~= d@.subrange(0, t + 1));
                            }
                        }
                        proof {
                            assert(dep_names@ =~= d@);
                        }
                    }
                },
                None => {
                    proof {
                        assert(false);
                    }
                },
            }
            proof {
                assert(dep_names@ == spec_dep_names(all[k as int]));
                assert(sname == all[k as int].name);
            }
            let ghost before = *self;
            let ghost base_warnings = warnings@;
            let dn = dep_names.len();
            for t in 0..dn
                invariant
                    self.wf(),
                    dn == dep_names@.len(),
                    dep_names@ == spec_dep_names(all[k as int]),
                    sname == all[k as int].name,
                    k < n,
                    n == all.len(),
                    idxs@.len() == n,
                    parent == idxs@[k as int],
                    self.redirect_map@ == m,
                    self.state_map == before.state_map,
                    self.graph.spec_contains(parent),
                    self.graph.deps_of(parent) == spec_resolve_deps(
                        dep_names@.subrange(0, t as int),
                        m,
                    ),
                    forall|i: Index|
                        i != parent ==> (#[trigger] self.graph.spec_contains(i) <==> before.graph.spec_contains(i)),
                    forall|i: Index|
                        i != parent && #[trigger] before.graph.spec_contains(i)
                            ==> self.graph.value_of(i) == before.graph.value_of(i)
                            && self.graph.deps_of(i) == before.graph.deps_of(i),
                    self.graph.value_of(parent) == before.graph.value_of(parent),
                    warnings@ == base_warnings + spec_unresolved_warnings(
                        all[k as int].name,
                        dep_names@.subrange(0, t as int),
                        m,
                    ),
            {
                let dep_name = &dep_names[t];
                let child_opt: Option<Index> = match self.redirect_map.get(dep_name.as_str()) {
                    Some(c) => Some(*c),
                    None => None,
                };
                match child_opt {
                    Some(child) => {
                        let ghost mid = *self;
                        let res = self.graph.dependency(parent, child);
                        proof {
                            assert(res is Ok);
                            assert forall|i: Index|
                                i != parent && #[trigger] before.graph.spec_contains(i)
                                    implies self.graph.value_of(i) == before.graph.value_of(i)
                                    && self.graph.deps_of(i) == before.graph.deps_of(i) by {
                                assert(mid.graph.spec_contains(i));
                            }
                            assert(dep_names@.subrange(0, t + 1).drop_last() =~= dep_names@.subrange(
                                0,
                                t as int,
                            ));
                            assert(self.graph.deps_of(parent) =~= spec_resolve_deps(
                                dep_names@.subrange(0, t + 1),
                                m,
                            ));
                        }
                    },
                    None => {
                        warnings.push(
                            LinkWarning { service: sname.clone(), dependency: dep_name.clone() },
                        );
                        proof {
                            assert(dep_names@.subrange(0, t + 1).drop_last() =~= dep_names@.subrange(
                                0,
                                t as int,
                            ));
                            assert(warnings@ =~= base_warnings + spec_unresolved_warnings(
                                all[k as int].name,
                                dep_names@.subrange(0, t + 1),
                                m,
                            ));
                        }
                    },
                }
            }
            proof {
                assert(dep_names@.subrange(0, dn as int) =~= dep_names@);
                assert(all.take(k + 1).drop_last() =~= all.take(k as int));
                assert(all.take(k + 1).last() == all[k as int]);
                assert(warnings@ == spec_batch_warnings(all.take(k + 1), m));
                assert(self.state_map == phase1.state_map);
                assert forall|i: Index|
                    !idxs@.contains(i) implies (#[trigger] self.state_map@.dom().contains(i)
                    <==> old(self).state_map@.dom().contains(i))
                    && (old(self).state_map@.dom().contains(i) ==> self.state_map@[i] == old(
                    self,
                ).state_map@[i]) by {
                    assert(self.state_map@ == phase1.state_map@);
                }
            }
        }
        proof {
            assert(all.take(n as int) =~= all);
        }
        (idxs, warnings)
    }

    /// Whether starting the service at `i` calls for an underlying launch: it
    /// is registered and not already Online.
    pub open spec fn wants_launch(self, i: Index) -> bool {
        self.spec_contains(i) && !(self.state_of(i) is Online)
    }

    /// Starting a service twice launches at most once: once it is Online, a
    /// start decision never asks for a launch again.
    pub proof fn lemma_online_never_launches(self, i: Index)
        requires
            self.state_of(i) is Online,
        ensures
            !self.wants_launch(i),
    {
    }

    /// Decide what starting the service at `index` requires.  Idempotent: a
    /// service already Online needs nothing.  Otherwise its "start" method is
    /// resolved into a launch request, which the caller performs, reporting
    /// the outcome through `note_start_result`; resolution failures are
    /// surfaced and the state is left as it was.
    pub fn start_service(&self, index: Index) -> (r: Result<StartAction, StartError>)
        ensures
            match r {
                Ok(StartAction::AlreadyOnline) => self.spec_contains(index) && self.state_of(
                    index,
                ) is Online,
                Ok(StartAction::Launch(c, w)) => self.wants_launch(index) && self.service_at(
                    index,
                ).method_command_ok("start"@, c, w@),
                Err(StartError::ServiceNotFound) => !self.spec_contains(index),
                Err(StartError::Method(e)) => self.wants_launch(index) && self.service_at(
                    index,
                ).method_command_err("start"@, e),
            },
    {
        let service = match self.graph.get(index) {
            Some(s) => s,
            None => {
                return Err(StartError::ServiceNotFound);
            },
        };
        let state: ServiceState = match self.state_map.get(index) {
            Some(s) => *s,
            None => ServiceState::Offline,
        };
        if state.is_online() {
            return Ok(StartAction::AlreadyOnline);
        }
        match service.method_command("start") {
            Ok((c, w)) => Ok(StartAction::Launch(c, w)),
            Err(e) => Err(StartError::Method(e)),
        }
    }

    /// Record the outcome of a performed launch: on success the service
    /// becomes Online; on failure — and for a handle that names no service —
    /// every state is left as it was.  The graph and the redirection table
    /// never change.  Returns the capability-ready event: exactly when the
    /// service transitions to Online, the tags it provides, so a registered
    /// hook can react to a capability coming up; otherwise nothing.
    pub fn note_start_result(&mut self, index: Index, success: bool) -> (newly_provided: Vec<
        String,
    >)
        requires
            old(self).wf(),
        ensures
            final(self).wf(),
            success && old(self).spec_contains(index) ==> final(self).state_of(index) is Online,
            !(success && old(self).spec_contains(index)) ==> final(self).state_of(index) == old(
                self,
            ).state_of(index),
            forall|j: Index| j != index ==> final(self).state_of(j) == old(self).state_of(j),
            final(self).spec_graph() == old(self).spec_graph(),
            final(self).redirect() == old(self).redirect(),
            (success && old(self).spec_contains(index) && !(old(self).state_of(index) is Online))
                ==> newly_provided@ == (match old(self).service_at(index).provides {
                Some(p) => p@,
                None => Seq::<String>::empty(),
            }),
            !(success && old(self).spec_contains(index) && !(old(self).state_of(
                index,
            ) is Online)) ==> newly_provided@ == Seq::<String>::empty(),
    {
        let mut newly: Vec<String> = Vec::new();
        if !success {
            return newly;
        }
        let was_online = self.service_state(index).is_online();
        match self.graph.get(index) {
            Some(service) => {
                if !was_online {
                    if let Some(p) = &service.provides {
                        let pn = p.len();
                        for t in 0..pn
                            invariant
                                pn == p@.len(),
                                newly@ == p@.subrange(0, t as int),
                        {
                            newly.push(p[t].clone());
                            proof {
                                assert(newly@ =~= p@.subrange(0, t + 1));
                            }
                        }
                        proof {
                            assert(newly@ =~= p@);
                        }
                    }
                }
            },
            None => {
                return newly;
            },
        }
        self.state_map.insert(index, ServiceState::Online);
        newly
    }

    /// The start order: the dependency graph resolved into waves.  Services
    /// within one wave have no dependencies among each other and may start
    /// concurrently; every start attempt of a wave completes before the next
    /// wave begins.  A graph whose remainder can never become ready — a
    /// dependency cycle — is reported as a structured error instead of
    /// looping forever.
    pub fn start_order(&self) -> (r: Result<Vec<Vec<Index>>, CycleError>)
        ensures
            match r {
                Ok(groups) => self.spec_graph().valid_grouping(seq_views(groups@)) && !self.spec_graph().has_blocked_set(),
                Err(e) => self.spec_graph().is_blocked_seq(e.unresolved@)
                    && self.spec_graph().has_blocked_set(),
            },
    {
        self.graph.grouped_resolve()
    }

    /// The handle registered for a service name or capability tag.
    pub fn lookup(&self, name: &str) -> (r: Option<Index>)
        ensures
            match r {
                Some(i) => self.redirect().dom().contains(name@) && i == self.redirect()[name@],
                None => !self.redirect().dom().contains(name@),
            },
    {
        match self.redirect_map.get(name) {
            Some(i) => Some(*i),
            None => None,
        }
    }

    /// The recorded runtime state of the service at `index` (Offline when
    /// nothing is recorded).
    pub fn service_state(&self, index: Index) -> (s: ServiceState)
        ensures
            s == self.state_of(index),
    {
        match self.state_map.get(index) {
            Some(s) => *s,
            None => ServiceState::Offline,
        }
    }

    /// The resolved dependency edges of the service at `index`.
    pub fn dependencies_of(&self, index: Index) -> (r: Option<Vec<Index>>)
        ensures
            match r {
                Some(v) => self.spec_contains(index) && v@ == self.deps_at(index),
                None => !self.spec_contains(index),
            },
    {
        self.graph.dependencies(index)
    }

    /// Borrow the descriptor registered at `index`.
    pub fn get(&self, index: Index) -> (r: Option<&Service>)
        ensures
            match r {
                Some(s) => self.spec_contains(index) && *s == self.service_at(index),
                None => !self.spec_contains(index),
            },
    {
        self.graph.get(index)
    }

    /// An empty registry.
    pub fn new() -> (g: ServiceGraph)
        ensures
            g.wf(),
            forall|i: Index| !g.spec_contains(i),
            g.redirect() == Map::<Seq<char>, Index>::empty(),
    {
        ServiceGraph {
            graph: DepGraph::new(),
            redirect_map: StrMap::new(),
            state_map: IndexMap::new(),
        }
    }
}

} // verus!
