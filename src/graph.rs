//! Dependency graph between schemas and the endpoints that use them.

use vstd::prelude::*;

use crate::model::ParsedSpec;
use crate::text::{contains_str, lemma_no_dup_within_len, lemma_push_contains, lemma_push_fresh, lemma_views_push, str_equal, views};

verus! {

/// Direction of a dependency query.
#[derive(Clone, Copy, Debug, PartialEq, Eq, Structural)]
pub enum DependencyDirection {
    /// What depends on the target.
    Downstream,
    /// What the target depends on.
    Upstream,
    /// Both directions.
    Both,
}

/// Texts of a list of string pairs.
pub open spec fn pair_views(v: Seq<(String, String)>) -> Seq<(Seq<char>, Seq<char>)> {
    v.map_values(|e: (String, String)| (e.0@, e.1@))
}

/// Edges between endpoints and schemas, and between schemas.
///
/// Only the edges that were added are stored; transitive relations are
/// computed on query.
#[derive(Debug)]
pub struct DependencyGraph {
    /// (endpoint key, schema it uses), no repeats.
    path_edges: Vec<(String, String)>,
    /// (referencing schema, referenced schema), no repeats.
    schema_edges: Vec<(String, String)>,
    /// Endpoint keys that use at least one schema, no repeats.
    paths: Vec<String>,
    /// Schemas used by at least one endpoint, no repeats.
    used_schemas: Vec<String>,
}

/// Result of a dependency query.
#[derive(Debug)]
pub struct DependencyQueryResult {
    pub target: String,
    pub is_schema: bool,
    pub direction: DependencyDirection,
    pub affected_paths: Vec<String>,
    pub affected_schemas: Vec<String>,
    pub dependency_chain: Vec<String>,
}

/// Aggregate sizes of a dependency graph.
#[derive(Debug)]
pub struct GraphStats {
    pub total_schemas: usize,
    pub total_paths: usize,
    pub schema_to_path_edges: usize,
    pub schema_to_schema_edges: usize,
}

impl DependencyGraph {
    /// Endpoint `p` uses schema `s` directly.
    pub closed spec fn uses(&self, p: Seq<char>, s: Seq<char>) -> bool {
        pair_views(self.path_edges@).contains((p, s))
    }

    /// Schema `a` references schema `b` directly.
    pub closed spec fn refs(&self, a: Seq<char>, b: Seq<char>) -> bool {
        pair_views(self.schema_edges@).contains((a, b))
    }

    /// The set of (endpoint, schema) edges.
    pub closed spec fn use_edges(&self) -> Set<(Seq<char>, Seq<char>)> {
        pair_views(self.path_edges@).to_set()
    }

    /// The set of (schema, schema) edges.
    pub closed spec fn ref_edges(&self) -> Set<(Seq<char>, Seq<char>)> {
        pair_views(self.schema_edges@).to_set()
    }

    /// Endpoint keys with at least one edge.
    pub open spec fn endpoint_keys(&self) -> Set<Seq<char>> {
        Set::new(|p: Seq<char>| exists|s: Seq<char>| self.uses(p, s))
    }

    /// Schemas used by at least one endpoint.
    pub open spec fn used_schema_names(&self) -> Set<Seq<char>> {
        Set::new(|s: Seq<char>| exists|p: Seq<char>| self.uses(p, s))
    }

    pub closed spec fn wf(&self) -> bool {
        &&& pair_views(self.path_edges@).no_duplicates()
        &&& pair_views(self.schema_edges@).no_duplicates()
        &&& views(self.paths@).no_duplicates()
        &&& views(self.used_schemas@).no_duplicates()
        &&& views(self.paths@).to_set() == self.endpoint_keys()
        &&& views(self.used_schemas@).to_set() == self.used_schema_names()
    }

    /// One step from `a` to `b`: `a` references `b` (forward), or `b`
    /// references `a` (backward).
    pub open spec fn next(&self, a: Seq<char>, b: Seq<char>, forward: bool) -> bool {
        if forward {
            self.refs(a, b)
        } else {
            self.refs(b, a)
        }
    }

    /// `c` holds every schema one step away from a member of `c`.
    pub open spec fn closed_in(&self, c: Set<Seq<char>>, forward: bool) -> bool {
        forall|a: Seq<char>, b: Seq<char>| c.contains(a) && #[trigger] self.next(a, b, forward) ==> c.contains(b)
    }

    /// `t` lies in every set that holds `seeds` and is closed along the
    /// reference edges (followed forward, or backward): the least such set.
    pub open spec fn reaches(&self, seeds: Set<Seq<char>>, t: Seq<char>, forward: bool) -> bool {
        forall|c: Set<Seq<char>>|
            seeds.subset_of(c) && self.closed_in(c, forward) ==> #[trigger] c.contains(t)
    }

    /// Endpoints impacted when `schema` changes: those using `schema` or any
    /// schema that references it, directly or through other schemas.
    pub open spec fn affected_paths_spec(&self, schema: Seq<char>, p: Seq<char>) -> bool {
        exists|t: Seq<char>| self.reaches(set![schema], t, false) && #[trigger] self.uses(p, t)
    }

    /// Schemas that reference `schema`, directly or through other schemas.
    pub open spec fn dependents_spec(&self, schema: Seq<char>, x: Seq<char>) -> bool {
        exists|t: Seq<char>| self.reaches(set![schema], t, false) && #[trigger] self.refs(x, t)
    }

    /// Schemas used by endpoint `path`, directly or through references.
    pub open spec fn path_schemas_spec(&self, path: Seq<char>, x: Seq<char>) -> bool {
        self.reaches(Set::new(|s: Seq<char>| self.uses(path, s)), x, true)
    }

    pub fn new() -> (g: Self)
        ensures
            g.wf(),
            g.use_edges() == Set::<(Seq<char>, Seq<char>)>::empty(),
            g.ref_edges() == Set::<(Seq<char>, Seq<char>)>::empty(),
    {
        let g = DependencyGraph {
            path_edges: Vec::new(),
            schema_edges: Vec::new(),
            paths: Vec::new(),
            used_schemas: Vec::new(),
        };
        assert(g.use_edges() =~= Set::empty());
        assert(g.ref_edges() =~= Set::empty());
        assert(views(g.paths@).to_set() =~= g.endpoint_keys());
        assert(views(g.used_schemas@).to_set() =~= g.used_schema_names());
        g
    }

    /// Edge membership agrees with the edge sets.
    pub proof fn lemma_edge_sets(&self)
        ensures
            forall|p: Seq<char>, s: Seq<char>| self.uses(p, s) <==> self.use_edges().contains((p, s)),
            forall|a: Seq<char>, b: Seq<char>| self.refs(a, b) <==> self.ref_edges().contains((a, b)),
    {
    }

    /// Adds the edge: endpoint `path` uses `schema`.
    pub fn add_path_schema_dep(&mut self, path: &str, schema: &str)
        requires
            old(self).wf(),
        ensures
            final(self).wf(),
            forall|p: Seq<char>, s: Seq<char>|
                final(self).uses(p, s) <==> (old(self).uses(p, s) || (p == path@ && s == schema@)),
            forall|a: Seq<char>, b: Seq<char>| final(self).refs(a, b) == old(self).refs(a, b),
    {
        let ghost old_g = *self;
        if !find_pair(&self.path_edges, path, schema) {
            let e = (path.to_string(), schema.to_string());
            proof {
                lemma_push_fresh(pair_views(self.path_edges@), (path@, schema@));
                assert(pair_views(self.path_edges@.push(e)) =~= pair_views(self.path_edges@).push((path@, schema@)));
            }
            self.path_edges.push(e);
        }
        assert(forall|p: Seq<char>, s: Seq<char>|
            self.uses(p, s) <==> (old_g.uses(p, s) || (p == path@ && s == schema@)));
        if !contains_str(&self.paths, path) {
            let p = path.to_string();
            proof {
                lemma_views_push(self.paths@, p);
                lemma_push_fresh(views(self.paths@), path@);
            }
            self.paths.push(p);
        }
        if !contains_str(&self.used_schemas, schema) {
            let s = schema.to_string();
            proof {
                lemma_views_push(self.used_schemas@, s);
                lemma_push_fresh(views(self.used_schemas@), schema@);
            }
            self.used_schemas.push(s);
        }
        assert forall|p: Seq<char>| views(self.paths@).to_set().contains(p) == self.endpoint_keys().contains(p) by {
            if p != path@ {
                assert(views(self.paths@).contains(p) == views(old_g.paths@).contains(p));
                assert(old_g.endpoint_keys().contains(p) == views(old_g.paths@).to_set().contains(p));
                if old_g.endpoint_keys().contains(p) {
                    let s = choose|s: Seq<char>| old_g.uses(p, s);
                    assert(self.uses(p, s));
                }
                if self.endpoint_keys().contains(p) {
                    let s = choose|s: Seq<char>| self.uses(p, s);
                    assert(old_g.uses(p, s));
                }
            } else {
                assert(self.uses(path@, schema@));
            }
        }
        assert forall|s: Seq<char>| views(self.used_schemas@).to_set().contains(s) == self.used_schema_names().contains(s) by {
            if s != schema@ {
                assert(views(self.used_schemas@).contains(s) == views(old_g.used_schemas@).contains(s));
                assert(old_g.used_schema_names().contains(s) == views(old_g.used_schemas@).to_set().contains(s));
                if old_g.used_schema_names().contains(s) {
                    let p = choose|p: Seq<char>| old_g.uses(p, s);
                    assert(self.uses(p, s));
                }
                if self.used_schema_names().contains(s) {
                    let p = choose|p: Seq<char>| self.uses(p, s);
                    assert(old_g.uses(p, s));
                }
            } else {
                assert(self.uses(path@, schema@));
            }
        }
        assert(views(self.paths@).to_set() =~= self.endpoint_keys());
        assert(views(self.used_schemas@).to_set() =~= self.used_schema_names());
    }

    /// Adds the edge: schema `from_schema` references `to_schema`.
    pub fn add_schema_schema_dep(&mut self, from_schema: &str, to_schema: &str)
        requires
            old(self).wf(),
        ensures
            final(self).wf(),
            forall|a: Seq<char>, b: Seq<char>|
                final(self).refs(a, b) <==> (old(self).refs(a, b) || (a == from_schema@ && b == to_schema@)),
            forall|p: Seq<char>, s: Seq<char>| final(self).uses(p, s) == old(self).uses(p, s),
    {
        let ghost old_g = *self;
        if !find_pair(&self.schema_edges, from_schema, to_schema) {
            let e = (from_schema.to_string(), to_schema.to_string());
            proof {
                lemma_push_fresh(pair_views(self.schema_edges@), (from_schema@, to_schema@));
                assert(pair_views(self.schema_edges@.push(e)) =~= pair_views(self.schema_edges@).push((from_schema@, to_schema@)));
            }
            self.schema_edges.push(e);
        }
        assert(self.path_edges@ == old_g.path_edges@);
        assert(forall|p: Seq<char>, s: Seq<char>| self.uses(p, s) == old_g.uses(p, s));
        proof {
            self.lemma_same_uses(old_g);
        }
    }

    proof fn lemma_same_uses(&self, other: Self)
        requires
            forall|p: Seq<char>, s: Seq<char>| self.uses(p, s) == other.uses(p, s),
        ensures
            self.endpoint_keys() == other.endpoint_keys(),
            self.used_schema_names() == other.used_schema_names(),
    {
        assert forall|p: Seq<char>| self.endpoint_keys().contains(p) == other.endpoint_keys().contains(p) by {
            if self.endpoint_keys().contains(p) {
                let s = choose|s: Seq<char>| self.uses(p, s);
                assert(other.uses(p, s));
            }
            if other.endpoint_keys().contains(p) {
                let s = choose|s: Seq<char>| other.uses(p, s);
                assert(self.uses(p, s));
            }
        }
        assert forall|s: Seq<char>| self.used_schema_names().contains(s) == other.used_schema_names().contains(s) by {
            if self.used_schema_names().contains(s) {
                let p = choose|p: Seq<char>| self.uses(p, s);
                assert(other.uses(p, s));
            }
            if other.used_schema_names().contains(s) {
                let p = choose|p: Seq<char>| other.uses(p, s);
                assert(self.uses(p, s));
            }
        }
        assert(self.endpoint_keys() =~= other.endpoint_keys());
        assert(self.used_schema_names() =~= other.used_schema_names());
    }
}

/// Start of the step that edge `p` gives.
pub open spec fn step_from(p: (Seq<char>, Seq<char>), forward: bool) -> Seq<char> {
    if forward { p.0 } else { p.1 }
}

/// End of the step that edge `p` gives.
pub open spec fn step_to(p: (Seq<char>, Seq<char>), forward: bool) -> Seq<char> {
    if forward { p.1 } else { p.0 }
}

/// Both ends of every edge.
pub open spec fn edge_ends(v: Seq<(String, String)>) -> Seq<Seq<char>> {
    pair_views(v).map_values(|p: (Seq<char>, Seq<char>)| p.0) + pair_views(v).map_values(
        |p: (Seq<char>, Seq<char>)| p.1,
    )
}

impl DependencyGraph {
    /// Endpoint keys impacted if `schema` changes: those that use `schema`
    /// or any schema that references it, directly or transitively.
    pub fn get_affected_paths(&self, schema: &str) -> (r: Vec<String>)
        requires
            self.wf(),
        ensures
            views(r@).no_duplicates(),
            forall|p: Seq<char>| #[trigger] views(r@).contains(p) <==> self.affected_paths_spec(schema@, p),
    {
        let seeds = vec![schema.to_string()];
        proof {
            assert(views(seeds@).to_set() =~= set![schema@]) by {
                assert(views(seeds@)[0] == schema@);
            }
        }
        let reached = self.closure(&seeds, false);
        let r = collect_sources(&self.path_edges, &reached);
        assert forall|p: Seq<char>| #[trigger] views(r@).contains(p) <==> self.affected_paths_spec(schema@, p) by {
            if views(r@).contains(p) {
                let t = choose|t: Seq<char>| views(reached@).contains(t) && pair_views(self.path_edges@).contains((p, t));
                assert(self.uses(p, t));
            }
            if self.affected_paths_spec(schema@, p) {
                let t = choose|t: Seq<char>| self.reaches(set![schema@], t, false) && #[trigger] self.uses(p, t);
                assert(views(reached@).contains(t));
            }
        }
        r
    }

    /// Schemas that reference `schema`, directly or transitively.
    pub fn get_schema_dependents(&self, schema: &str) -> (r: Vec<String>)
        requires
            self.wf(),
        ensures
            views(r@).no_duplicates(),
            forall|x: Seq<char>| #[trigger] views(r@).contains(x) <==> self.dependents_spec(schema@, x),
    {
        let seeds = vec![schema.to_string()];
        proof {
            assert(views(seeds@).to_set() =~= set![schema@]) by {
                assert(views(seeds@)[0] == schema@);
            }
        }
        let reached = self.closure(&seeds, false);
        let r = collect_sources(&self.schema_edges, &reached);
        assert forall|x: Seq<char>| #[trigger] views(r@).contains(x) <==> self.dependents_spec(schema@, x) by {
            if views(r@).contains(x) {
                let t = choose|t: Seq<char>| views(reached@).contains(t) && pair_views(self.schema_edges@).contains((x, t));
                assert(self.refs(x, t));
            }
            if self.dependents_spec(schema@, x) {
                let t = choose|t: Seq<char>| self.reaches(set![schema@], t, false) && #[trigger] self.refs(x, t);
                assert(views(reached@).contains(t));
            }
        }
        r
    }

    /// Schemas that endpoint `path` uses, directly or through references.
    pub fn get_path_schemas(&self, path: &str) -> (r: Vec<String>)
        requires
            self.wf(),
        ensures
            views(r@).no_duplicates(),
            forall|x: Seq<char>| #[trigger] views(r@).contains(x) <==> self.path_schemas_spec(path@, x),
    {
        let direct = collect_targets(&self.path_edges, path);
        assert(views(direct@).to_set() =~= Set::new(|s: Seq<char>| self.uses(path@, s)));
        self.closure(&direct, true)
    }

    /// Schemas that `schema` references directly (one step).
    pub fn direct_refs(&self, schema: &str) -> (r: Vec<String>)
        requires
            self.wf(),
        ensures
            views(r@).no_duplicates(),
            forall|x: Seq<char>| #[trigger] views(r@).contains(x) <==> self.refs(schema@, x),
    {
        collect_targets(&self.schema_edges, schema)
    }

    /// Answers a dependency query. For a schema target, `Downstream` gives
    /// the affected endpoints and the transitive dependents, `Upstream` only
    /// the schemas it references directly (one step), `Both` the union of the
    /// two. For an endpoint target, its transitive schema set. Unknown
    /// targets give empty results.
    pub fn query(&self, target: &str, direction: DependencyDirection, is_schema: bool) -> (r:
        DependencyQueryResult)
        requires
            self.wf(),
        ensures
            r.target@ == target@,
            r.is_schema == is_schema,
            r.direction == direction,
            r.dependency_chain@.len() == 0,
            views(r.affected_paths@).no_duplicates(),
            views(r.affected_schemas@).no_duplicates(),
            forall|p: Seq<char>| #[trigger] views(r.affected_paths@).contains(p) <==> (is_schema
                && direction != DependencyDirection::Upstream && self.affected_paths_spec(target@, p)),
            forall|x: Seq<char>| #[trigger] views(r.affected_schemas@).contains(x) <==> (if !is_schema {
                self.path_schemas_spec(target@, x)
            } else {
                match direction {
                    DependencyDirection::Downstream => self.dependents_spec(target@, x),
                    DependencyDirection::Upstream => self.refs(target@, x),
                    DependencyDirection::Both => self.dependents_spec(target@, x) || self.refs(target@, x),
                }
            }),
    {
        let (paths, schemas) = if is_schema {
            match direction {
                DependencyDirection::Downstream => {
                    (self.get_affected_paths(target), self.get_schema_dependents(target))
                },
                DependencyDirection::Upstream => (Vec::new(), self.direct_refs(target)),
                DependencyDirection::Both => {
                    let deps = self.get_schema_dependents(target);
                    let up = self.direct_refs(target);
                    (self.get_affected_paths(target), union_strings(deps, &up))
                },
            }
        } else {
            (Vec::new(), self.get_path_schemas(target))
        };
        assert(forall|v: Vec<String>| v@.len() == 0 ==> views(v@) =~= Seq::<Seq<char>>::empty());
        DependencyQueryResult {
            target: target.to_string(),
            is_schema,
            direction,
            affected_paths: paths,
            affected_schemas: schemas,
            dependency_chain: Vec::new(),
        }
    }

    /// Sizes of the graph: schemas used by endpoints, endpoints with an edge,
    /// and the two edge counts.
    pub fn stats(&self) -> (r: GraphStats)
        requires
            self.wf(),
        ensures
            r.total_schemas == self.used_schema_names().len(),
            r.total_paths == self.endpoint_keys().len(),
            r.schema_to_path_edges == self.use_edges().len(),
            r.schema_to_schema_edges == self.ref_edges().len(),
    {
        proof {
            views(self.paths@).unique_seq_to_set();
            views(self.used_schemas@).unique_seq_to_set();
            pair_views(self.path_edges@).unique_seq_to_set();
            pair_views(self.schema_edges@).unique_seq_to_set();
        }
        GraphStats {
            total_schemas: self.used_schemas.len(),
            total_paths: self.paths.len(),
            schema_to_path_edges: self.path_edges.len(),
            schema_to_schema_edges: self.schema_edges.len(),
        }
    }

    /// Every schema that `seeds` reach along reference edges, seeds included,
    /// each once. Terminates on cyclic references: each schema is visited once.
    fn closure(&self, seeds: &Vec<String>, forward: bool) -> (r: Vec<String>)
        requires
            self.wf(),
        ensures
            views(r@).no_duplicates(),
            forall|t: Seq<char>| #[trigger] views(r@).contains(t) <==> self.reaches(views(seeds@).to_set(), t, forward),
    {
        let ghost seedset = views(seeds@).to_set();
        let ghost universe = views(seeds@) + edge_ends(self.schema_edges@);
        let mut visited: Vec<String> = Vec::new();
        let mut k: usize = 0;
        while k < seeds.len()
            invariant
                k <= seeds.len(),
                seedset == views(seeds@).to_set(),
                views(visited@).no_duplicates(),
                forall|t: Seq<char>| views(visited@).contains(t) <==> views(seeds@.subrange(0, k as int)).contains(t),
            decreases seeds.len() - k,
        {
            proof {
                assert(views(seeds@.subrange(0, k + 1)) =~= views(seeds@.subrange(0, k as int)).push(seeds@[k as int]@));
                lemma_push_contains(views(seeds@.subrange(0, k as int)), seeds@[k as int]@);
            }
            let ghost before = visited@;
            if !contains_str(&visited, seeds[k].as_str()) {
                let c = seeds[k].clone();
                proof {
                    lemma_views_push(visited@, c);
                    lemma_push_fresh(views(visited@), seeds@[k as int]@);
                }
                visited.push(c);
                proof {
                    lemma_push_contains(views(before), seeds@[k as int]@);
                }
            }
            assert forall|t: Seq<char>| views(visited@).contains(t) <==> views(seeds@.subrange(0, k + 1)).contains(t) by {
                assert(views(before).contains(t) <==> views(seeds@.subrange(0, k as int)).contains(t));
            }
            k += 1;
        }
        assert(seeds@.subrange(0, k as int) =~= seeds@);
        assert forall|t: Seq<char>| views(visited@).contains(t) implies self.reaches(seedset, t, forward) by {
            assert forall|c: Set<Seq<char>>| seedset.subset_of(c) && self.closed_in(c, forward) implies #[trigger] c.contains(t) by {
                assert(seedset.contains(t));
            }
        }
        assert forall|t: Seq<char>| views(visited@).contains(t) implies universe.contains(t) by {
            let j = choose|j: int| 0 <= j < views(seeds@).len() && views(seeds@)[j] == t;
            assert(universe[j] == t);
        }
        proof {
            lemma_no_dup_within_len(views(visited@), universe);
        }
        let n_edges = self.schema_edges.len();
        let mut i: usize = 0;
        while i < visited.len()
            invariant
                self.wf(),
                n_edges == self.schema_edges@.len(),
                seedset == views(seeds@).to_set(),
                universe == views(seeds@) + edge_ends(self.schema_edges@),
                i <= visited.len(),
                visited.len() <= universe.len(),
                views(visited@).no_duplicates(),
                forall|t: Seq<char>| seedset.contains(t) ==> views(visited@).contains(t),
                forall|t: Seq<char>| #[trigger] views(visited@).contains(t) ==> self.reaches(seedset, t, forward),
                forall|t: Seq<char>| #[trigger] views(visited@).contains(t) ==> universe.contains(t),
                forall|j: int, e: int|
                    #![trigger views(visited@)[j], pair_views(self.schema_edges@)[e]]
                    0 <= j < i && 0 <= e < n_edges && views(visited@)[j] == step_from(
                        pair_views(self.schema_edges@)[e],
                        forward,
                    ) ==> views(visited@).contains(step_to(pair_views(self.schema_edges@)[e], forward)),
            decreases universe.len() - i,
        {
            let v = visited[i].clone();
            let mut e: usize = 0;
            while e < n_edges
                invariant
                    self.wf(),
                    n_edges == self.schema_edges@.len(),
                    seedset == views(seeds@).to_set(),
                    universe == views(seeds@) + edge_ends(self.schema_edges@),
                    i < visited.len(),
                    e <= n_edges,
                    v@ == views(visited@)[i as int],
                    views(visited@).no_duplicates(),
                    forall|t: Seq<char>| seedset.contains(t) ==> views(visited@).contains(t),
                    forall|t: Seq<char>| #[trigger] views(visited@).contains(t) ==> self.reaches(seedset, t, forward),
                    forall|t: Seq<char>| #[trigger] views(visited@).contains(t) ==> universe.contains(t),
                    forall|j: int, e2: int|
                        #![trigger views(visited@)[j], pair_views(self.schema_edges@)[e2]]
                        0 <= j < i && 0 <= e2 < n_edges && views(visited@)[j] == step_from(
                            pair_views(self.schema_edges@)[e2],
                            forward,
                        ) ==> views(visited@).contains(step_to(pair_views(self.schema_edges@)[e2], forward)),
                    forall|e2: int|
                        0 <= e2 < e && v@ == step_from(#[trigger] pair_views(self.schema_edges@)[e2], forward)
                            ==> views(visited@).contains(step_to(pair_views(self.schema_edges@)[e2], forward)),
                decreases n_edges - e,
            {
                let ghost ep = pair_views(self.schema_edges@)[e as int];
                let (from, to) = if forward {
                    (&self.schema_edges[e].0, &self.schema_edges[e].1)
                } else {
                    (&self.schema_edges[e].1, &self.schema_edges[e].0)
                };
                assert(from@ == step_from(ep, forward) && to@ == step_to(ep, forward));
                if str_equal(from.as_str(), v.as_str()) && !contains_str(&visited, to.as_str()) {
                    let ghost old_visited = visited@;
                    let c = to.clone();
                    proof {
                        lemma_views_push(visited@, c);
                        lemma_push_fresh(views(visited@), to@);
                        assert(pair_views(self.schema_edges@).contains(ep));
                        assert(self.next(v@, to@, forward));
                        assert forall|c: Set<Seq<char>>| seedset.subset_of(c) && self.closed_in(c, forward) implies #[trigger] c.contains(to@) by {
                            assert(views(visited@).contains(v@));
                            assert(c.contains(v@));
                        }
                        if forward {
                            assert(edge_ends(self.schema_edges@)[pair_views(self.schema_edges@).len() + e] == to@);
                        } else {
                            assert(edge_ends(self.schema_edges@)[e as int] == to@);
                        }
                        assert(universe[views(seeds@).len() + (if forward { pair_views(self.schema_edges@).len() + e } else { e as int })] == to@);
                        assert(universe.contains(to@));
                        assert(self.reaches(seedset, to@, forward));
                    }
                    visited.push(c);
                    proof {
                        assert(views(visited@) == views(old_visited).push(to@));
                        lemma_push_contains(views(old_visited), to@);
                        assert forall|t: Seq<char>| #[trigger] views(visited@).contains(t) implies self.reaches(seedset, t, forward) && universe.contains(t) by {
                            if t != to@ {
                                assert(views(old_visited).contains(t));
                            }
                        }
                        assert forall|j: int| 0 <= j < old_visited.len() implies views(visited@)[j] == views(old_visited)[j] by {}
                    }
                }
                e += 1;
            }
            proof {
                lemma_no_dup_within_len(views(visited@), universe);
            }
            i += 1;
        }
        let ghost vset = views(visited@).to_set();
        assert(self.closed_in(vset, forward)) by {
            assert forall|a: Seq<char>, b: Seq<char>| vset.contains(a) && #[trigger] self.next(a, b, forward) implies vset.contains(b) by {
                let j = choose|j: int| 0 <= j < views(visited@).len() && views(visited@)[j] == a;
                let ed = if forward { (a, b) } else { (b, a) };
                assert(pair_views(self.schema_edges@).contains(ed));
                let e = choose|e: int| 0 <= e < n_edges && pair_views(self.schema_edges@)[e] == ed;
                assert(views(visited@).contains(step_to(pair_views(self.schema_edges@)[e], forward)));
            }
        }
        assert forall|t: Seq<char>| self.reaches(seedset, t, forward) implies #[trigger] views(visited@).contains(t) by {
            assert(seedset.subset_of(vset));
            assert(vset.contains(t));
        }
        visited
    }
}

/// The first items of those pairs in `edges` whose second item is in
/// `targets`, each once.
fn collect_sources(edges: &Vec<(String, String)>, targets: &Vec<String>) -> (r: Vec<String>)
    ensures
        views(r@).no_duplicates(),
        forall|x: Seq<char>| #[trigger] views(r@).contains(x) <==> exists|t: Seq<char>|
            views(targets@).contains(t) && pair_views(edges@).contains((x, t)),
{
    let mut r: Vec<String> = Vec::new();
    let mut j: usize = 0;
    while j < edges.len()
        invariant
            j <= edges.len(),
            views(r@).no_duplicates(),
            forall|x: Seq<char>| #[trigger] views(r@).contains(x) <==> exists|k: int|
                0 <= k < j && pair_views(edges@)[k].0 == x && views(targets@).contains(pair_views(edges@)[k].1),
        decreases edges.len() - j,
    {
        let ghost before = r@;
        if contains_str(targets, edges[j].1.as_str()) && !contains_str(&r, edges[j].0.as_str()) {
            let c = edges[j].0.clone();
            proof {
                lemma_views_push(r@, c);
                lemma_push_fresh(views(r@), c@);
            }
            r.push(c);
        }
        proof {
            lemma_push_contains(views(before), edges@[j as int].0@);
        }
        assert forall|x: Seq<char>| #[trigger] views(r@).contains(x) <==> exists|k: int|
            0 <= k < j + 1 && pair_views(edges@)[k].0 == x && views(targets@).contains(pair_views(edges@)[k].1) by {
            if views(r@).contains(x) && !views(before).contains(x) {
                assert(pair_views(edges@)[j as int].0 == x);
            }
            if exists|k: int| 0 <= k < j + 1 && pair_views(edges@)[k].0 == x && views(targets@).contains(pair_views(edges@)[k].1) {
                let k = choose|k: int| 0 <= k < j + 1 && pair_views(edges@)[k].0 == x && views(targets@).contains(pair_views(edges@)[k].1);
                if k < j {
                    assert(views(before).contains(x));
                }
            }
        }
        j += 1;
    }
    assert forall|x: Seq<char>| #[trigger] views(r@).contains(x) <==> exists|t: Seq<char>|
        views(targets@).contains(t) && pair_views(edges@).contains((x, t)) by {
        if views(r@).contains(x) {
            let k = choose|k: int| 0 <= k < j && pair_views(edges@)[k].0 == x && views(targets@).contains(pair_views(edges@)[k].1);
            assert(pair_views(edges@)[k] == (x, pair_views(edges@)[k].1));
        }
        if exists|t: Seq<char>| views(targets@).contains(t) && pair_views(edges@).contains((x, t)) {
            let t = choose|t: Seq<char>| views(targets@).contains(t) && pair_views(edges@).contains((x, t));
            let k = choose|k: int| 0 <= k < pair_views(edges@).len() && pair_views(edges@)[k] == (x, t);
            assert(pair_views(edges@)[k].0 == x);
        }
    }
    r
}

/// The second items of those pairs in `edges` whose first item is `key`,
/// each once.
fn collect_targets(edges: &Vec<(String, String)>, key: &str) -> (r: Vec<String>)
    ensures
        views(r@).no_duplicates(),
        forall|x: Seq<char>| #[trigger] views(r@).contains(x) <==> pair_views(edges@).contains((key@, x)),
{
    let mut r: Vec<String> = Vec::new();
    let mut j: usize = 0;
    while j < edges.len()
        invariant
            j <= edges.len(),
            views(r@).no_duplicates(),
            forall|x: Seq<char>| #[trigger] views(r@).contains(x) <==> exists|k: int|
                0 <= k < j && pair_views(edges@)[k] == (key@, x),
        decreases edges.len() - j,
    {
        let ghost before = r@;
        if str_equal(edges[j].0.as_str(), key) && !contains_str(&r, edges[j].1.as_str()) {
            let c = edges[j].1.clone();
            proof {
                lemma_views_push(r@, c);
                lemma_push_fresh(views(r@), c@);
            }
            r.push(c);
        }
        proof {
            lemma_push_contains(views(before), edges@[j as int].1@);
        }
        assert forall|x: Seq<char>| #[trigger] views(r@).contains(x) <==> exists|k: int|
            0 <= k < j + 1 && pair_views(edges@)[k] == (key@, x) by {
            if views(r@).contains(x) && !views(before).contains(x) {
                assert(pair_views(edges@)[j as int] == (key@, x));
            }
            if exists|k: int| 0 <= k < j + 1 && pair_views(edges@)[k] == (key@, x) {
                let k = choose|k: int| 0 <= k < j + 1 && pair_views(edges@)[k] == (key@, x);
                if k < j {
                    assert(views(before).contains(x));
                }
            }
        }
        j += 1;
    }
    r
}

/// Items of `a` followed by those of `b` that `a` lacks.
fn union_strings(a: Vec<String>, b: &Vec<String>) -> (r: Vec<String>)
    requires
        views(a@).no_duplicates(),
    ensures
        views(r@).no_duplicates(),
        forall|x: Seq<char>| #[trigger] views(r@).contains(x) <==> (views(a@).contains(x) || views(b@).contains(x)),
{
    let mut r = a;
    let mut j: usize = 0;
    while j < b.len()
        invariant
            j <= b.len(),
            views(r@).no_duplicates(),
            forall|x: Seq<char>| #[trigger] views(r@).contains(x) <==> (views(a@).contains(x)
                || views(b@.subrange(0, j as int)).contains(x)),
        decreases b.len() - j,
    {
        let ghost before = r@;
        proof {
            assert(views(b@.subrange(0, j + 1)) =~= views(b@.subrange(0, j as int)).push(b@[j as int]@));
            lemma_push_contains(views(b@.subrange(0, j as int)), b@[j as int]@);
        }
        if !contains_str(&r, b[j].as_str()) {
            let c = b[j].clone();
            proof {
                lemma_views_push(r@, c);
                lemma_push_fresh(views(r@), c@);
            }
            r.push(c);
        }
        proof {
            lemma_push_contains(views(before), b@[j as int]@);
        }
        assert forall|x: Seq<char>| #[trigger] views(r@).contains(x) <==> (views(a@).contains(x)
            || views(b@.subrange(0, j + 1)).contains(x)) by {
            assert(views(before).contains(x) <==> (views(a@).contains(x) || views(b@.subrange(0, j as int)).contains(x)));
        }
        j += 1;
    }
    assert(b@.subrange(0, j as int) =~= b@);
    r
}

/// Whether the pair (`a`, `b`) occurs in `v`.
fn find_pair(v: &Vec<(String, String)>, a: &str, b: &str) -> (r: bool)
    ensures
        r == pair_views(v@).contains((a@, b@)),
{
    let mut i: usize = 0;
    while i < v.len()
        invariant
            i <= v.len(),
            forall|j: int| 0 <= j < i ==> pair_views(v@)[j] != (a@, b@),
        decreases v.len() - i,
    {
        if str_equal(v[i].0.as_str(), a) && str_equal(v[i].1.as_str(), b) {
            assert(pair_views(v@)[i as int] == (a@, b@));
            return true;
        }
        i += 1;
    }
    false
}

} // verus!

verus! {

/// Endpoint `p` of `spec` lists schema `s` among its references.
pub open spec fn declared_use(spec: &ParsedSpec, p: Seq<char>, s: Seq<char>) -> bool {
    exists|i: int|
        0 <= i < spec.endpoints@.len() && (#[trigger] spec.endpoints@[i]).key_spec() == p && views(
            spec.endpoints@[i].schema_refs@,
        ).contains(s)
}

/// Schema `a` of `spec` lists schema `b` among its references.
pub open spec fn declared_ref(spec: &ParsedSpec, a: Seq<char>, b: Seq<char>) -> bool {
    exists|i: int|
        0 <= i < spec.schemas@.len() && (#[trigger] spec.schemas@[i]).name@ == a && views(
            spec.schemas@[i].refs@,
        ).contains(b)
}

/// Builds the dependency graph of a parsed document.
#[derive(Debug)]
pub struct GraphBuilder;

impl GraphBuilder {
    /// One edge per schema reference of each schema, and one per schema
    /// reference of each endpoint; nothing else.
    pub fn build(spec: &ParsedSpec) -> (g: DependencyGraph)
        ensures
            g.wf(),
            forall|p: Seq<char>, s: Seq<char>| g.uses(p, s) <==> declared_use(spec, p, s),
            forall|a: Seq<char>, b: Seq<char>| g.refs(a, b) <==> declared_ref(spec, a, b),
    {
        let mut g = DependencyGraph::new();
        proof {
            g.lemma_edge_sets();
        }
        let mut i: usize = 0;
        while i < spec.schemas.len()
            invariant
                g.wf(),
                i <= spec.schemas@.len(),
                forall|p: Seq<char>, s: Seq<char>| !g.uses(p, s),
                forall|a: Seq<char>, b: Seq<char>| g.refs(a, b) <==> exists|k: int|
                    0 <= k < i && (#[trigger] spec.schemas@[k]).name@ == a && views(spec.schemas@[k].refs@).contains(b),
            decreases spec.schemas.len() - i,
        {
            let sc = &spec.schemas[i];
            let mut j: usize = 0;
            while j < sc.refs.len()
                invariant
                    g.wf(),
                    i < spec.schemas@.len(),
                    j <= sc.refs@.len(),
                    sc == spec.schemas@[i as int],
                    forall|p: Seq<char>, s: Seq<char>| !g.uses(p, s),
                    forall|a: Seq<char>, b: Seq<char>| g.refs(a, b) <==> (exists|k: int|
                        0 <= k < i && (#[trigger] spec.schemas@[k]).name@ == a && views(spec.schemas@[k].refs@).contains(b))
                        || (a == sc.name@ && views(sc.refs@.subrange(0, j as int)).contains(b)),
                decreases sc.refs.len() - j,
            {
                proof {
                    assert(views(sc.refs@.subrange(0, j + 1)) =~= views(sc.refs@.subrange(0, j as int)).push(sc.refs@[j as int]@));
                    lemma_push_contains(views(sc.refs@.subrange(0, j as int)), sc.refs@[j as int]@);
                }
                g.add_schema_schema_dep(sc.name.as_str(), sc.refs[j].as_str());
                j += 1;
            }
            assert(sc.refs@.subrange(0, j as int) =~= sc.refs@);
            assert forall|a: Seq<char>, b: Seq<char>| g.refs(a, b) <==> exists|k: int|
                0 <= k < i + 1 && (#[trigger] spec.schemas@[k]).name@ == a && views(spec.schemas@[k].refs@).contains(b) by {
                if a == sc.name@ && views(sc.refs@).contains(b) {
                    assert(spec.schemas@[i as int].name@ == a);
                }
            }
            i += 1;
        }
        let mut i: usize = 0;
        while i < spec.endpoints.len()
            invariant
                g.wf(),
                i <= spec.endpoints@.len(),
                forall|a: Seq<char>, b: Seq<char>| g.refs(a, b) <==> declared_ref(spec, a, b),
                forall|p: Seq<char>, s: Seq<char>| g.uses(p, s) <==> exists|k: int|
                    0 <= k < i && (#[trigger] spec.endpoints@[k]).key_spec() == p && views(spec.endpoints@[k].schema_refs@).contains(s),
            decreases spec.endpoints.len() - i,
        {
            let ep = &spec.endpoints[i];
            let key = ep.key();
            let mut j: usize = 0;
            while j < ep.schema_refs.len()
                invariant
                    g.wf(),
                    i < spec.endpoints@.len(),
                    j <= ep.schema_refs@.len(),
                    ep == spec.endpoints@[i as int],
                    key@ == ep.key_spec(),
                    forall|a: Seq<char>, b: Seq<char>| g.refs(a, b) <==> declared_ref(spec, a, b),
                    forall|p: Seq<char>, s: Seq<char>| g.uses(p, s) <==> (exists|k: int|
                        0 <= k < i && (#[trigger] spec.endpoints@[k]).key_spec() == p && views(spec.endpoints@[k].schema_refs@).contains(s))
                        || (p == key@ && views(ep.schema_refs@.subrange(0, j as int)).contains(s)),
                decreases ep.schema_refs.len() - j,
            {
                proof {
                    assert(views(ep.schema_refs@.subrange(0, j + 1)) =~= views(ep.schema_refs@.subrange(0, j as int)).push(ep.schema_refs@[j as int]@));
                    lemma_push_contains(views(ep.schema_refs@.subrange(0, j as int)), ep.schema_refs@[j as int]@);
                }
                g.add_path_schema_dep(key.as_str(), ep.schema_refs[j].as_str());
                j += 1;
            }
            assert(ep.schema_refs@.subrange(0, j as int) =~= ep.schema_refs@);
            assert forall|p: Seq<char>, s: Seq<char>| g.uses(p, s) <==> exists|k: int|
                0 <= k < i + 1 && (#[trigger] spec.endpoints@[k]).key_spec() == p && views(spec.endpoints@[k].schema_refs@).contains(s) by {
                if p == key@ && views(ep.schema_refs@).contains(s) {
                    assert(spec.endpoints@[i as int].key_spec() == p);
                }
            }
            i += 1;
        }
        g
    }
}

/// Schema `a` referenced by schema `b`, and `b` used by endpoint `e`: a
/// change to `a` impacts `e`.
pub proof fn lemma_impact_is_transitive(g: DependencyGraph, a: Seq<char>, b: Seq<char>, e: Seq<char>)
    requires
        g.refs(b, a),
        g.uses(e, b),
    ensures
        g.affected_paths_spec(a, e),
{
    assert forall|c: Set<Seq<char>>| set![a].subset_of(c) && g.closed_in(c, false) implies #[trigger] c.contains(b) by {
        assert(c.contains(a));
        assert(g.next(a, b, false));
    }
    assert(g.reaches(set![a], b, false));
}

/// Two schemas that reference each other are each a dependent of the
/// other, and of themselves.
pub proof fn lemma_cycle_dependents(g: DependencyGraph, a: Seq<char>, b: Seq<char>)
    requires
        g.refs(a, b),
        g.refs(b, a),
    ensures
        g.dependents_spec(a, b),
        g.dependents_spec(a, a),
        g.dependents_spec(b, a),
        g.dependents_spec(b, b),
{
    assert forall|c: Set<Seq<char>>| set![a].subset_of(c) && g.closed_in(c, false) implies #[trigger] c.contains(b) by {
        assert(c.contains(a));
        assert(g.next(a, b, false));
    }
    assert forall|c: Set<Seq<char>>| set![b].subset_of(c) && g.closed_in(c, false) implies #[trigger] c.contains(a) by {
        assert(c.contains(b));
        assert(g.next(b, a, false));
    }
    assert(g.reaches(set![a], a, false)) by {
        assert forall|c: Set<Seq<char>>| set![a].subset_of(c) && g.closed_in(c, false) implies #[trigger] c.contains(a) by {
            assert(set![a].contains(a));
        }
    }
    assert(g.reaches(set![b], b, false)) by {
        assert forall|c: Set<Seq<char>>| set![b].subset_of(c) && g.closed_in(c, false) implies #[trigger] c.contains(b) by {
            assert(set![b].contains(b));
        }
    }
    assert(g.reaches(set![a], b, false));
    assert(g.reaches(set![b], a, false));
}

/// In the graph built from a document: schema `a` referenced by schema `b`,
/// and `b` referenced by endpoint `e`, so a change to `a` impacts `e`.
pub proof fn lemma_built_impact_is_transitive(
    spec: &ParsedSpec,
    g: DependencyGraph,
    a: Seq<char>,
    b: Seq<char>,
    e: Seq<char>,
)
    requires
        forall|p: Seq<char>, s: Seq<char>| g.uses(p, s) <==> declared_use(spec, p, s),
        forall|x: Seq<char>, y: Seq<char>| g.refs(x, y) <==> declared_ref(spec, x, y),
        declared_ref(spec, b, a),
        declared_use(spec, e, b),
    ensures
        g.affected_paths_spec(a, e),
{
    lemma_impact_is_transitive(g, a, b, e);
}

} // verus!
