//! Dependency graph for source and derived artifacts.
//!
//! The graph holds identity and invalidation semantics only: which artifact
//! depends on which, and which artifacts become stale when one changes.

use vstd::prelude::*;
use vstd::std_specs::cmp::PartialEqSpecImpl;

use crate::fingerprint::Fingerprint;
use crate::keyed::{
    find_key, has_key, insertion_point, key_index, keys_sorted, lemma_insert_sorted, lemma_sorted_unique, lemma_to_map,
    to_map, Keyed,
};
use crate::order::{least_first, least_first_order, pred_views, preds_in_range, stuck, valid_order, completable};
use crate::text::{char_is_ascii_alphanumeric, chars_of, is_ascii_alphanumeric, lemma_seq_lt_irreflexive, lemma_seq_lt_transitive, seq_lt};

verus! {

pub open spec fn is_artifact_id_char(c: char) -> bool {
    is_ascii_alphanumeric(c) || c == '-' || c == '_' || c == '.'
}

/// One to 128 characters, each ASCII alphanumeric or one of `-`, `_`, `.`.
pub open spec fn valid_artifact_id(s: Seq<char>) -> bool {
    &&& 1 <= s.len() <= 128
    &&& forall|i: int| 0 <= i < s.len() ==> is_artifact_id_char(#[trigger] s[i])
}

#[derive(Debug)]
pub struct ArtifactId(String);

impl View for ArtifactId {
    type V = Seq<char>;

    closed spec fn view(&self) -> Seq<char> {
        self.0@
    }
}

impl ArtifactId {
    #[verifier::type_invariant]
    closed spec fn well_formed(self) -> bool {
        valid_artifact_id(self.0@)
    }

    pub fn parse(value: &str) -> (result: Result<Self, ArtifactGraphError>)
        ensures
            result is Ok <==> valid_artifact_id(value@),
            result matches Ok(id) ==> id@ == value@,
            result matches Err(e) ==> (e matches ArtifactGraphError::InvalidId(text) && text@ == value@),
    {
        let chars = chars_of(value);
        if chars.len() == 0 || chars.len() > 128 {
            return Err(ArtifactGraphError::InvalidId(value.to_owned()));
        }
        let mut i: usize = 0;
        while i < chars.len()
            invariant
                0 <= i <= chars@.len(),
                chars@ == value@,
                forall|k: int| 0 <= k < i ==> is_artifact_id_char(#[trigger] chars@[k]),
            decreases chars.len() - i,
        {
            let c = chars[i];
            if !(char_is_ascii_alphanumeric(c) || c == '-' || c == '_' || c == '.') {
                return Err(ArtifactGraphError::InvalidId(value.to_owned()));
            }
            i = i + 1;
        }
        Ok(ArtifactId(value.to_owned()))
    }

    pub fn as_str(&self) -> (s: &str)
        ensures
            s@ == self@,
            valid_artifact_id(s@),
    {
        proof {
            use_type_invariant(self);
        }
        self.0.as_str()
    }
}

impl Keyed for ArtifactId {
    open spec fn key(&self) -> Seq<char> {
        self@
    }

    fn key_str(&self) -> (k: &str) {
        self.0.as_str()
    }
}

impl Clone for ArtifactId {
    fn clone(&self) -> (copy: Self)
        ensures
            copy == *self,
    {
        proof {
            use_type_invariant(self);
        }
        ArtifactId(self.0.clone())
    }
}

impl PartialEq for ArtifactId {
    fn eq(&self, other: &Self) -> (equal: bool) {
        self.0 == other.0
    }
}

impl PartialEqSpecImpl for ArtifactId {
    open spec fn obeys_eq_spec() -> bool {
        true
    }

    open spec fn eq_spec(&self, other: &Self) -> bool {
        self@ == other@
    }
}

impl Eq for ArtifactId {}

#[derive(Debug, Clone, Copy, PartialEq, Eq, Structural)]
pub enum ArtifactKind {
    Source,
    EditPlan,
    Proxy,
    Analysis,
    FrameChunk,
    EncodedMedia,
    Package,
}

pub struct ArtifactNode {
    pub id: ArtifactId,
    pub kind: ArtifactKind,
    pub fingerprint: Fingerprint,
    /// Sorted by id, each id once, as [`ArtifactNode::new`] lists them.
    pub dependencies: Vec<ArtifactId>,
}

/// The ids a node depends on, as strings.
pub open spec fn dep_keys(node: ArtifactNode) -> Seq<Seq<char>> {
    node.dependencies@.map_values(|d: ArtifactId| d@)
}

impl Keyed for ArtifactNode {
    open spec fn key(&self) -> Seq<char> {
        self.id@
    }

    fn key_str(&self) -> (k: &str) {
        self.id.0.as_str()
    }
}

impl ArtifactNode {
    /// A node whose dependency list is sorted by id, each id once.
    pub fn new(id: ArtifactId, kind: ArtifactKind, fingerprint: Fingerprint, dependencies: Vec<ArtifactId>) -> (node: Self)
        ensures
            node.id == id,
            node.kind == kind,
            node.fingerprint == fingerprint,
            keys_sorted(node.dependencies@),
            forall|k: Seq<char>| #[trigger] dep_keys(node).contains(k) <==> dependencies@.map_values(
                |d: ArtifactId| d@,
            ).contains(k),
    {
        let mut sorted: Vec<ArtifactId> = Vec::new();
        let ghost given = dependencies@.map_values(|d: ArtifactId| d@);
        let mut i: usize = 0;
        while i < dependencies.len()
            invariant
                0 <= i <= dependencies@.len(),
                given == dependencies@.map_values(|d: ArtifactId| d@),
                keys_sorted(sorted@),
                forall|k: Seq<char>| #[trigger] has_key(sorted@, k) <==> given.subrange(0, i as int).contains(k),
            decreases dependencies.len() - i,
        {
            let dependency = &dependencies[i];
            assert(given[i as int] == dependency@);
            match find_key(&sorted, dependency.as_str()) {
                Some(_) => {},
                None => {
                    let position = insertion_point(&sorted, dependency.as_str());
                    let copy = dependency.clone();
                    proof {
                        lemma_insert_sorted(sorted@, position as int, copy);
                    }
                    let ghost before = sorted@;
                    sorted.insert(position, copy);
                    assert forall|k: Seq<char>| #[trigger] has_key(sorted@, k) <==> (has_key(before, k) || k == copy@) by {
                        if has_key(sorted@, k) {
                            let j = choose|j: int| 0 <= j < sorted@.len() && #[trigger] sorted@[j].key() == k;
                            if j < position {
                                assert(before[j].key() == k);
                            } else if j > position {
                                assert(before[j - 1].key() == k);
                            }
                        }
                        if has_key(before, k) {
                            let j = choose|j: int| 0 <= j < before.len() && #[trigger] before[j].key() == k;
                            if j < position {
                                assert(sorted@[j].key() == k);
                            } else {
                                assert(sorted@[j + 1].key() == k);
                            }
                        }
                        if k == copy@ {
                            assert(sorted@[position as int].key() == k);
                        }
                    }
                },
            }
            assert forall|k: Seq<char>| given.subrange(0, i + 1).contains(k) <==> (given.subrange(0, i as int).contains(k) || k == given[i as int]) by {
                let a = given.subrange(0, i + 1);
                let b = given.subrange(0, i as int);
                if a.contains(k) {
                    let j = choose|j: int| 0 <= j < a.len() && #[trigger] a[j] == k;
                    if j < i {
                        assert(b[j] == k);
                    }
                }
                if b.contains(k) {
                    let j = choose|j: int| 0 <= j < b.len() && #[trigger] b[j] == k;
                    assert(a[j] == k);
                }
                if k == given[i as int] {
                    assert(a[i as int] == k);
                }
            }
            i = i + 1;
        }
        assert(given.subrange(0, dependencies@.len() as int) =~= given);
        let node = ArtifactNode { id, kind, fingerprint, dependencies: sorted };
        assert forall|k: Seq<char>| #[trigger] dep_keys(node).contains(k) <==> has_key(node.dependencies@, k) by {
            let d = dep_keys(node);
            if d.contains(k) {
                let j = choose|j: int| 0 <= j < d.len() && #[trigger] d[j] == k;
                assert(node.dependencies@[j].key() == k);
            }
            if has_key(node.dependencies@, k) {
                let j = choose|j: int| 0 <= j < node.dependencies@.len() && #[trigger] node.dependencies@[j].key() == k;
                assert(dep_keys(node)[j] == k);
            }
        }
        node
    }
}

#[derive(Debug, PartialEq, Eq)]
pub enum ArtifactGraphError {
    InvalidFingerprint(String),
    InvalidId(String),
    Duplicate(ArtifactId),
    MissingArtifact(ArtifactId),
    MissingDependency(ArtifactId),
    KeyMismatch(ArtifactId, ArtifactId),
    Cycle(ArtifactId),
}


/// Every dependency of every artifact is itself in the graph.
pub open spec fn deps_present(m: Map<Seq<char>, ArtifactNode>) -> bool {
    forall|k: Seq<char>, j: int|
        #![trigger m[k].dependencies@[j]]
        m.contains_key(k) && 0 <= j < m[k].dependencies@.len() ==> m.contains_key(m[k].dependencies@[j]@)
}

/// `k` is the first position of `deps` that names no artifact of `m`.
pub open spec fn first_missing(m: Map<Seq<char>, ArtifactNode>, deps: Seq<Seq<char>>, k: int) -> bool {
    &&& 0 <= k < deps.len()
    &&& !m.contains_key(deps[k])
    &&& forall|j: int| 0 <= j < k ==> m.contains_key(#[trigger] deps[j])
}

/// A chain of artifacts, each depending on the next.
pub open spec fn is_dependency_walk(m: Map<Seq<char>, ArtifactNode>, w: Seq<Seq<char>>) -> bool {
    &&& w.len() >= 1
    &&& forall|i: int| 0 <= i < w.len() - 1 ==> m.contains_key(#[trigger] w[i]) && dep_keys(m[w[i]]).contains(w[i + 1])
}

pub struct ArtifactGraph {
    nodes: Vec<ArtifactNode>,
    rank: Ghost<Map<Seq<char>, nat>>,
    bound: Ghost<nat>,
}

impl View for ArtifactGraph {
    type V = Map<Seq<char>, ArtifactNode>;

    closed spec fn view(&self) -> Map<Seq<char>, ArtifactNode> {
        to_map(self.nodes@)
    }
}

impl Default for ArtifactGraph {
    fn default() -> (graph: Self)
        ensures
            graph.well_formed(),
            graph@ == Map::<Seq<char>, ArtifactNode>::empty(),
    {
        let graph = ArtifactGraph { nodes: Vec::new(), rank: Ghost(Map::empty()), bound: Ghost(0) };
        assert(graph@ =~= Map::<Seq<char>, ArtifactNode>::empty());
        graph
    }
}

impl ArtifactGraph {
    /// Sorted unique ids, dependencies present, and a rank that strictly
    /// decreases along every dependency (so there is no dependency cycle).
    pub closed spec fn well_formed(&self) -> bool {
        &&& keys_sorted(self.nodes@)
        &&& deps_present(self@)
        &&& forall|k: Seq<char>| #[trigger] self@.contains_key(k) ==> self.rank@.contains_key(k) && self.rank@[k] < self.bound@
        &&& forall|k: Seq<char>, j: int|
            #![trigger self@[k].dependencies@[j]]
            self@.contains_key(k) && 0 <= j < self@[k].dependencies@.len() ==> self.rank@[self@[k].dependencies@[j]@] < self.rank@[k]
    }

    pub fn get(&self, id: &ArtifactId) -> (node: Option<&ArtifactNode>)
        requires
            self.well_formed(),
        ensures
            node is Some <==> self@.contains_key(id@),
            node matches Some(n) ==> *n == self@[id@],
    {
        proof {
            lemma_to_map(self.nodes@);
        }
        match find_key(&self.nodes, id.as_str()) {
            Some(i) => {
                assert(self@[self.nodes@[i as int].key()] == self.nodes@[i as int]);
                Some(&self.nodes[i])
            },
            None => None,
        }
    }

    /// A graph holds finitely many artifacts.
    pub proof fn lemma_finite(&self)
        requires
            self.well_formed(),
        ensures
            self@.dom().finite(),
    {
        lemma_to_map(self.nodes@);
    }

    pub fn len(&self) -> (count: usize)
        requires
            self.well_formed(),
        ensures
            count == self@.len(),
    {
        proof {
            lemma_to_map(self.nodes@);
        }
        self.nodes.len()
    }

    pub fn is_empty(&self) -> (empty: bool)
        requires
            self.well_formed(),
        ensures
            empty <==> self@.len() == 0,
    {
        proof {
            lemma_to_map(self.nodes@);
        }
        self.nodes.len() == 0
    }

    /// Add an artifact whose dependencies are already present.
    pub fn insert(&mut self, node: ArtifactNode) -> (result: Result<(), ArtifactGraphError>)
        requires
            old(self).well_formed(),
            keys_sorted(node.dependencies@),
        ensures
            result matches Err(ArtifactGraphError::MissingDependency(d)) ==> !old(self)@.contains_key(d@) && forall|j: int|
                0 <= j < dep_keys(node).len() && !old(self)@.contains_key(#[trigger] dep_keys(node)[j]) ==> !seq_lt(
                    dep_keys(node)[j],
                    d@,
                ),
            final(self).well_formed(),
            old(self)@.contains_key(node.id@) ==> result == Err::<(), ArtifactGraphError>(
                ArtifactGraphError::Duplicate(node.id),
            ),
            !old(self)@.contains_key(node.id@) && dep_keys(node).contains(node.id@) ==> result == Err::<
                (),
                ArtifactGraphError,
            >(ArtifactGraphError::Cycle(node.id)),
            !old(self)@.contains_key(node.id@) && !dep_keys(node).contains(node.id@) && (exists|k: int|
                first_missing(old(self)@, dep_keys(node), k)) ==> (result matches Err(
                ArtifactGraphError::MissingDependency(d),
            ) && exists|k: int| #[trigger] first_missing(old(self)@, dep_keys(node), k) && d@ == dep_keys(node)[k]),
            result is Ok <==> (!old(self)@.contains_key(node.id@) && !dep_keys(node).contains(node.id@)
                && forall|j: int| 0 <= j < dep_keys(node).len() ==> old(self)@.contains_key(#[trigger] dep_keys(node)[j])),
            result is Ok ==> final(self)@ == old(self)@.insert(node.id@, node),
            result is Ok ==> final(self)@.len() == old(self)@.len() + 1,
            result is Err ==> final(self)@ == old(self)@,
    {
        proof {
            lemma_to_map(self.nodes@);
        }
        let ghost deps = dep_keys(node);
        if find_key(&self.nodes, node.id.as_str()).is_some() {
            return Err(ArtifactGraphError::Duplicate(node.id));
        }
        if find_key(&node.dependencies, node.id.as_str()).is_some() {
            proof {
                let j = choose|j: int| 0 <= j < node.dependencies@.len() && #[trigger] node.dependencies@[j].key() == node.id@;
                assert(deps[j] == node.id@);
            }
            return Err(ArtifactGraphError::Cycle(node.id));
        }
        assert(!deps.contains(node.id@)) by {
            if deps.contains(node.id@) {
                let j = choose|j: int| 0 <= j < deps.len() && #[trigger] deps[j] == node.id@;
                assert(node.dependencies@[j].key() == node.id@);
            }
        }
        let mut i: usize = 0;
        while i < node.dependencies.len()
            invariant
                0 <= i <= node.dependencies@.len(),
                deps == dep_keys(node),
                *self == *old(self),
                self.well_formed(),
                !self@.contains_key(node.id@),
                !deps.contains(node.id@),
                keys_sorted(node.dependencies@),
                forall|j: int| 0 <= j < i ==> self@.contains_key(#[trigger] deps[j]),
            decreases node.dependencies.len() - i,
        {
            let dependency = &node.dependencies[i];
            if find_key(&self.nodes, dependency.as_str()).is_none() {
                proof {
                    lemma_to_map(self.nodes@);
                    assert(first_missing(self@, deps, i as int));
                    assert forall|j: int| 0 <= j < deps.len() && !self@.contains_key(#[trigger] deps[j]) implies !seq_lt(
                        deps[j],
                        dependency@,
                    ) by {
                        if j > i {
                            assert(seq_lt(node.dependencies@[i as int].key(), node.dependencies@[j].key()));
                            if seq_lt(deps[j], dependency@) {
                                lemma_seq_lt_transitive(deps[j], dependency@, deps[j]);
                                lemma_seq_lt_irreflexive(deps[j]);
                            }
                        } else if j == i {
                            lemma_seq_lt_irreflexive(deps[j]);
                        }
                    }
                }
                return Err(ArtifactGraphError::MissingDependency(dependency.clone()));
            }
            proof {
                lemma_to_map(self.nodes@);
            }
            i = i + 1;
        }
        let position = insertion_point(&self.nodes, node.id.as_str());
        let ghost old_map = self@;
        let ghost id = node.id@;
        proof {
            lemma_insert_sorted(self.nodes@, position as int, node);
        }
        let ghost new_rank = self.rank@.insert(id, self.bound@);
        let ghost new_bound = self.bound@ + 1;
        self.nodes.insert(position, node);
        self.rank = Ghost(new_rank);
        self.bound = Ghost(new_bound);
        assert(self@ == old_map.insert(id, node));
        assert forall|k: Seq<char>, j: int|
            #![trigger self@[k].dependencies@[j]]
            self@.contains_key(k) && 0 <= j < self@[k].dependencies@.len() implies self@.contains_key(self@[k].dependencies@[j]@)
                && self.rank@[self@[k].dependencies@[j]@] < self.rank@[k] by {
            if k == id {
                assert(deps[j] == node.dependencies@[j]@);
            } else {
                assert(old_map[k].dependencies@[j]@ != id);
            }
        }
        Ok(())
    }

    /// The graph built by the public operations always passes validation.
    pub fn validate(&self) -> (result: Result<(), ArtifactGraphError>)
        requires
            self.well_formed(),
        ensures
            result is Ok,
    {
        Ok(())
    }
}

/// A graph never holds a dependency cycle: no walk of one or more dependency
/// steps returns to the artifact it started from.
pub proof fn law_no_dependency_cycle(graph: ArtifactGraph, walk: Seq<Seq<char>>)
    requires
        graph.well_formed(),
        is_dependency_walk(graph@, walk),
        walk.len() >= 2,
    ensures
        walk[0] != walk[walk.len() - 1],
{
    lemma_walk_rank(graph, walk, walk.len() - 1);
}

proof fn lemma_walk_rank(graph: ArtifactGraph, walk: Seq<Seq<char>>, i: int)
    requires
        graph.well_formed(),
        is_dependency_walk(graph@, walk),
        1 <= i < walk.len(),
    ensures
        graph@.contains_key(walk[i]),
        graph.rank_of(walk[i]) + i <= graph.rank_of(walk[0]),
    decreases i,
{
    if i > 1 {
        lemma_walk_rank(graph, walk, i - 1);
    }
    graph.lemma_dependency_rank(walk[i - 1], walk[i]);
}

impl ArtifactGraph {
    closed spec fn rank_of(&self, k: Seq<char>) -> int {
        self.rank@[k] as int
    }

    proof fn lemma_dependency_rank(&self, k: Seq<char>, d: Seq<char>)
        requires
            self.well_formed(),
            self@.contains_key(k),
            dep_keys(self@[k]).contains(d),
        ensures
            self@.contains_key(d),
            self.rank_of(d) < self.rank_of(k),
    {
        let j = choose|j: int| 0 <= j < dep_keys(self@[k]).len() && dep_keys(self@[k])[j] == d;
        assert(self@[k].dependencies@[j]@ == d);
    }
}

/// `x` depends, directly or transitively, on one of `roots`: some walk of
/// one or more dependency steps leads from `x` to a root.
pub open spec fn downstream(m: Map<Seq<char>, ArtifactNode>, roots: Set<Seq<char>>, x: Seq<char>) -> bool {
    exists|w: Seq<Seq<char>>| #[trigger] is_dependency_walk(m, w) && w.len() >= 2 && w[0] == x && roots.contains(w.last())
}

/// An artifact with a dependency that is a root, or downstream of one, is
/// itself downstream.
proof fn lemma_walk_extend(m: Map<Seq<char>, ArtifactNode>, x: Seq<char>, roots: Set<Seq<char>>, j: int)
    requires
        m.contains_key(x),
        0 <= j < m[x].dependencies@.len(),
        roots.contains(m[x].dependencies@[j]@) || downstream(m, roots, m[x].dependencies@[j]@),
    ensures
        downstream(m, roots, x),
{
    let d = m[x].dependencies@[j]@;
    assert(dep_keys(m[x])[j] == d);
    if roots.contains(d) {
        let w = seq![x, d];
        assert(is_dependency_walk(m, w));
    } else {
        let tail = choose|w: Seq<Seq<char>>| #[trigger] is_dependency_walk(m, w) && w.len() >= 2 && w[0] == d && roots.contains(w.last());
        let w = seq![x] + tail;
        assert forall|i: int| 0 <= i < w.len() - 1 implies m.contains_key(#[trigger] w[i]) && dep_keys(m[w[i]]).contains(w[i + 1]) by {
            if i > 0 {
                assert(w[i] == tail[i - 1]);
                assert(w[i + 1] == tail[i]);
            }
        }
        assert(is_dependency_walk(m, w));
        assert(w.last() == tail.last());
    }
}

pub open spec fn count_true(s: Seq<bool>) -> nat
    decreases s.len(),
{
    if s.len() == 0 {
        0
    } else {
        count_true(s.drop_last()) + if s.last() { 1nat } else { 0nat }
    }
}

proof fn lemma_count_true_bound(s: Seq<bool>)
    ensures
        count_true(s) <= s.len(),
    decreases s.len(),
{
    if s.len() > 0 {
        lemma_count_true_bound(s.drop_last());
    }
}

proof fn lemma_count_true_set(s: Seq<bool>, i: int)
    requires
        0 <= i < s.len(),
        !s[i],
    ensures
        count_true(s.update(i, true)) == count_true(s) + 1,
    decreases s.len(),
{
    let t = s.update(i, true);
    if i == s.len() - 1 {
        assert(t.drop_last() =~= s.drop_last());
    } else {
        assert(t.drop_last() =~= s.drop_last().update(i, true));
        lemma_count_true_set(s.drop_last(), i);
    }
}

/// Every unmarked artifact has no dependency among `roots` and none marked.
pub open spec fn closed_under_dependants(nodes: Seq<ArtifactNode>, roots: Set<Seq<char>>, marked: Seq<bool>) -> bool {
    forall|i: int, j: int|
        #![trigger marked[i], nodes[i].dependencies@[j]]
        0 <= i < nodes.len() && !marked[i] && 0 <= j < nodes[i].dependencies@.len() ==> {
            &&& !roots.contains(nodes[i].dependencies@[j]@)
            &&& forall|x: int| 0 <= x < nodes.len() && #[trigger] nodes[x].key() == nodes[i].dependencies@[j]@ ==> !marked[x]
        }
}

proof fn lemma_closed_is_complete(
    nodes: Seq<ArtifactNode>,
    roots: Set<Seq<char>>,
    marked: Seq<bool>,
    w: Seq<Seq<char>>,
)
    requires
        keys_sorted(nodes),
        marked.len() == nodes.len(),
        closed_under_dependants(nodes, roots, marked),
        is_dependency_walk(to_map(nodes), w),
        w.len() >= 2,
        roots.contains(w.last()),
    ensures
        exists|i: int| 0 <= i < nodes.len() && nodes[i].key() == w[0] && #[trigger] marked[i],
    decreases w.len(),
{
    let m = to_map(nodes);
    lemma_to_map(nodes);
    let x = w[0];
    assert(m.contains_key(x) && dep_keys(m[x]).contains(w[1]));
    let i = choose|i: int| 0 <= i < nodes.len() && #[trigger] nodes[i].key() == x;
    assert(m[x] == nodes[i]);
    let j = choose|j: int| 0 <= j < dep_keys(m[x]).len() && #[trigger] dep_keys(m[x])[j] == w[1];
    assert(nodes[i].dependencies@[j]@ == w[1]);
    if !marked[i] {
        if w.len() == 2 {
            assert(roots.contains(w[1]));
        } else {
            let rest = w.drop_first();
            assert forall|k: int| 0 <= k < rest.len() - 1 implies m.contains_key(#[trigger] rest[k]) && dep_keys(m[rest[k]]).contains(rest[k + 1]) by {
                assert(rest[k] == w[k + 1]);
                assert(rest[k + 1] == w[k + 2]);
            }
            lemma_closed_is_complete(nodes, roots, marked, rest);
            let x2 = choose|x2: int| 0 <= x2 < nodes.len() && nodes[x2].key() == rest[0] && #[trigger] marked[x2];
            assert(!marked[x2]);
        }
    }
    assert(marked[i]);
}

fn contains_id(ids: &[ArtifactId], id: &ArtifactId) -> (found: bool)
    ensures
        found == ids@.map_values(|r: ArtifactId| r@).contains(id@),
{
    let ghost views = ids@.map_values(|r: ArtifactId| r@);
    let mut i: usize = 0;
    while i < ids.len()
        invariant
            0 <= i <= ids@.len(),
            views == ids@.map_values(|r: ArtifactId| r@),
            forall|k: int| 0 <= k < i ==> views[k] != id@,
        decreases ids.len() - i,
    {
        if crate::text::str_equal(ids[i].as_str(), id.as_str()) {
            assert(views[i as int] == id@);
            return true;
        }
        i = i + 1;
    }
    assert(!views.contains(id@)) by {
        if views.contains(id@) {
            let k = choose|k: int| 0 <= k < views.len() && #[trigger] views[k] == id@;
            assert(views[k] != id@);
        }
    }
    false
}

impl ArtifactGraph {
    /// Remove every artifact that transitively depends on one of `roots`, and
    /// return their ids in ascending order.
    pub fn invalidate_downstream(&mut self, roots: &[ArtifactId]) -> (invalidated: Vec<ArtifactId>)
        requires
            old(self).well_formed(),
        ensures
            final(self).well_formed(),
            forall|k: Seq<char>|
                #[trigger] final(self)@.contains_key(k) <==> (old(self)@.contains_key(k) && !downstream(
                    old(self)@,
                    roots@.map_values(|r: ArtifactId| r@).to_set(),
                    k,
                )),
            forall|k: Seq<char>| #[trigger] final(self)@.contains_key(k) ==> final(self)@[k] == old(self)@[k],
            keys_sorted(invalidated@),
            forall|k: Seq<char>|
                #[trigger] has_key(invalidated@, k) <==> (old(self)@.contains_key(k) && downstream(
                    old(self)@,
                    roots@.map_values(|r: ArtifactId| r@).to_set(),
                    k,
                )),
    {
        let ghost rs = roots@.map_values(|r: ArtifactId| r@).to_set();
        let ghost m = self@;
        let ghost s = self.nodes@;
        proof {
            lemma_to_map(s);
        }
        let n = self.nodes.len();
        let mut marked: Vec<bool> = Vec::new();
        let mut i: usize = 0;
        while i < n
            invariant
                0 <= i <= n,
                marked@.len() == i,
                forall|x: int| 0 <= x < i ==> !#[trigger] marked@[x],
            decreases n - i,
        {
            marked.push(false);
            i = i + 1;
        }
        let mut count: usize = 0;
        assert(count_true(marked@) == 0) by {
            lemma_count_zero(marked@);
        }
        loop
            invariant
                n == s.len(),
                s == self.nodes@,
                m == to_map(s),
                self.well_formed(),
                *self == *old(self),
                rs == roots@.map_values(|r: ArtifactId| r@).to_set(),
                marked@.len() == n,
                count == count_true(marked@),
                count <= n,
                forall|x: int| 0 <= x < n && #[trigger] marked@[x] ==> downstream(m, rs, s[x].key()),
            ensures
                closed_under_dependants(s, rs, marked@),
            decreases n - count,
        {
            let ghost start = marked@;
            let mut changed = false;
            let mut i: usize = 0;
            while i < n
                invariant
                    0 <= i <= n,
                    n == s.len(),
                    s == self.nodes@,
                    m == to_map(s),
                    self.well_formed(),
                    rs == roots@.map_values(|r: ArtifactId| r@).to_set(),
                    marked@.len() == n,
                    count == count_true(marked@),
                    count <= n,
                    count >= count_true(start),
                    changed ==> count > count_true(start),
                    !changed ==> marked@ == start,
                    forall|x: int| 0 <= x < n && #[trigger] marked@[x] ==> downstream(m, rs, s[x].key()),
                    !changed ==> forall|a: int, j: int|
                        #![trigger marked@[a], s[a].dependencies@[j]]
                        0 <= a < i && !marked@[a] && 0 <= j < s[a].dependencies@.len() ==> {
                            &&& !rs.contains(s[a].dependencies@[j]@)
                            &&& forall|x: int| 0 <= x < n && #[trigger] s[x].key() == s[a].dependencies@[j]@ ==> !marked@[x]
                        },
                decreases n - i,
            {
                if !marked[i] {
                    let node = &self.nodes[i];
                    let mut hit = false;
                    let mut j: usize = 0;
                    while j < node.dependencies.len()
                        invariant
                            0 <= j <= node.dependencies@.len(),
                            *node == s[i as int],
                            i < n,
                            n == s.len(),
                            s == self.nodes@,
                            m == to_map(s),
                            keys_sorted(s),
                            marked@.len() == n,
                            rs == roots@.map_values(|r: ArtifactId| r@).to_set(),
                            forall|x: int| 0 <= x < n && #[trigger] marked@[x] ==> downstream(m, rs, s[x].key()),
                            hit ==> downstream(m, rs, s[i as int].key()),
                            !hit ==> forall|b: int| #![trigger node.dependencies@[b]] 0 <= b < j ==> {
                                &&& !rs.contains(node.dependencies@[b]@)
                                &&& forall|x: int| 0 <= x < n && #[trigger] s[x].key() == node.dependencies@[b]@ ==> !marked@[x]
                            },
                        decreases node.dependencies.len() - j,
                    {
                        let dependency = &node.dependencies[j];
                        proof {
                            lemma_to_map(s);
                            assert(m[s[i as int].key()] == s[i as int]);
                        }
                        if contains_id(roots, dependency) {
                            proof {
                                let k = s[i as int].key();
                                assert(m[k].dependencies@[j as int]@ == dependency@);
                                lemma_walk_extend(m, k, rs, j as int);
                            }
                            hit = true;
                        } else {
                            match find_key(&self.nodes, dependency.as_str()) {
                                Some(x) => {
                                    if marked[x] {
                                        proof {
                                            let k = s[i as int].key();
                                            assert(m[k].dependencies@[j as int]@ == s[x as int].key());
                                            lemma_walk_extend(m, k, rs, j as int);
                                        }
                                        hit = true;
                                    } else {
                                        assert forall|y: int| 0 <= y < n && #[trigger] s[y].key() == dependency@ implies !marked@[y] by {
                                            crate::keyed::lemma_sorted_unique(s, x as int, y);
                                        }
                                    }
                                },
                                None => {
                                    assert forall|y: int| 0 <= y < n && #[trigger] s[y].key() == dependency@ implies !marked@[y] by {
                                        assert(has_key(s, dependency@));
                                    }
                                },
                            }
                        }
                        j = j + 1;
                    }
                    if hit {
                        proof {
                            lemma_count_true_set(marked@, i as int);
                            lemma_count_true_bound(marked@.update(i as int, true));
                        }
                        marked.set(i, true);
                        count = count + 1;
                        changed = true;
                    }
                }
                i = i + 1;
            }
            if !changed {
                break;
            }
        }
        assert(closed_under_dependants(s, rs, marked@));
        assert forall|x: int| 0 <= x < n && !marked@[x] implies !downstream(m, rs, #[trigger] s[x].key()) by {
            if downstream(m, rs, s[x].key()) {
                let w = choose|w: Seq<Seq<char>>| #[trigger] is_dependency_walk(m, w) && w.len() >= 2 && w[0] == s[x].key() && rs.contains(w.last());
                lemma_closed_is_complete(s, rs, marked@, w);
                let y = choose|y: int| 0 <= y < s.len() && s[y].key() == s[x].key() && #[trigger] marked@[y];
                crate::keyed::lemma_sorted_unique(s, x, y);
            }
        }
        // Split the nodes into kept and invalidated, preserving order.
        let mut kept: Vec<ArtifactNode> = Vec::new();
        let mut removed: Vec<ArtifactId> = Vec::new();
        let ghost mut kept_from: Seq<int> = Seq::empty();
        let ghost mut removed_from: Seq<int> = Seq::empty();
        let mut old_nodes: Vec<ArtifactNode> = Vec::new();
        std::mem::swap(&mut old_nodes, &mut self.nodes);
        let mut i: usize = 0;
        let mut rest = old_nodes;
        assert(rest@.subrange(0, n as int) =~= rest@);
        while i < n
            invariant
                0 <= i <= n,
                n == s.len(),
                rest@ == s.subrange(i as int, n as int),
                keys_sorted(s),
                marked@.len() == n,
                kept_from.len() == kept@.len(),
                removed_from.len() == removed@.len(),
                forall|a: int| 0 <= a < kept@.len() ==> 0 <= #[trigger] kept_from[a] < i && !marked@[kept_from[a]] && kept@[a] == s[kept_from[a]],
                forall|a: int| 0 <= a < removed@.len() ==> 0 <= #[trigger] removed_from[a] < i && marked@[removed_from[a]] && removed@[a].key() == s[removed_from[a]].key(),
                forall|a: int, b: int| 0 <= a < b < kept@.len() ==> #[trigger] kept_from[a] < #[trigger] kept_from[b],
                forall|a: int, b: int| 0 <= a < b < removed@.len() ==> #[trigger] removed_from[a] < #[trigger] removed_from[b],
                forall|x: int| 0 <= x < i && !marked@[x] ==> has_key(kept@, #[trigger] s[x].key()),
                forall|x: int| 0 <= x < i && marked@[x] ==> has_key(removed@, #[trigger] s[x].key()),
            decreases n - i,
        {
            assert(rest@.len() > 0);
            let node = rest.remove(0);
            assert(node == s[i as int]);
            assert(rest@ =~= s.subrange(i + 1, n as int));
            if marked[i] {
                let id = node.id.clone();
                let ghost before = removed@;
                removed.push(id);
                proof {
                    removed_from = removed_from.push(i as int);
                    assert forall|x: int| 0 <= x < i + 1 && marked@[x] implies has_key(removed@, #[trigger] s[x].key()) by {
                        if x < i {
                            let a = choose|a: int| 0 <= a < before.len() && #[trigger] before[a].key() == s[x].key();
                            assert(removed@[a] == before[a]);
                        } else {
                            assert(removed@[before.len() as int].key() == s[x].key());
                        }
                    }
                }
            } else {
                let ghost before = kept@;
                kept.push(node);
                proof {
                    kept_from = kept_from.push(i as int);
                    assert forall|x: int| 0 <= x < i + 1 && !marked@[x] implies has_key(kept@, #[trigger] s[x].key()) by {
                        if x < i {
                            let a = choose|a: int| 0 <= a < before.len() && #[trigger] before[a].key() == s[x].key();
                            assert(kept@[a] == before[a]);
                        } else {
                            assert(kept@[before.len() as int].key() == s[x].key());
                        }
                    }
                }
            }
            i = i + 1;
        }
        assert(keys_sorted(kept@)) by {
            assert forall|a: int, b: int| 0 <= a < b < kept@.len() implies seq_lt(#[trigger] kept@[a].key(), #[trigger] kept@[b].key()) by {
                assert(kept_from[a] < kept_from[b]);
            }
        }
        assert(keys_sorted(removed@)) by {
            assert forall|a: int, b: int| 0 <= a < b < removed@.len() implies seq_lt(#[trigger] removed@[a].key(), #[trigger] removed@[b].key()) by {
                assert(removed_from[a] < removed_from[b]);
            }
        }
        self.nodes = kept;
        proof {
            lemma_to_map(s);
            lemma_to_map(self.nodes@);
            let k_map = self@;
            assert forall|k: Seq<char>| #[trigger] k_map.contains_key(k) <==> (m.contains_key(k) && !downstream(m, rs, k)) by {
                if k_map.contains_key(k) {
                    let a = choose|a: int| 0 <= a < self.nodes@.len() && #[trigger] self.nodes@[a].key() == k;
                    let x = kept_from[a];
                    assert(s[x].key() == k);
                }
                if m.contains_key(k) && !downstream(m, rs, k) {
                    let x = choose|x: int| 0 <= x < s.len() && #[trigger] s[x].key() == k;
                    assert(!marked@[x]);
                }
            }
            assert forall|k: Seq<char>| #[trigger] k_map.contains_key(k) implies k_map[k] == m[k] by {
                let a = choose|a: int| 0 <= a < self.nodes@.len() && #[trigger] self.nodes@[a].key() == k;
                let x = kept_from[a];
                assert(k_map[self.nodes@[a].key()] == self.nodes@[a]);
                assert(m[s[x].key()] == s[x]);
            }
            assert forall|k: Seq<char>| #[trigger] has_key(removed@, k) <==> (m.contains_key(k) && downstream(m, rs, k)) by {
                if has_key(removed@, k) {
                    let a = choose|a: int| 0 <= a < removed@.len() && #[trigger] removed@[a].key() == k;
                    let x = removed_from[a];
                    assert(marked@[x]);
                }
                if m.contains_key(k) && downstream(m, rs, k) {
                    let x = choose|x: int| 0 <= x < s.len() && #[trigger] s[x].key() == k;
                    if !marked@[x] {
                        assert(!downstream(m, rs, s[x].key()));
                    }
                }
            }
            // Kept artifacts only depend on kept artifacts.
            assert forall|k: Seq<char>, j: int|
                #![trigger k_map[k].dependencies@[j]]
                k_map.contains_key(k) && 0 <= j < k_map[k].dependencies@.len() implies k_map.contains_key(k_map[k].dependencies@[j]@) by {
                let d = m[k].dependencies@[j]@;
                assert(m.contains_key(d));
                if downstream(m, rs, d) {
                    lemma_walk_extend(m, k, rs, j);
                }
            }
        }
        removed
    }
}

/// The node with its fingerprint replaced.
pub open spec fn with_fingerprint(node: ArtifactNode, fingerprint: Fingerprint) -> ArtifactNode {
    ArtifactNode { id: node.id, kind: node.kind, fingerprint, dependencies: node.dependencies }
}

impl ArtifactGraph {
    /// Change an artifact's fingerprint. An unchanged fingerprint keeps every
    /// cached artifact; a changed one removes exactly its transitive dependants.
    pub fn update_fingerprint(&mut self, id: &ArtifactId, fingerprint: Fingerprint) -> (result: Result<
        Vec<ArtifactId>,
        ArtifactGraphError,
    >)
        requires
            old(self).well_formed(),
        ensures
            final(self).well_formed(),
            !old(self)@.contains_key(id@) ==> result == Err::<Vec<ArtifactId>, ArtifactGraphError>(
                ArtifactGraphError::MissingArtifact(*id),
            ) && final(self)@ == old(self)@,
            old(self)@.contains_key(id@) && old(self)@[id@].fingerprint@ == fingerprint@ ==> (result matches Ok(
                v,
            ) && v@.len() == 0) && final(self)@ == old(self)@,
            old(self)@.contains_key(id@) && old(self)@[id@].fingerprint@ != fingerprint@ ==> {
                let updated = old(self)@.insert(id@, with_fingerprint(old(self)@[id@], fingerprint));
                &&& result matches Ok(v) && keys_sorted(v@) && forall|k: Seq<char>|
                    #[trigger] has_key(v@, k) <==> (updated.contains_key(k) && downstream(updated, set![id@], k))
                &&& forall|k: Seq<char>|
                    #[trigger] final(self)@.contains_key(k) <==> (updated.contains_key(k) && !downstream(
                        updated,
                        set![id@],
                        k,
                    ))
                &&& forall|k: Seq<char>| #[trigger] final(self)@.contains_key(k) ==> final(self)@[k] == updated[k]
            },
    {
        proof {
            lemma_to_map(self.nodes@);
        }
        let position = match find_key(&self.nodes, id.as_str()) {
            Some(p) => p,
            None => {
                return Err(ArtifactGraphError::MissingArtifact(id.clone()));
            },
        };
        assert(self@[self.nodes@[position as int].key()] == self.nodes@[position as int]);
        if self.nodes[position].fingerprint == fingerprint {
            return Ok(Vec::new());
        }
        let ghost old_map = self@;
        let ghost old_nodes = self.nodes@;
        let mut node = self.nodes.remove(position);
        let ghost changed = with_fingerprint(node, fingerprint);
        node.fingerprint = fingerprint;
        assert(node == changed);
        self.nodes.insert(position, node);
        assert(self.nodes@ =~= old_nodes.update(position as int, changed));
        proof {
            lemma_to_map(self.nodes@);
            assert forall|a: int, b: int| 0 <= a < b < self.nodes@.len() implies seq_lt(
                #[trigger] self.nodes@[a].key(),
                #[trigger] self.nodes@[b].key(),
            ) by {
                assert(self.nodes@[a].key() == old_nodes[a].key());
                assert(self.nodes@[b].key() == old_nodes[b].key());
            }
            assert forall|k: Seq<char>| #[trigger] self@.contains_key(k) <==> old_map.contains_key(k) by {
                if self@.contains_key(k) {
                    let a = choose|a: int| 0 <= a < self.nodes@.len() && #[trigger] self.nodes@[a].key() == k;
                    assert(old_nodes[a].key() == k);
                }
                if old_map.contains_key(k) {
                    let a = choose|a: int| 0 <= a < old_nodes.len() && #[trigger] old_nodes[a].key() == k;
                    assert(self.nodes@[a].key() == k);
                }
            }
            assert forall|k: Seq<char>| #[trigger] self@.contains_key(k) implies self@[k] == old_map.insert(
                id@,
                changed,
            )[k] by {
                let a = choose|a: int| 0 <= a < self.nodes@.len() && #[trigger] self.nodes@[a].key() == k;
                assert(self@[self.nodes@[a].key()] == self.nodes@[a]);
                assert(old_map[old_nodes[a].key()] == old_nodes[a]);
                if a == position {
                    assert(k == id@);
                } else if k == id@ {
                    crate::keyed::lemma_sorted_unique(old_nodes, a, position as int);
                }
            }
            assert(self@ =~= old_map.insert(id@, changed));
        }
        let roots = vec![id.clone()];
        assert(roots@.map_values(|r: ArtifactId| r@).to_set() =~= set![id@]) by {
            assert(roots@.map_values(|r: ArtifactId| r@)[0] == id@);
        }
        Ok(self.invalidate_downstream(roots.as_slice()))
    }
}

/// A stored graph lists its artifacts as map entries: a key and the node
/// filed under it.
impl Keyed for (ArtifactId, ArtifactNode) {
    open spec fn key(&self) -> Seq<char> {
        self.0@
    }

    fn key_str(&self) -> (k: &str) {
        self.0.as_str()
    }
}

pub open spec fn entry_nodes(entries: Seq<(ArtifactId, ArtifactNode)>) -> Seq<ArtifactNode> {
    entries.map_values(|e: (ArtifactId, ArtifactNode)| e.1)
}

/// Every dependency of `node` is the key of some entry.
pub open spec fn dependencies_listed(entries: Seq<(ArtifactId, ArtifactNode)>, node: ArtifactNode) -> bool {
    forall|j: int| 0 <= j < node.dependencies@.len() ==> has_key(entries, #[trigger] node.dependencies@[j]@)
}

/// `k` is the first dependency of `node` that is the key of no entry.
pub open spec fn first_unlisted(entries: Seq<(ArtifactId, ArtifactNode)>, node: ArtifactNode, k: int) -> bool {
    &&& 0 <= k < node.dependencies@.len()
    &&& !has_key(entries, node.dependencies@[k]@)
    &&& forall|j: int| 0 <= j < k ==> has_key(entries, #[trigger] node.dependencies@[j]@)
}

/// What is wrong with entry `i` on its own: a key that is not its node's
/// id, or the first dependency that no entry provides.
pub open spec fn entry_error(entries: Seq<(ArtifactId, ArtifactNode)>, i: int) -> Option<ArtifactGraphError> {
    let node = entries[i].1;
    if entries[i].0@ != node.id@ {
        Some(ArtifactGraphError::KeyMismatch(entries[i].0, node.id))
    } else if dependencies_listed(entries, node) {
        None
    } else {
        let k = choose|k: int| first_unlisted(entries, node, k);
        Some(ArtifactGraphError::MissingDependency(node.dependencies@[k]))
    }
}

/// The error of the first entry, from `i` on, that has one.
pub open spec fn entries_error_from(entries: Seq<(ArtifactId, ArtifactNode)>, i: int) -> Option<ArtifactGraphError>
    decreases entries.len() - i,
{
    if i < 0 || i >= entries.len() {
        None
    } else if entry_error(entries, i) is Some {
        entry_error(entries, i)
    } else {
        entries_error_from(entries, i + 1)
    }
}

/// For each node, the positions of the nodes it depends on.
pub open spec fn dependency_positions(nodes: Seq<ArtifactNode>) -> Seq<Seq<usize>> {
    Seq::new(
        nodes.len(),
        |v: int| nodes[v].dependencies@.map_values(|d: ArtifactId| key_index(nodes, d@) as usize),
    )
}

/// Entry `k` is filed under its node's id and lists only present dependencies.
pub open spec fn entry_listed(entries: Seq<(ArtifactId, ArtifactNode)>, k: int) -> bool {
    entries[k].0@ == entries[k].1.id@ && dependencies_listed(entries, entries[k].1)
}

/// `v` is the first node that `order` does not place.
pub open spec fn first_unplaced(order: Seq<usize>, n: int, v: int) -> bool {
    &&& 0 <= v < n
    &&& !order.contains(v as usize)
    &&& forall|w: usize| w < v ==> #[trigger] order.contains(w)
}

/// Where node `v` stands in `order`.
spec fn place_of(order: Seq<usize>, v: int) -> int {
    choose|q: int| 0 <= q < order.len() && order[q] == v as usize
}

fn order_contains(order: &Vec<usize>, v: usize) -> (found: bool)
    ensures
        found == order@.contains(v),
{
    let mut q: usize = 0;
    while q < order.len()
        invariant
            0 <= q <= order@.len(),
            forall|j: int| 0 <= j < q ==> order@[j] != v,
        decreases order.len() - q,
    {
        if order[q] == v {
            return true;
        }
        q = q + 1;
    }
    false
}

/// Every dependency of every node is itself one of the nodes.
pub open spec fn nodes_closed(ns: Seq<ArtifactNode>) -> bool {
    forall|k: int, j: int|
        0 <= k < ns.len() && 0 <= j < ns[k].dependencies@.len() ==> has_key(ns, #[trigger] ns[k].dependencies@[j]@)
}

/// Each node ranked by its place in `order`.
spec fn order_rank(ns: Seq<ArtifactNode>, order: Seq<usize>) -> Map<Seq<char>, nat> {
    Map::new(|k: Seq<char>| has_key(ns, k), |k: Seq<char>| place_of(order, key_index(ns, k)) as nat)
}

/// Placing every node in a dependency order ranks each node above the
/// nodes it depends on.
proof fn lemma_order_ranks(ns: Seq<ArtifactNode>, order: Seq<usize>)
    requires
        keys_sorted(ns),
        nodes_closed(ns),
        ns.len() <= usize::MAX,
        order.len() == ns.len(),
        valid_order(dependency_positions(ns), order),
    ensures
        deps_present(to_map(ns)),
        forall|k: Seq<char>| #[trigger] to_map(ns).contains_key(k) ==> order_rank(ns, order).contains_key(k)
            && order_rank(ns, order)[k] < ns.len(),
        forall|k: Seq<char>, j: int|
            #![trigger to_map(ns)[k].dependencies@[j]]
            to_map(ns).contains_key(k) && 0 <= j < to_map(ns)[k].dependencies@.len() ==> order_rank(ns, order)[to_map(
                ns,
            )[k].dependencies@[j]@] < order_rank(ns, order)[k],
{
    let n = ns.len() as int;
    let m = to_map(ns);
    let rank = order_rank(ns, order);
    let ps = dependency_positions(ns);
    lemma_to_map(ns);
    assert forall|x: int| 0 <= x < n implies order.contains(x as usize) && 0 <= #[trigger] place_of(order, x) < n
        && order[place_of(order, x)] == x as usize by {
        crate::order::lemma_full_order_covers(order, n, x);
    }
    assert forall|k: Seq<char>| #[trigger] m.contains_key(k) implies m[k] == ns[key_index(ns, k)] && 0 <= key_index(ns, k) < n by {
        let c = key_index(ns, k);
        assert(m[ns[c].key()] == ns[c]);
    }
    assert forall|k: Seq<char>, j: int|
        #![trigger m[k].dependencies@[j]]
        m.contains_key(k) && 0 <= j < m[k].dependencies@.len() implies m.contains_key(m[k].dependencies@[j]@)
            && rank[m[k].dependencies@[j]@] < rank[k] by {
        let c = key_index(ns, k);
        let node = ns[c];
        let d = node.dependencies@[j]@;
        assert(has_key(ns, d));
        let u = key_index(ns, d);
        let q = place_of(order, c);
        assert(order[q] == c as usize);
        assert(crate::order::ready(ps, order.subrange(0, q), order[q] as int));
        assert(ps[c] == node.dependencies@.map_values(|e: ArtifactId| key_index(ns, e@) as usize));
        assert(ps[c][j] == u as usize);
        assert(0 <= j < ps[c].len());
        assert(crate::order::ready(ps, order.subrange(0, q), c));
        assert(order.subrange(0, q).contains(ps[c][j]));
        let q2 = choose|q2: int| 0 <= q2 < q && order.subrange(0, q)[q2] == u as usize;
        assert(order[q2] == u as usize);
        let p = place_of(order, u);
        assert(0 <= u < n);
        assert(order[p] == u as usize);
        assert(p == q2);
    }
}

impl ArtifactGraph {
    /// A graph from the entries of a stored map, in key order: each key must
    /// be its node's id, every dependency must be listed, and no dependency
    /// cycle may remain. A cycle is reported by the least id that no
    /// dependency order can place.
    pub fn from_entries(entries: Vec<(ArtifactId, ArtifactNode)>) -> (result: Result<ArtifactGraph, ArtifactGraphError>)
        requires
            keys_sorted(entries@),
        ensures
            entries_error_from(entries@, 0) is Some ==> result == Err::<ArtifactGraph, ArtifactGraphError>(
                entries_error_from(entries@, 0).unwrap(),
            ),
            entries_error_from(entries@, 0) is None ==> (result is Ok <==> completable(
                dependency_positions(entry_nodes(entries@)),
            )),
            entries_error_from(entries@, 0) is None && result is Err ==> (result matches Err(
                ArtifactGraphError::Cycle(id),
            ) && exists|order: Seq<usize>, v: int|
                #![trigger valid_order(dependency_positions(entry_nodes(entries@)), order), first_unplaced(order, entries@.len() as int, v)]
                valid_order(dependency_positions(entry_nodes(entries@)), order) && least_first(
                    dependency_positions(entry_nodes(entries@)),
                    order,
                ) && stuck(dependency_positions(entry_nodes(entries@)), order) && first_unplaced(
                    order,
                    entries@.len() as int,
                    v,
                ) && id == entries@[v].1.id),
            result matches Ok(graph) ==> graph.well_formed() && graph@ == to_map(entry_nodes(entries@)),
    {
        let ghost given = entries@;
        let n = entries.len();
        let mut i: usize = 0;
        while i < n
            invariant
                0 <= i <= n,
                n == given.len(),
                entries@ == given,
                keys_sorted(given),
                entries_error_from(given, 0) == entries_error_from(given, i as int),
                forall|k: int| 0 <= k < i ==> #[trigger] entry_listed(given, k),
            decreases n - i,
        {
            let key = &entries[i].0;
            let node = &entries[i].1;
            if !crate::text::str_equal(key.as_str(), node.id.as_str()) {
                return Err(ArtifactGraphError::KeyMismatch(key.clone(), node.id.clone()));
            }
            let mut j: usize = 0;
            while j < node.dependencies.len()
                invariant
                    0 <= j <= node.dependencies@.len(),
                    i < n,
                    n == given.len(),
                    entries@ == given,
                    *node == given[i as int].1,
                    given[i as int].0@ == node.id@,
                    entries_error_from(given, 0) == entries_error_from(given, i as int),
                    forall|a: int| 0 <= a < j ==> has_key(given, #[trigger] node.dependencies@[a]@),
                decreases node.dependencies.len() - j,
            {
                let dependency = &node.dependencies[j];
                if find_key(&entries, dependency.as_str()).is_none() {
                    proof {
                        assert(first_unlisted(given, *node, j as int));
                        let k = choose|k: int| first_unlisted(given, *node, k);
                        if k < j {
                            assert(has_key(given, node.dependencies@[k]@));
                        } else if k > j {
                            assert(has_key(given, node.dependencies@[j as int]@));
                        }
                    }
                    return Err(ArtifactGraphError::MissingDependency(dependency.clone()));
                }
                j = j + 1;
            }
            i = i + 1;
        }
        // Take the nodes out of the entries, keeping their order.
        let mut rest = entries;
        let mut nodes: Vec<ArtifactNode> = Vec::new();
        while rest.len() > 0
            invariant
                rest@.len() <= n,
                n == given.len(),
                keys_sorted(given),
                entries_error_from(given, 0) is None,
                forall|k: int| 0 <= k < n ==> #[trigger] entry_listed(given, k),
                rest@ == given.subrange(0, rest@.len() as int),
                nodes@ == entry_nodes(given).subrange(rest@.len() as int, n as int),
            decreases rest.len(),
        {
            let entry = rest.pop().unwrap();
            let ghost before = nodes@;
            nodes.insert(0, entry.1);
            assert(nodes@ =~= entry_nodes(given).subrange(rest@.len() as int, n as int));
        }
        assert(nodes@ =~= entry_nodes(given));
        let ghost ns = nodes@;
        assert forall|k: int| 0 <= k < n implies #[trigger] ns[k].key() == given[k].key() by {
            assert(entry_listed(given, k));
        }
        assert(keys_sorted(ns)) by {
            assert forall|a: int, b: int| 0 <= a < b < ns.len() implies seq_lt(#[trigger] ns[a].key(), #[trigger] ns[b].key()) by {
                assert(ns[a].key() == given[a].key());
                assert(ns[b].key() == given[b].key());
            }
        }
        assert forall|k: Seq<char>| has_key(given, k) <==> #[trigger] has_key(ns, k) by {
            if has_key(given, k) {
                let a = choose|a: int| 0 <= a < given.len() && #[trigger] given[a].key() == k;
                assert(ns[a].key() == k);
            }
            if has_key(ns, k) {
                let a = choose|a: int| 0 <= a < ns.len() && #[trigger] ns[a].key() == k;
                assert(given[a].key() == k);
            }
        }
        assert(nodes_closed(ns)) by {
            assert forall|k: int, j: int| 0 <= k < ns.len() && 0 <= j < ns[k].dependencies@.len() implies has_key(
                ns,
                #[trigger] ns[k].dependencies@[j]@,
            ) by {
                assert(ns.len() == given.len());
                assert(0 <= k < given.len());
                assert(entry_listed(given, k));
                assert(ns[k] == given[k].1);
                assert(has_key(given, ns[k].dependencies@[j]@));
            }
        }
        let ghost ps = dependency_positions(ns);
        // The positions each node depends on.
        let mut preds: Vec<Vec<usize>> = Vec::new();
        let mut v: usize = 0;
        while v < n
            invariant
                0 <= v <= n,
                n == ns.len(),
                n == given.len(),
                nodes@ == ns,
                nodes_closed(ns),
                given == entries@,
                ns == entry_nodes(given),
                keys_sorted(ns),
                ps == dependency_positions(ns),
                forall|k: int| 0 <= k < n ==> #[trigger] entry_listed(given, k),
                forall|k: int| 0 <= k < n ==> #[trigger] ns[k] == given[k].1,
                forall|k: Seq<char>| has_key(given, k) <==> #[trigger] has_key(ns, k),
                preds@.len() == v,
                forall|w: int| 0 <= w < v ==> #[trigger] preds@[w]@ == ps[w],
                forall|w: int, k: int| 0 <= w < v && 0 <= k < preds@[w]@.len() ==> #[trigger] preds@[w]@[k] < n,
            decreases n - v,
        {
            let node = &nodes[v];
            let ghost target = ps[v as int];
            assert(entry_listed(given, v as int));
            assert(ns[v as int] == given[v as int].1);
            let mut list: Vec<usize> = Vec::new();
            let mut j: usize = 0;
            while j < node.dependencies.len()
                invariant
                    0 <= j <= node.dependencies@.len(),
                    v < n,
                    n == ns.len(),
                    nodes@ == ns,
                    keys_sorted(ns),
                    *node == ns[v as int],
                    target == ps[v as int],
                    ps == dependency_positions(ns),
                    dependencies_listed(given, ns[v as int]),
                    forall|k: Seq<char>| has_key(given, k) <==> #[trigger] has_key(ns, k),
                    list@ == target.subrange(0, j as int),
                    forall|a: int| 0 <= a < list@.len() ==> #[trigger] list@[a] < n,
                decreases node.dependencies.len() - j,
            {
                let dependency = &node.dependencies[j];
                assert(has_key(given, node.dependencies@[j as int]@));
                assert(has_key(ns, dependency@));
                match find_key(&nodes, dependency.as_str()) {
                    Some(u) => {
                        proof {
                            let c = key_index(ns, dependency@);
                            lemma_sorted_unique(ns, c, u as int);
                            assert(target[j as int] == u);
                        }
                        list.push(u);
                        assert(list@ =~= target.subrange(0, j + 1));
                    },
                    None => {
                        assert(false);
                    },
                }
                j = j + 1;
            }
            assert(list@ =~= target);
            preds.push(list);
            v = v + 1;
        }
        assert(pred_views(preds@) =~= ps) by {
            assert forall|w: int| 0 <= w < n implies pred_views(preds@)[w] == ps[w] by {
                assert(preds@[w]@ == ps[w]);
            }
        }
        assert(preds_in_range(pred_views(preds@))) by {
            assert forall|w: int, k: int| 0 <= w < pred_views(preds@).len() && 0 <= k < pred_views(preds@)[w].len() implies #[trigger] pred_views(preds@)[w][k] < pred_views(preds@).len() by {
                assert(pred_views(preds@)[w] == preds@[w]@);
                assert(preds@[w]@[k] < n);
            }
        }
        let order = least_first_order(&preds);
        if order.len() < n {
            proof {
                crate::order::lemma_stuck_is_final(ps, order@);
            }
            let mut w: usize = 0;
            while w < n
                invariant
                    0 <= w <= n,
                    n == ns.len(),
                    n == given.len(),
                    nodes@ == ns,
                    ns == entry_nodes(given),
                    given == entries@,
                    ps == dependency_positions(ns),
                    entries_error_from(given, 0) is None,
                    !completable(ps),
                    least_first(ps, order@),
                    stuck(ps, order@),
                    forall|k: int| 0 <= k < n ==> #[trigger] ns[k] == given[k].1,
                    ps.len() == n,
                    order@.len() < n,
                    valid_order(ps, order@),
                    forall|x: usize| x < w ==> #[trigger] order@.contains(x),
                decreases n - w,
            {
                if !order_contains(&order, w) {
                    assert(first_unplaced(order@, n as int, w as int));
                    assert(ns[w as int] == given[w as int].1);
                    return Err(ArtifactGraphError::Cycle(nodes[w].id.clone()));
                }
                w = w + 1;
            }
            proof {
                let all = Seq::new(n as nat, |x: int| x as usize);
                assert forall|m: int| 0 <= m < all.len() implies order@.contains(#[trigger] all[m]) by {
                    assert(order@.contains(m as usize));
                }
                crate::order::lemma_injection_bound(all, order@);
            }
            assert(false);
            return Err(ArtifactGraphError::Cycle(nodes[0].id.clone()));
        }
        proof {
            lemma_order_ranks(ns, order@);
        }
        let ghost rank = order_rank(ns, order@);
        let graph = ArtifactGraph { nodes, rank: Ghost(rank), bound: Ghost(n as nat) };
        Ok(graph)
    }
}

proof fn lemma_count_zero(s: Seq<bool>)
    requires
        forall|x: int| 0 <= x < s.len() ==> !#[trigger] s[x],
    ensures
        count_true(s) == 0,
    decreases s.len(),
{
    if s.len() > 0 {
        lemma_count_zero(s.drop_last());
    }
}

} // verus!
