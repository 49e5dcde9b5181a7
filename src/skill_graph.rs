//! The skill graph: nodes with their dependencies, validation and a
//! deterministic topological order.

use vstd::prelude::*;
use crate::json::same_text;
use crate::skill::{first_where, lemma_first_where, lemma_first_where_stable};

verus! {

pub struct DependencySpec {
    pub source_skill: String,
    pub fields: Vec<String>,
}

pub struct SkillNode {
    pub skill_id: String,
    pub dependencies: Vec<DependencySpec>,
}

pub struct SkillGraph {
    pub nodes: Vec<SkillNode>,
}

pub enum GraphError {
    CycleDetected,
    MissingDependency { skill: String, missing: String },
}

/// The message of a graph error.
pub open spec fn graph_error_text(e: GraphError) -> Seq<char> {
    match e {
        GraphError::CycleDetected => "cycle detected in skill graph"@,
        GraphError::MissingDependency { skill, missing } => "missing dependency: skill '"@ + skill@
            + "' depends on '"@ + missing@ + "'"@,
    }
}

impl GraphError {
    pub fn message(&self) -> (r: String)
        ensures
            r@ == graph_error_text(*self),
    {
        match self {
            GraphError::CycleDetected => "cycle detected in skill graph".to_owned(),
            GraphError::MissingDependency { skill, missing } => {
                let mut m = "missing dependency: skill '".to_owned();
                crate::json::append_text(&mut m, skill.as_str());
                crate::json::append_text(&mut m, "' depends on '");
                crate::json::append_text(&mut m, missing.as_str());
                crate::json::append_text(&mut m, "'");
                m
            },
        }
    }
}

/// The texts held by a sequence of strings.
pub open spec fn texts(v: Seq<String>) -> Seq<Seq<char>> {
    v.map_values(|s: String| s@)
}

/// Byte-wise lexicographic order, the order of Rust's `str`.
pub open spec fn bytes_lt(a: Seq<u8>, b: Seq<u8>) -> bool
    decreases a.len(),
{
    if a.len() == 0 {
        b.len() > 0
    } else if b.len() == 0 {
        false
    } else if a[0] != b[0] {
        a[0] < b[0]
    } else {
        bytes_lt(a.drop_first(), b.drop_first())
    }
}

/// `a` sorts before `b` as Rust orders strings.
pub open spec fn text_lt(a: Seq<char>, b: Seq<char>) -> bool {
    bytes_lt(vstd::utf8::encode_utf8(a), vstd::utf8::encode_utf8(b))
}

/// True when `a` sorts before `b`.
pub fn text_less(a: &str, b: &str) -> (r: bool)
    ensures
        r == text_lt(a@, b@),
{
    let x = a.as_bytes();
    let y = b.as_bytes();
    let ghost xa = x@;
    let ghost ya = y@;
    let mut i: usize = 0;
    proof {
        assert(xa.skip(0) =~= xa);
        assert(ya.skip(0) =~= ya);
    }
    while i < x.len() && i < y.len()
        invariant
            xa == x@,
            ya == y@,
            xa == vstd::utf8::encode_utf8(a@),
            ya == vstd::utf8::encode_utf8(b@),
            i <= x.len(),
            i <= y.len(),
            bytes_lt(xa, ya) == bytes_lt(xa.skip(i as int), ya.skip(i as int)),
        decreases x.len() - i,
    {
        if x[i] != y[i] {
            return x[i] < y[i];
        }
        proof {
            assert(xa.skip(i as int).drop_first() =~= xa.skip(i as int + 1));
            assert(ya.skip(i as int).drop_first() =~= ya.skip(i as int + 1));
        }
        i += 1;
    }
    i == x.len() && i < y.len()
}

/// Every dependency of every node named `x` is among `done`.
pub open spec fn deps_done(nodes: Seq<SkillNode>, done: Seq<Seq<char>>, x: Seq<char>) -> bool {
    forall|i: int, j: int|
        0 <= i < nodes.len() && nodes[i].skill_id@ == x && 0 <= j < nodes[i].dependencies@.len()
            ==> done.contains(#[trigger] nodes[i].dependencies@[j].source_skill@)
}

/// Node `i` may run next: it has not run, and all it depends on has.
pub open spec fn ready_at(nodes: Seq<SkillNode>, done: Seq<Seq<char>>, i: int) -> bool {
    !done.contains(nodes[i].skill_id@) && deps_done(nodes, done, nodes[i].skill_id@)
}

/// Among the first `k` nodes, the ready one whose id sorts first (the earliest on a tie).
pub open spec fn best_ready(nodes: Seq<SkillNode>, done: Seq<Seq<char>>, k: int) -> Option<int>
    decreases k,
{
    if k <= 0 {
        None
    } else {
        let b = best_ready(nodes, done, k - 1);
        if ready_at(nodes, done, k - 1) && (b is None || text_lt(
            nodes[k - 1].skill_id@,
            nodes[b->Some_0].skill_id@,
        )) {
            Some(k - 1)
        } else {
            b
        }
    }
}

/// Kahn's algorithm from the ids in `done`: add the ready id that sorts
/// first, until none is ready or as many ids as nodes have been emitted.
pub open spec fn kahn_from(nodes: Seq<SkillNode>, done: Seq<Seq<char>>) -> Seq<Seq<char>>
    decreases nodes.len() - done.len(),
{
    if done.len() >= nodes.len() {
        done
    } else {
        match best_ready(nodes, done, nodes.len() as int) {
            Some(i) => kahn_from(nodes, done.push(nodes[i].skill_id@)),
            None => done,
        }
    }
}

pub open spec fn kahn_order(nodes: Seq<SkillNode>) -> Seq<Seq<char>> {
    kahn_from(nodes, Seq::empty())
}

/// Each id emitted after `done` was ready when it was emitted.
pub proof fn lemma_kahn_steps(nodes: Seq<SkillNode>, done: Seq<Seq<char>>)
    ensures
        kahn_from(nodes, done).len() >= done.len(),
        kahn_from(nodes, done).subrange(0, done.len() as int) == done,
        forall|k: int|
            done.len() <= k < kahn_from(nodes, done).len() ==> exists|i: int|
                0 <= i < nodes.len() && nodes[i].skill_id@ == #[trigger] kahn_from(nodes, done)[k]
                    && ready_at(nodes, kahn_from(nodes, done).subrange(0, k), i),
    decreases nodes.len() - done.len(),
{
    let r = kahn_from(nodes, done);
    if done.len() >= nodes.len() {
        assert(r.subrange(0, done.len() as int) =~= done);
    } else {
        match best_ready(nodes, done, nodes.len() as int) {
            Some(m) => {
                lemma_best_ready(nodes, done, nodes.len() as int);
                let d2 = done.push(nodes[m].skill_id@);
                lemma_kahn_steps(nodes, d2);
                assert(r == kahn_from(nodes, d2));
                assert(r.subrange(0, done.len() as int) =~= d2.subrange(0, done.len() as int));
                assert(r.subrange(0, done.len() as int) =~= done);
                assert forall|k: int| done.len() <= k < r.len() implies exists|i: int|
                    0 <= i < nodes.len() && nodes[i].skill_id@ == #[trigger] r[k]
                        && ready_at(nodes, r.subrange(0, k), i) by {
                    if k == done.len() {
                        assert(r.subrange(0, k) =~= done);
                        assert(r[k] == r.subrange(0, d2.len() as int)[k]);
                        assert(r[k] == nodes[m].skill_id@);
                        assert(ready_at(nodes, r.subrange(0, k), m));
                    } else {
                        assert(kahn_from(nodes, d2)[k] == r[k]);
                    }
                }
            },
            None => {
                assert(r.subrange(0, done.len() as int) =~= done);
            },
        }
    }
}

pub proof fn lemma_best_ready(nodes: Seq<SkillNode>, done: Seq<Seq<char>>, k: int)
    requires
        k <= nodes.len(),
    ensures
        match best_ready(nodes, done, k) {
            Some(i) => 0 <= i < k && ready_at(nodes, done, i),
            None => forall|i: int| 0 <= i < k ==> !ready_at(nodes, done, i),
        },
    decreases k,
{
    if k > 0 {
        lemma_best_ready(nodes, done, k - 1);
    }
}

/// Topological correctness: in the Kahn order, a node comes after each
/// node it depends on.
pub proof fn lemma_kahn_respects_dependencies(nodes: Seq<SkillNode>, a: int, i: int, j: int)
    requires
        0 <= a < kahn_order(nodes).len(),
        0 <= i < nodes.len(),
        nodes[i].skill_id@ == kahn_order(nodes)[a],
        0 <= j < nodes[i].dependencies@.len(),
    ensures
        exists|b: int| 0 <= b < a && kahn_order(nodes)[b] == nodes[i].dependencies@[j].source_skill@,
{
    let r = kahn_order(nodes);
    lemma_kahn_steps(nodes, Seq::empty());
    let i2 = choose|i2: int|
        0 <= i2 < nodes.len() && nodes[i2].skill_id@ == #[trigger] r[a]
            && ready_at(nodes, r.subrange(0, a), i2);
    let s = nodes[i].dependencies@[j].source_skill@;
    assert(r.subrange(0, a).contains(s));
    let b = choose|b: int| 0 <= b < a && r.subrange(0, a)[b] == s;
    assert(r[b] == s);
}

/// Node `k` depends on the id of node `m`.
pub open spec fn depends_on(nodes: Seq<SkillNode>, k: int, m: int) -> bool {
    exists|j: int|
        0 <= j < nodes[k].dependencies@.len() && #[trigger] nodes[k].dependencies@[j].source_skill@
            == nodes[m].skill_id@
}

/// `c` lists the nodes of a directed cycle: each depends on the one before
/// it, and the first on the last.
pub open spec fn is_cycle(nodes: Seq<SkillNode>, c: Seq<int>) -> bool {
    &&& c.len() > 0
    &&& forall|t: int| 0 <= t < c.len() ==> 0 <= #[trigger] c[t] < nodes.len()
    &&& forall|t: int| 0 < t < c.len() ==> depends_on(nodes, #[trigger] c[t], c[t - 1])
    &&& depends_on(nodes, c[0], c[c.len() - 1])
}

/// No id of a cycle's nodes is among the first `a` ids of the Kahn order.
proof fn lemma_cycle_ids_absent(nodes: Seq<SkillNode>, c: Seq<int>, a: int)
    requires
        is_cycle(nodes, c),
        0 <= a <= kahn_order(nodes).len(),
    ensures
        forall|b: int, t: int|
            0 <= b < a && 0 <= t < c.len() ==> #[trigger] kahn_order(nodes)[b] != nodes[#[trigger] c[t]].skill_id@,
    decreases a,
{
    let r = kahn_order(nodes);
    if a > 0 {
        lemma_cycle_ids_absent(nodes, c, a - 1);
        lemma_kahn_steps(nodes, Seq::empty());
        assert forall|b: int, t: int| 0 <= b < a && 0 <= t < c.len() implies #[trigger] r[b] != nodes[#[trigger] c[t]].skill_id@ by {
            if b == a - 1 && r[b] == nodes[c[t]].skill_id@ {
                let i2 = choose|i2: int|
                    0 <= i2 < nodes.len() && nodes[i2].skill_id@ == #[trigger] r[b]
                        && ready_at(nodes, r.subrange(0, b), i2);
                let p = if t > 0 { c[t - 1] } else { c[c.len() - 1] };
                assert(depends_on(nodes, c[t], p));
                let j = choose|j: int|
                    0 <= j < nodes[c[t]].dependencies@.len() && #[trigger] nodes[c[t]].dependencies@[j].source_skill@
                        == nodes[p].skill_id@;
                assert(r.subrange(0, b).contains(nodes[c[t]].dependencies@[j].source_skill@));
                let b2 = choose|b2: int| 0 <= b2 < b && r.subrange(0, b)[b2] == nodes[p].skill_id@;
                assert(r[b2] == nodes[p].skill_id@);
                let tp = if t > 0 { t - 1 } else { c.len() - 1 };
                assert(c[tp] == p);
                assert(r[b2] != nodes[c[tp]].skill_id@);
            }
        }
    }
}

/// Cycle rejection: a graph with a directed cycle has no complete order,
/// so ordering and validating it end in `CycleDetected`.
pub proof fn lemma_cycle_rejected(nodes: Seq<SkillNode>, c: Seq<int>)
    requires
        is_cycle(nodes, c),
    ensures
        kahn_order(nodes).len() != nodes.len(),
{
    let r = kahn_order(nodes);
    let n = nodes.len();
    lemma_cycle_ids_absent(nodes, c, r.len() as int);
    lemma_kahn_steps(nodes, Seq::empty());
    if r.len() == n {
        let f = |k: int|
            choose|i: int| 0 <= i < n && nodes[i].skill_id@ == r[k] && ready_at(nodes, r.subrange(0, k), i);
        let idx = Seq::new(r.len(), f);
        assert forall|k: int| 0 <= k < r.len() implies 0 <= #[trigger] idx[k] < n && nodes[idx[k]].skill_id@ == r[k]
            && !r.subrange(0, k).contains(r[k]) by {
            assert(r[k] == r[k]);
        }
        assert(idx.no_duplicates()) by {
            assert forall|k1: int, k2: int| 0 <= k1 < idx.len() && 0 <= k2 < idx.len() && k1 != k2 implies idx[k1]
                != idx[k2] by {
                if idx[k1] == idx[k2] {
                    assert(r[k1] == r[k2]);
                    if k1 < k2 {
                        assert(r.subrange(0, k2)[k1] == r[k1]);
                    } else {
                        assert(r.subrange(0, k1)[k2] == r[k2]);
                    }
                }
            }
        }
        idx.unique_seq_to_set();
        let c0 = c[0];
        let range = vstd::set_lib::set_int_range(0, n as int).remove(c0);
        vstd::set_lib::lemma_int_range(0, n as int);
        assert(idx.to_set().subset_of(range)) by {
            assert forall|x: int| idx.to_set().contains(x) implies range.contains(x) by {
                let k = choose|k: int| 0 <= k < idx.len() && idx[k] == x;
                assert(r[k] != nodes[c[0]].skill_id@);
            }
        }
        vstd::set_lib::lemma_len_subset(idx.to_set(), range);
    }
}

/// The Kahn order never emits an id twice.
pub proof fn lemma_kahn_distinct(nodes: Seq<SkillNode>)
    ensures
        kahn_order(nodes).no_duplicates(),
{
    let r = kahn_order(nodes);
    lemma_kahn_steps(nodes, Seq::empty());
    assert forall|a: int, b: int| 0 <= a < r.len() && 0 <= b < r.len() && a != b implies r[a] != r[b] by {
        let (lo, hi) = if a < b { (a, b) } else { (b, a) };
        let i2 = choose|i2: int|
            0 <= i2 < nodes.len() && nodes[i2].skill_id@ == #[trigger] r[hi] && ready_at(nodes, r.subrange(0, hi), i2);
        if r[lo] == r[hi] {
            assert(r.subrange(0, hi)[lo] == r[hi]);
        }
    }
}

/// Some node has id `x`.
pub open spec fn is_node(nodes: Seq<SkillNode>, x: Seq<char>) -> bool {
    exists|k: int| 0 <= k < nodes.len() && nodes[k].skill_id@ == x
}

/// Dependency `j` of node `i` names no node.
pub open spec fn dep_missing(nodes: Seq<SkillNode>, i: int, j: int) -> bool {
    !is_node(nodes, nodes[i].dependencies@[j].source_skill@)
}

pub open spec fn dep_missing_pred(nodes: Seq<SkillNode>, i: int) -> spec_fn(int) -> bool {
    |j: int| dep_missing(nodes, i, j)
}

pub open spec fn node_missing_pred(nodes: Seq<SkillNode>) -> spec_fn(int) -> bool {
    |i: int| first_where(nodes[i].dependencies@.len() as int, dep_missing_pred(nodes, i)) is Some
}

/// The first dependency, in node order and then in list order, that names
/// no node: the id of the node that has it, and the absent source.
pub open spec fn first_missing_dependency(nodes: Seq<SkillNode>) -> Option<(Seq<char>, Seq<char>)> {
    match first_where(nodes.len() as int, node_missing_pred(nodes)) {
        Some(i) => {
            let j = first_where(nodes[i].dependencies@.len() as int, dep_missing_pred(nodes, i))->Some_0;
            Some((nodes[i].skill_id@, nodes[i].dependencies@[j].source_skill@))
        },
        None => None,
    }
}

/// True when `x` is among `v`.
fn contains_text(v: &Vec<String>, x: &str) -> (r: bool)
    ensures
        r == texts(v@).contains(x@),
{
    let mut i: usize = 0;
    while i < v.len()
        invariant
            i <= v.len(),
            forall|k: int| 0 <= k < i ==> v@[k]@ != x@,
        decreases v.len() - i,
    {
        if same_text(v[i].as_str(), x) {
            proof {
                assert(texts(v@)[i as int] == x@);
            }
            return true;
        }
        i += 1;
    }
    proof {
        if texts(v@).contains(x@) {
            let k = choose|k: int| 0 <= k < texts(v@).len() && texts(v@)[k] == x@;
            assert(v@[k]@ == x@);
        }
    }
    false
}

impl SkillGraph {
    pub fn new(nodes: Vec<SkillNode>) -> (r: Self)
        ensures
            r.nodes == nodes,
    {
        SkillGraph { nodes }
    }

    /// True when some node has id `x`.
    fn has_node(&self, x: &str) -> (r: bool)
        ensures
            r == is_node(self.nodes@, x@),
    {
        let mut k: usize = 0;
        while k < self.nodes.len()
            invariant
                k <= self.nodes.len(),
                forall|a: int| 0 <= a < k ==> self.nodes@[a].skill_id@ != x@,
            decreases self.nodes.len() - k,
        {
            if same_text(self.nodes[k].skill_id.as_str(), x) {
                return true;
            }
            k += 1;
        }
        false
    }

    /// Checks that every dependency names a node (reporting the first that
    /// does not), then that a complete order exists.
    pub fn validate(&self) -> (r: Result<(), GraphError>)
        ensures
            match first_missing_dependency(self.nodes@) {
                Some((skill, missing)) => r matches Err(GraphError::MissingDependency { skill: s, missing: m })
                    && s@ == skill && m@ == missing,
                None => match r {
                    Ok(()) => kahn_order(self.nodes@).len() == self.nodes@.len(),
                    Err(e) => kahn_order(self.nodes@).len() != self.nodes@.len() && e is CycleDetected,
                },
            },
    {
        let ghost nodes = self.nodes@;
        let ghost np = node_missing_pred(nodes);
        let mut i: usize = 0;
        while i < self.nodes.len()
            invariant
                nodes == self.nodes@,
                np == node_missing_pred(nodes),
                i <= self.nodes.len(),
                first_where(i as int, np) is None,
            decreases self.nodes.len() - i,
        {
            let deps = &self.nodes[i].dependencies;
            let ghost dp = dep_missing_pred(nodes, i as int);
            let mut j: usize = 0;
            while j < deps.len()
                invariant
                    nodes == self.nodes@,
                    np == node_missing_pred(nodes),
                    i < self.nodes.len(),
                    first_where(i as int, np) is None,
                    deps == nodes[i as int].dependencies,
                    dp == dep_missing_pred(nodes, i as int),
                    j <= deps.len(),
                    first_where(j as int, dp) is None,
                decreases deps.len() - j,
            {
                if !self.has_node(deps[j].source_skill.as_str()) {
                    proof {
                        assert(dp(j as int));
                        lemma_first_where(j as int, dp);
                        assert(first_where(j as int + 1, dp) == Some(j as int));
                        lemma_first_where_stable(j as int + 1, deps@.len() as int, dp);
                        assert(np(i as int));
                        lemma_first_where(i as int, np);
                        assert(first_where(i as int + 1, np) == Some(i as int));
                        lemma_first_where_stable(i as int + 1, nodes.len() as int, np);
                    }
                    return Err(
                        GraphError::MissingDependency {
                            skill: self.nodes[i].skill_id.clone(),
                            missing: deps[j].source_skill.clone(),
                        },
                    );
                }
                j += 1;
            }
            proof {
                assert(!np(i as int));
            }
            i += 1;
        }
        match self.topological_order() {
            Ok(_) => Ok(()),
            Err(e) => Err(e),
        }
    }

    /// True when every dependency of every node named `x` is among `done`.
    fn deps_satisfied(&self, done: &Vec<String>, x: &str) -> (r: bool)
        ensures
            r == deps_done(self.nodes@, texts(done@), x@),
    {
        let ghost nodes = self.nodes@;
        let ghost d = texts(done@);
        let mut i: usize = 0;
        while i < self.nodes.len()
            invariant
                nodes == self.nodes@,
                d == texts(done@),
                i <= self.nodes.len(),
                forall|a: int, j: int|
                    0 <= a < i && nodes[a].skill_id@ == x@ && 0 <= j < nodes[a].dependencies@.len()
                        ==> d.contains(#[trigger] nodes[a].dependencies@[j].source_skill@),
            decreases self.nodes.len() - i,
        {
            if same_text(self.nodes[i].skill_id.as_str(), x) {
                let deps = &self.nodes[i].dependencies;
                let mut j: usize = 0;
                while j < deps.len()
                    invariant
                        nodes == self.nodes@,
                        d == texts(done@),
                        i < self.nodes.len(),
                        deps == self.nodes@[i as int].dependencies,
                        nodes[i as int].skill_id@ == x@,
                        j <= deps.len(),
                        forall|a: int, b: int|
                            0 <= a < i && nodes[a].skill_id@ == x@ && 0 <= b < nodes[a].dependencies@.len()
                                ==> d.contains(#[trigger] nodes[a].dependencies@[b].source_skill@),
                        forall|b: int| 0 <= b < j ==> d.contains(#[trigger] deps@[b].source_skill@),
                    decreases deps.len() - j,
                {
                    if !contains_text(done, deps[j].source_skill.as_str()) {
                        return false;
                    }
                    j += 1;
                }
            }
            i += 1;
        }
        true
    }

    /// Index of the node that [`best_ready`] picks among all nodes.
    fn pick_ready(&self, done: &Vec<String>) -> (r: Option<usize>)
        ensures
            match best_ready(self.nodes@, texts(done@), self.nodes@.len() as int) {
                Some(i) => r == Some(i as usize),
                None => r is None,
            },
            r matches Some(i) ==> i < self.nodes.len(),
    {
        let mut best: Option<usize> = None;
        let mut k: usize = 0;
        while k < self.nodes.len()
            invariant
                k <= self.nodes.len(),
                match best_ready(self.nodes@, texts(done@), k as int) {
                    Some(i) => best == Some(i as usize),
                    None => best is None,
                },
            decreases self.nodes.len() - k,
        {
            proof {
                lemma_best_ready(self.nodes@, texts(done@), k as int);
            }
            let id = self.nodes[k].skill_id.as_str();
            if !contains_text(done, id) && self.deps_satisfied(done, id) {
                match best {
                    None => {
                        best = Some(k);
                    },
                    Some(b) => {
                        if text_less(id, self.nodes[b].skill_id.as_str()) {
                            best = Some(k);
                        }
                    },
                }
            }
            k += 1;
        }
        proof {
            lemma_best_ready(self.nodes@, texts(done@), k as int);
        }
        best
    }

    /// Orders the ids so that each node follows what it depends on; among
    /// the ids ready at a step the one that sorts first goes next. Fails
    /// when some node can never be ready (a cycle, an absent source, or an
    /// id given twice).
    pub fn topological_order(&self) -> (r: Result<Vec<String>, GraphError>)
        ensures
            match r {
                Ok(order) => kahn_order(self.nodes@).len() == self.nodes@.len()
                    && texts(order@) == kahn_order(self.nodes@)
                    && forall|a: int, i: int, j: int|
                        #![trigger texts(order@)[a], self.nodes@[i].dependencies@[j]]
                        0 <= a < order@.len() && 0 <= i < self.nodes@.len() && self.nodes@[i].skill_id@
                            == texts(order@)[a] && 0 <= j < self.nodes@[i].dependencies@.len()
                            ==> texts(order@).subrange(0, a).contains(self.nodes@[i].dependencies@[j].source_skill@),
                Err(e) => kahn_order(self.nodes@).len() != self.nodes@.len()
                    && e is CycleDetected,
            },
    {
        let n = self.nodes.len();
        let mut order: Vec<String> = Vec::new();
        proof {
            assert(texts(order@) =~= Seq::<Seq<char>>::empty());
        }
        let mut stuck = false;
        while order.len() < n && !stuck
            invariant
                n == self.nodes@.len(),
                order.len() <= n,
                stuck ==> kahn_from(self.nodes@, texts(order@)) == texts(order@),
                kahn_from(self.nodes@, texts(order@)) == kahn_order(self.nodes@),
            decreases n - order.len(), if stuck { 0int } else { 1int },
        {
            match self.pick_ready(&order) {
                Some(i) => {
                    let ghost before = texts(order@);
                    order.push(self.nodes[i].skill_id.clone());
                    proof {
                        lemma_best_ready(self.nodes@, before, n as int);
                        assert(before.len() == order.len() - 1);
                        assert(texts(order@) =~= before.push(self.nodes@[i as int].skill_id@));
                        assert(kahn_from(self.nodes@, before) == kahn_from(self.nodes@, texts(order@)));
                    }
                },
                None => {
                    stuck = true;
                },
            }
        }
        if order.len() != n {
            return Err(GraphError::CycleDetected);
        }
        proof {
            let t = texts(order@);
            assert forall|a: int, i: int, j: int|
                #![trigger t[a], self.nodes@[i].dependencies@[j]]
                0 <= a < order@.len() && 0 <= i < self.nodes@.len() && self.nodes@[i].skill_id@
                    == t[a] && 0 <= j < self.nodes@[i].dependencies@.len()
                    implies t.subrange(0, a).contains(self.nodes@[i].dependencies@[j].source_skill@) by {
                lemma_kahn_respects_dependencies(self.nodes@, a, i, j);
                let b = choose|b: int|
                    0 <= b < a && kahn_order(self.nodes@)[b] == self.nodes@[i].dependencies@[j].source_skill@;
                assert(t.subrange(0, a)[b] == t[b]);
            }
        }
        Ok(order)
    }
}

} // verus!
