//! The network model: nodes, roles, adjacency, priors and conditional
//! probability tables, together with the construction API.
//!
//! All distributions are given in domain order: entry `i` of a prior or of a
//! CPT row is the probability of `value_space[i]`.  CPT rows are keyed by a
//! tuple of parent values (one per parent, in parent-list order); keys are
//! converted to domain indices on entry.  Construction rejects malformed
//! input with a `ConstructionError` and reports a distribution whose sum is
//! off one by more than `1e-7` through the returned warning flag.

use vstd::prelude::*;

use crate::rational::{
    fold_add_c, off_one, rat_wf, sum_probs, all_wf, opt_rat, Prob, Rat,
};

verus! {

/// The role of a node, as declared by the caller.  A `Root` carries its
/// prior distribution over the value domain, in domain order.
#[derive(Clone, Debug)]
pub enum NodeType {
    Root(Vec<Prob>),
    Leaf,
    Intermediate,
}

/// Rejected construction input.
#[derive(Clone, Copy, PartialEq, Eq, Debug)]
pub enum ConstructionError {
    /// A node with this name already exists.
    DuplicateNodeName,
    /// A root prior does not have one entry per domain value.
    WrongPriorLength,
    /// An exact sum exceeded the representable bounds.
    Overflow,
    /// A node name does not resolve.
    UnknownNodeName,
    /// The child of a dependency is a root node.
    DependencyIntoRoot,
    /// A parent of a dependency is a leaf node.
    DependencyFromLeaf,
    /// The same parent occurs twice in one dependency.
    DuplicateParent,
    /// The child already has a dependency declared.
    ChildAlreadyBound,
    /// A CPT key tuple length differs from the parent count.
    WrongKeyArity,
    /// A CPT key tuple holds a value outside the domain.
    ValueNotInDomain,
    /// A CPT row does not have one entry per domain value.
    WrongDistributionLength,
    /// The same key tuple occurs twice in one CPT.
    DuplicateRowKey,
}

/// Rejected lookup input.
#[derive(Clone, Copy, PartialEq, Eq, Debug)]
pub enum QueryError {
    /// A node name does not resolve.
    UnknownNodeName,
    /// A value is outside the domain.
    ValueNotInDomain,
    /// The same node occurs twice in the evidence.
    DuplicateEvidence,
}

/// Failure of an inference run.
#[derive(Clone, Copy, PartialEq, Eq, Debug)]
pub enum InferenceError {
    /// The evidence refers to an unknown name or an out-of-domain value.
    Query(QueryError),
    /// The evidence has probability zero under the model: the belief of the
    /// named node has a zero normalization constant.
    InconsistentEvidence(usize),
    /// An exact intermediate result exceeded the representable bounds.
    Overflow,
    /// Message passing reached a fixed point with messages missing; the
    /// graph is not a polytree.
    NotConverged,
}

/// One CPT row: a key tuple of domain indices (one per parent, in
/// parent-list order) and a distribution over the domain.
pub(crate) struct Row {
    pub(crate) key: Vec<usize>,
    pub(crate) dist: Vec<Prob>,
}

pub(crate) struct Node {
    pub(crate) node_type: NodeType,
    pub(crate) parents: Vec<usize>,
    pub(crate) children: Vec<usize>,
    pub(crate) cpt: Vec<Row>,
}

/// A discrete Bayesian network over one shared value domain.
pub struct BayesianNetwork {
    pub(crate) value_space: Vec<u64>,
    pub(crate) names: Vec<String>,
    pub(crate) nodes: Vec<Node>,
}

/// Well-formedness of one CPT row for `np` parents and domain size `k`.
pub(crate) open spec fn row_wf(r: Row, np: int, k: int) -> bool {
    &&& r.key@.len() == np
    &&& forall|i: int| 0 <= i < np ==> (r.key@[i] as int) < k
    &&& r.dist@.len() == k
    &&& forall|i: int| 0 <= i < k ==> rat_wf(#[trigger] r.dist.deep_view()[i])
}

/// Well-formedness of one node in a network of `n` nodes and domain size `k`.
pub(crate) open spec fn node_wf(nd: Node, n: int, k: int) -> bool {
    &&& forall|i: int| 0 <= i < nd.parents@.len() ==> (nd.parents@[i] as int) < n
    &&& forall|i: int| 0 <= i < nd.children@.len() ==> (nd.children@[i] as int) < n
    &&& match nd.node_type {
        NodeType::Root(prior) => {
            &&& prior@.len() == k
            &&& forall|i: int| 0 <= i < k ==> rat_wf(#[trigger] prior.deep_view()[i])
            &&& nd.parents@.len() == 0
            &&& nd.cpt@.len() == 0
        },
        NodeType::Leaf => nd.children@.len() == 0,
        NodeType::Intermediate => true,
    }
    &&& forall|r: int|
        0 <= r < nd.cpt@.len() ==> row_wf(#[trigger] nd.cpt@[r], nd.parents@.len() as int, k)
}

/// First index at or after `i` whose name reads `name`.
pub(crate) open spec fn find_name_from(names: Seq<String>, name: Seq<char>, i: int) -> Option<int>
    decreases names.len() - i,
{
    if i < 0 || i >= names.len() {
        None
    } else if names[i]@ == name {
        Some(i)
    } else {
        find_name_from(names, name, i + 1)
    }
}

/// First index at or after `i` holding the value `v`.
pub(crate) open spec fn find_value_from(vs: Seq<u64>, v: u64, i: int) -> Option<int>
    decreases vs.len() - i,
{
    if i < 0 || i >= vs.len() {
        None
    } else if vs[i] == v {
        Some(i)
    } else {
        find_value_from(vs, v, i + 1)
    }
}

pub(crate) proof fn lemma_find_name_some(names: Seq<String>, name: Seq<char>, i: int, x: int)
    requires
        0 <= i,
        find_name_from(names, name, i) == Some(x),
    ensures
        i <= x < names.len(),
        names[x]@ == name,
    decreases names.len() - i,
{
    if i < names.len() && names[i]@ != name {
        lemma_find_name_some(names, name, i + 1, x);
    }
}

pub(crate) proof fn lemma_find_name_none(names: Seq<String>, name: Seq<char>, i: int)
    requires
        0 <= i,
        find_name_from(names, name, i) is None,
    ensures
        forall|j: int| i <= j < names.len() ==> names[j]@ != name,
    decreases names.len() - i,
{
    if i < names.len() {
        lemma_find_name_none(names, name, i + 1);
    }
}

pub(crate) proof fn lemma_find_value_some(vs: Seq<u64>, v: u64, i: int, x: int)
    requires
        0 <= i,
        find_value_from(vs, v, i) == Some(x),
    ensures
        i <= x < vs.len(),
        vs[x] == v,
    decreases vs.len() - i,
{
    if i < vs.len() && vs[i] != v {
        lemma_find_value_some(vs, v, i + 1, x);
    }
}

impl BayesianNetwork {
    /// Domain size, in specifications.
    pub(crate) open spec fn k(&self) -> int {
        self.value_space@.len() as int
    }

    /// Node count, in specifications.
    pub(crate) open spec fn n(&self) -> int {
        self.nodes@.len() as int
    }

    pub(crate) open spec fn wf_inner(&self) -> bool {
        &&& self.names@.len() == self.n()
        &&& forall|x: int|
            0 <= x < self.n() ==> node_wf(#[trigger] self.nodes@[x], self.n(), self.k())
        &&& forall|i: int, j: int|
            0 <= i < j < self.n() ==> self.names@[i]@ != self.names@[j]@
    }

    /// The structural invariant every constructed network satisfies: node
    /// names are unique, adjacency indices are in range, a root's prior and
    /// every CPT row cover the domain, and every stored probability is a
    /// well-formed rational.
    pub closed spec fn wf(&self) -> bool {
        self.wf_inner()
    }

    /// Posteriors of the right shape: one distribution per node, one entry
    /// per domain value.
    pub closed spec fn valid_posteriors(&self, p: Seq<Seq<Rat>>) -> bool {
        &&& p.len() == self.n()
        &&& forall|x: int| 0 <= x < self.n() ==> (#[trigger] p[x]).len() == self.k()
    }

    /// Bridge for other modules: the definition of `valid_posteriors`.
    pub(crate) proof fn lemma_valid_posteriors_def(&self, p: Seq<Seq<Rat>>)
        ensures
            self.valid_posteriors(p) == (p.len() == self.n() && forall|x: int|
                0 <= x < self.n() ==> (#[trigger] p[x]).len() == self.k()),
    {
    }

    /// Looks up the posterior probability of `value` at the node called
    /// `name` in an inference result.
    pub fn get_inferred_probability(
        &self,
        inferred_probabilities: &Vec<Vec<Prob>>,
        name: &str,
        value: u64,
    ) -> (r: Result<Prob, QueryError>)
        requires
            self.wf(),
            self.valid_posteriors(inferred_probabilities.deep_view()),
        ensures
            match self.node_named(name@) {
                None => r == Err::<Prob, QueryError>(QueryError::UnknownNodeName),
                Some(x) => match self.spec_value_index(value) {
                    None => r == Err::<Prob, QueryError>(QueryError::ValueNotInDomain),
                    Some(v) => match r {
                        Ok(p) => p@ == inferred_probabilities.deep_view()[x][v],
                        Err(_) => false,
                    },
                },
            },
    {
        let x = match self.find_node(name) {
            None => {
                return Err(QueryError::UnknownNodeName);
            },
            Some(x) => x,
        };
        let v = match self.find_value(value) {
            None => {
                return Err(QueryError::ValueNotInDomain);
            },
            Some(v) => v,
        };
        proof {
            assert(inferred_probabilities.deep_view()[x as int]
                == inferred_probabilities@[x as int].deep_view());
            assert(inferred_probabilities@[x as int].deep_view()[v as int]
                == inferred_probabilities@[x as int]@[v as int].deep_view());
        }
        Ok(inferred_probabilities[x][v])
    }

    /// The prior of node `x`, in domain order; empty for a non-root.
    pub closed spec fn spec_prior(&self, x: int) -> Seq<Rat> {
        match self.nodes@[x].node_type {
            NodeType::Root(prior) => prior.deep_view(),
            _ => Seq::empty(),
        }
    }

    /// Bridge for other modules: the definition of `spec_prior`.
    pub(crate) proof fn lemma_spec_prior_def(&self, x: int)
        ensures
            self.spec_prior(x) == match self.nodes@[x].node_type {
                NodeType::Root(prior) => prior.deep_view(),
                _ => Seq::<Rat>::empty(),
            },
    {
    }

    /// Bridge for other modules: the definition of `spec_node_type`.
    pub(crate) proof fn lemma_spec_node_type_def(&self, x: int)
        ensures
            self.spec_node_type(x) == self.nodes@[x].node_type,
    {
    }

    /// Bridge for other modules: the definition of `spec_children`.
    pub(crate) proof fn lemma_spec_children_def(&self, x: int)
        ensures
            self.spec_children(x) == self.nodes@[x].children@,
            self.spec_node_count() == self.n(),
    {
    }

    /// Bridge for other modules: a resolved name is a node id in range.
    pub(crate) proof fn lemma_node_named_range(&self, name: Seq<char>)
        ensures
            match self.node_named(name) {
                Some(x) => 0 <= x < self.names@.len(),
                None => true,
            },
    {
        match self.node_named(name) {
            Some(x) => {
                lemma_find_name_some(self.names@, name, 0, x);
            },
            None => {},
        }
    }

    /// Bridge for other modules: a resolved value is a domain index.
    pub(crate) proof fn lemma_value_index_range(&self, v: u64)
        ensures
            match self.spec_value_index(v) {
                Some(x) => 0 <= x < self.k() && x <= usize::MAX,
                None => true,
            },
    {
        match self.spec_value_index(v) {
            Some(x) => {
                lemma_find_value_some(self.value_space@, v, 0, x);
                vstd::std_specs::vec::axiom_spec_len(&self.value_space);
            },
            None => {},
        }
    }

    /// Bridge for other modules: the definition of `wf`.
    pub(crate) proof fn lemma_wf_def(&self)
        ensures
            self.wf() == self.wf_inner(),
    {
    }

    /// The shared value domain.
    pub closed spec fn spec_domain(&self) -> Seq<u64> {
        self.value_space@
    }

    /// Number of nodes.
    pub closed spec fn spec_node_count(&self) -> int {
        self.n()
    }

    /// The node names, in insertion order (insertion order is the node id).
    pub closed spec fn spec_names(&self) -> Seq<Seq<char>> {
        self.names@.map_values(|s: String| s@)
    }

    /// The id of the node with the given name, if any.
    pub closed spec fn node_named(&self, name: Seq<char>) -> Option<int> {
        find_name_from(self.names@, name, 0)
    }

    /// The domain index of the given value, if any.
    pub closed spec fn spec_value_index(&self, v: u64) -> Option<int> {
        find_value_from(self.value_space@, v, 0)
    }

    /// The declared role (and, for a root, prior) of node `x`.
    pub closed spec fn spec_node_type(&self, x: int) -> NodeType {
        self.nodes@[x].node_type
    }

    /// The parent ids of node `x`, in declaration order.
    pub closed spec fn spec_parents(&self, x: int) -> Seq<usize> {
        self.nodes@[x].parents@
    }

    /// The child ids of node `x`, in declaration order.
    pub closed spec fn spec_children(&self, x: int) -> Seq<usize> {
        self.nodes@[x].children@
    }

    /// The key tuples of node `x`'s CPT, as domain indices.
    pub closed spec fn spec_cpt_keys(&self, x: int) -> Seq<Seq<usize>> {
        self.nodes@[x].cpt@.map_values(|r: Row| r.key@)
    }

    /// The rows of node `x`'s CPT, as distributions in domain order.
    pub closed spec fn spec_cpt_dists(&self, x: int) -> Seq<Seq<Rat>> {
        self.nodes@[x].cpt@.map_values(|r: Row| r.dist.deep_view())
    }

    /// Creates an empty network over the given value domain.
    pub fn new(value_space: Vec<u64>) -> (r: BayesianNetwork)
        ensures
            r.wf(),
            r.spec_domain() == value_space@,
            r.spec_node_count() == 0,
    {
        BayesianNetwork { value_space, names: Vec::new(), nodes: Vec::new() }
    }

    /// Number of nodes added so far.
    pub fn node_count(&self) -> (r: usize)
        ensures
            r as int == self.spec_node_count(),
    {
        self.nodes.len()
    }

    /// First node id whose name equals `name`.
    pub(crate) fn find_node(&self, name: &str) -> (r: Option<usize>)
        ensures
            match r {
                Some(x) => self.node_named(name@) == Some(x as int) && (x as int)
                    < self.names@.len(),
                None => self.node_named(name@) is None,
            },
    {
        let owned: String = name.to_owned();
        let mut i: usize = 0;
        while i < self.names.len()
            invariant
                i <= self.names@.len(),
                owned@ == name@,
                find_name_from(self.names@, name@, 0) == find_name_from(self.names@, name@, i as int),
            decreases self.names@.len() - i,
        {
            if self.names[i] == owned {
                return Some(i);
            }
            i += 1;
        }
        None
    }

    /// First domain index whose value equals `v`.
    pub(crate) fn find_value(&self, v: u64) -> (r: Option<usize>)
        ensures
            match r {
                Some(x) => self.spec_value_index(v) == Some(x as int) && (x as int) < self.k(),
                None => self.spec_value_index(v) is None,
            },
    {
        let mut i: usize = 0;
        while i < self.value_space.len()
            invariant
                i <= self.value_space@.len(),
                find_value_from(self.value_space@, v, 0) == find_value_from(
                    self.value_space@,
                    v,
                    i as int,
                ),
            decreases self.value_space@.len() - i,
        {
            if self.value_space[i] == v {
                return Some(i);
            }
            i += 1;
        }
        None
    }

    /// What `add_node` returns for the given input: the first failed check,
    /// or the warning flag (whether the prior's sum is off one by more than
    /// `1e-7`).
    pub closed spec fn spec_add_node(&self, name: Seq<char>, node_type: NodeType) -> Result<
        bool,
        ConstructionError,
    > {
        if self.node_named(name) is Some {
            Err(ConstructionError::DuplicateNodeName)
        } else {
            match node_type {
                NodeType::Root(prior) => {
                    if prior@.len() != self.k() {
                        Err(ConstructionError::WrongPriorLength)
                    } else {
                        match fold_add_c(prior.deep_view(), self.k()) {
                            None => Err(ConstructionError::Overflow),
                            Some(s) => Ok(off_one(s)),
                        }
                    }
                },
                _ => Ok(false),
            }
        }
    }

    /// Adds a node.  A root must bring a prior with one entry per domain
    /// value; the name must be new.  Returns whether a warning was raised
    /// (prior sum off one by more than `1e-7`), or the rejected check.
    pub fn add_node(&mut self, name: &str, node_type: NodeType) -> (r: Result<
        bool,
        ConstructionError,
    >)
        requires
            old(self).wf(),
        ensures
            r == old(self).spec_add_node(name@, node_type),
            final(self).wf(),
            r is Err ==> *final(self) == *old(self),
            r is Ok ==> {
                &&& final(self).spec_node_count() == old(self).spec_node_count() + 1
                &&& final(self).spec_domain() == old(self).spec_domain()
                &&& final(self).spec_names() == old(self).spec_names().push(name@)
                &&& final(self).spec_node_type(old(self).spec_node_count()) == node_type
                &&& final(self).spec_parents(old(self).spec_node_count()) == Seq::<usize>::empty()
                &&& final(self).spec_children(old(self).spec_node_count()) == Seq::<usize>::empty()
                &&& final(self).spec_cpt_keys(old(self).spec_node_count()) == Seq::<
                    Seq<usize>,
                >::empty()
                &&& forall|x: int|
                    0 <= x < old(self).spec_node_count() ==> {
                        &&& #[trigger] final(self).spec_node_type(x) == old(self).spec_node_type(x)
                        &&& final(self).spec_parents(x) == old(self).spec_parents(x)
                        &&& final(self).spec_children(x) == old(self).spec_children(x)
                        &&& final(self).spec_cpt_keys(x) == old(self).spec_cpt_keys(x)
                        &&& final(self).spec_cpt_dists(x) == old(self).spec_cpt_dists(x)
                    }
            },
    {
        if self.find_node(name).is_some() {
            return Err(ConstructionError::DuplicateNodeName);
        }
        let mut warn = false;
        match &node_type {
            NodeType::Root(prior) => {
                if prior.len() != self.value_space.len() {
                    return Err(ConstructionError::WrongPriorLength);
                }
                all_wf(prior);
                match sum_probs(prior) {
                    None => {
                        return Err(ConstructionError::Overflow);
                    },
                    Some(s) => {
                        warn = crate::rational::prob_off_one(&s);
                    },
                }
            },
            _ => {},
        }
        proof {
            lemma_find_name_none(self.names@, name@, 0);
        }
        let nd = Node {
            node_type,
            parents: Vec::new(),
            children: Vec::new(),
            cpt: Vec::new(),
        };
        self.names.push(name.to_owned());
        self.nodes.push(nd);
        proof {
            assert(self.names@.map_values(|s: String| s@) =~= old(self).names@.map_values(
                |s: String| s@,
            ).push(name@));
            assert forall|x: int| 0 <= x < self.n() implies node_wf(
                #[trigger] self.nodes@[x],
                self.n(),
                self.k(),
            ) by {
                if x < old(self).n() {
                    assert(node_wf(old(self).nodes@[x], old(self).n(), old(self).k()));
                    assert(self.nodes@[x] == old(self).nodes@[x]);
                }
            }
        }
        Ok(warn)
    }
}

/// Elementwise equality of two index vectors.
fn keys_equal(a: &Vec<usize>, b: &Vec<usize>) -> (r: bool)
    ensures
        r == (a@ == b@),
{
    if a.len() != b.len() {
        assert(a@ != b@);
        return false;
    }
    let mut i: usize = 0;
    while i < a.len()
        invariant
            i <= a@.len(),
            a@.len() == b@.len(),
            forall|t: int| 0 <= t < i ==> a@[t] == b@[t],
        decreases a@.len() - i,
    {
        if a[i] != b[i] {
            return false;
        }
        i += 1;
    }
    proof {
        assert(a@ =~= b@);
    }
    true
}

/// Copies a probability vector.
fn copy_probs(v: &Vec<Prob>) -> (r: Vec<Prob>)
    ensures
        r@ == v@,
{
    let mut r: Vec<Prob> = Vec::new();
    let mut i: usize = 0;
    while i < v.len()
        invariant
            i <= v@.len(),
            r@ == v@.subrange(0, i as int),
        decreases v@.len() - i,
    {
        r.push(v[i]);
        proof {
            assert(r@ =~= v@.subrange(0, i + 1));
        }
        i += 1;
    }
    proof {
        assert(r@ =~= v@);
    }
    r
}

impl BayesianNetwork {
    /// Resolution of the first `j` parent names to node ids, first failure
    /// first.
    pub closed spec fn resolve_upto(&self, pn: Seq<String>, j: int) -> Result<
        Seq<usize>,
        ConstructionError,
    >
        decreases j,
    {
        if j <= 0 {
            Ok(Seq::empty())
        } else {
            match self.resolve_upto(pn, j - 1) {
                Err(e) => Err(e),
                Ok(pre) => match self.node_named(pn[j - 1]@) {
                    None => Err(ConstructionError::UnknownNodeName),
                    Some(x) => Ok(pre.push(x as usize)),
                },
            }
        }
    }

    /// Role and duplicate check over the first `j` resolved parents.
    pub closed spec fn parents_check(&self, ps: Seq<usize>, j: int) -> Option<
        ConstructionError,
    >
        decreases j,
    {
        if j <= 0 {
            None
        } else {
            match self.parents_check(ps, j - 1) {
                Some(e) => Some(e),
                None => {
                    if self.nodes@[ps[j - 1] as int].node_type is Leaf {
                        Some(ConstructionError::DependencyFromLeaf)
                    } else if exists|t: int| 0 <= t < j - 1 && #[trigger] ps[t] == ps[j - 1] {
                        Some(ConstructionError::DuplicateParent)
                    } else {
                        None
                    }
                },
            }
        }
    }

    /// Conversion of the first `j` values of a key tuple to domain indices.
    pub closed spec fn conv_key_upto(&self, key: Seq<u64>, j: int) -> Option<Seq<usize>>
        decreases j,
    {
        if j <= 0 {
            Some(Seq::empty())
        } else {
            match self.conv_key_upto(key, j - 1) {
                None => None,
                Some(pre) => match self.spec_value_index(key[j - 1]) {
                    None => None,
                    Some(v) => Some(pre.push(v as usize)),
                },
            }
        }
    }

    /// Validation and conversion of the first `r` CPT rows: keys become
    /// domain indices, each row's checks run in declaration order, and the
    /// warning flag records whether any row's sum is off one by more than
    /// `1e-7`.
    pub closed spec fn conv_rows_upto(
        &self,
        np: int,
        cpt: Seq<(Vec<u64>, Vec<Prob>)>,
        r: int,
    ) -> Result<(Seq<(Seq<usize>, Seq<Rat>)>, bool), ConstructionError>
        decreases r,
    {
        if r <= 0 {
            Ok((Seq::empty(), false))
        } else {
            match self.conv_rows_upto(np, cpt, r - 1) {
                Err(e) => Err(e),
                Ok((pre, warn)) => {
                    if cpt[r - 1].0@.len() != np {
                        Err(ConstructionError::WrongKeyArity)
                    } else {
                        match self.conv_key_upto(cpt[r - 1].0@, np) {
                            None => Err(ConstructionError::ValueNotInDomain),
                            Some(ik) => {
                                if cpt[r - 1].1@.len() != self.k() {
                                    Err(ConstructionError::WrongDistributionLength)
                                } else if exists|t: int| 0 <= t < r - 1 && #[trigger] pre[t].0 == ik {
                                    Err(ConstructionError::DuplicateRowKey)
                                } else {
                                    match fold_add_c(cpt[r - 1].1.deep_view(), self.k()) {
                                        None => Err(ConstructionError::Overflow),
                                        Some(s) => Ok(
                                            (
                                                pre.push((ik, cpt[r - 1].1.deep_view())),
                                                warn || off_one(s),
                                            ),
                                        ),
                                    }
                                }
                            },
                        }
                    }
                },
            }
        }
    }

    /// A failed name resolution fails every longer one.
    pub(crate) proof fn lemma_resolve_err(&self, pn: Seq<String>, j: int, j2: int)
        requires
            self.resolve_upto(pn, j) is Err,
            j <= j2,
        ensures
            self.resolve_upto(pn, j2) == self.resolve_upto(pn, j),
        decreases j2 - j,
    {
        if j2 > j {
            self.lemma_resolve_err(pn, j, j2 - 1);
        }
    }

    pub(crate) proof fn lemma_resolve_ok(&self, pn: Seq<String>, j: int, ps: Seq<usize>)
        requires
            0 <= j,
            self.resolve_upto(pn, j) == Ok::<Seq<usize>, ConstructionError>(ps),
        ensures
            ps.len() == j,
            forall|t: int|
                0 <= t < j ==> self.node_named(pn[t]@) == Some((#[trigger] ps[t]) as int) && (
                ps[t] as int) < self.names@.len(),
        decreases j,
    {
        if j > 0 {
            match self.resolve_upto(pn, j - 1) {
                Err(_) => {},
                Ok(pre) => {
                    self.lemma_resolve_ok(pn, j - 1, pre);
                    match self.node_named(pn[j - 1]@) {
                        None => {},
                        Some(x) => {
                            lemma_find_name_some(self.names@, pn[j - 1]@, 0, x);
                            vstd::std_specs::vec::axiom_spec_len(&self.names);
                            assert((x as usize) as int == x);
                            assert(ps == pre.push(x as usize));
                            assert forall|t: int|
                                0 <= t < j implies self.node_named(pn[t]@) == Some(
                                (#[trigger] ps[t]) as int,
                            ) && (ps[t] as int) < self.names@.len() by {
                                if t < j - 1 {
                                    assert(ps[t] == pre[t]);
                                } else {
                                    assert(ps[t] == x as usize);
                                }
                            }
                        },
                    }
                },
            }
        }
    }

    /// A failed parent check fails every longer one.
    pub(crate) proof fn lemma_parents_check_some(&self, ps: Seq<usize>, j: int, j2: int)
        requires
            self.parents_check(ps, j) is Some,
            j <= j2,
        ensures
            self.parents_check(ps, j2) == self.parents_check(ps, j),
        decreases j2 - j,
    {
        if j2 > j {
            self.lemma_parents_check_some(ps, j, j2 - 1);
        }
    }

    pub(crate) proof fn lemma_parents_check_none(&self, ps: Seq<usize>, j: int)
        requires
            0 <= j,
            self.parents_check(ps, j) is None,
        ensures
            forall|t: int| 0 <= t < j ==> !(self.nodes@[#[trigger] ps[t] as int].node_type is Leaf),
            forall|t1: int, t2: int| 0 <= t1 < t2 < j ==> ps[t1] != ps[t2],
        decreases j,
    {
        if j > 0 {
            self.lemma_parents_check_none(ps, j - 1);
        }
    }

    pub(crate) proof fn lemma_conv_key_ok(&self, key: Seq<u64>, j: int, ik: Seq<usize>)
        requires
            0 <= j,
            self.conv_key_upto(key, j) == Some(ik),
        ensures
            ik.len() == j,
            forall|t: int|
                0 <= t < j ==> self.spec_value_index(key[t]) == Some((#[trigger] ik[t]) as int) && (
                ik[t] as int) < self.k(),
        decreases j,
    {
        if j > 0 {
            match self.conv_key_upto(key, j - 1) {
                None => {},
                Some(pre) => {
                    self.lemma_conv_key_ok(key, j - 1, pre);
                    match self.spec_value_index(key[j - 1]) {
                        None => {},
                        Some(v) => {
                            lemma_find_value_some(self.value_space@, key[j - 1], 0, v);
                            vstd::std_specs::vec::axiom_spec_len(&self.value_space);
                            assert((v as usize) as int == v);
                            assert(ik == pre.push(v as usize));
                            assert forall|t: int|
                                0 <= t < j implies self.spec_value_index(key[t]) == Some(
                                (#[trigger] ik[t]) as int,
                            ) && (ik[t] as int) < self.k() by {
                                if t < j - 1 {
                                    assert(ik[t] == pre[t]);
                                } else {
                                    assert(ik[t] == v as usize);
                                }
                            }
                        },
                    }
                },
            }
        }
    }

    /// A failed row conversion fails every longer one.
    pub(crate) proof fn lemma_conv_rows_err(
        &self,
        np: int,
        cpt: Seq<(Vec<u64>, Vec<Prob>)>,
        r: int,
        r2: int,
    )
        requires
            self.conv_rows_upto(np, cpt, r) is Err,
            r <= r2,
        ensures
            self.conv_rows_upto(np, cpt, r2) == self.conv_rows_upto(np, cpt, r),
        decreases r2 - r,
    {
        if r2 > r {
            self.lemma_conv_rows_err(np, cpt, r, r2 - 1);
        }
    }

    pub(crate) proof fn lemma_conv_rows_ok(
        &self,
        np: int,
        cpt: Seq<(Vec<u64>, Vec<Prob>)>,
        r: int,
        rows: Seq<(Seq<usize>, Seq<Rat>)>,
        warn: bool,
    )
        requires
            0 <= r,
            self.conv_rows_upto(np, cpt, r) == Ok::<_, ConstructionError>((rows, warn)),
        ensures
            rows.len() == r,
            forall|t: int|
                0 <= t < r ==> {
                    &&& (#[trigger] rows[t]).0.len() == np
                    &&& forall|i: int| 0 <= i < np ==> (rows[t].0[i] as int) < self.k()
                    &&& rows[t].1 == cpt[t].1.deep_view()
                    &&& rows[t].1.len() == self.k()
                },
        decreases r,
    {
        if r > 0 {
            match self.conv_rows_upto(np, cpt, r - 1) {
                Err(_) => {},
                Ok((pre, w)) => {
                    self.lemma_conv_rows_ok(np, cpt, r - 1, pre, w);
                    if cpt[r - 1].0@.len() == np {
                        match self.conv_key_upto(cpt[r - 1].0@, np) {
                            None => {},
                            Some(ik) => {
                                self.lemma_conv_key_ok(cpt[r - 1].0@, np, ik);
                            },
                        }
                    }
                },
            }
        }
    }

    /// What `add_dependency` returns for the given input: the first failed
    /// check in declaration order, or the warning flag.
    pub closed spec fn spec_add_dependency(
        &self,
        pn: Seq<String>,
        child: Seq<char>,
        cpt: Seq<(Vec<u64>, Vec<Prob>)>,
    ) -> Result<bool, ConstructionError> {
        match self.node_named(child) {
            None => Err(ConstructionError::UnknownNodeName),
            Some(c) => match self.resolve_upto(pn, pn.len() as int) {
                Err(e) => Err(e),
                Ok(ps) => {
                    if self.nodes@[c].node_type is Root {
                        Err(ConstructionError::DependencyIntoRoot)
                    } else if self.nodes@[c].parents@.len() > 0 || self.nodes@[c].cpt@.len() > 0 {
                        Err(ConstructionError::ChildAlreadyBound)
                    } else {
                        match self.parents_check(ps, ps.len() as int) {
                            Some(e) => Err(e),
                            None => match self.conv_rows_upto(
                                ps.len() as int,
                                cpt,
                                cpt.len() as int,
                            ) {
                                Err(e) => Err(e),
                                Ok((rows, warn)) => Ok(warn),
                            },
                        }
                    }
                },
            },
        }
    }

    /// Declares a dependency: `child_name` gets `parent_names` (in order) as
    /// parents and `cpt` as its conditional probability table.  Keys are
    /// tuples of domain values, one per parent in parent order; each row's
    /// distribution is over the domain, in domain order.  A child accepts
    /// only one dependency declaration; re-declaration is rejected.
    /// Returns whether a warning was raised (some row's sum off one by more
    /// than `1e-7`), or the first rejected check.
    #[verifier::loop_isolation(false)]
    pub fn add_dependency(
        &mut self,
        parent_names: &Vec<String>,
        child_name: &str,
        cpt: &Vec<(Vec<u64>, Vec<Prob>)>,
    ) -> (r: Result<bool, ConstructionError>)
        requires
            old(self).wf(),
        ensures
            r == old(self).spec_add_dependency(parent_names@, child_name@, cpt@),
            final(self).wf(),
            r is Err ==> *final(self) == *old(self),
            r is Ok ==> match (old(self).node_named(child_name@), old(self).resolve_upto(
                parent_names@,
                parent_names@.len() as int,
            )) {
                (Some(c), Ok(ps)) => {
                    &&& final(self).spec_node_count() == old(self).spec_node_count()
                    &&& final(self).spec_domain() == old(self).spec_domain()
                    &&& final(self).spec_names() == old(self).spec_names()
                    &&& final(self).spec_parents(c) == ps
                    &&& match old(self).conv_rows_upto(
                        ps.len() as int,
                        cpt@,
                        cpt@.len() as int,
                    ) {
                        Ok((rows, warn)) => {
                            &&& final(self).spec_cpt_keys(c) == rows.map_values(
                                |p: (Seq<usize>, Seq<Rat>)| p.0,
                            )
                            &&& final(self).spec_cpt_dists(c) == rows.map_values(
                                |p: (Seq<usize>, Seq<Rat>)| p.1,
                            )
                        },
                        Err(_) => false,
                    }
                    &&& forall|x: int|
                        0 <= x < old(self).spec_node_count() ==> #[trigger] final(self).spec_node_type(x) == old(self).spec_node_type(x)
                    &&& forall|x: int|
                        0 <= x < old(self).spec_node_count() ==> #[trigger] final(self).spec_children(x) == (if ps.contains(x as usize) {
                            old(self).spec_children(x).push(c as usize)
                        } else {
                            old(self).spec_children(x)
                        })
                    &&& forall|x: int|
                        0 <= x < old(self).spec_node_count() && x != c ==> #[trigger] final(self).spec_parents(x) == old(self).spec_parents(x) && final(self).spec_cpt_keys(
                            x,
                        ) == old(self).spec_cpt_keys(x) && final(self).spec_cpt_dists(x) == old(self).spec_cpt_dists(x)
                },
                _ => false,
            },
    {
        let ghost pnq = parent_names@;
        let ghost cptq = cpt@;
        // Resolve the child.
        let child_id = match self.find_node(child_name) {
            None => {
                return Err(ConstructionError::UnknownNodeName);
            },
            Some(c) => c,
        };
        // Resolve the parents, in order.
        let mut ps: Vec<usize> = Vec::new();
        let mut j: usize = 0;
        while j < parent_names.len()
            invariant
                j <= pnq.len(),
                parent_names@ == pnq,
                self.resolve_upto(pnq, j as int) == Ok::<Seq<usize>, ConstructionError>(ps@),
                ps@.len() == j,
            decreases pnq.len() - j,
        {
            match self.find_node(parent_names[j].as_str()) {
                None => {
                    proof {
                        self.lemma_resolve_err(pnq, j + 1, pnq.len() as int);
                    }
                    return Err(ConstructionError::UnknownNodeName);
                },
                Some(p) => {
                    ps.push(p);
                },
            }
            j += 1;
        }
        let ghost psq = ps@;
        proof {
            self.lemma_resolve_ok(pnq, psq.len() as int, psq);
        }
        // Role checks on the child.
        match &self.nodes[child_id].node_type {
            NodeType::Root(_) => {
                return Err(ConstructionError::DependencyIntoRoot);
            },
            _ => {},
        }
        if self.nodes[child_id].parents.len() > 0 || self.nodes[child_id].cpt.len() > 0 {
            return Err(ConstructionError::ChildAlreadyBound);
        }
        // Role and duplicate checks on the parents.
        let mut j: usize = 0;
        while j < ps.len()
            invariant
                j <= psq.len(),
                ps@ == psq,
                forall|t: int| 0 <= t < psq.len() ==> (psq[t] as int) < self.n(),
                self.parents_check(psq, j as int) is None,
            decreases psq.len() - j,
        {
            match &self.nodes[ps[j]].node_type {
                NodeType::Leaf => {
                    proof {
                        self.lemma_parents_check_some(psq, j + 1, psq.len() as int);
                    }
                    return Err(ConstructionError::DependencyFromLeaf);
                },
                _ => {},
            }
            let mut t: usize = 0;
            while t < j
                invariant
                    t <= j < psq.len(),
                    ps@ == psq,
                    forall|u: int| 0 <= u < t ==> psq[u] != psq[j as int],
                decreases j - t,
            {
                if ps[t] == ps[j] {
                    proof {
                        self.lemma_parents_check_some(psq, j + 1, psq.len() as int);
                    }
                    return Err(ConstructionError::DuplicateParent);
                }
                t += 1;
            }
            j += 1;
        }
        // Validate and convert the CPT rows.
        let np = ps.len();
        let mut rows: Vec<Row> = Vec::new();
        proof {
            assert(rows@.map_values(|rw: Row| (rw.key@, rw.dist.deep_view())) =~= Seq::<
                (Seq<usize>, Seq<Rat>),
            >::empty());
        }
        let mut warn = false;
        let mut r: usize = 0;
        while r < cpt.len()
            invariant
                r <= cptq.len(),
                cpt@ == cptq,
                np == psq.len(),
                self.conv_rows_upto(np as int, cptq, r as int) == Ok::<
                    (Seq<(Seq<usize>, Seq<Rat>)>, bool),
                    ConstructionError,
                >((rows@.map_values(|rw: Row| (rw.key@, rw.dist.deep_view())), warn)),
                rows@.len() == r,
                forall|t: int|
                    0 <= t < r ==> row_wf(#[trigger] rows@[t], np as int, self.k()),
            decreases cptq.len() - r,
        {
            let ghost rowsq = rows@.map_values(|rw: Row| (rw.key@, rw.dist.deep_view()));
            let pair = &cpt[r];
            if pair.0.len() != np {
                proof {
                    self.lemma_conv_rows_err(np as int, cptq, r + 1, cptq.len() as int);
                }
                return Err(ConstructionError::WrongKeyArity);
            }
            // Convert the key tuple to domain indices.
            let mut ik: Vec<usize> = Vec::new();
            let mut t: usize = 0;
            while t < np
                invariant
                    t <= np,
                    pair == &cpt@[r as int],
                    cpt@ == cptq,
                    r < cptq.len(),
                    pair.0@.len() == np,
                    self.conv_key_upto(pair.0@, t as int) == Some(ik@),
                    ik@.len() == t,
                decreases np - t,
            {
                match self.find_value(pair.0[t]) {
                    None => {
                        proof {
                            lemma_conv_key_none(self, pair.0@, t + 1, np as int);
                            self.lemma_conv_rows_err(np as int, cptq, r + 1, cptq.len() as int);
                        }
                        return Err(ConstructionError::ValueNotInDomain);
                    },
                    Some(v) => {
                        ik.push(v);
                    },
                }
                t += 1;
            }
            proof {
                self.lemma_conv_key_ok(pair.0@, np as int, ik@);
            }
            if pair.1.len() != self.value_space.len() {
                proof {
                    self.lemma_conv_rows_err(np as int, cptq, r + 1, cptq.len() as int);
                }
                return Err(ConstructionError::WrongDistributionLength);
            }
            // Reject a repeated key tuple.
            let mut t: usize = 0;
            while t < rows.len()
                invariant
                    t <= rows@.len(),
                    forall|u: int| 0 <= u < t ==> (#[trigger] rows@[u]).key@ != ik@,
                decreases rows@.len() - t,
            {
                if keys_equal(&rows[t].key, &ik) {
                    proof {
                        assert(rowsq[t as int].0 == ik@);
                        self.lemma_conv_rows_err(np as int, cptq, r + 1, cptq.len() as int);
                    }
                    return Err(ConstructionError::DuplicateRowKey);
                }
                t += 1;
            }
            proof {
                assert forall|u: int| 0 <= u < r implies #[trigger] rowsq[u].0 != ik@ by {
                    assert(rowsq[u].0 == rows@[u].key@);
                }
            }
            // Row sum: overflow is an error, an off-one sum a warning.
            all_wf(&pair.1);
            match sum_probs(&pair.1) {
                None => {
                    proof {
                        self.lemma_conv_rows_err(np as int, cptq, r + 1, cptq.len() as int);
                    }
                    return Err(ConstructionError::Overflow);
                },
                Some(s) => {
                    if crate::rational::prob_off_one(&s) {
                        warn = true;
                    }
                },
            }
            let dist = copy_probs(&pair.1);
            rows.push(Row { key: ik, dist });
            proof {
                assert(rows@.map_values(|rw: Row| (rw.key@, rw.dist.deep_view())) =~= rowsq.push(
                    (ik@, cptq[r as int].1.deep_view()),
                ));
                assert(rows@[r as int].dist.deep_view() =~= cptq[r as int].1.deep_view());
            }
            r += 1;
        }
        let ghost rowsq = rows@.map_values(|rw: Row| (rw.key@, rw.dist.deep_view()));
        let ghost rowvq = rows@;
        // Commit: set the child's parents and CPT, then register the child
        // with each parent.
        proof {
            self.lemma_parents_check_none(psq, psq.len() as int);
        }
        let ghost pre = *self;
        {
            let child = &mut self.nodes[child_id];
            child.parents = ps;
            child.cpt = rows;
        }
        let mut t: usize = 0;
        while t < np
            invariant
                t <= np,
                np == psq.len(),
                child_id < self.nodes@.len(),
                self.nodes@.len() == pre.nodes@.len(),
                self.names@ == pre.names@,
                self.value_space@ == pre.value_space@,
                forall|t1: int, t2: int| 0 <= t1 < t2 < psq.len() ==> psq[t1] != psq[t2],
                forall|u: int| 0 <= u < psq.len() ==> (psq[u] as int) < self.nodes@.len(),
                forall|x: int|
                    0 <= x < self.nodes@.len() ==> (#[trigger] self.nodes@[x]).node_type
                        == pre.nodes@[x].node_type,
                forall|x: int|
                    0 <= x < self.nodes@.len() ==> (#[trigger] self.nodes@[x]).parents@ == (
                    if x == child_id {
                        psq
                    } else {
                        pre.nodes@[x].parents@
                    }),
                forall|x: int|
                    0 <= x < self.nodes@.len() ==> (#[trigger] self.nodes@[x]).cpt@ == (
                    if x == child_id {
                        rowvq
                    } else {
                        pre.nodes@[x].cpt@
                    }),
                forall|x: int|
                    0 <= x < self.nodes@.len() ==> (#[trigger] self.nodes@[x]).children@ == (
                    if exists|u: int| 0 <= u < t && psq[u] == x as usize {
                        pre.nodes@[x].children@.push(child_id)
                    } else {
                        pre.nodes@[x].children@
                    }),
            decreases np - t,
        {
            let pid = ps_read(&self.nodes, child_id, t);
            let parent = &mut self.nodes[pid];
            parent.children.push(child_id);
            proof {
                assert forall|x: int|
                    0 <= x < self.nodes@.len() implies (#[trigger] self.nodes@[x]).children@ == (
                    if exists|u: int| 0 <= u < t + 1 && psq[u] == x as usize {
                        pre.nodes@[x].children@.push(child_id)
                    } else {
                        pre.nodes@[x].children@
                    }) by {
                    if x == pid as int {
                        assert(psq[t as int] == x as usize);
                    } else {
                        if exists|u: int| 0 <= u < t + 1 && psq[u] == x as usize {
                            let u = choose|u: int| 0 <= u < t + 1 && psq[u] == x as usize;
                            vstd::std_specs::vec::axiom_spec_len(&self.nodes);
                            if u == t {
                                assert(psq[t as int] == pid);
                                assert(x as usize == pid);
                                assert(x == pid as int);
                            }
                            assert(u < t);
                        }
                    }
                }
            }
            t += 1;
        }
        proof {
            assert forall|x: int| 0 <= x < self.n() implies node_wf(
                #[trigger] self.nodes@[x],
                self.n(),
                self.k(),
            ) by {
                assert(node_wf(pre.nodes@[x], pre.n(), pre.k()));
                assert(pre.n() == self.n() && pre.k() == self.k());
                let ndo = pre.nodes@[x];
                let ndn = self.nodes@[x];
                assert(ndn.node_type == ndo.node_type);
                if ndn.children@ != ndo.children@ {
                    assert(ndn.children@ == ndo.children@.push(child_id));
                    assert(forall|i: int|
                        0 <= i < ndn.children@.len() ==> (ndn.children@[i] as int) < self.n());
                }
                if ndo.node_type is Leaf {
                    // A leaf cannot be among the parents, so its child list
                    // is untouched and stays empty.
                    assert forall|u: int| 0 <= u < psq.len() implies psq[u] != x as usize by {
                        assert(!(pre.nodes@[psq[u] as int].node_type is Leaf));
                        vstd::std_specs::vec::axiom_spec_len(&pre.nodes);
                        if psq[u] == x as usize {
                            assert(psq[u] as int == x);
                        }
                    }
                    assert(ndn.children@ == ndo.children@);
                }
                if x == child_id {
                    assert(ndn.parents@ == psq);
                    assert(ndn.cpt@ == rowvq);
                    assert(forall|u: int|
                        0 <= u < rowvq.len() ==> row_wf(#[trigger] rowvq[u], np as int, self.k()));
                } else {
                    assert(ndn.parents@ == ndo.parents@);
                    assert(ndn.cpt@ == ndo.cpt@);
                }
            }
            assert(self.spec_cpt_keys(child_id as int) =~= rowsq.map_values(
                |p: (Seq<usize>, Seq<Rat>)| p.0,
            ));
            assert(self.spec_cpt_dists(child_id as int) =~= rowsq.map_values(
                |p: (Seq<usize>, Seq<Rat>)| p.1,
            ));
            assert forall|x: int|
                0 <= x < self.spec_node_count() implies #[trigger] self.spec_children(x) == (
                if psq.contains(x as usize) {
                    pre.spec_children(x).push(child_id)
                } else {
                    pre.spec_children(x)
                }) by {
                if psq.contains(x as usize) {
                    let u = choose|u: int| 0 <= u < psq.len() && psq[u] == x as usize;
                    assert(exists|u: int| 0 <= u < np && psq[u] == x as usize);
                }
            }
        }
        Ok(warn)
    }
}

/// A failed key conversion fails every longer one.
pub(crate) proof fn lemma_conv_key_none(
    net: &BayesianNetwork,
    key: Seq<u64>,
    j: int,
    j2: int,
)
    requires
        net.conv_key_upto(key, j) is None,
        j <= j2,
    ensures
        net.conv_key_upto(key, j2) is None,
    decreases j2 - j,
{
    if j2 > j {
        lemma_conv_key_none(net, key, j, j2 - 1);
    }
}

/// Reads parent `t` of the committed child (a helper around borrow scopes).
fn ps_read(nodes: &Vec<Node>, child_id: usize, t: usize) -> (r: usize)
    requires
        (child_id as int) < nodes@.len(),
        (t as int) < nodes@[child_id as int].parents@.len(),
    ensures
        r == nodes@[child_id as int].parents@[t as int],
{
    nodes[child_id].parents[t]
}

} // verus!
