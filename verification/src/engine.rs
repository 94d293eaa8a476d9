//! The belief-propagation engine: pi/lambda message formulas, the fixed
//! point scheduler, and belief combination.
//!
//! Every step is mirrored by a specification function, so `infer`'s result
//! is pinned exactly: the same network and evidence always give the same
//! answer.  A directed edge `a -> b` stores its message at slot `a * n + b`
//! of the respective store; a checked formula yields `None` when an exact
//! intermediate result would not fit the representation.

use vstd::prelude::*;

use crate::model::{BayesianNetwork, InferenceError, Node, NodeType, QueryError, Row};
use crate::rational::{
    add_c, add_full, div_c, div_full, fold_add_c, fold_add_full, mul_c, one_rat, zero_rat,
    rat_eq, rat_wf, opt_rat, Prob, Rat,
};

verus! {

/// The per-run message stores: one optional pi message per parent-to-child
/// edge and one optional lambda message per child-to-parent edge, each a
/// distribution over the domain.  Slot `a * n + b` holds the message from
/// node `a` to node `b`.
pub struct Stores {
    pub pi: Seq<Option<Seq<Rat>>>,
    pub la: Seq<Option<Seq<Rat>>>,
}

/// The store slot of the directed edge `a -> b`.
pub open spec fn slot(n: int, a: int, b: int) -> int {
    a * n + b
}

/// One store has one slot per directed node pair and every present message
/// is a distribution over the domain made of well-formed rationals.
pub open spec fn half_wf(st: Seq<Option<Seq<Rat>>>, n: int, k: int) -> bool {
    &&& st.len() == n * n
    &&& forall|s: int|
        0 <= s < n * n ==> match #[trigger] st[s] {
            Some(m) => m.len() == k && forall|v: int| 0 <= v < k ==> rat_wf(#[trigger] m[v]),
            None => true,
        }
}

/// Both stores are well-formed.
pub open spec fn stores_wf(st: Stores, n: int, k: int) -> bool {
    half_wf(st.pi, n, k) && half_wf(st.la, n, k)
}

/// Evidence resolved to node ids: entry `x` is the observed domain index of
/// node `x`, if any.
pub open spec fn ev_wf(ev: Seq<Option<usize>>, n: int, k: int) -> bool {
    &&& ev.len() == n
    &&& forall|x: int|
        0 <= x < n ==> match #[trigger] ev[x] {
            Some(e) => (e as int) < k,
            None => true,
        }
}

impl BayesianNetwork {
    /// Product of the lambda messages to `x` from its first `j` children,
    /// skipping the child with id `skip`, at domain index `v`.
    pub(crate) open spec fn lam_prod(
        &self,
        la: Seq<Option<Seq<Rat>>>,
        x: int,
        skip: int,
        v: int,
        j: int,
    ) -> Option<Rat>
        decreases j,
    {
        if j <= 0 {
            Some(one_rat())
        } else {
            match self.lam_prod(la, x, skip, v, j - 1) {
                None => None,
                Some(acc) => {
                    let c = self.nodes@[x].children@[j - 1] as int;
                    if c == skip {
                        Some(acc)
                    } else {
                        match la[slot(self.n(), c, x)] {
                            None => None,
                            Some(m) => mul_c(acc, m[v]),
                        }
                    }
                },
            }
        }
    }

    /// Whether a CPT key tuple agrees with the evidence on `x`'s parents,
    /// ignoring the parent at position `skip_pos`.
    pub(crate) open spec fn row_consistent(
        &self,
        ev: Seq<Option<usize>>,
        x: int,
        key: Seq<usize>,
        skip_pos: int,
    ) -> bool {
        forall|i: int|
            0 <= i < key.len() && i != skip_pos ==> match ev[self.nodes@[x].parents@[i] as int] {
                Some(e) => #[trigger] key[i] == e,
                None => true,
            }
    }

    /// Product of the pi messages to `x` from its first `j` parents at the
    /// key tuple's positions, skipping position `skip_pos`.
    pub(crate) open spec fn par_prod(
        &self,
        pi: Seq<Option<Seq<Rat>>>,
        x: int,
        key: Seq<usize>,
        skip_pos: int,
        j: int,
    ) -> Option<Rat>
        decreases j,
    {
        if j <= 0 {
            Some(one_rat())
        } else {
            match self.par_prod(pi, x, key, skip_pos, j - 1) {
                None => None,
                Some(acc) => {
                    if j - 1 == skip_pos {
                        Some(acc)
                    } else {
                        let p = self.nodes@[x].parents@[j - 1] as int;
                        match pi[slot(self.n(), p, x)] {
                            None => None,
                            Some(m) => mul_c(acc, m[key[j - 1] as int]),
                        }
                    }
                },
            }
        }
    }

    /// Sum over `x`'s own first `j` domain values consistent with `x`'s
    /// evidence of (product of children lambdas) times the row probability.
    pub(crate) open spec fn node_sum(
        &self,
        la: Seq<Option<Seq<Rat>>>,
        ev: Seq<Option<usize>>,
        x: int,
        dist: Seq<Rat>,
        j: int,
    ) -> Option<Rat>
        decreases j,
    {
        if j <= 0 {
            Some(zero_rat())
        } else {
            match self.node_sum(la, ev, x, dist, j - 1) {
                None => None,
                Some(acc) => {
                    let v = j - 1;
                    let skipped = match ev[x] {
                        Some(e) => (e as int) != v,
                        None => false,
                    };
                    if skipped {
                        Some(acc)
                    } else {
                        match self.lam_prod(la, x, self.n(), v, self.nodes@[x].children@.len() as int) {
                            None => None,
                            Some(lp) => match mul_c(lp, dist[v]) {
                                None => None,
                                Some(t) => add_c(acc, t),
                            },
                        }
                    }
                },
            }
        }
    }

    /// Sum over the first `r` CPT rows consistent with the parent evidence
    /// of the row's probability of `v` times the parents' pi product.
    pub(crate) open spec fn cpt_sum(
        &self,
        ev: Seq<Option<usize>>,
        pi: Seq<Option<Seq<Rat>>>,
        x: int,
        v: int,
        r: int,
    ) -> Option<Rat>
        decreases r,
    {
        if r <= 0 {
            Some(zero_rat())
        } else {
            match self.cpt_sum(ev, pi, x, v, r - 1) {
                None => None,
                Some(acc) => {
                    let row = self.nodes@[x].cpt@[r - 1];
                    let np = self.nodes@[x].parents@.len() as int;
                    if !self.row_consistent(ev, x, row.key@, np) {
                        Some(acc)
                    } else {
                        match self.par_prod(pi, x, row.key@, np, np) {
                            None => None,
                            Some(pm) => match mul_c(row.dist.deep_view()[v], pm) {
                                None => None,
                                Some(t) => add_c(acc, t),
                            },
                        }
                    }
                },
            }
        }
    }

    /// `x`'s own causal support at domain index `v`: the evidence
    /// indicator, or a root's prior, or the evidence-consistent CPT sum.
    pub(crate) open spec fn bel_pi(
        &self,
        ev: Seq<Option<usize>>,
        pi: Seq<Option<Seq<Rat>>>,
        x: int,
        v: int,
    ) -> Option<Rat> {
        match ev[x] {
            Some(e) => Some(
                if e as int == v {
                    one_rat()
                } else {
                    zero_rat()
                },
            ),
            None => match self.nodes@[x].node_type {
                NodeType::Root(prior) => Some(prior.deep_view()[v]),
                _ => self.cpt_sum(ev, pi, x, v, self.nodes@[x].cpt@.len() as int),
            },
        }
    }

    /// One entry of the pi message from `x` to child `c`: the lambda
    /// product over `x`'s other children times `x`'s causal support.
    pub(crate) open spec fn pi_val(
        &self,
        ev: Seq<Option<usize>>,
        st: Stores,
        x: int,
        c: int,
        v: int,
    ) -> Option<Rat> {
        match self.lam_prod(st.la, x, c, v, self.nodes@[x].children@.len() as int) {
            None => None,
            Some(lp) => match self.bel_pi(ev, st.pi, x, v) {
                None => None,
                Some(b) => mul_c(lp, b),
            },
        }
    }

    /// The pi message from `x` to `c` over the first `j` domain indices.
    pub(crate) open spec fn pi_msg(
        &self,
        ev: Seq<Option<usize>>,
        st: Stores,
        x: int,
        c: int,
        j: int,
    ) -> Option<Seq<Rat>>
        decreases j,
    {
        if j <= 0 {
            Some(Seq::empty())
        } else {
            match self.pi_msg(ev, st, x, c, j - 1) {
                None => None,
                Some(pre) => match self.pi_val(ev, st, x, c, j - 1) {
                    None => None,
                    Some(r) => Some(pre.push(r)),
                },
            }
        }
    }

    /// Sum over the first `r` CPT rows whose key holds `v` at position
    /// `pos` and agrees with the evidence on the other parents, of the
    /// other parents' pi product times the evidence-consistent node sum.
    pub(crate) open spec fn lam_sum(
        &self,
        ev: Seq<Option<usize>>,
        st: Stores,
        x: int,
        pos: int,
        v: int,
        r: int,
    ) -> Option<Rat>
        decreases r,
    {
        if r <= 0 {
            Some(zero_rat())
        } else {
            match self.lam_sum(ev, st, x, pos, v, r - 1) {
                None => None,
                Some(acc) => {
                    let row = self.nodes@[x].cpt@[r - 1];
                    if (row.key@[pos] as int) != v || !self.row_consistent(ev, x, row.key@, pos) {
                        Some(acc)
                    } else {
                        match self.par_prod(
                            st.pi,
                            x,
                            row.key@,
                            pos,
                            self.nodes@[x].parents@.len() as int,
                        ) {
                            None => None,
                            Some(pm) => match self.node_sum(
                                st.la,
                                ev,
                                x,
                                row.dist.deep_view(),
                                self.k(),
                            ) {
                                None => None,
                                Some(ns) => match mul_c(pm, ns) {
                                    None => None,
                                    Some(t) => add_c(acc, t),
                                },
                            },
                        }
                    }
                },
            }
        }
    }

    /// The lambda message from `x` to the parent at position `pos`, over
    /// the first `j` domain indices.
    pub(crate) open spec fn lam_msg(
        &self,
        ev: Seq<Option<usize>>,
        st: Stores,
        x: int,
        pos: int,
        j: int,
    ) -> Option<Seq<Rat>>
        decreases j,
    {
        if j <= 0 {
            Some(Seq::empty())
        } else {
            match self.lam_msg(ev, st, x, pos, j - 1) {
                None => None,
                Some(pre) => match self.lam_sum(
                    ev,
                    st,
                    x,
                    pos,
                    j - 1,
                    self.nodes@[x].cpt@.len() as int,
                ) {
                    None => None,
                    Some(r) => Some(pre.push(r)),
                },
            }
        }
    }

    /// Readiness of the pi message from `x` to child `c`: pi is present
    /// from every parent and lambda from every other child.
    pub(crate) open spec fn pi_ready(&self, st: Stores, x: int, c: int) -> bool {
        &&& forall|i: int|
            0 <= i < self.nodes@[x].parents@.len() ==> st.pi[slot(
                self.n(),
                #[trigger] self.nodes@[x].parents@[i] as int,
                x,
            )] is Some
        &&& forall|q: int|
            0 <= q < self.nodes@[x].children@.len() ==> (#[trigger] self.nodes@[x].children@[q]
                as int == c) || st.la[slot(self.n(), self.nodes@[x].children@[q] as int, x)] is Some
    }

    /// Readiness of the lambda message from `x` to parent `p`: lambda is
    /// present from every child and pi from every other parent.
    pub(crate) open spec fn la_ready(&self, st: Stores, x: int, p: int) -> bool {
        &&& forall|q: int|
            0 <= q < self.nodes@[x].children@.len() ==> st.la[slot(
                self.n(),
                #[trigger] self.nodes@[x].children@[q] as int,
                x,
            )] is Some
        &&& forall|i: int|
            0 <= i < self.nodes@[x].parents@.len() ==> (#[trigger] self.nodes@[x].parents@[i]
                as int == p) || st.pi[slot(self.n(), self.nodes@[x].parents@[i] as int, x)] is Some
    }

    /// Candidate `i` of the scheduler's scan order.  Candidates `< n * n`
    /// are pi messages (`x = i / n` toward the child at position `i % n`),
    /// the rest lambda messages (toward the parent at position `i % n`).
    pub(crate) open spec fn cand_valid(&self, i: int) -> bool {
        if i < self.n() * self.n() {
            (i % self.n()) < self.nodes@[i / self.n()].children@.len()
        } else {
            let j = i - self.n() * self.n();
            (j % self.n()) < self.nodes@[j / self.n()].parents@.len()
        }
    }

    /// Whether candidate `i` is computable now and not yet computed.
    pub(crate) open spec fn cand_ready(&self, st: Stores, i: int) -> bool {
        &&& self.cand_valid(i)
        &&& if i < self.n() * self.n() {
            let x = i / self.n();
            let c = self.nodes@[x].children@[i % self.n()] as int;
            self.pi_ready(st, x, c) && st.pi[slot(self.n(), x, c)] is None
        } else {
            let j = i - self.n() * self.n();
            let x = j / self.n();
            let p = self.nodes@[x].parents@[j % self.n()] as int;
            self.la_ready(st, x, p) && st.la[slot(self.n(), x, p)] is None
        }
    }

    /// First ready candidate at or after `i` in scan order.
    pub(crate) open spec fn first_ready_from(&self, st: Stores, i: int) -> Option<int>
        decreases 2 * self.n() * self.n() - i,
    {
        if i < 0 || i >= 2 * self.n() * self.n() {
            None
        } else if self.cand_ready(st, i) {
            Some(i)
        } else {
            self.first_ready_from(st, i + 1)
        }
    }

    /// The stores after computing candidate `i`, or `None` on overflow.
    pub(crate) open spec fn apply_cand(
        &self,
        ev: Seq<Option<usize>>,
        st: Stores,
        i: int,
    ) -> Option<Stores> {
        if i < self.n() * self.n() {
            let x = i / self.n();
            let c = self.nodes@[x].children@[i % self.n()] as int;
            match self.pi_msg(ev, st, x, c, self.k()) {
                None => None,
                Some(m) => Some(
                    Stores { pi: st.pi.update(slot(self.n(), x, c), Some(m)), la: st.la },
                ),
            }
        } else {
            let j = i - self.n() * self.n();
            let x = j / self.n();
            let p = self.nodes@[x].parents@[j % self.n()] as int;
            match self.lam_msg(ev, st, x, j % self.n(), self.k()) {
                None => None,
                Some(m) => Some(
                    Stores { pi: st.pi, la: st.la.update(slot(self.n(), x, p), Some(m)) },
                ),
            }
        }
    }

    /// Runs the scheduler to its fixed point: repeatedly computes the first
    /// ready candidate until none is left (or overflow).
    pub(crate) open spec fn run_fix(
        &self,
        ev: Seq<Option<usize>>,
        st: Stores,
        fuel: nat,
    ) -> Option<Stores>
        decreases fuel,
    {
        if fuel == 0 {
            Some(st)
        } else {
            match self.first_ready_from(st, 0) {
                None => Some(st),
                Some(i) => match self.apply_cand(ev, st, i) {
                    None => None,
                    Some(st2) => self.run_fix(ev, st2, (fuel - 1) as nat),
                },
            }
        }
    }

    /// The empty stores.
    pub(crate) open spec fn empty_stores(&self) -> Stores {
        Stores {
            pi: Seq::new((self.n() * self.n()) as nat, |s: int| None),
            la: Seq::new((self.n() * self.n()) as nat, |s: int| None),
        }
    }

    /// The message stores `propagate` fills for this network and resolved
    /// evidence, or `None` if an exact intermediate overflowed.
    pub closed spec fn spec_propagate(&self, ev: Seq<Option<usize>>) -> Option<Stores> {
        self.run_fix(ev, self.empty_stores(), (2 * self.n() * self.n() + 1) as nat)
    }

    pub(crate) proof fn lemma_lam_prod_none(
        &self,
        la: Seq<Option<Seq<Rat>>>,
        x: int,
        skip: int,
        v: int,
        j: int,
        j2: int,
    )
        requires
            self.lam_prod(la, x, skip, v, j) is None,
            j <= j2,
        ensures
            self.lam_prod(la, x, skip, v, j2) is None,
        decreases j2 - j,
    {
        if j2 > j {
            self.lemma_lam_prod_none(la, x, skip, v, j, j2 - 1);
        }
    }

    pub(crate) proof fn lemma_par_prod_none(
        &self,
        pi: Seq<Option<Seq<Rat>>>,
        x: int,
        key: Seq<usize>,
        skip_pos: int,
        j: int,
        j2: int,
    )
        requires
            self.par_prod(pi, x, key, skip_pos, j) is None,
            j <= j2,
        ensures
            self.par_prod(pi, x, key, skip_pos, j2) is None,
        decreases j2 - j,
    {
        if j2 > j {
            self.lemma_par_prod_none(pi, x, key, skip_pos, j, j2 - 1);
        }
    }

    pub(crate) proof fn lemma_node_sum_none(
        &self,
        la: Seq<Option<Seq<Rat>>>,
        ev: Seq<Option<usize>>,
        x: int,
        dist: Seq<Rat>,
        j: int,
        j2: int,
    )
        requires
            self.node_sum(la, ev, x, dist, j) is None,
            j <= j2,
        ensures
            self.node_sum(la, ev, x, dist, j2) is None,
        decreases j2 - j,
    {
        if j2 > j {
            self.lemma_node_sum_none(la, ev, x, dist, j, j2 - 1);
        }
    }

    pub(crate) proof fn lemma_cpt_sum_none(
        &self,
        ev: Seq<Option<usize>>,
        pi: Seq<Option<Seq<Rat>>>,
        x: int,
        v: int,
        r: int,
        r2: int,
    )
        requires
            self.cpt_sum(ev, pi, x, v, r) is None,
            r <= r2,
        ensures
            self.cpt_sum(ev, pi, x, v, r2) is None,
        decreases r2 - r,
    {
        if r2 > r {
            self.lemma_cpt_sum_none(ev, pi, x, v, r, r2 - 1);
        }
    }

    pub(crate) proof fn lemma_lam_sum_none(
        &self,
        ev: Seq<Option<usize>>,
        st: Stores,
        x: int,
        pos: int,
        v: int,
        r: int,
        r2: int,
    )
        requires
            self.lam_sum(ev, st, x, pos, v, r) is None,
            r <= r2,
        ensures
            self.lam_sum(ev, st, x, pos, v, r2) is None,
        decreases r2 - r,
    {
        if r2 > r {
            self.lemma_lam_sum_none(ev, st, x, pos, v, r, r2 - 1);
        }
    }

    pub(crate) proof fn lemma_pi_msg_none(
        &self,
        ev: Seq<Option<usize>>,
        st: Stores,
        x: int,
        c: int,
        j: int,
        j2: int,
    )
        requires
            self.pi_msg(ev, st, x, c, j) is None,
            j <= j2,
        ensures
            self.pi_msg(ev, st, x, c, j2) is None,
        decreases j2 - j,
    {
        if j2 > j {
            self.lemma_pi_msg_none(ev, st, x, c, j, j2 - 1);
        }
    }

    pub(crate) proof fn lemma_lam_msg_none(
        &self,
        ev: Seq<Option<usize>>,
        st: Stores,
        x: int,
        pos: int,
        j: int,
        j2: int,
    )
        requires
            self.lam_msg(ev, st, x, pos, j) is None,
            j <= j2,
        ensures
            self.lam_msg(ev, st, x, pos, j2) is None,
        decreases j2 - j,
    {
        if j2 > j {
            self.lemma_lam_msg_none(ev, st, x, pos, j, j2 - 1);
        }
    }
}

/// The optional view of an optional probability vector.
pub open spec fn opt_probs(r: Option<Vec<Prob>>) -> Option<Seq<Rat>> {
    match r {
        Some(v) => Some(v.deep_view()),
        None => None,
    }
}

/// Computes the store slot of the edge `a -> b`.
fn slot_exec(n: usize, a: usize, b: usize) -> (s: usize)
    requires
        (a as int) < (n as int),
        (b as int) < (n as int),
        (n as int) * (n as int) <= usize::MAX,
    ensures
        s as int == slot(n as int, a as int, b as int),
        (s as int) < (n as int) * (n as int),
{
    proof {
        assert((a as int) * (n as int) + (b as int) < (n as int) * (n as int)) by (nonlinear_arith)
            requires
                (a as int) < (n as int),
                (b as int) < (n as int),
        ;
    }
    a * n + b
}

/// Reads entry `v` of the message at slot `s`, if the message is present.
fn read_msg(st: &Vec<Option<Vec<Prob>>>, s: usize, v: usize) -> (r: Option<Prob>)
    requires
        (s as int) < st@.len(),
        match st.deep_view()[s as int] {
            Some(m) => (v as int) < m.len(),
            None => true,
        },
    ensures
        match st.deep_view()[s as int] {
            None => r is None,
            Some(m) => match r {
                Some(p) => p@ == m[v as int],
                None => false,
            },
        },
{
    proof {
        assert(st.deep_view()[s as int] == st@[s as int].deep_view());
    }
    match &st[s] {
        None => None,
        Some(m) => {
            proof {
                assert(m.deep_view()[v as int] == m@[v as int].deep_view());
            }
            Some(m[v])
        },
    }
}

impl BayesianNetwork {
    /// Executable mirror of `lam_prod` over the whole child list.
    #[verifier::loop_isolation(false)]
    fn lam_prod_exec(
        &self,
        la_st: &Vec<Option<Vec<Prob>>>,
        x: usize,
        skip: usize,
        v: usize,
    ) -> (r: Option<Prob>)
        requires
            self.wf_inner(),
            (x as int) < self.n(),
            (v as int) < self.k(),
            self.n() * self.n() <= usize::MAX,
            half_wf(la_st.deep_view(), self.n(), self.k()),
        ensures
            opt_rat(r) == self.lam_prod(
                la_st.deep_view(),
                x as int,
                skip as int,
                v as int,
                self.nodes@[x as int].children@.len() as int,
            ),
    {
        let ghost lav = la_st.deep_view();
        let ghost cn = self.nodes@[x as int].children@.len() as int;
        let n = self.nodes.len();
        let mut acc = Prob::one();
        let mut j: usize = 0;
        while j < self.nodes[x].children.len()
            invariant
                j <= cn,
                Some(acc@) == self.lam_prod(lav, x as int, skip as int, v as int, j as int),
            decreases cn - j,
        {
            let c = self.nodes[x].children[j];
            if c != skip {
                let s = slot_exec(n, c, x);
                match read_msg(la_st, s, v) {
                    None => {
                        proof {
                            self.lemma_lam_prod_none(lav, x as int, skip as int, v as int, j + 1, cn);
                        }
                        return None;
                    },
                    Some(p) => {
                        match acc.checked_mul(p) {
                            None => {
                                proof {
                                    self.lemma_lam_prod_none(
                                        lav,
                                        x as int,
                                        skip as int,
                                        v as int,
                                        j + 1,
                                        cn,
                                    );
                                }
                                return None;
                            },
                            Some(a) => {
                                acc = a;
                            },
                        }
                    },
                }
            }
            j += 1;
        }
        Some(acc)
    }

    /// Executable mirror of `row_consistent`.
    #[verifier::loop_isolation(false)]
    fn row_consistent_exec(
        &self,
        ev: &Vec<Option<usize>>,
        x: usize,
        key: &Vec<usize>,
        skip_pos: usize,
    ) -> (b: bool)
        requires
            self.wf_inner(),
            (x as int) < self.n(),
            key@.len() == self.nodes@[x as int].parents@.len(),
            ev@.len() == self.n(),
        ensures
            b == self.row_consistent(ev@, x as int, key@, skip_pos as int),
    {
        let mut i: usize = 0;
        while i < key.len()
            invariant
                i <= key@.len(),
                forall|t: int|
                    0 <= t < i && t != skip_pos ==> {
                        let px = self.nodes@[x as int].parents@[t] as int;
                        match ev@[px] {
                            Some(e) => #[trigger] key@[t] == e,
                            None => true,
                        }
                    },
            decreases key@.len() - i,
        {
            if i != skip_pos {
                let p = self.nodes[x].parents[i];
                match ev[p] {
                    Some(e) => {
                        if key[i] != e {
                            return false;
                        }
                    },
                    None => {},
                }
            }
            i += 1;
        }
        true
    }

    /// Executable mirror of `par_prod` over the whole parent list.
    #[verifier::loop_isolation(false)]
    fn par_prod_exec(
        &self,
        pi_st: &Vec<Option<Vec<Prob>>>,
        x: usize,
        key: &Vec<usize>,
        skip_pos: usize,
    ) -> (r: Option<Prob>)
        requires
            self.wf_inner(),
            (x as int) < self.n(),
            self.n() * self.n() <= usize::MAX,
            half_wf(pi_st.deep_view(), self.n(), self.k()),
            key@.len() == self.nodes@[x as int].parents@.len(),
            forall|i: int| 0 <= i < key@.len() ==> (#[trigger] key@[i] as int) < self.k(),
        ensures
            opt_rat(r) == self.par_prod(
                pi_st.deep_view(),
                x as int,
                key@,
                skip_pos as int,
                self.nodes@[x as int].parents@.len() as int,
            ),
    {
        let ghost piv = pi_st.deep_view();
        let ghost np = self.nodes@[x as int].parents@.len() as int;
        let n = self.nodes.len();
        let mut acc = Prob::one();
        let mut j: usize = 0;
        while j < self.nodes[x].parents.len()
            invariant
                j <= np,
                Some(acc@) == self.par_prod(piv, x as int, key@, skip_pos as int, j as int),
            decreases np - j,
        {
            if j != skip_pos {
                let p = self.nodes[x].parents[j];
                let s = slot_exec(n, p, x);
                match read_msg(pi_st, s, key[j]) {
                    None => {
                        proof {
                            self.lemma_par_prod_none(piv, x as int, key@, skip_pos as int, j + 1, np);
                        }
                        return None;
                    },
                    Some(m) => {
                        match acc.checked_mul(m) {
                            None => {
                                proof {
                                    self.lemma_par_prod_none(
                                        piv,
                                        x as int,
                                        key@,
                                        skip_pos as int,
                                        j + 1,
                                        np,
                                    );
                                }
                                return None;
                            },
                            Some(a) => {
                                acc = a;
                            },
                        }
                    },
                }
            }
            j += 1;
        }
        Some(acc)
    }

    /// Executable mirror of `node_sum` over the whole domain.
    #[verifier::loop_isolation(false)]
    fn node_sum_exec(
        &self,
        la_st: &Vec<Option<Vec<Prob>>>,
        ev: &Vec<Option<usize>>,
        x: usize,
        dist: &Vec<Prob>,
    ) -> (r: Option<Prob>)
        requires
            self.wf_inner(),
            (x as int) < self.n(),
            self.n() * self.n() <= usize::MAX,
            half_wf(la_st.deep_view(), self.n(), self.k()),
            ev@.len() == self.n(),
            dist@.len() == self.k(),
        ensures
            opt_rat(r) == self.node_sum(
                la_st.deep_view(),
                ev@,
                x as int,
                dist.deep_view(),
                self.k(),
            ),
    {
        let ghost lav = la_st.deep_view();
        let ghost dv = dist.deep_view();
        let n = self.nodes.len();
        let k = self.value_space.len();
        let mut acc = Prob::zero();
        let mut v: usize = 0;
        while v < k
            invariant
                v <= self.k(),
                Some(acc@) == self.node_sum(lav, ev@, x as int, dv, v as int),
            decreases self.k() - v,
        {
            let skipped = match ev[x] {
                Some(e) => e != v,
                None => false,
            };
            if !skipped {
                match self.lam_prod_exec(la_st, x, n, v) {
                    None => {
                        proof {
                            self.lemma_node_sum_none(lav, ev@, x as int, dv, v + 1, self.k());
                        }
                        return None;
                    },
                    Some(lp) => {
                        proof {
                            assert(dv[v as int] == dist@[v as int].deep_view());
                        }
                        match lp.checked_mul(dist[v]) {
                            None => {
                                proof {
                                    self.lemma_node_sum_none(lav, ev@, x as int, dv, v + 1, self.k());
                                }
                                return None;
                            },
                            Some(t) => {
                                match acc.checked_add(t) {
                                    None => {
                                        proof {
                                            self.lemma_node_sum_none(
                                                lav,
                                                ev@,
                                                x as int,
                                                dv,
                                                v + 1,
                                                self.k(),
                                            );
                                        }
                                        return None;
                                    },
                                    Some(a) => {
                                        acc = a;
                                    },
                                }
                            },
                        }
                    },
                }
            }
            v += 1;
        }
        Some(acc)
    }

    /// Executable mirror of `cpt_sum` over the whole table.
    #[verifier::loop_isolation(false)]
    fn cpt_sum_exec(
        &self,
        ev: &Vec<Option<usize>>,
        pi_st: &Vec<Option<Vec<Prob>>>,
        x: usize,
        v: usize,
    ) -> (r: Option<Prob>)
        requires
            self.wf_inner(),
            (x as int) < self.n(),
            (v as int) < self.k(),
            self.n() * self.n() <= usize::MAX,
            half_wf(pi_st.deep_view(), self.n(), self.k()),
            ev@.len() == self.n(),
        ensures
            opt_rat(r) == self.cpt_sum(
                ev@,
                pi_st.deep_view(),
                x as int,
                v as int,
                self.nodes@[x as int].cpt@.len() as int,
            ),
    {
        let ghost piv = pi_st.deep_view();
        let ghost nr = self.nodes@[x as int].cpt@.len() as int;
        let np = self.nodes[x].parents.len();
        let mut acc = Prob::zero();
        let mut r: usize = 0;
        while r < self.nodes[x].cpt.len()
            invariant
                r <= nr,
                Some(acc@) == self.cpt_sum(ev@, piv, x as int, v as int, r as int),
            decreases nr - r,
        {
            proof {
                assert(crate::model::row_wf(
                    self.nodes@[x as int].cpt@[r as int],
                    self.nodes@[x as int].parents@.len() as int,
                    self.k(),
                ));
            }
            let consistent = self.row_consistent_exec(ev, x, &self.nodes[x].cpt[r].key, np);
            if consistent {
                match self.par_prod_exec(pi_st, x, &self.nodes[x].cpt[r].key, np) {
                    None => {
                        proof {
                            self.lemma_cpt_sum_none(ev@, piv, x as int, v as int, r + 1, nr);
                        }
                        return None;
                    },
                    Some(pm) => {
                        proof {
                            assert(self.nodes@[x as int].cpt@[r as int].dist.deep_view()[v as int]
                                == self.nodes@[x as int].cpt@[r as int].dist@[v as int].deep_view());
                        }
                        match self.nodes[x].cpt[r].dist[v].checked_mul(pm) {
                            None => {
                                proof {
                                    self.lemma_cpt_sum_none(ev@, piv, x as int, v as int, r + 1, nr);
                                }
                                return None;
                            },
                            Some(t) => {
                                match acc.checked_add(t) {
                                    None => {
                                        proof {
                                            self.lemma_cpt_sum_none(
                                                ev@,
                                                piv,
                                                x as int,
                                                v as int,
                                                r + 1,
                                                nr,
                                            );
                                        }
                                        return None;
                                    },
                                    Some(a) => {
                                        acc = a;
                                    },
                                }
                            },
                        }
                    },
                }
            }
            r += 1;
        }
        Some(acc)
    }

    /// Executable mirror of `bel_pi`.
    fn bel_pi_exec(
        &self,
        ev: &Vec<Option<usize>>,
        pi_st: &Vec<Option<Vec<Prob>>>,
        x: usize,
        v: usize,
    ) -> (r: Option<Prob>)
        requires
            self.wf_inner(),
            (x as int) < self.n(),
            (v as int) < self.k(),
            self.n() * self.n() <= usize::MAX,
            half_wf(pi_st.deep_view(), self.n(), self.k()),
            ev@.len() == self.n(),
        ensures
            opt_rat(r) == self.bel_pi(ev@, pi_st.deep_view(), x as int, v as int),
    {
        match ev[x] {
            Some(e) => {
                if e == v {
                    Some(Prob::one())
                } else {
                    Some(Prob::zero())
                }
            },
            None => {
                match &self.nodes[x].node_type {
                    NodeType::Root(prior) => {
                        proof {
                            assert(prior.deep_view()[v as int] == prior@[v as int].deep_view());
                        }
                        Some(prior[v])
                    },
                    _ => self.cpt_sum_exec(ev, pi_st, x, v),
                }
            },
        }
    }

    /// Executable mirror of `pi_msg`: the pi message from `x` to the child
    /// at position `pos`.
    #[verifier::loop_isolation(false)]
    fn compute_pi(
        &self,
        ev: &Vec<Option<usize>>,
        pi_st: &Vec<Option<Vec<Prob>>>,
        la_st: &Vec<Option<Vec<Prob>>>,
        x: usize,
        pos: usize,
    ) -> (r: Option<Vec<Prob>>)
        requires
            self.wf_inner(),
            (x as int) < self.n(),
            (pos as int) < self.nodes@[x as int].children@.len(),
            self.n() * self.n() <= usize::MAX,
            half_wf(pi_st.deep_view(), self.n(), self.k()),
            half_wf(la_st.deep_view(), self.n(), self.k()),
            ev@.len() == self.n(),
        ensures
            opt_probs(r) == self.pi_msg(
                ev@,
                Stores { pi: pi_st.deep_view(), la: la_st.deep_view() },
                x as int,
                self.nodes@[x as int].children@[pos as int] as int,
                self.k(),
            ),
            r is Some ==> r.unwrap()@.len() == self.k(),
    {
        let ghost st = Stores { pi: pi_st.deep_view(), la: la_st.deep_view() };
        let ghost c_int = self.nodes@[x as int].children@[pos as int] as int;
        let c = self.nodes[x].children[pos];
        let k = self.value_space.len();
        let mut out: Vec<Prob> = Vec::new();
        let mut v: usize = 0;
        while v < k
            invariant
                v <= self.k(),
                out@.len() == v,
                Some(out.deep_view()) == self.pi_msg(ev@, st, x as int, c_int, v as int),
            decreases self.k() - v,
        {
            match self.lam_prod_exec(la_st, x, c, v) {
                None => {
                    proof {
                        self.lemma_pi_msg_none(ev@, st, x as int, c_int, v + 1, self.k());
                    }
                    return None;
                },
                Some(lp) => {
                    match self.bel_pi_exec(ev, pi_st, x, v) {
                        None => {
                            proof {
                                self.lemma_pi_msg_none(ev@, st, x as int, c_int, v + 1, self.k());
                            }
                            return None;
                        },
                        Some(b) => {
                            match lp.checked_mul(b) {
                                None => {
                                    proof {
                                        self.lemma_pi_msg_none(
                                            ev@,
                                            st,
                                            x as int,
                                            c_int,
                                            v + 1,
                                            self.k(),
                                        );
                                    }
                                    return None;
                                },
                                Some(t) => {
                                    let ghost pre_dv = out.deep_view();
                                    out.push(t);
                                    proof {
                                        assert(out.deep_view() =~= pre_dv.push(t@));
                                    }
                                },
                            }
                        },
                    }
                },
            }
            v += 1;
        }
        Some(out)
    }

    /// Executable mirror of `lam_sum` for one parent value.
    #[verifier::loop_isolation(false)]
    fn lam_sum_exec(
        &self,
        ev: &Vec<Option<usize>>,
        pi_st: &Vec<Option<Vec<Prob>>>,
        la_st: &Vec<Option<Vec<Prob>>>,
        x: usize,
        pos: usize,
        v: usize,
    ) -> (r: Option<Prob>)
        requires
            self.wf_inner(),
            (x as int) < self.n(),
            (pos as int) < self.nodes@[x as int].parents@.len(),
            (v as int) < self.k(),
            self.n() * self.n() <= usize::MAX,
            half_wf(pi_st.deep_view(), self.n(), self.k()),
            half_wf(la_st.deep_view(), self.n(), self.k()),
            ev@.len() == self.n(),
        ensures
            opt_rat(r) == self.lam_sum(
                ev@,
                Stores { pi: pi_st.deep_view(), la: la_st.deep_view() },
                x as int,
                pos as int,
                v as int,
                self.nodes@[x as int].cpt@.len() as int,
            ),
    {
        let ghost st = Stores { pi: pi_st.deep_view(), la: la_st.deep_view() };
        let ghost nr = self.nodes@[x as int].cpt@.len() as int;
        let mut acc = Prob::zero();
        let mut r: usize = 0;
        while r < self.nodes[x].cpt.len()
            invariant
                r <= nr,
                Some(acc@) == self.lam_sum(ev@, st, x as int, pos as int, v as int, r as int),
            decreases nr - r,
        {
            proof {
                assert(crate::model::row_wf(
                    self.nodes@[x as int].cpt@[r as int],
                    self.nodes@[x as int].parents@.len() as int,
                    self.k(),
                ));
            }
            let key_matches = self.nodes[x].cpt[r].key[pos] == v;
            if key_matches {
                let consistent = self.row_consistent_exec(ev, x, &self.nodes[x].cpt[r].key, pos);
                if consistent {
                    match self.par_prod_exec(pi_st, x, &self.nodes[x].cpt[r].key, pos) {
                        None => {
                            proof {
                                self.lemma_lam_sum_none(
                                    ev@,
                                    st,
                                    x as int,
                                    pos as int,
                                    v as int,
                                    r + 1,
                                    nr,
                                );
                            }
                            return None;
                        },
                        Some(pm) => {
                            match self.node_sum_exec(la_st, ev, x, &self.nodes[x].cpt[r].dist) {
                                None => {
                                    proof {
                                        self.lemma_lam_sum_none(
                                            ev@,
                                            st,
                                            x as int,
                                            pos as int,
                                            v as int,
                                            r + 1,
                                            nr,
                                        );
                                    }
                                    return None;
                                },
                                Some(ns) => {
                                    match pm.checked_mul(ns) {
                                        None => {
                                            proof {
                                                self.lemma_lam_sum_none(
                                                    ev@,
                                                    st,
                                                    x as int,
                                                    pos as int,
                                                    v as int,
                                                    r + 1,
                                                    nr,
                                                );
                                            }
                                            return None;
                                        },
                                        Some(t) => {
                                            match acc.checked_add(t) {
                                                None => {
                                                    proof {
                                                        self.lemma_lam_sum_none(
                                                            ev@,
                                                            st,
                                                            x as int,
                                                            pos as int,
                                                            v as int,
                                                            r + 1,
                                                            nr,
                                                        );
                                                    }
                                                    return None;
                                                },
                                                Some(a) => {
                                                    acc = a;
                                                },
                                            }
                                        },
                                    }
                                },
                            }
                        },
                    }
                }
            }
            r += 1;
        }
        Some(acc)
    }

    /// Executable mirror of `lam_msg`: the lambda message from `x` to the
    /// parent at position `pos`.
    #[verifier::loop_isolation(false)]
    fn compute_lambda(
        &self,
        ev: &Vec<Option<usize>>,
        pi_st: &Vec<Option<Vec<Prob>>>,
        la_st: &Vec<Option<Vec<Prob>>>,
        x: usize,
        pos: usize,
    ) -> (r: Option<Vec<Prob>>)
        requires
            self.wf_inner(),
            (x as int) < self.n(),
            (pos as int) < self.nodes@[x as int].parents@.len(),
            self.n() * self.n() <= usize::MAX,
            half_wf(pi_st.deep_view(), self.n(), self.k()),
            half_wf(la_st.deep_view(), self.n(), self.k()),
            ev@.len() == self.n(),
        ensures
            opt_probs(r) == self.lam_msg(
                ev@,
                Stores { pi: pi_st.deep_view(), la: la_st.deep_view() },
                x as int,
                pos as int,
                self.k(),
            ),
            r is Some ==> r.unwrap()@.len() == self.k(),
    {
        let ghost st = Stores { pi: pi_st.deep_view(), la: la_st.deep_view() };
        let k = self.value_space.len();
        let mut out: Vec<Prob> = Vec::new();
        let mut v: usize = 0;
        while v < k
            invariant
                v <= self.k(),
                out@.len() == v,
                Some(out.deep_view()) == self.lam_msg(ev@, st, x as int, pos as int, v as int),
            decreases self.k() - v,
        {
            match self.lam_sum_exec(ev, pi_st, la_st, x, pos, v) {
                None => {
                    proof {
                        self.lemma_lam_msg_none(ev@, st, x as int, pos as int, v + 1, self.k());
                    }
                    return None;
                },
                Some(s) => {
                    out.push(s);
                },
            }
            v += 1;
        }
        Some(out)
    }
}

/// Number of present messages among the first `j` slots.
pub(crate) open spec fn cnt_some(st: Seq<Option<Seq<Rat>>>, j: int) -> int
    decreases j,
{
    if j <= 0 {
        0
    } else {
        cnt_some(st, j - 1) + if st[j - 1] is Some {
            1int
        } else {
            0int
        }
    }
}

pub(crate) proof fn lemma_cnt_le(st: Seq<Option<Seq<Rat>>>, j: int)
    requires
        0 <= j,
    ensures
        0 <= cnt_some(st, j) <= j,
    decreases j,
{
    if j > 0 {
        lemma_cnt_le(st, j - 1);
    }
}

/// Filling an absent slot raises the count by one.
pub(crate) proof fn lemma_cnt_update(st: Seq<Option<Seq<Rat>>>, s: int, m: Seq<Rat>, j: int)
    requires
        0 <= s < j,
        j <= st.len(),
        st[s] is None,
    ensures
        cnt_some(st.update(s, Some(m)), j) == cnt_some(st, j) + 1,
    decreases j,
{
    if j - 1 == s {
        lemma_cnt_eq_prefix(st, st.update(s, Some(m)), j - 1);
    } else {
        lemma_cnt_update(st, s, m, j - 1);
    }
}

/// Counting only looks at the first `j` slots.
pub(crate) proof fn lemma_cnt_eq_prefix(a: Seq<Option<Seq<Rat>>>, b: Seq<Option<Seq<Rat>>>, j: int)
    requires
        forall|t: int| 0 <= t < j ==> a[t] == b[t],
    ensures
        cnt_some(a, j) == cnt_some(b, j),
    decreases j,
{
    if j > 0 {
        lemma_cnt_eq_prefix(a, b, j - 1);
    }
}

/// Whether the message at slot `s` is present.
fn is_present(st: &Vec<Option<Vec<Prob>>>, s: usize) -> (b: bool)
    requires
        (s as int) < st@.len(),
    ensures
        b == (st.deep_view()[s as int] is Some),
{
    proof {
        assert(st.deep_view()[s as int] == st@[s as int].deep_view());
    }
    (&st[s]).is_some()
}

impl BayesianNetwork {
    /// Executable mirror of `pi_ready`.
    #[verifier::loop_isolation(false)]
    fn pi_ready_exec(
        &self,
        pi_st: &Vec<Option<Vec<Prob>>>,
        la_st: &Vec<Option<Vec<Prob>>>,
        x: usize,
        c: usize,
    ) -> (b: bool)
        requires
            self.wf_inner(),
            (x as int) < self.n(),
            self.n() * self.n() <= usize::MAX,
            half_wf(pi_st.deep_view(), self.n(), self.k()),
            half_wf(la_st.deep_view(), self.n(), self.k()),
        ensures
            b == self.pi_ready(
                Stores { pi: pi_st.deep_view(), la: la_st.deep_view() },
                x as int,
                c as int,
            ),
    {
        let ghost st = Stores { pi: pi_st.deep_view(), la: la_st.deep_view() };
        let n = self.nodes.len();
        let mut i: usize = 0;
        while i < self.nodes[x].parents.len()
            invariant
                i <= self.nodes@[x as int].parents@.len(),
                forall|t: int|
                    0 <= t < i ==> st.pi[slot(
                        self.n(),
                        #[trigger] self.nodes@[x as int].parents@[t] as int,
                        x as int,
                    )] is Some,
            decreases self.nodes@[x as int].parents@.len() - i,
        {
            let p = self.nodes[x].parents[i];
            let s = slot_exec(n, p, x);
            if !is_present(pi_st, s) {
                return false;
            }
            i += 1;
        }
        let mut q: usize = 0;
        while q < self.nodes[x].children.len()
            invariant
                q <= self.nodes@[x as int].children@.len(),
                forall|t: int|
                    0 <= t < q ==> (#[trigger] self.nodes@[x as int].children@[t] as int == c as int)
                        || st.la[slot(self.n(), self.nodes@[x as int].children@[t] as int, x as int)]
                        is Some,
            decreases self.nodes@[x as int].children@.len() - q,
        {
            let ch = self.nodes[x].children[q];
            if ch != c {
                let s = slot_exec(n, ch, x);
                if !is_present(la_st, s) {
                    return false;
                }
            }
            q += 1;
        }
        true
    }

    /// Executable mirror of `la_ready`.
    #[verifier::loop_isolation(false)]
    fn la_ready_exec(
        &self,
        pi_st: &Vec<Option<Vec<Prob>>>,
        la_st: &Vec<Option<Vec<Prob>>>,
        x: usize,
        p: usize,
    ) -> (b: bool)
        requires
            self.wf_inner(),
            (x as int) < self.n(),
            self.n() * self.n() <= usize::MAX,
            half_wf(pi_st.deep_view(), self.n(), self.k()),
            half_wf(la_st.deep_view(), self.n(), self.k()),
        ensures
            b == self.la_ready(
                Stores { pi: pi_st.deep_view(), la: la_st.deep_view() },
                x as int,
                p as int,
            ),
    {
        let ghost st = Stores { pi: pi_st.deep_view(), la: la_st.deep_view() };
        let n = self.nodes.len();
        let mut q: usize = 0;
        while q < self.nodes[x].children.len()
            invariant
                q <= self.nodes@[x as int].children@.len(),
                forall|t: int|
                    0 <= t < q ==> st.la[slot(
                        self.n(),
                        #[trigger] self.nodes@[x as int].children@[t] as int,
                        x as int,
                    )] is Some,
            decreases self.nodes@[x as int].children@.len() - q,
        {
            let ch = self.nodes[x].children[q];
            let s = slot_exec(n, ch, x);
            if !is_present(la_st, s) {
                return false;
            }
            q += 1;
        }
        let mut i: usize = 0;
        while i < self.nodes[x].parents.len()
            invariant
                i <= self.nodes@[x as int].parents@.len(),
                forall|t: int|
                    0 <= t < i ==> (#[trigger] self.nodes@[x as int].parents@[t] as int == p as int)
                        || st.pi[slot(self.n(), self.nodes@[x as int].parents@[t] as int, x as int)]
                        is Some,
            decreases self.nodes@[x as int].parents@.len() - i,
        {
            let pr = self.nodes[x].parents[i];
            if pr != p {
                let s = slot_exec(n, pr, x);
                if !is_present(pi_st, s) {
                    return false;
                }
            }
            i += 1;
        }
        true
    }

    /// Executable mirror of `cand_ready`.
    fn cand_ready_exec(
        &self,
        pi_st: &Vec<Option<Vec<Prob>>>,
        la_st: &Vec<Option<Vec<Prob>>>,
        i: usize,
    ) -> (b: bool)
        requires
            self.wf_inner(),
            self.n() >= 1,
            (i as int) < 2 * self.n() * self.n(),
            self.n() * self.n() <= usize::MAX,
            half_wf(pi_st.deep_view(), self.n(), self.k()),
            half_wf(la_st.deep_view(), self.n(), self.k()),
        ensures
            b == self.cand_ready(
                Stores { pi: pi_st.deep_view(), la: la_st.deep_view() },
                i as int,
            ),
    {
        let n = self.nodes.len();
        proof {
            assert(2 * ((n as int) * (n as int)) == 2 * (n as int) * (n as int))
                by (nonlinear_arith);
        }
        let nn = n * n;
        if i < nn {
            let x = i / n;
            let pos = i % n;
            proof {
                assert((i as int) / (n as int) < n as int) by (nonlinear_arith)
                    requires
                        0 <= (i as int) < (n as int) * (n as int),
                        (n as int) >= 1,
                ;
            }
            if pos >= self.nodes[x].children.len() {
                return false;
            }
            let c = self.nodes[x].children[pos];
            let s = slot_exec(n, x, c);
            if is_present(pi_st, s) {
                return false;
            }
            self.pi_ready_exec(pi_st, la_st, x, c)
        } else {
            let j = i - nn;
            let x = j / n;
            let pos = j % n;
            proof {
                assert((j as int) / (n as int) < n as int) by (nonlinear_arith)
                    requires
                        0 <= (j as int) < (n as int) * (n as int),
                        (n as int) >= 1,
                ;
            }
            if pos >= self.nodes[x].parents.len() {
                return false;
            }
            let p = self.nodes[x].parents[pos];
            let s = slot_exec(n, x, p);
            if is_present(la_st, s) {
                return false;
            }
            self.la_ready_exec(pi_st, la_st, x, p)
        }
    }

    pub(crate) proof fn lemma_first_ready_some(&self, st: Stores, i: int, f: int)
        requires
            0 <= i,
            self.first_ready_from(st, i) == Some(f),
        ensures
            i <= f < 2 * self.n() * self.n(),
            self.cand_ready(st, f),
        decreases 2 * self.n() * self.n() - i,
    {
        if i < 2 * self.n() * self.n() && !self.cand_ready(st, i) {
            self.lemma_first_ready_some(st, i + 1, f);
        }
    }

    /// Scans the candidates in order for the first ready one.
    #[verifier::loop_isolation(false)]
    fn first_ready_exec(
        &self,
        pi_st: &Vec<Option<Vec<Prob>>>,
        la_st: &Vec<Option<Vec<Prob>>>,
    ) -> (r: Option<usize>)
        requires
            self.wf_inner(),
            2 * self.n() * self.n() <= usize::MAX,
            half_wf(pi_st.deep_view(), self.n(), self.k()),
            half_wf(la_st.deep_view(), self.n(), self.k()),
        ensures
            match r {
                Some(i) => self.first_ready_from(
                    Stores { pi: pi_st.deep_view(), la: la_st.deep_view() },
                    0,
                ) == Some(i as int),
                None => self.first_ready_from(
                    Stores { pi: pi_st.deep_view(), la: la_st.deep_view() },
                    0,
                ) is None,
            },
    {
        let ghost st = Stores { pi: pi_st.deep_view(), la: la_st.deep_view() };
        let n = self.nodes.len();
        if n == 0 {
            proof {
                assert(2 * self.n() * self.n() == 0) by (nonlinear_arith)
                    requires
                        self.n() == 0,
                ;
                assert(self.first_ready_from(st, 0) is None);
            }
            return None;
        }
        proof {
            assert(2 * ((n as int) * (n as int)) == 2 * (n as int) * (n as int)
                && (n as int) * (n as int) >= 1) by (nonlinear_arith)
                requires
                    (n as int) >= 1,
            ;
        }
        let bound = 2 * (n * n);
        let mut i: usize = 0;
        while i < bound
            invariant
                i <= 2 * self.n() * self.n(),
                bound as int == 2 * self.n() * self.n(),
                self.first_ready_from(st, 0) == self.first_ready_from(st, i as int),
            decreases 2 * self.n() * self.n() - i,
        {
            if self.cand_ready_exec(pi_st, la_st, i) {
                return Some(i);
            }
            i += 1;
        }
        None
    }

    /// Runs message passing from empty stores to the fixed point: while some
    /// message is ready and missing, computes the first one in scan order.
    #[verifier::loop_isolation(false)]
    #[verifier::rlimit(100)]
    pub(crate) fn propagate(&self, ev: &Vec<Option<usize>>) -> (r: Result<
        (Vec<Option<Vec<Prob>>>, Vec<Option<Vec<Prob>>>),
        InferenceError,
    >)
        requires
            self.wf_inner(),
            ev@.len() == self.n(),
            2 * self.n() * self.n() <= usize::MAX,
        ensures
            match r {
                Ok(sts) => {
                    &&& self.spec_propagate(ev@) == Some(
                        Stores { pi: sts.0.deep_view(), la: sts.1.deep_view() },
                    )
                    &&& stores_wf(
                        Stores { pi: sts.0.deep_view(), la: sts.1.deep_view() },
                        self.n(),
                        self.k(),
                    )
                },
                Err(e) => e == InferenceError::Overflow && self.spec_propagate(ev@) is None,
            },
    {
        let n = self.nodes.len();
        proof {
            assert(2 * ((n as int) * (n as int)) == 2 * (n as int) * (n as int) && (n as int) * (
            n as int) >= 0) by (nonlinear_arith);
        }
        let nn = n * n;
        let mut pi_st: Vec<Option<Vec<Prob>>> = Vec::new();
        let mut la_st: Vec<Option<Vec<Prob>>> = Vec::new();
        let mut s: usize = 0;
        while s < nn
            invariant
                s <= nn,
                pi_st@.len() == s,
                la_st@.len() == s,
                forall|t: int| 0 <= t < s ==> pi_st@[t] is None && la_st@[t] is None,
            decreases nn - s,
        {
            pi_st.push(None);
            la_st.push(None);
            s += 1;
        }
        proof {
            assert forall|t: int| 0 <= t < nn implies pi_st.deep_view()[t] is None
                && la_st.deep_view()[t] is None by {
                assert(pi_st.deep_view()[t] == pi_st@[t].deep_view());
                assert(la_st.deep_view()[t] == la_st@[t].deep_view());
            }
            assert(pi_st.deep_view() =~= self.empty_stores().pi);
            assert(la_st.deep_view() =~= self.empty_stores().la);
            assert(cnt_some(pi_st.deep_view(), nn as int) == 0
                && cnt_some(la_st.deep_view(), nn as int) == 0) by {
                lemma_cnt_none(pi_st.deep_view(), nn as int);
                lemma_cnt_none(la_st.deep_view(), nn as int);
            }
        }
        let ghost fuel0: nat = (2 * self.n() * self.n() + 1) as nat;
        let ghost mut done: int = 0;
        let mut fr = self.first_ready_exec(&pi_st, &la_st);
        while fr.is_some()
            invariant
                half_wf(pi_st.deep_view(), self.n(), self.k()),
                half_wf(la_st.deep_view(), self.n(), self.k()),
                0 <= done <= 2 * self.n() * self.n(),
                cnt_some(pi_st.deep_view(), (self.n() * self.n()) as int) + cnt_some(
                    la_st.deep_view(),
                    (self.n() * self.n()) as int,
                ) == done,
                self.run_fix(
                    ev@,
                    Stores { pi: pi_st.deep_view(), la: la_st.deep_view() },
                    (fuel0 - done) as nat,
                ) == self.run_fix(ev@, self.empty_stores(), fuel0),
                match fr {
                    Some(i) => self.first_ready_from(
                        Stores { pi: pi_st.deep_view(), la: la_st.deep_view() },
                        0,
                    ) == Some(i as int),
                    None => self.first_ready_from(
                        Stores { pi: pi_st.deep_view(), la: la_st.deep_view() },
                        0,
                    ) is None,
                },
            decreases 2 * self.n() * self.n() - done,
        {
            let ghost cur = Stores { pi: pi_st.deep_view(), la: la_st.deep_view() };
            let i = fr.unwrap();
            proof {
                self.lemma_first_ready_some(cur, 0, i as int);
                assert((n as int) >= 1) by (nonlinear_arith)
                    requires
                        2 * (n as int) * (n as int) > 0,
                ;
                lemma_cnt_le(cur.pi, (self.n() * self.n()) as int);
                lemma_cnt_le(cur.la, (self.n() * self.n()) as int);
            }
            let x: usize;
            let pos: usize;
            let is_pi = i < nn;
            if is_pi {
                x = i / n;
                pos = i % n;
                proof {
                    assert((i as int) / (n as int) < n as int) by (nonlinear_arith)
                        requires
                            0 <= (i as int) < (n as int) * (n as int),
                            (n as int) >= 1,
                    ;
                }
            } else {
                let j = i - nn;
                x = j / n;
                pos = j % n;
                proof {
                    assert((i as int) - (n as int) * (n as int) < (n as int) * (n as int));
                    assert(((i as int) - (n as int) * (n as int)) / (n as int) < n as int)
                        by (nonlinear_arith)
                        requires
                            0 <= (i as int) - (n as int) * (n as int) < (n as int) * (n as int),
                            (n as int) >= 1,
                    ;
                }
            }
            if is_pi {
                match self.compute_pi(ev, &pi_st, &la_st, x, pos) {
                    None => {
                        proof {
                            assert(fuel0 - done >= 1);
                            assert(self.apply_cand(ev@, cur, i as int) is None);
                            assert(self.run_fix(ev@, cur, (fuel0 - done) as nat) is None);
                        }
                        return Err(InferenceError::Overflow);
                    },
                    Some(m) => {
                        crate::rational::all_wf(&m);
                        let ghost mdv = m.deep_view();
                        let c = self.nodes[x].children[pos];
                        let sl = slot_exec(n, x, c);
                        let ghost old_piv = pi_st.deep_view();
                        pi_st[sl] = Some(m);
                        proof {
                            assert(pi_st.deep_view() =~= old_piv.update(sl as int, Some(mdv)));
                            assert(old_piv[sl as int] is None);
                            lemma_cnt_update(old_piv, sl as int, mdv, (self.n() * self.n()) as int);
                            let cur2 = Stores { pi: pi_st.deep_view(), la: la_st.deep_view() };
                            assert(self.apply_cand(ev@, cur, i as int) == Some(cur2));
                            assert(fuel0 - done >= 1);
                            assert(self.run_fix(ev@, cur, (fuel0 - done) as nat) == self.run_fix(
                                ev@,
                                cur2,
                                (fuel0 - done - 1) as nat,
                            ));
                            done = done + 1;
                            lemma_cnt_le(pi_st.deep_view(), (self.n() * self.n()) as int);
                            lemma_cnt_le(la_st.deep_view(), (self.n() * self.n()) as int);
                            assert forall|t: int| 0 <= t < self.n() * self.n() implies match #[trigger] pi_st.deep_view()[t] {
                                Some(mm) => mm.len() == self.k() && forall|v: int|
                                    0 <= v < self.k() ==> rat_wf(#[trigger] mm[v]),
                                None => true,
                            } by {
                                if t != sl as int {
                                    assert(pi_st.deep_view()[t] == old_piv[t]);
                                }
                            }
                        }
                    },
                }
            } else {
                match self.compute_lambda(ev, &pi_st, &la_st, x, pos) {
                    None => {
                        proof {
                            assert(fuel0 - done >= 1);
                            assert(self.apply_cand(ev@, cur, i as int) is None);
                            assert(self.run_fix(ev@, cur, (fuel0 - done) as nat) is None);
                        }
                        return Err(InferenceError::Overflow);
                    },
                    Some(m) => {
                        crate::rational::all_wf(&m);
                        let ghost mdv = m.deep_view();
                        let p = self.nodes[x].parents[pos];
                        let sl = slot_exec(n, x, p);
                        let ghost old_lav = la_st.deep_view();
                        la_st[sl] = Some(m);
                        proof {
                            assert(la_st.deep_view() =~= old_lav.update(sl as int, Some(mdv)));
                            assert(old_lav[sl as int] is None);
                            lemma_cnt_update(old_lav, sl as int, mdv, (self.n() * self.n()) as int);
                            let cur2 = Stores { pi: pi_st.deep_view(), la: la_st.deep_view() };
                            assert(self.apply_cand(ev@, cur, i as int) == Some(cur2));
                            assert(fuel0 - done >= 1);
                            assert(self.run_fix(ev@, cur, (fuel0 - done) as nat) == self.run_fix(
                                ev@,
                                cur2,
                                (fuel0 - done - 1) as nat,
                            ));
                            done = done + 1;
                            lemma_cnt_le(pi_st.deep_view(), (self.n() * self.n()) as int);
                            lemma_cnt_le(la_st.deep_view(), (self.n() * self.n()) as int);
                            assert forall|t: int| 0 <= t < self.n() * self.n() implies match #[trigger] la_st.deep_view()[t] {
                                Some(mm) => mm.len() == self.k() && forall|v: int|
                                    0 <= v < self.k() ==> rat_wf(#[trigger] mm[v]),
                                None => true,
                            } by {
                                if t != sl as int {
                                    assert(la_st.deep_view()[t] == old_lav[t]);
                                }
                            }
                        }
                    },
                }
            }
            fr = self.first_ready_exec(&pi_st, &la_st);
        }
        proof {
            let cur = Stores { pi: pi_st.deep_view(), la: la_st.deep_view() };
            assert(self.run_fix(ev@, cur, (fuel0 - done) as nat) == Some(cur));
        }
        Ok((pi_st, la_st))
    }
}

/// Division of every unnormalized entry by the normalization constant.
pub(crate) open spec fn divide_row(u: Seq<Rat>, s: Rat, j: int) -> Option<Seq<Rat>>
    decreases j,
{
    if j <= 0 {
        Some(Seq::empty())
    } else {
        match divide_row(u, s, j - 1) {
            None => None,
            Some(pre) => match div_c(u[j - 1], s) {
                None => None,
                Some(q) => Some(pre.push(q)),
            },
        }
    }
}

pub(crate) proof fn lemma_divide_row_none(u: Seq<Rat>, s: Rat, j: int, j2: int)
    requires
        divide_row(u, s, j) is None,
        j <= j2,
    ensures
        divide_row(u, s, j2) is None,
    decreases j2 - j,
{
    if j2 > j {
        lemma_divide_row_none(u, s, j, j2 - 1);
    }
}

impl BayesianNetwork {
    /// Every node has a lambda message from each child and a pi message
    /// from each parent: the fixed point covers every edge.
    pub(crate) open spec fn complete(&self, st: Stores) -> bool {
        forall|x: int| 0 <= x < self.n() ==> self.pi_ready(st, x, self.n())
    }

    /// Executable mirror of `complete`.
    #[verifier::loop_isolation(false)]
    fn complete_exec(
        &self,
        pi_st: &Vec<Option<Vec<Prob>>>,
        la_st: &Vec<Option<Vec<Prob>>>,
    ) -> (b: bool)
        requires
            self.wf_inner(),
            self.n() * self.n() <= usize::MAX,
            half_wf(pi_st.deep_view(), self.n(), self.k()),
            half_wf(la_st.deep_view(), self.n(), self.k()),
        ensures
            b == self.complete(Stores { pi: pi_st.deep_view(), la: la_st.deep_view() }),
    {
        let ghost st = Stores { pi: pi_st.deep_view(), la: la_st.deep_view() };
        let n = self.nodes.len();
        let mut x: usize = 0;
        while x < n
            invariant
                x <= self.n(),
                forall|t: int| 0 <= t < x ==> self.pi_ready(st, t, self.n()),
            decreases self.n() - x,
        {
            if !self.pi_ready_exec(pi_st, la_st, x, n) {
                return false;
            }
            x += 1;
        }
        true
    }

    /// The normalized posterior of node `x` from the converged stores: the
    /// unnormalized belief (children's lambda product times own causal
    /// support), divided by its sum; a zero sum is inconsistent evidence.
    pub(crate) open spec fn posterior_row(
        &self,
        ev: Seq<Option<usize>>,
        st: Stores,
        x: int,
    ) -> Result<Seq<Rat>, InferenceError> {
        match self.pi_msg(ev, st, x, self.n(), self.k()) {
            None => Err(InferenceError::Overflow),
            Some(u) => match fold_add_c(u, self.k()) {
                None => Err(InferenceError::Overflow),
                Some(sm) => {
                    if sm.num == 0 {
                        Err(InferenceError::InconsistentEvidence(x as usize))
                    } else {
                        match divide_row(u, sm, self.k()) {
                            None => Err(InferenceError::Overflow),
                            Some(p) => Ok(p),
                        }
                    }
                },
            },
        }
    }

    /// The posteriors of the first `x` nodes, first failure first.
    pub(crate) open spec fn combine_upto(
        &self,
        ev: Seq<Option<usize>>,
        st: Stores,
        x: int,
    ) -> Result<Seq<Seq<Rat>>, InferenceError>
        decreases x,
    {
        if x <= 0 {
            Ok(Seq::empty())
        } else {
            match self.combine_upto(ev, st, x - 1) {
                Err(e) => Err(e),
                Ok(pre) => match self.posterior_row(ev, st, x - 1) {
                    Err(e) => Err(e),
                    Ok(row) => Ok(pre.push(row)),
                },
            }
        }
    }

    pub(crate) proof fn lemma_combine_err(
        &self,
        ev: Seq<Option<usize>>,
        st: Stores,
        x: int,
        x2: int,
    )
        requires
            self.combine_upto(ev, st, x) is Err,
            x <= x2,
        ensures
            self.combine_upto(ev, st, x2) == self.combine_upto(ev, st, x),
        decreases x2 - x,
    {
        if x2 > x {
            self.lemma_combine_err(ev, st, x, x2 - 1);
        }
    }

    /// Executable mirror of the unnormalized belief row (`pi_msg` toward
    /// the child sentinel `n`, which skips no child).
    #[verifier::loop_isolation(false)]
    fn compute_unnorm(
        &self,
        ev: &Vec<Option<usize>>,
        pi_st: &Vec<Option<Vec<Prob>>>,
        la_st: &Vec<Option<Vec<Prob>>>,
        x: usize,
    ) -> (r: Option<Vec<Prob>>)
        requires
            self.wf_inner(),
            (x as int) < self.n(),
            self.n() * self.n() <= usize::MAX,
            half_wf(pi_st.deep_view(), self.n(), self.k()),
            half_wf(la_st.deep_view(), self.n(), self.k()),
            ev@.len() == self.n(),
        ensures
            opt_probs(r) == self.pi_msg(
                ev@,
                Stores { pi: pi_st.deep_view(), la: la_st.deep_view() },
                x as int,
                self.n(),
                self.k(),
            ),
            r is Some ==> r.unwrap()@.len() == self.k(),
    {
        let ghost st = Stores { pi: pi_st.deep_view(), la: la_st.deep_view() };
        let n = self.nodes.len();
        let k = self.value_space.len();
        let mut out: Vec<Prob> = Vec::new();
        let mut v: usize = 0;
        while v < k
            invariant
                v <= self.k(),
                out@.len() == v,
                Some(out.deep_view()) == self.pi_msg(ev@, st, x as int, self.n(), v as int),
            decreases self.k() - v,
        {
            match self.lam_prod_exec(la_st, x, n, v) {
                None => {
                    proof {
                        self.lemma_pi_msg_none(ev@, st, x as int, self.n(), v + 1, self.k());
                    }
                    return None;
                },
                Some(lp) => {
                    match self.bel_pi_exec(ev, pi_st, x, v) {
                        None => {
                            proof {
                                self.lemma_pi_msg_none(ev@, st, x as int, self.n(), v + 1, self.k());
                            }
                            return None;
                        },
                        Some(b) => {
                            match lp.checked_mul(b) {
                                None => {
                                    proof {
                                        self.lemma_pi_msg_none(
                                            ev@,
                                            st,
                                            x as int,
                                            self.n(),
                                            v + 1,
                                            self.k(),
                                        );
                                    }
                                    return None;
                                },
                                Some(t) => {
                                    let ghost pre_dv = out.deep_view();
                                    out.push(t);
                                    proof {
                                        assert(out.deep_view() =~= pre_dv.push(t@));
                                    }
                                },
                            }
                        },
                    }
                },
            }
            v += 1;
        }
        Some(out)
    }

    /// Combines converged messages into one normalized posterior per node.
    #[verifier::loop_isolation(false)]
    pub(crate) fn combine(
        &self,
        ev: &Vec<Option<usize>>,
        pi_st: &Vec<Option<Vec<Prob>>>,
        la_st: &Vec<Option<Vec<Prob>>>,
    ) -> (r: Result<Vec<Vec<Prob>>, InferenceError>)
        requires
            self.wf_inner(),
            self.n() * self.n() <= usize::MAX,
            half_wf(pi_st.deep_view(), self.n(), self.k()),
            half_wf(la_st.deep_view(), self.n(), self.k()),
            ev@.len() == self.n(),
        ensures
            match (r, self.combine_upto(
                ev@,
                Stores { pi: pi_st.deep_view(), la: la_st.deep_view() },
                self.n(),
            )) {
                (Ok(v), Ok(sq)) => v.deep_view() == sq,
                (Err(a), Err(b)) => a == b,
                _ => false,
            },
            match r {
                Ok(v) => v@.len() == self.n() && forall|t: int|
                    0 <= t < self.n() ==> (#[trigger] v@[t])@.len() == self.k(),
                Err(_) => true,
            },
    {
        let ghost st = Stores { pi: pi_st.deep_view(), la: la_st.deep_view() };
        let n = self.nodes.len();
        let k = self.value_space.len();
        let mut out: Vec<Vec<Prob>> = Vec::new();
        proof {
            assert(out.deep_view() =~= Seq::<Seq<Rat>>::empty());
        }
        let mut x: usize = 0;
        while x < n
            invariant
                x <= self.n(),
                out@.len() == x,
                self.combine_upto(ev@, st, x as int) == Ok::<Seq<Seq<Rat>>, InferenceError>(
                    out.deep_view(),
                ),
                forall|t: int| 0 <= t < x ==> (#[trigger] out@[t])@.len() == self.k(),
            decreases self.n() - x,
        {
            let u = match self.compute_unnorm(ev, pi_st, la_st, x) {
                None => {
                    proof {
                        self.lemma_combine_err(ev@, st, x + 1, self.n());
                    }
                    return Err(InferenceError::Overflow);
                },
                Some(u) => u,
            };
            let sm = match crate::rational::sum_probs(&u) {
                None => {
                    proof {
                        self.lemma_combine_err(ev@, st, x + 1, self.n());
                    }
                    return Err(InferenceError::Overflow);
                },
                Some(sm) => sm,
            };
            if sm.is_zero() {
                proof {
                    self.lemma_combine_err(ev@, st, x + 1, self.n());
                }
                return Err(InferenceError::InconsistentEvidence(x));
            }
            sm.wf_facts();
            let mut row: Vec<Prob> = Vec::new();
            proof {
                assert(row.deep_view() =~= Seq::<Rat>::empty());
            }
            let mut v: usize = 0;
            while v < k
                invariant
                    v <= self.k(),
                    row@.len() == v,
                    u@.len() == self.k(),
                    sm@.num >= 1,
                    Some(row.deep_view()) == divide_row(u.deep_view(), sm@, v as int),
                decreases self.k() - v,
            {
                proof {
                    assert(u.deep_view()[v as int] == u@[v as int].deep_view());
                }
                match u[v].checked_div(sm) {
                    None => {
                        proof {
                            lemma_divide_row_none(u.deep_view(), sm@, v + 1, self.k());
                            self.lemma_combine_err(ev@, st, x + 1, self.n());
                        }
                        return Err(InferenceError::Overflow);
                    },
                    Some(q) => {
                        let ghost pre_dv = row.deep_view();
                        row.push(q);
                        proof {
                            assert(row.deep_view() =~= pre_dv.push(q@));
                        }
                    },
                }
                v += 1;
            }
            let ghost pre_out = out.deep_view();
            out.push(row);
            proof {
                assert(out.deep_view() =~= pre_out.push(out@[x as int].deep_view()));
            }
            x += 1;
        }
        Ok(out)
    }
}

/// Result comparison between the executable posteriors and their
/// specification: same failure, or the same distributions.
pub open spec fn posteriors_match(
    r: Result<Vec<Vec<Prob>>, InferenceError>,
    s: Result<Seq<Seq<Rat>>, InferenceError>,
) -> bool {
    match (r, s) {
        (Ok(v), Ok(sq)) => v.deep_view() == sq,
        (Err(a), Err(b)) => a == b,
        _ => false,
    }
}

impl BayesianNetwork {
    /// Resolution of the first `j` evidence entries to per-node observed
    /// domain indices, first failure first: unknown names, out-of-domain
    /// values and repeated nodes are rejected.
    pub(crate) open spec fn resolve_ev_upto(&self, evs: Seq<(String, u64)>, j: int) -> Result<
        Seq<Option<usize>>,
        InferenceError,
    >
        decreases j,
    {
        if j <= 0 {
            Ok(Seq::new(self.n() as nat, |x: int| None))
        } else {
            match self.resolve_ev_upto(evs, j - 1) {
                Err(e) => Err(e),
                Ok(acc) => match self.node_named(evs[j - 1].0@) {
                    None => Err(InferenceError::Query(QueryError::UnknownNodeName)),
                    Some(x) => match self.spec_value_index(evs[j - 1].1) {
                        None => Err(InferenceError::Query(QueryError::ValueNotInDomain)),
                        Some(vi) => {
                            if acc[x] is Some {
                                Err(InferenceError::Query(QueryError::DuplicateEvidence))
                            } else {
                                Ok(acc.update(x, Some(vi as usize)))
                            }
                        },
                    },
                },
            }
        }
    }

    pub(crate) proof fn lemma_resolve_ev_err(&self, evs: Seq<(String, u64)>, j: int, j2: int)
        requires
            self.resolve_ev_upto(evs, j) is Err,
            j <= j2,
        ensures
            self.resolve_ev_upto(evs, j2) == self.resolve_ev_upto(evs, j),
        decreases j2 - j,
    {
        if j2 > j {
            self.lemma_resolve_ev_err(evs, j, j2 - 1);
        }
    }

    /// Resolves evidence given by node name and domain value to a per-node
    /// observed index.
    #[verifier::loop_isolation(false)]
    fn resolve_evidence(&self, evidence: &Vec<(String, u64)>) -> (r: Result<
        Vec<Option<usize>>,
        InferenceError,
    >)
        requires
            self.wf_inner(),
        ensures
            match (r, self.resolve_ev_upto(evidence@, evidence@.len() as int)) {
                (Ok(v), Ok(sq)) => v@ == sq,
                (Err(a), Err(b)) => a == b,
                _ => false,
            },
            match r {
                Ok(v) => ev_wf(v@, self.n(), self.k()),
                Err(_) => true,
            },
    {
        let n = self.nodes.len();
        let mut ev: Vec<Option<usize>> = Vec::new();
        let mut s: usize = 0;
        while s < n
            invariant
                s <= self.n(),
                ev@.len() == s,
                forall|t: int| 0 <= t < s ==> ev@[t] is None,
            decreases self.n() - s,
        {
            ev.push(None);
            s += 1;
        }
        proof {
            assert(ev@ =~= Seq::new(self.n() as nat, |x: int| None::<usize>));
        }
        let mut j: usize = 0;
        while j < evidence.len()
            invariant
                j <= evidence@.len(),
                ev@.len() == self.n(),
                ev_wf(ev@, self.n(), self.k()),
                self.resolve_ev_upto(evidence@, j as int) == Ok::<
                    Seq<Option<usize>>,
                    InferenceError,
                >(ev@),
            decreases evidence@.len() - j,
        {
            let name = evidence[j].0.as_str();
            let x = match self.find_node(name) {
                None => {
                    proof {
                        self.lemma_resolve_ev_err(evidence@, j + 1, evidence@.len() as int);
                    }
                    return Err(InferenceError::Query(QueryError::UnknownNodeName));
                },
                Some(x) => x,
            };
            let vi = match self.find_value(evidence[j].1) {
                None => {
                    proof {
                        self.lemma_resolve_ev_err(evidence@, j + 1, evidence@.len() as int);
                    }
                    return Err(InferenceError::Query(QueryError::ValueNotInDomain));
                },
                Some(vi) => vi,
            };
            if (&ev[x]).is_some() {
                proof {
                    self.lemma_resolve_ev_err(evidence@, j + 1, evidence@.len() as int);
                }
                return Err(InferenceError::Query(QueryError::DuplicateEvidence));
            }
            ev[x] = Some(vi);
            j += 1;
        }
        Ok(ev)
    }

    /// What `infer` returns, in full: the machine bound on the store size,
    /// then evidence resolution, then message passing to the fixed point,
    /// then the completeness check, then belief combination.
    pub(crate) open spec fn infer_inner(&self, evs: Seq<(String, u64)>) -> Result<
        Seq<Seq<Rat>>,
        InferenceError,
    > {
        if 2 * self.n() * self.n() > usize::MAX {
            Err(InferenceError::Overflow)
        } else {
            match self.resolve_ev_upto(evs, evs.len() as int) {
                Err(e) => Err(e),
                Ok(ev) => match self.spec_propagate(ev) {
                    None => Err(InferenceError::Overflow),
                    Some(st) => {
                        if !self.complete(st) {
                            Err(InferenceError::NotConverged)
                        } else {
                            self.combine_upto(ev, st, self.n())
                        }
                    },
                },
            }
        }
    }

    /// The posterior distributions `infer` returns for this network and
    /// evidence, or the error it fails with.
    pub closed spec fn spec_infer(&self, evs: Seq<(String, u64)>) -> Result<
        Seq<Seq<Rat>>,
        InferenceError,
    > {
        self.infer_inner(evs)
    }

    /// Bridge for other modules: the definition of `spec_infer`.
    pub(crate) proof fn lemma_spec_infer_def(&self, evs: Seq<(String, u64)>)
        ensures
            self.spec_infer(evs) == self.infer_inner(evs),
    {
    }

    /// Computes the posterior marginal distribution of every node given the
    /// evidence (pairs of node name and observed domain value).  The result
    /// is one distribution per node, in node order, each over the domain in
    /// domain order.  The same network and evidence always yield the same
    /// result (`spec_infer` is a function of the two); errors are reported
    /// exactly: bad evidence as a query error, a zero normalization
    /// constant as inconsistent evidence, an unrepresentable exact
    /// intermediate as overflow, and an uncovered edge at the fixed point
    /// (the graph is not a polytree) as non-convergence.
    pub fn infer(&self, evidence: &Vec<(String, u64)>) -> (r: Result<
        Vec<Vec<Prob>>,
        InferenceError,
    >)
        requires
            self.wf(),
        ensures
            posteriors_match(r, self.spec_infer(evidence@)),
            match r {
                Ok(v) => self.valid_posteriors(v.deep_view()),
                Err(_) => true,
            },
    {
        proof {
            self.lemma_wf_def();
        }
        let n = self.nodes.len();
        let bound_ok = match n.checked_mul(n) {
            None => false,
            Some(nn) => nn.checked_mul(2).is_some(),
        };
        proof {
            assert(2 * ((n as int) * (n as int)) == 2 * (n as int) * (n as int) && (n as int) * (
            n as int) <= 2 * (n as int) * (n as int)) by (nonlinear_arith)
                requires
                    (n as int) >= 0,
            ;
        }
        if !bound_ok {
            return Err(InferenceError::Overflow);
        }
        let ev = match self.resolve_evidence(evidence) {
            Err(e) => {
                return Err(e);
            },
            Ok(ev) => ev,
        };
        let (pi_st, la_st) = match self.propagate(&ev) {
            Err(e) => {
                return Err(e);
            },
            Ok(sts) => sts,
        };
        if !self.complete_exec(&pi_st, &la_st) {
            return Err(InferenceError::NotConverged);
        }
        let r = self.combine(&ev, &pi_st, &la_st);
        proof {
            match &r {
                Ok(v) => {
                    self.lemma_valid_posteriors_def(v.deep_view());
                },
                Err(_) => {},
            }
        }
        r
    }
}

impl BayesianNetwork {
    /// A successful message row lists exactly the per-value results.
    pub(crate) proof fn lemma_pi_msg_ok(
        &self,
        ev: Seq<Option<usize>>,
        st: Stores,
        x: int,
        c: int,
        j: int,
        u: Seq<Rat>,
    )
        requires
            0 <= j,
            self.pi_msg(ev, st, x, c, j) == Some(u),
        ensures
            u.len() == j,
            forall|v: int| 0 <= v < j ==> self.pi_val(ev, st, x, c, v) == Some(#[trigger] u[v]),
        decreases j,
    {
        if j > 0 {
            match self.pi_msg(ev, st, x, c, j - 1) {
                None => {},
                Some(pre) => {
                    self.lemma_pi_msg_ok(ev, st, x, c, j - 1, pre);
                },
            }
        }
    }

    pub(crate) proof fn lemma_lam_prod_wf(
        &self,
        la: Seq<Option<Seq<Rat>>>,
        x: int,
        skip: int,
        v: int,
        j: int,
    )
        requires
            self.wf_inner(),
            0 <= x < self.n(),
            0 <= v < self.k(),
            half_wf(la, self.n(), self.k()),
            j <= self.nodes@[x].children@.len(),
        ensures
            match self.lam_prod(la, x, skip, v, j) {
                Some(r) => rat_wf(r),
                None => true,
            },
        decreases j,
    {
        if j > 0 {
            self.lemma_lam_prod_wf(la, x, skip, v, j - 1);
            match self.lam_prod(la, x, skip, v, j - 1) {
                None => {},
                Some(acc) => {
                    let c = self.nodes@[x].children@[j - 1] as int;
                    if c != skip {
                        assert(0 <= c < self.n());
                        assert(0 <= slot(self.n(), c, x) < self.n() * self.n())
                            by (nonlinear_arith)
                            requires
                                0 <= c < self.n(),
                                0 <= x < self.n(),
                                slot(self.n(), c, x) == c * self.n() + x,
                        ;
                        match la[slot(self.n(), c, x)] {
                            None => {},
                            Some(m) => {
                                crate::rational::lemma_mul_full(acc, m[v]);
                            },
                        }
                    }
                },
            }
        }
    }

    pub(crate) proof fn lemma_par_prod_wf(
        &self,
        pi: Seq<Option<Seq<Rat>>>,
        x: int,
        key: Seq<usize>,
        skip_pos: int,
        j: int,
    )
        requires
            self.wf_inner(),
            0 <= x < self.n(),
            half_wf(pi, self.n(), self.k()),
            j <= self.nodes@[x].parents@.len(),
            j <= key.len(),
            forall|t: int| 0 <= t < key.len() ==> (#[trigger] key[t] as int) < self.k(),
        ensures
            match self.par_prod(pi, x, key, skip_pos, j) {
                Some(r) => rat_wf(r),
                None => true,
            },
        decreases j,
    {
        if j > 0 {
            self.lemma_par_prod_wf(pi, x, key, skip_pos, j - 1);
            match self.par_prod(pi, x, key, skip_pos, j - 1) {
                None => {},
                Some(acc) => {
                    if j - 1 != skip_pos {
                        let p = self.nodes@[x].parents@[j - 1] as int;
                        assert(0 <= p < self.n());
                        assert(0 <= slot(self.n(), p, x) < self.n() * self.n())
                            by (nonlinear_arith)
                            requires
                                0 <= p < self.n(),
                                0 <= x < self.n(),
                                slot(self.n(), p, x) == p * self.n() + x,
                        ;
                        match pi[slot(self.n(), p, x)] {
                            None => {},
                            Some(m) => {
                                crate::rational::lemma_mul_full(acc, m[key[j - 1] as int]);
                            },
                        }
                    }
                },
            }
        }
    }

    pub(crate) proof fn lemma_node_sum_wf(
        &self,
        la: Seq<Option<Seq<Rat>>>,
        ev: Seq<Option<usize>>,
        x: int,
        dist: Seq<Rat>,
        j: int,
    )
        requires
            self.wf_inner(),
            0 <= x < self.n(),
            half_wf(la, self.n(), self.k()),
            j <= self.k(),
            j <= dist.len(),
            forall|t: int| 0 <= t < dist.len() ==> rat_wf(#[trigger] dist[t]),
        ensures
            match self.node_sum(la, ev, x, dist, j) {
                Some(r) => rat_wf(r),
                None => true,
            },
        decreases j,
    {
        if j > 0 {
            self.lemma_node_sum_wf(la, ev, x, dist, j - 1);
            match self.node_sum(la, ev, x, dist, j - 1) {
                None => {},
                Some(acc) => {
                    let v = j - 1;
                    self.lemma_lam_prod_wf(
                        la,
                        x,
                        self.n(),
                        v,
                        self.nodes@[x].children@.len() as int,
                    );
                    match self.lam_prod(la, x, self.n(), v, self.nodes@[x].children@.len() as int) {
                        None => {},
                        Some(lp) => {
                            crate::rational::lemma_mul_full(lp, dist[v]);
                            match mul_c(lp, dist[v]) {
                                None => {},
                                Some(t) => {
                                    crate::rational::lemma_add_full(acc, t);
                                },
                            }
                        },
                    }
                },
            }
        }
    }

    pub(crate) proof fn lemma_cpt_sum_wf(
        &self,
        ev: Seq<Option<usize>>,
        pi: Seq<Option<Seq<Rat>>>,
        x: int,
        v: int,
        r: int,
    )
        requires
            self.wf_inner(),
            0 <= x < self.n(),
            0 <= v < self.k(),
            half_wf(pi, self.n(), self.k()),
            r <= self.nodes@[x].cpt@.len(),
        ensures
            match self.cpt_sum(ev, pi, x, v, r) {
                Some(s) => rat_wf(s),
                None => true,
            },
        decreases r,
    {
        if r > 0 {
            self.lemma_cpt_sum_wf(ev, pi, x, v, r - 1);
            match self.cpt_sum(ev, pi, x, v, r - 1) {
                None => {},
                Some(acc) => {
                    let row = self.nodes@[x].cpt@[r - 1];
                    let np = self.nodes@[x].parents@.len() as int;
                    assert(crate::model::row_wf(row, np, self.k()));
                    if self.row_consistent(ev, x, row.key@, np) {
                        self.lemma_par_prod_wf(pi, x, row.key@, np, np);
                        match self.par_prod(pi, x, row.key@, np, np) {
                            None => {},
                            Some(pm) => {
                                crate::rational::lemma_mul_full(row.dist.deep_view()[v], pm);
                                match mul_c(row.dist.deep_view()[v], pm) {
                                    None => {},
                                    Some(t) => {
                                        crate::rational::lemma_add_full(acc, t);
                                    },
                                }
                            },
                        }
                    }
                },
            }
        }
    }

    pub(crate) proof fn lemma_bel_pi_wf(
        &self,
        ev: Seq<Option<usize>>,
        pi: Seq<Option<Seq<Rat>>>,
        x: int,
        v: int,
    )
        requires
            self.wf_inner(),
            0 <= x < self.n(),
            0 <= v < self.k(),
            half_wf(pi, self.n(), self.k()),
            ev.len() == self.n(),
        ensures
            match self.bel_pi(ev, pi, x, v) {
                Some(b) => rat_wf(b),
                None => true,
            },
    {
        match ev[x] {
            Some(_) => {},
            None => {
                match self.nodes@[x].node_type {
                    NodeType::Root(_) => {},
                    _ => {
                        self.lemma_cpt_sum_wf(ev, pi, x, v, self.nodes@[x].cpt@.len() as int);
                    },
                }
            },
        }
    }

    /// Every entry of a successful message row is a well-formed rational.
    pub(crate) proof fn lemma_pi_msg_wf(
        &self,
        ev: Seq<Option<usize>>,
        st: Stores,
        x: int,
        c: int,
        u: Seq<Rat>,
    )
        requires
            self.wf_inner(),
            0 <= x < self.n(),
            stores_wf(st, self.n(), self.k()),
            ev.len() == self.n(),
            self.pi_msg(ev, st, x, c, self.k()) == Some(u),
        ensures
            u.len() == self.k(),
            forall|v: int| 0 <= v < self.k() ==> rat_wf(#[trigger] u[v]),
    {
        self.lemma_pi_msg_ok(ev, st, x, c, self.k(), u);
        assert forall|v: int| 0 <= v < self.k() implies rat_wf(#[trigger] u[v]) by {
            self.lemma_lam_prod_wf(st.la, x, c, v, self.nodes@[x].children@.len() as int);
            self.lemma_bel_pi_wf(ev, st.pi, x, v);
            match self.lam_prod(st.la, x, c, v, self.nodes@[x].children@.len() as int) {
                None => {},
                Some(lp) => {
                    match self.bel_pi(ev, st.pi, x, v) {
                        None => {},
                        Some(b) => {
                            crate::rational::lemma_mul_full(lp, b);
                        },
                    }
                },
            }
        }
    }

    pub(crate) proof fn lemma_lam_msg_ok(
        &self,
        ev: Seq<Option<usize>>,
        st: Stores,
        x: int,
        pos: int,
        j: int,
        u: Seq<Rat>,
    )
        requires
            0 <= j,
            self.lam_msg(ev, st, x, pos, j) == Some(u),
        ensures
            u.len() == j,
            forall|v: int|
                0 <= v < j ==> self.lam_sum(ev, st, x, pos, v, self.nodes@[x].cpt@.len() as int)
                    == Some(#[trigger] u[v]),
        decreases j,
    {
        if j > 0 {
            match self.lam_msg(ev, st, x, pos, j - 1) {
                None => {},
                Some(pre) => {
                    self.lemma_lam_msg_ok(ev, st, x, pos, j - 1, pre);
                },
            }
        }
    }

    pub(crate) proof fn lemma_lam_sum_wf(
        &self,
        ev: Seq<Option<usize>>,
        st: Stores,
        x: int,
        pos: int,
        v: int,
        r: int,
    )
        requires
            self.wf_inner(),
            0 <= x < self.n(),
            stores_wf(st, self.n(), self.k()),
            ev.len() == self.n(),
            r <= self.nodes@[x].cpt@.len(),
        ensures
            match self.lam_sum(ev, st, x, pos, v, r) {
                Some(s) => rat_wf(s),
                None => true,
            },
        decreases r,
    {
        if r > 0 {
            self.lemma_lam_sum_wf(ev, st, x, pos, v, r - 1);
            match self.lam_sum(ev, st, x, pos, v, r - 1) {
                None => {},
                Some(acc) => {
                    let row = self.nodes@[x].cpt@[r - 1];
                    let np = self.nodes@[x].parents@.len() as int;
                    assert(crate::model::row_wf(row, np, self.k()));
                    if (row.key@[pos] as int) == v && self.row_consistent(ev, x, row.key@, pos) {
                        self.lemma_par_prod_wf(st.pi, x, row.key@, pos, np);
                        match self.par_prod(st.pi, x, row.key@, pos, np) {
                            None => {},
                            Some(pm) => {
                                self.lemma_node_sum_wf(
                                    st.la,
                                    ev,
                                    x,
                                    row.dist.deep_view(),
                                    self.k(),
                                );
                                match self.node_sum(st.la, ev, x, row.dist.deep_view(), self.k()) {
                                    None => {},
                                    Some(ns) => {
                                        crate::rational::lemma_mul_full(pm, ns);
                                        match mul_c(pm, ns) {
                                            None => {},
                                            Some(t) => {
                                                crate::rational::lemma_add_full(acc, t);
                                            },
                                        }
                                    },
                                }
                            },
                        }
                    }
                },
            }
        }
    }

    pub(crate) proof fn lemma_lam_msg_wf(
        &self,
        ev: Seq<Option<usize>>,
        st: Stores,
        x: int,
        pos: int,
        u: Seq<Rat>,
    )
        requires
            self.wf_inner(),
            0 <= x < self.n(),
            stores_wf(st, self.n(), self.k()),
            ev.len() == self.n(),
            self.lam_msg(ev, st, x, pos, self.k()) == Some(u),
        ensures
            u.len() == self.k(),
            forall|v: int| 0 <= v < self.k() ==> rat_wf(#[trigger] u[v]),
    {
        self.lemma_lam_msg_ok(ev, st, x, pos, self.k(), u);
        assert forall|v: int| 0 <= v < self.k() implies rat_wf(#[trigger] u[v]) by {
            self.lemma_lam_sum_wf(ev, st, x, pos, v, self.nodes@[x].cpt@.len() as int);
        }
    }

    /// The fixed point of a well-formed store pair is well-formed.
    pub(crate) proof fn lemma_run_fix_wf(
        &self,
        ev: Seq<Option<usize>>,
        st: Stores,
        fuel: nat,
        out: Stores,
    )
        requires
            self.wf_inner(),
            stores_wf(st, self.n(), self.k()),
            ev.len() == self.n(),
            self.run_fix(ev, st, fuel) == Some(out),
        ensures
            stores_wf(out, self.n(), self.k()),
        decreases fuel,
    {
        if fuel > 0 {
            match self.first_ready_from(st, 0) {
                None => {},
                Some(i) => {
                    self.lemma_first_ready_some(st, 0, i);
                    assert((self.n()) >= 1) by (nonlinear_arith)
                        requires
                            2 * self.n() * self.n() > 0,
                            self.n() >= 0,
                    ;
                    match self.apply_cand(ev, st, i) {
                        None => {},
                        Some(st2) => {
                            if i < self.n() * self.n() {
                                let x = i / self.n();
                                let pos = i % self.n();
                                assert(0 <= x < self.n()) by (nonlinear_arith)
                                    requires
                                        0 <= i < self.n() * self.n(),
                                        self.n() >= 1,
                                        x == i / self.n(),
                                ;
                                let c = self.nodes@[x].children@[pos] as int;
                                assert(0 <= c < self.n());
                                match self.pi_msg(ev, st, x, c, self.k()) {
                                    None => {},
                                    Some(m) => {
                                        self.lemma_pi_msg_wf(ev, st, x, c, m);
                                        assert(0 <= slot(self.n(), x, c) < self.n() * self.n())
                                            by (nonlinear_arith)
                                            requires
                                                0 <= c < self.n(),
                                                0 <= x < self.n(),
                                                slot(self.n(), x, c) == x * self.n() + c,
                                        ;
                                        assert(stores_wf(st2, self.n(), self.k()));
                                    },
                                }
                            } else {
                                let j = i - self.n() * self.n();
                                let x = j / self.n();
                                let pos = j % self.n();
                                assert(2 * self.n() * self.n() == self.n() * self.n() + self.n()
                                    * self.n()) by (nonlinear_arith);
                                assert(0 <= j < self.n() * self.n());
                                assert(0 <= x < self.n()) by (nonlinear_arith)
                                    requires
                                        0 <= j < self.n() * self.n(),
                                        self.n() >= 1,
                                        x == j / self.n(),
                                ;
                                let p = self.nodes@[x].parents@[pos] as int;
                                assert(0 <= p < self.n());
                                match self.lam_msg(ev, st, x, pos, self.k()) {
                                    None => {},
                                    Some(m) => {
                                        self.lemma_lam_msg_wf(ev, st, x, pos, m);
                                        assert(0 <= slot(self.n(), x, p) < self.n() * self.n())
                                            by (nonlinear_arith)
                                            requires
                                                0 <= p < self.n(),
                                                0 <= x < self.n(),
                                                slot(self.n(), x, p) == x * self.n() + p,
                                        ;
                                        assert(stores_wf(st2, self.n(), self.k()));
                                    },
                                }
                            }
                            self.lemma_run_fix_wf(ev, st2, (fuel - 1) as nat, out);
                        },
                    }
                },
            }
        }
    }

    /// The converged stores are well-formed.
    pub(crate) proof fn lemma_spec_propagate_wf(&self, ev: Seq<Option<usize>>, out: Stores)
        requires
            self.wf_inner(),
            ev.len() == self.n(),
            self.spec_propagate(ev) == Some(out),
        ensures
            stores_wf(out, self.n(), self.k()),
    {
        assert(stores_wf(self.empty_stores(), self.n(), self.k())) by {
            assert(self.empty_stores().pi.len() == self.n() * self.n());
            assert(forall|s: int|
                0 <= s < self.n() * self.n() ==> #[trigger] self.empty_stores().pi[s] is None);
            assert(forall|s: int|
                0 <= s < self.n() * self.n() ==> #[trigger] self.empty_stores().la[s] is None);
        }
        self.lemma_run_fix_wf(
            ev,
            self.empty_stores(),
            (2 * self.n() * self.n() + 1) as nat,
            out,
        );
    }

    /// A successful combination lists exactly the per-node posteriors.
    pub(crate) proof fn lemma_combine_ok(
        &self,
        ev: Seq<Option<usize>>,
        st: Stores,
        x: int,
        rows: Seq<Seq<Rat>>,
    )
        requires
            0 <= x,
            self.combine_upto(ev, st, x) == Ok::<Seq<Seq<Rat>>, InferenceError>(rows),
        ensures
            rows.len() == x,
            forall|t: int|
                0 <= t < x ==> self.posterior_row(ev, st, t) == Ok::<Seq<Rat>, InferenceError>(
                    #[trigger] rows[t],
                ),
        decreases x,
    {
        if x > 0 {
            match self.combine_upto(ev, st, x - 1) {
                Err(_) => {},
                Ok(pre) => {
                    self.lemma_combine_ok(ev, st, x - 1, pre);
                },
            }
        }
    }
}

/// A successful division row lists exactly the per-value quotients.
pub(crate) proof fn lemma_divide_row_ok(u: Seq<Rat>, s: Rat, j: int, p: Seq<Rat>)
    requires
        0 <= j,
        divide_row(u, s, j) == Some(p),
    ensures
        p.len() == j,
        forall|v: int| 0 <= v < j ==> div_c(u[v], s) == Some(#[trigger] p[v]),
    decreases j,
{
    if j > 0 {
        match divide_row(u, s, j - 1) {
            None => {},
            Some(pre) => {
                lemma_divide_row_ok(u, s, j - 1, pre);
            },
        }
    }
}

impl BayesianNetwork {
    pub(crate) proof fn lemma_resolve_ev_ok(
        &self,
        evs: Seq<(String, u64)>,
        j: int,
        ev: Seq<Option<usize>>,
    )
        requires
            self.wf_inner(),
            0 <= j,
            self.resolve_ev_upto(evs, j) == Ok::<Seq<Option<usize>>, InferenceError>(ev),
        ensures
            ev_wf(ev, self.n(), self.k()),
        decreases j,
    {
        if j <= 0 {
            assert(forall|x: int| 0 <= x < self.n() ==> #[trigger] ev[x] is None);
        } else {
            match self.resolve_ev_upto(evs, j - 1) {
                Err(_) => {},
                Ok(acc) => {
                    self.lemma_resolve_ev_ok(evs, j - 1, acc);
                    self.lemma_node_named_range(evs[j - 1].0@);
                    self.lemma_value_index_range(evs[j - 1].1);
                    match self.node_named(evs[j - 1].0@) {
                        None => {},
                        Some(x) => {
                            match self.spec_value_index(evs[j - 1].1) {
                                None => {},
                                Some(vi) => {
                                    if acc[x] is Some {
                                    } else {
                                        assert(ev == acc.update(x, Some(vi as usize)));
                                        assert(((vi as usize) as int) == vi);
                                        assert forall|t: int| 0 <= t < self.n() implies match #[trigger] ev[t] {
                                            Some(e) => (e as int) < self.k(),
                                            None => true,
                                        } by {
                                            if t != x {
                                                assert(ev[t] == acc[t]);
                                            }
                                        }
                                    }
                                },
                            }
                        },
                    }
                },
            }
        }
    }

    /// Partial sums of elementwise quotients equal the quotient of the
    /// partial sum.
    pub(crate) proof fn lemma_sum_div(&self, u: Seq<Rat>, sm: Rat, p: Seq<Rat>, j: int)
        requires
            0 <= j <= u.len(),
            forall|v: int| 0 <= v < u.len() ==> rat_wf(#[trigger] u[v]),
            rat_wf(sm),
            sm.num >= 1,
            forall|v: int| 0 <= v < u.len() ==> div_c(#[trigger] u[v], sm) == Some(p[v]),
        ensures
            rat_wf(fold_add_full(p, j)),
            rat_eq(fold_add_full(p, j), div_full(fold_add_full(u, j), sm)),
            rat_wf(div_full(fold_add_full(u, j), sm)),
        decreases j,
    {
        crate::rational::lemma_fold_add_full_wf(u, j);
        crate::rational::lemma_div_full(fold_add_full(u, j), sm);
        if j == 0 {
            assert(fold_add_full(p, 0) == zero_rat());
            assert(0int * sm.den == 0 && 1int * sm.num == sm.num) by (nonlinear_arith);
            assert(div_full(zero_rat(), sm) == crate::rational::reduced(0, sm.num));
            crate::rational::lemma_reduced_zero(sm.num);
            assert(div_full(zero_rat(), sm) == zero_rat());
        } else {
            self.lemma_sum_div(u, sm, p, j - 1);
            let accp = fold_add_full(p, j - 1);
            let accu = fold_add_full(u, j - 1);
            crate::rational::lemma_fold_add_full_wf(u, j - 1);
            assert(div_c(u[j - 1], sm) == Some(p[j - 1]));
            assert(p[j - 1] == div_full(u[j - 1], sm));
            crate::rational::lemma_div_full(u[j - 1], sm);
            crate::rational::lemma_div_full(accu, sm);
            // add respects value equality on both arguments
            crate::rational::lemma_add_cong(
                accp,
                div_full(accu, sm),
                p[j - 1],
                div_full(u[j - 1], sm),
            );
            crate::rational::lemma_div_add(accu, u[j - 1], sm);
            crate::rational::lemma_add_full(accu, u[j - 1]);
            crate::rational::lemma_rat_eq_trans(
                fold_add_full(p, j),
                add_full(div_full(accu, sm), div_full(u[j - 1], sm)),
                div_full(add_full(accu, u[j - 1]), sm),
            );
        }
    }

    /// Law: every distribution a successful inference returns sums to one,
    /// exactly.
    pub proof fn lemma_posterior_sums_to_one(
        &self,
        evs: Seq<(String, u64)>,
        post: Seq<Seq<Rat>>,
        x: int,
    )
        requires
            self.wf(),
            self.spec_infer(evs) == Ok::<Seq<Seq<Rat>>, InferenceError>(post),
            0 <= x < post.len(),
        ensures
            rat_eq(fold_add_full(post[x], post[x].len() as int), one_rat()),
    {
        self.lemma_wf_def();
        self.lemma_spec_infer_def(evs);
        match self.resolve_ev_upto(evs, evs.len() as int) {
            Err(_) => {},
            Ok(ev) => {
                self.lemma_resolve_ev_ok(evs, evs.len() as int, ev);
                match self.spec_propagate(ev) {
                    None => {},
                    Some(st) => {
                        self.lemma_spec_propagate_wf(ev, st);
                        self.lemma_combine_ok(ev, st, self.n(), post);
                        match self.pi_msg(ev, st, x, self.n(), self.k()) {
                            None => {},
                            Some(u) => {
                                self.lemma_pi_msg_wf(ev, st, x, self.n(), u);
                                match fold_add_c(u, self.k()) {
                                    None => {},
                                    Some(sm) => {
                                        if sm.num != 0 {
                                            match divide_row(u, sm, self.k()) {
                                                None => {},
                                                Some(p) => {
                                                    assert(p == post[x]);
                                                    crate::rational::lemma_fold_add_c_full(
                                                        u,
                                                        self.k(),
                                                        sm,
                                                    );
                                                    crate::rational::lemma_fold_add_full_wf(
                                                        u,
                                                        self.k(),
                                                    );
                                                    lemma_divide_row_ok(u, sm, self.k(), p);
                                                    self.lemma_sum_div(u, sm, p, self.k());
                                                    crate::rational::lemma_div_self(sm, sm);
                                                    assert(div_full(fold_add_full(u, self.k()), sm)
                                                        == one_rat());
                                                },
                                            }
                                        }
                                    },
                                }
                            },
                        }
                    },
                }
            },
        }
    }

    /// The observed domain index of node `x` under the given evidence, if
    /// the evidence resolves and observes `x`.
    pub closed spec fn spec_observed(&self, evs: Seq<(String, u64)>, x: int) -> Option<usize> {
        match self.resolve_ev_upto(evs, evs.len() as int) {
            Ok(ev) => ev[x],
            Err(_) => None,
        }
    }

    /// Partial sums of a row that is exactly zero away from `e` equal zero
    /// before `e` is passed and the entry at `e` afterwards.
    pub(crate) proof fn lemma_sum_indicator(&self, u: Seq<Rat>, e: int, j: int)
        requires
            0 <= e < u.len(),
            0 <= j <= u.len(),
            forall|v: int| 0 <= v < u.len() ==> rat_wf(#[trigger] u[v]),
            forall|v: int| 0 <= v < u.len() && v != e ==> #[trigger] u[v] == zero_rat(),
        ensures
            rat_wf(fold_add_full(u, j)),
            j <= e ==> rat_eq(fold_add_full(u, j), zero_rat()),
            j > e ==> rat_eq(fold_add_full(u, j), u[e]),
        decreases j,
    {
        crate::rational::lemma_fold_add_full_wf(u, j);
        if j > 0 {
            self.lemma_sum_indicator(u, e, j - 1);
            let acc = fold_add_full(u, j - 1);
            crate::rational::lemma_fold_add_full_wf(u, j - 1);
            crate::rational::lemma_add_full(acc, u[j - 1]);
            if j - 1 == e {
                // acc is zero in value; adding the entry keeps its value
                let cross = Rat {
                    num: acc.num * u[e].den + u[e].num * acc.den,
                    den: acc.den * u[e].den,
                };
                assert(acc.num == 0) by (nonlinear_arith)
                    requires
                        acc.num * 1 == 0 * acc.den,
                ;
                assert(rat_eq(cross, u[e]) && rat_wf(cross)) by (nonlinear_arith)
                    requires
                        acc.num == 0,
                        acc.den >= 1,
                        u[e].num >= 0,
                        u[e].den >= 1,
                        cross == (Rat {
                            num: acc.num * u[e].den + u[e].num * acc.den,
                            den: acc.den * u[e].den,
                        }),
                ;
                crate::rational::lemma_rat_eq_trans(fold_add_full(u, j), cross, u[e]);
            } else {
                // the added entry is exactly zero
                assert(u[j - 1] == zero_rat());
                assert(acc.num * 1 + 0 * acc.den == acc.num && acc.den * 1 == acc.den)
                    by (nonlinear_arith);
                let cross = Rat { num: acc.num * 1 + 0 * acc.den, den: acc.den * 1 };
                assert(cross.num == acc.num && cross.den == acc.den);
                assert(rat_eq(fold_add_full(u, j), acc));
                if j - 1 < e {
                    crate::rational::lemma_rat_eq_trans(fold_add_full(u, j), acc, zero_rat());
                } else {
                    crate::rational::lemma_rat_eq_trans(fold_add_full(u, j), acc, u[e]);
                }
            }
        }
    }

    /// Law: a node in evidence gets the indicator distribution, exactly:
    /// one at the observed value, zero everywhere else.
    pub proof fn lemma_evidence_posterior_is_indicator(
        &self,
        evs: Seq<(String, u64)>,
        post: Seq<Seq<Rat>>,
        x: int,
        e: usize,
    )
        requires
            self.wf(),
            self.spec_infer(evs) == Ok::<Seq<Seq<Rat>>, InferenceError>(post),
            0 <= x < post.len(),
            self.spec_observed(evs, x) == Some(e),
        ensures
            post[x][e as int] == one_rat(),
            forall|v: int| 0 <= v < post[x].len() && v != e as int ==> post[x][v] == zero_rat(),
    {
        self.lemma_wf_def();
        self.lemma_spec_infer_def(evs);
        match self.resolve_ev_upto(evs, evs.len() as int) {
            Err(_) => {},
            Ok(ev) => {
                self.lemma_resolve_ev_ok(evs, evs.len() as int, ev);
                match self.spec_propagate(ev) {
                    None => {},
                    Some(st) => {
                        self.lemma_spec_propagate_wf(ev, st);
                        self.lemma_combine_ok(ev, st, self.n(), post);
                        match self.pi_msg(ev, st, x, self.n(), self.k()) {
                            None => {},
                            Some(u) => {
                                self.lemma_pi_msg_wf(ev, st, x, self.n(), u);
                                self.lemma_pi_msg_ok(ev, st, x, self.n(), self.k(), u);
                                assert((e as int) < self.k());
                                // every unnormalized entry away from e is zero
                                assert forall|v: int|
                                    0 <= v < self.k() && v != e as int implies u[v] == zero_rat()
                                by {
                                    self.lemma_lam_prod_wf(
                                        st.la,
                                        x,
                                        self.n(),
                                        v,
                                        self.nodes@[x].children@.len() as int,
                                    );
                                    match self.lam_prod(
                                        st.la,
                                        x,
                                        self.n(),
                                        v,
                                        self.nodes@[x].children@.len() as int,
                                    ) {
                                        None => {},
                                        Some(lp) => {
                                            assert(self.bel_pi(ev, st.pi, x, v) == Some(
                                                zero_rat(),
                                            ));
                                            crate::rational::lemma_mul_zero(lp);
                                        },
                                    }
                                }
                                match fold_add_c(u, self.k()) {
                                    None => {},
                                    Some(sm) => {
                                        if sm.num != 0 {
                                            match divide_row(u, sm, self.k()) {
                                                None => {},
                                                Some(p) => {
                                                    assert(p == post[x]);
                                                    lemma_divide_row_ok(u, sm, self.k(), p);
                                                    crate::rational::lemma_fold_add_c_full(
                                                        u,
                                                        self.k(),
                                                        sm,
                                                    );
                                                    self.lemma_sum_indicator(
                                                        u,
                                                        e as int,
                                                        self.k(),
                                                    );
                                                    // sm has the value of u[e]
                                                    assert(rat_eq(sm, u[e as int]));
                                                    assert(rat_eq(u[e as int], sm));
                                                    crate::rational::lemma_div_self(
                                                        u[e as int],
                                                        sm,
                                                    );
                                                    assert(p[e as int] == one_rat());
                                                    assert forall|v: int|
                                                        0 <= v < p.len() && v != e as int
                                                        implies p[v] == zero_rat() by {
                                                        assert(u[v] == zero_rat());
                                                        assert(0int * sm.den == 0 && 1int * sm.num
                                                            == sm.num) by (nonlinear_arith);
                                                        crate::rational::lemma_reduced_zero(
                                                            sm.num,
                                                        );
                                                        assert(div_full(zero_rat(), sm)
                                                            == zero_rat());
                                                    }
                                                },
                                            }
                                        }
                                    },
                                }
                            },
                        }
                    },
                }
            },
        }
    }

    /// The converged message stores for the given evidence, if inference
    /// gets that far.
    pub closed spec fn spec_converged(&self, evs: Seq<(String, u64)>) -> Option<Stores> {
        match self.resolve_ev_upto(evs, evs.len() as int) {
            Ok(ev) => self.spec_propagate(ev),
            Err(_) => None,
        }
    }

    /// Two lambda products over children whose messages are constant
    /// across the domain have equal values at any two domain indices.
    pub(crate) proof fn lemma_lam_prod_const(
        &self,
        la: Seq<Option<Seq<Rat>>>,
        x: int,
        v: int,
        v2: int,
        j: int,
    )
        requires
            self.wf_inner(),
            0 <= x < self.n(),
            0 <= v < self.k(),
            0 <= v2 < self.k(),
            half_wf(la, self.n(), self.k()),
            j <= self.nodes@[x].children@.len(),
            forall|q: int|
                0 <= q < self.nodes@[x].children@.len() ==> match la[slot(
                    self.n(),
                    #[trigger] self.nodes@[x].children@[q] as int,
                    x,
                )] {
                    Some(m) => forall|w: int| 0 <= w < m.len() ==> rat_eq(#[trigger] m[w], m[0]),
                    None => false,
                },
        ensures
            match (self.lam_prod(la, x, self.n(), v, j), self.lam_prod(la, x, self.n(), v2, j)) {
                (Some(a), Some(b)) => rat_eq(a, b) && rat_wf(a) && rat_wf(b),
                _ => true,
            },
        decreases j,
    {
        self.lemma_lam_prod_wf(la, x, self.n(), v, j);
        self.lemma_lam_prod_wf(la, x, self.n(), v2, j);
        if j > 0 {
            self.lemma_lam_prod_const(la, x, v, v2, j - 1);
            self.lemma_lam_prod_wf(la, x, self.n(), v, j - 1);
            self.lemma_lam_prod_wf(la, x, self.n(), v2, j - 1);
            let c = self.nodes@[x].children@[j - 1] as int;
            assert(0 <= c < self.n());
            assert(0 <= slot(self.n(), c, x) < self.n() * self.n()) by (nonlinear_arith)
                requires
                    0 <= c < self.n(),
                    0 <= x < self.n(),
                    slot(self.n(), c, x) == c * self.n() + x,
            ;
            match (
                self.lam_prod(la, x, self.n(), v, j - 1),
                self.lam_prod(la, x, self.n(), v2, j - 1),
            ) {
                (Some(a0), Some(b0)) => {
                    match la[slot(self.n(), c, x)] {
                        Some(m) => {
                            assert(rat_eq(m[v], m[0]) && rat_eq(m[v2], m[0]));
                            assert(rat_wf(m[v]) && rat_wf(m[v2]) && rat_wf(m[0]));
                            assert(rat_eq(m[v], m[v2])) by {
                                crate::rational::lemma_rat_eq_trans(m[v2], m[0], m[v2]);
                                assert(rat_eq(m[0], m[v2]));
                                crate::rational::lemma_rat_eq_trans(m[v], m[0], m[v2]);
                            }
                            crate::rational::lemma_mul_cong(a0, b0, m[v], m[v2]);
                        },
                        None => {},
                    }
                },
                _ => {},
            }
        }
    }

    /// Law: a root node on which no evidence bears keeps its prior.  That
    /// no evidence bears on the root shows in the converged messages: each
    /// child's lambda message to it is constant across the domain.  If the
    /// root is not itself observed, its prior sums to one and inference
    /// succeeds, then the returned distribution equals the prior in value.
    pub proof fn lemma_root_keeps_prior(
        &self,
        evs: Seq<(String, u64)>,
        post: Seq<Seq<Rat>>,
        x: int,
    )
        requires
            self.wf(),
            self.spec_infer(evs) == Ok::<Seq<Seq<Rat>>, InferenceError>(post),
            0 <= x < post.len(),
            self.spec_node_type(x) is Root,
            self.spec_observed(evs, x) is None,
            rat_eq(
                fold_add_full(self.spec_prior(x), self.spec_prior(x).len() as int),
                one_rat(),
            ),
            match self.spec_converged(evs) {
                Some(st) => forall|q: int|
                    0 <= q < self.spec_children(x).len() ==> match st.la[slot(
                        self.spec_node_count(),
                        (#[trigger] self.spec_children(x)[q]) as int,
                        x,
                    )] {
                        Some(m) => forall|w: int|
                            0 <= w < m.len() ==> rat_eq(#[trigger] m[w], m[0]),
                        None => false,
                    },
                None => false,
            },
        ensures
            post[x].len() == self.spec_prior(x).len(),
            forall|v: int|
                0 <= v < post[x].len() ==> rat_eq(#[trigger] post[x][v], self.spec_prior(x)[v]),
    {
        self.lemma_wf_def();
        self.lemma_spec_infer_def(evs);
        self.lemma_spec_prior_def(x);
        self.lemma_spec_node_type_def(x);
        self.lemma_spec_children_def(x);
        let prior = self.spec_prior(x);
        match self.resolve_ev_upto(evs, evs.len() as int) {
            Err(_) => {},
            Ok(ev) => {
                self.lemma_resolve_ev_ok(evs, evs.len() as int, ev);
                match self.spec_propagate(ev) {
                    None => {},
                    Some(st) => {
                        self.lemma_spec_propagate_wf(ev, st);
                        self.lemma_combine_ok(ev, st, self.n(), post);
                        assert(crate::model::node_wf(self.nodes@[x], self.n(), self.k()));
                        assert(prior.len() == self.k());
                        match self.pi_msg(ev, st, x, self.n(), self.k()) {
                            None => {},
                            Some(u) => {
                                self.lemma_pi_msg_wf(ev, st, x, self.n(), u);
                                self.lemma_pi_msg_ok(ev, st, x, self.n(), self.k(), u);
                                match fold_add_c(u, self.k()) {
                                    None => {},
                                    Some(sm) => {
                                        if sm.num != 0 {
                                            match divide_row(u, sm, self.k()) {
                                                None => {},
                                                Some(p) => {
                                                    assert(p == post[x]);
                                                    lemma_divide_row_ok(u, sm, self.k(), p);
                                                    crate::rational::lemma_fold_add_c_full(
                                                        u,
                                                        self.k(),
                                                        sm,
                                                    );
                                                    if self.k() == 0 {
                                                    } else {
                                                        crate::rational::lemma_fold_add_full_wf(
                                                            u,
                                                            self.k(),
                                                        );
                                                        self.lemma_prior_case(
                                                            ev, st, x, u, sm, p, prior,
                                                        );
                                                    }
                                                },
                                            }
                                        }
                                    },
                                }
                            },
                        }
                    },
                }
            },
        }
    }

    /// The algebraic core of `lemma_root_keeps_prior`, for a nonempty
    /// domain.
    #[verifier::rlimit(100)]
    pub(crate) proof fn lemma_prior_case(
        &self,
        ev: Seq<Option<usize>>,
        st: Stores,
        x: int,
        u: Seq<Rat>,
        sm: Rat,
        p: Seq<Rat>,
        prior: Seq<Rat>,
    )
        requires
            self.wf_inner(),
            0 <= x < self.n(),
            self.k() >= 1,
            stores_wf(st, self.n(), self.k()),
            ev.len() == self.n(),
            ev[x] is None,
            self.nodes@[x].node_type is Root,
            prior == self.spec_prior(x),
            u.len() == self.k(),
            forall|v: int| 0 <= v < self.k() ==> rat_wf(#[trigger] u[v]),
            forall|v: int|
                0 <= v < self.k() ==> self.pi_val(ev, st, x, self.n(), v) == Some(#[trigger] u[v]),
            sm == fold_add_full(u, self.k()),
            rat_wf(sm),
            sm.num >= 1,
            forall|v: int| 0 <= v < self.k() ==> div_c(#[trigger] u[v], sm) == Some(p[v]),
            p.len() == self.k(),
            rat_eq(fold_add_full(prior, prior.len() as int), one_rat()),
            forall|q: int|
                0 <= q < self.nodes@[x].children@.len() ==> match st.la[slot(
                    self.n(),
                    (#[trigger] self.nodes@[x].children@[q]) as int,
                    x,
                )] {
                    Some(m) => forall|w: int| 0 <= w < m.len() ==> rat_eq(#[trigger] m[w], m[0]),
                    None => false,
                },
        ensures
            forall|v: int| 0 <= v < p.len() ==> rat_eq(#[trigger] p[v], prior[v]),
    {
        self.lemma_spec_prior_def(x);
        assert(crate::model::node_wf(self.nodes@[x], self.n(), self.k()));
        let cn = self.nodes@[x].children@.len() as int;
        assert(self.pi_val(ev, st, x, self.n(), 0) == Some(u[0]));
        assert(self.lam_prod(st.la, x, self.n(), 0, cn) is Some);
        let kf = match self.lam_prod(st.la, x, self.n(), 0, cn) {
            Some(kf) => kf,
            None => one_rat(),
        };
        self.lemma_lam_prod_wf(st.la, x, self.n(), 0, cn);
        // each unnormalized entry factors as the lambda product times the
        // prior entry
        assert forall|v: int| 0 <= v < self.k() implies rat_eq(
            #[trigger] u[v],
            crate::rational::mul_full(kf, prior[v]),
        ) && rat_wf(prior[v]) by {
            assert(self.bel_pi(ev, st.pi, x, v) == Some(prior[v]));
            self.lemma_lam_prod_wf(st.la, x, self.n(), v, cn);
            match self.lam_prod(st.la, x, self.n(), v, cn) {
                None => {},
                Some(lp) => {
                    assert(u[v] == crate::rational::mul_full(lp, prior[v]));
                    self.lemma_lam_prod_const(st.la, x, v, 0, cn);
                    assert(rat_eq(lp, kf));
                    crate::rational::lemma_mul_cong(lp, kf, prior[v], prior[v]);
                },
            }
        }
        // hence the normalization constant has the value of the product
        // with one
        crate::rational::lemma_sum_factor(u, prior, kf, self.k());
        crate::rational::lemma_fold_add_full_wf(prior, self.k());
        crate::rational::lemma_mul_cong(
            kf,
            kf,
            fold_add_full(prior, self.k()),
            one_rat(),
        );
        crate::rational::lemma_mul_full(kf, one_rat());
        assert(kf.num * 1 == kf.num && kf.den * 1 == kf.den) by (nonlinear_arith);
        let kf1 = Rat { num: kf.num * 1, den: kf.den * 1 };
        assert(kf1.num == kf.num && kf1.den == kf.den);
        crate::rational::lemma_mul_full(kf, fold_add_full(prior, self.k()));
        crate::rational::lemma_rat_eq_trans(
            sm,
            crate::rational::mul_full(kf, fold_add_full(prior, self.k())),
            crate::rational::mul_full(kf, one_rat()),
        );
        crate::rational::lemma_rat_eq_trans(
            sm,
            crate::rational::mul_full(kf, one_rat()),
            kf1,
        );
        assert(rat_eq(sm, kf1));
        assert(sm.num * kf.den == kf.num * sm.den);
        // divide each entry: the factor cancels against the normalization
        assert forall|v: int| 0 <= v < p.len() implies rat_eq(#[trigger] p[v], prior[v]) by {
            assert(p[v] == div_full(u[v], sm));
            crate::rational::lemma_div_full(u[v], sm);
            let un = u[v].num;
            let ud = u[v].den;
            let pn = prior[v].num;
            let pd = prior[v].den;
            let dd = Rat { num: un * sm.den, den: ud * sm.num };
            crate::rational::lemma_mul_full(kf, prior[v]);
            let mm = Rat { num: kf.num * pn, den: kf.den * pd };
            assert(rat_wf(mm)) by (nonlinear_arith)
                requires
                    kf.num >= 0,
                    kf.den >= 1,
                    pn >= 0,
                    pd >= 1,
                    mm == (Rat { num: kf.num * pn, den: kf.den * pd }),
            ;
            crate::rational::lemma_rat_eq_trans(
                u[v],
                crate::rational::mul_full(kf, prior[v]),
                mm,
            );
            assert(un * (kf.den * pd) == (kf.num * pn) * ud);
            assert(un * sm.den * pd * kf.den == kf.num * pn * ud * sm.den) by (nonlinear_arith)
                requires
                    un * (kf.den * pd) == (kf.num * pn) * ud,
            ;
            assert(kf.num * pn * ud * sm.den == pn * ud * sm.num * kf.den) by (nonlinear_arith)
                requires
                    sm.num * kf.den == kf.num * sm.den,
            ;
            assert(un * sm.den * pd * kf.den == pn * ud * sm.num * kf.den);
            assert(un * sm.den * pd == pn * (ud * sm.num)) by (nonlinear_arith)
                requires
                    un * sm.den * pd * kf.den == pn * ud * sm.num * kf.den,
                    kf.den >= 1,
            ;
            assert(dd.num * pd == pn * dd.den) by (nonlinear_arith)
                requires
                    dd == (Rat { num: un * sm.den, den: ud * sm.num }),
                    un * sm.den * pd == pn * (ud * sm.num),
            ;
            assert(rat_eq(dd, prior[v]));
            assert(rat_wf(dd)) by (nonlinear_arith)
                requires
                    un >= 0,
                    ud >= 1,
                    sm.den >= 1,
                    sm.num >= 1,
                    dd == (Rat { num: un * sm.den, den: ud * sm.num }),
            ;
            crate::rational::lemma_rat_eq_trans(p[v], dd, prior[v]);
        }
    }

    /// Law: inference is deterministic.  The result is a function of the
    /// network and the evidence alone, so two runs agree completely.
    pub proof fn lemma_infer_deterministic(
        &self,
        evs: Seq<(String, u64)>,
        r1: Result<Seq<Seq<Rat>>, InferenceError>,
        r2: Result<Seq<Seq<Rat>>, InferenceError>,
    )
        requires
            r1 == self.spec_infer(evs),
            r2 == self.spec_infer(evs),
        ensures
            r1 == r2,
    {
    }
}

/// All slots of an empty store are absent, so nothing is counted.
pub(crate) proof fn lemma_cnt_none(st: Seq<Option<Seq<Rat>>>, j: int)
    requires
        forall|t: int| 0 <= t < j ==> st[t] is None,
    ensures
        cnt_some(st, j) == 0,
    decreases j,
{
    if j > 0 {
        lemma_cnt_none(st, j - 1);
    }
}

} // verus!
