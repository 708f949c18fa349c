//! A network of agents, one per vertex of a sheaf, each holding a belief
//! vector in its vertex's stalk.

use vstd::prelude::*;

use crate::sheaf::CellularSheaf;

verus! {

/// An agent sitting on a vertex with a local belief vector.
#[derive(Clone, Debug)]
pub struct AgentState<T> {
    pub vertex: usize,
    pub belief: Vec<T>,
}

/// A network of agents, one per vertex, synchronized via a shared sheaf.
#[derive(Clone, Debug)]
pub struct AgentNetwork<T> {
    pub sheaf: CellularSheaf<T>,
    pub agents: Vec<AgentState<T>>,
}

impl<T> AgentNetwork<T> {
    /// One agent per vertex of the sheaf, agent `v` sitting on vertex `v`.
    pub open spec fn wf(&self) -> bool {
        &&& self.agents@.len() == self.sheaf.stalk_dims@.len()
        &&& forall|v: int| 0 <= v < self.agents@.len() ==> #[trigger] self.agents@[v].vertex == v
    }

    /// There are as many agents as vertices.
    pub open spec fn one_agent_per_stalk(&self) -> bool {
        self.agents@.len() == self.sheaf.stalk_dims@.len()
    }

    /// There are no more agents than vertices; agent `v` sits on vertex `v`
    /// and the vertices past the last agent have none.
    pub open spec fn agents_fit_stalks(&self) -> bool {
        self.agents@.len() <= self.sheaf.stalk_dims@.len()
    }

    /// Every agent's belief has at least as many entries as its stalk.
    pub open spec fn beliefs_cover_stalks(&self) -> bool {
        forall|v: int|
            0 <= v < self.agents@.len() ==> #[trigger] self.agents@[v].belief@.len()
                >= self.sheaf.stalk_dims@[v]
    }

    /// The block of vertex `v` in the combined belief: its agent's belief
    /// cut to the stalk dimension, or `zero`s when the vertex has no agent.
    pub open spec fn belief_block(&self, v: int, zero: T) -> Seq<T> {
        if v < self.agents@.len() {
            self.agents@[v].belief@.subrange(0, self.sheaf.stalk_dims@[v] as int)
        } else {
            Seq::new(self.sheaf.stalk_dims@[v] as nat, |i: int| zero)
        }
    }

    /// The blocks of the first `v` vertices laid end to end.
    pub open spec fn combined_prefix(&self, v: int, zero: T) -> Seq<T>
        decreases v,
    {
        if v <= 0 {
            seq![]
        } else {
            self.combined_prefix(v - 1, zero) + self.belief_block(v - 1, zero)
        }
    }

    /// The combined belief vector: all beliefs in the flattened vertex
    /// space, `zero` where a vertex has no agent.
    pub open spec fn spec_combined_belief(&self, zero: T) -> Seq<T> {
        self.combined_prefix(self.sheaf.stalk_dims@.len() as int, zero)
    }

    /// The combined belief of the first `w` vertices has one entry per vertex
    /// dimension, and entry `vertex_prefix(v) + i` is entry `i` of agent `v`'s
    /// belief (or `zero` when vertex `v` has no agent).
    pub proof fn lemma_combined_prefix(&self, w: int, zero: T)
        requires
            self.agents_fit_stalks(),
            self.beliefs_cover_stalks(),
            0 <= w <= self.sheaf.stalk_dims@.len(),
        ensures
            self.combined_prefix(w, zero).len() == self.sheaf.vertex_prefix(w),
            forall|v: int, i: int|
                0 <= v < w && v < self.agents@.len() && 0 <= i < self.sheaf.stalk_dims@[v]
                    ==> self.combined_prefix(w, zero)[self.sheaf.vertex_prefix(v) + i]
                    == #[trigger] self.agents@[v].belief@[i],
            forall|v: int, i: int|
                0 <= v < w && self.agents@.len() <= v && 0 <= i < self.sheaf.stalk_dims@[v]
                    ==> #[trigger] self.combined_prefix(w, zero)[self.sheaf.vertex_prefix(v) + i] == zero,
        decreases w,
    {
        if w > 0 {
            self.lemma_combined_prefix(w - 1, zero);
            let prev = self.combined_prefix(w - 1, zero);
            let last = self.belief_block(w - 1, zero);
            if w - 1 < self.agents@.len() {
                assert(self.agents@[w - 1].belief@.len() >= self.sheaf.stalk_dims@[w - 1]);
            }
            assert(last.len() == self.sheaf.stalk_dims@[w - 1]);
            assert forall|v: int, i: int|
                0 <= v < w && 0 <= i < self.sheaf.stalk_dims@[v] implies self.combined_prefix(w, zero)[self.sheaf.vertex_prefix(v)
                + i] == self.belief_block(v, zero)[i] by {
                if v < w - 1 {
                    self.sheaf.lemma_vertex_blocks(v, w - 1);
                    assert(self.combined_prefix(w, zero)[self.sheaf.vertex_prefix(v) + i] == prev[self.sheaf.vertex_prefix(v) + i]);
                    if v < self.agents@.len() {
                        assert(self.agents@[v].belief@.len() >= self.sheaf.stalk_dims@[v]);
                    }
                } else {
                    assert(self.combined_prefix(w, zero)[self.sheaf.vertex_prefix(v) + i] == last[i]);
                }
            }
            assert forall|v: int, i: int|
                0 <= v < w && self.agents@.len() <= v && 0 <= i < self.sheaf.stalk_dims@[v]
                    implies #[trigger] self.combined_prefix(w, zero)[self.sheaf.vertex_prefix(v) + i] == zero by {
                assert(self.belief_block(v, zero)[i] == zero);
            }
            assert forall|v: int, i: int|
                0 <= v < w && v < self.agents@.len() && 0 <= i < self.sheaf.stalk_dims@[v]
                    implies self.combined_prefix(w, zero)[self.sheaf.vertex_prefix(v) + i]
                    == #[trigger] self.agents@[v].belief@[i] by {
                assert(self.agents@[v].belief@.len() >= self.sheaf.stalk_dims@[v]);
                assert(self.belief_block(v, zero)[i] == self.agents@[v].belief@[i]);
            }
        }
    }
}

impl<T> AgentNetwork<T> {
    /// Checks that there are no more agents than vertices and that every
    /// belief covers its stalk.
    pub fn check_beliefs(&self) -> (b: bool)
        ensures
            b == (self.agents_fit_stalks() && self.beliefs_cover_stalks()),
    {
        if self.agents.len() > self.sheaf.stalk_dims.len() {
            return false;
        }
        for v in 0..self.agents.len()
            invariant
                self.agents_fit_stalks(),
                forall|u: int|
                    0 <= u < v ==> #[trigger] self.agents@[u].belief@.len() >= self.sheaf.stalk_dims@[u],
        {
            if self.agents[v].belief.len() < self.sheaf.stalk_dims[v] {
                assert(!(self.agents@[v as int].belief@.len() >= self.sheaf.stalk_dims@[v as int]));
                return false;
            }
        }
        true
    }
}

impl<T: Copy> AgentNetwork<T> {
    /// Create a network with one agent per vertex, each belief set to the
    /// zero vector (every entry `zero`) of its stalk's dimension.
    pub fn new(sheaf: &CellularSheaf<T>, zero: T) -> (net: Self)
        requires
            sheaf.maps_wf(),
        ensures
            net.sheaf.same_as(sheaf),
            net.sheaf.maps_wf(),
            net.wf(),
            net.beliefs_cover_stalks(),
            forall|v: int|
                0 <= v < net.agents@.len() ==> (#[trigger] net.agents@[v]).belief@ == Seq::new(
                    sheaf.stalk_dims@[v] as nat,
                    |i: int| zero,
                ),
    {
        let mut agents: Vec<AgentState<T>> = Vec::new();
        for v in 0..sheaf.stalk_dims.len()
            invariant
                agents@.len() == v,
                forall|a: int|
                    #![trigger agents@[a]]
                    0 <= a < v ==> agents@[a].vertex == a && agents@[a].belief@ == Seq::new(
                        sheaf.stalk_dims@[a] as nat,
                        |i: int| zero,
                    ),
        {
            let d = sheaf.stalk_dims[v];
            let mut belief: Vec<T> = Vec::new();
            for i in 0..d
                invariant
                    belief@ == Seq::new(i as nat, |j: int| zero),
            {
                belief.push(zero);
                assert(belief@ =~= Seq::new((i + 1) as nat, |j: int| zero));
            }
            agents.push(AgentState { vertex: v, belief });
        }
        let net = AgentNetwork { sheaf: sheaf.copied(), agents };
        assert forall|v: int| 0 <= v < net.agents@.len() implies #[trigger] net.agents@[v].vertex == v by {
            assert(net.agents@[v] == agents@[v]);
        }
        assert forall|v: int| 0 <= v < net.agents@.len() implies #[trigger] net.agents@[v].belief@.len()
            >= net.sheaf.stalk_dims@[v] by {
            assert(net.agents@[v] == agents@[v]);
        }
        net
    }

    /// Set an agent's belief vector.
    pub fn set_belief(&mut self, agent: usize, belief: Vec<T>)
        requires
            agent < old(self).agents@.len(),
        ensures
            final(self).sheaf == old(self).sheaf,
            final(self).agents@.len() == old(self).agents@.len(),
            final(self).agents@[agent as int].vertex == old(self).agents@[agent as int].vertex,
            final(self).agents@[agent as int].belief@ == belief@,
            forall|a: int|
                0 <= a < old(self).agents@.len() && a != agent ==> #[trigger] final(self).agents@[a]
                    == old(self).agents@[a],
    {
        let vertex = self.agents[agent].vertex;
        self.agents.set(agent, AgentState { vertex, belief });
    }

    /// Move every belief along a gradient given in the flattened vertex space:
    /// entry `i` of agent `v`'s belief, for `i` below its stalk dimension,
    /// becomes `update(old entry, gradient[vertex_prefix(v) + i])`; the
    /// entries past the stalk dimension stay as they are.
    pub fn apply_gradient<F: Fn(T, T) -> T>(&mut self, gradient: &Vec<T>, update: F)
        requires
            old(self).agents_fit_stalks(),
            old(self).beliefs_cover_stalks(),
            old(self).sheaf.vertex_dims_fit(),
            gradient@.len() >= old(self).sheaf.spec_total_vertex_dim(),
            forall|a: T, b: T| update.requires((a, b)),
        ensures
            final(self).sheaf == old(self).sheaf,
            final(self).agents@.len() == old(self).agents@.len(),
            final(self).agents_fit_stalks(),
            final(self).beliefs_cover_stalks(),
            old(self).wf() ==> final(self).wf(),
            forall|v: int|
                #![trigger final(self).agents@[v]]
                0 <= v < old(self).agents@.len() ==> final(self).agents@[v].vertex == old(
                    self,
                ).agents@[v].vertex && final(self).agents@[v].belief@.len() == old(
                    self,
                ).agents@[v].belief@.len(),
            forall|v: int, i: int|
                0 <= v < old(self).agents@.len() && 0 <= i < old(self).sheaf.stalk_dims@[v]
                    ==> call_ensures(
                    update,
                    (
                        old(self).agents@[v].belief@[i],
                        gradient@[old(self).sheaf.vertex_prefix(v) + i],
                    ),
                    #[trigger] final(self).agents@[v].belief@[i],
                ),
            forall|v: int, i: int|
                0 <= v < old(self).agents@.len() && old(self).sheaf.stalk_dims@[v] <= i
                    < old(self).agents@[v].belief@.len() ==> #[trigger] final(self).agents@[v].belief@[i]
                    == old(self).agents@[v].belief@[i],
    {
        let ghost before = *self;
        let glen = gradient.len();
        let n = self.agents.len();
        let mut off: usize = 0;
        for v in 0..n
            invariant
                n == before.agents@.len(),
                glen == gradient@.len(),
                before.agents_fit_stalks(),
                before.beliefs_cover_stalks(),
                before.sheaf.vertex_dims_fit(),
                gradient@.len() >= before.sheaf.spec_total_vertex_dim(),
                forall|a: T, b: T| update.requires((a, b)),
                self.sheaf == before.sheaf,
                self.agents@.len() == before.agents@.len(),
                off == before.sheaf.vertex_prefix(v as int),
                forall|u: int|
                    #![trigger self.agents@[u]]
                    0 <= u < before.agents@.len() ==> self.agents@[u].vertex == before.agents@[u].vertex
                        && self.agents@[u].belief@.len() == before.agents@[u].belief@.len(),
                forall|u: int|
                    #![trigger self.agents@[u]]
                    v <= u < before.agents@.len() ==> self.agents@[u] == before.agents@[u],
                forall|u: int, i: int|
                    0 <= u < v && 0 <= i < before.sheaf.stalk_dims@[u] ==> call_ensures(
                        update,
                        (
                            before.agents@[u].belief@[i],
                            gradient@[before.sheaf.vertex_prefix(u) + i],
                        ),
                        #[trigger] self.agents@[u].belief@[i],
                    ),
                forall|u: int, i: int|
                    0 <= u < v && before.sheaf.stalk_dims@[u] <= i < before.agents@[u].belief@.len()
                        ==> #[trigger] self.agents@[u].belief@[i] == before.agents@[u].belief@[i],
        {
            proof {
                before.sheaf.lemma_vertex_blocks(v as int, before.agents@.len() as int);
            }
            let d = self.sheaf.stalk_dims[v];
            let old_belief = &self.agents[v].belief;
            assert(old_belief@ == before.agents@[v as int].belief@);
            let mut belief: Vec<T> = Vec::new();
            for i in 0..old_belief.len()
                invariant
                    forall|a: T, b: T| update.requires((a, b)),
                    glen == gradient@.len(),
                    d <= old_belief@.len(),
                    off + d <= gradient@.len(),
                    belief@.len() == i,
                    forall|j: int|
                        0 <= j < i && j < d ==> call_ensures(
                            update,
                            (old_belief@[j], gradient@[off + j]),
                            #[trigger] belief@[j],
                        ),
                    forall|j: int| 0 <= j < i && d <= j ==> #[trigger] belief@[j] == old_belief@[j],
            {
                if i < d {
                    let x = update(old_belief[i], gradient[off + i]);
                    belief.push(x);
                } else {
                    belief.push(old_belief[i]);
                }
            }
            let vertex = self.agents[v].vertex;
            let ghost prev_agents = self.agents@;
            self.agents.set(v, AgentState { vertex, belief });
            assert forall|u: int|
                #![trigger self.agents@[u]]
                0 <= u < before.agents@.len() implies self.agents@[u].vertex == before.agents@[u].vertex
                && self.agents@[u].belief@.len() == before.agents@[u].belief@.len() by {
                if u != v {
                    assert(self.agents@[u] == prev_agents[u]);
                }
            }
            assert forall|u: int, i: int|
                0 <= u < v + 1 && 0 <= i < before.sheaf.stalk_dims@[u] implies call_ensures(
                update,
                (before.agents@[u].belief@[i], gradient@[before.sheaf.vertex_prefix(u) + i]),
                #[trigger] self.agents@[u].belief@[i],
            ) by {
                if u < v {
                    assert(self.agents@[u] == prev_agents[u]);
                }
            }
            assert forall|u: int, i: int|
                0 <= u < v + 1 && before.sheaf.stalk_dims@[u] <= i < before.agents@[u].belief@.len()
                    implies #[trigger] self.agents@[u].belief@[i] == before.agents@[u].belief@[i] by {
                if u < v {
                    assert(self.agents@[u] == prev_agents[u]);
                }
            }
            off = off + d;
        }
        proof {
            if before.wf() {
                assert forall|v: int| 0 <= v < self.agents@.len() implies #[trigger] self.agents@[v].vertex
                    == v by {
                    assert(self.agents@[v].vertex == before.agents@[v].vertex);
                }
            }
        }
        assert forall|v: int| 0 <= v < self.agents@.len() implies #[trigger] self.agents@[v].belief@.len()
            >= self.sheaf.stalk_dims@[v] by {
            assert(self.agents@[v].belief@.len() == before.agents@[v].belief@.len());
        }
    }

    /// The combined belief vector: each agent's belief, cut to its stalk
    /// dimension, in vertex order, with `zero`s for the vertices that have no
    /// agent.
    pub fn combined_belief(&self, zero: T) -> (x: Vec<T>)
        requires
            self.agents_fit_stalks(),
            self.beliefs_cover_stalks(),
        ensures
            x@ == self.spec_combined_belief(zero),
    {
        let mut x: Vec<T> = Vec::new();
        for v in 0..self.sheaf.stalk_dims.len()
            invariant
                self.agents_fit_stalks(),
                self.beliefs_cover_stalks(),
                x@ == self.combined_prefix(v as int, zero),
        {
            let d = self.sheaf.stalk_dims[v];
            let ghost start = x@;
            if v < self.agents.len() {
                let belief = &self.agents[v].belief;
                assert(belief@.len() >= d);
                for i in 0..d
                    invariant
                        d <= belief@.len(),
                        x@ == start + belief@.subrange(0, i as int),
                {
                    x.push(belief[i]);
                    assert(x@ =~= start + belief@.subrange(0, i + 1));
                }
            } else {
                for i in 0..d
                    invariant
                        x@ == start + Seq::new(i as nat, |j: int| zero),
                {
                    x.push(zero);
                    assert(x@ =~= start + Seq::new((i + 1) as nat, |j: int| zero));
                }
            }
            assert(x@ =~= self.combined_prefix(v + 1, zero));
        }
        x
    }
}

/// Setting a belief and reading the combined belief gives back what was set:
/// after `set_belief(agent, b)`, the entries of the combined belief in the
/// block of vertex `agent` are the first entries of `b`, and every other
/// vertex's block is unchanged.
pub proof fn lemma_set_belief_read_back<T>(
    before: AgentNetwork<T>,
    after: AgentNetwork<T>,
    agent: int,
    b: Seq<T>,
    zero: T,
)
    requires
        before.wf(),
        before.beliefs_cover_stalks(),
        0 <= agent < before.agents@.len(),
        b.len() >= before.sheaf.stalk_dims@[agent],
        after.sheaf == before.sheaf,
        after.agents@.len() == before.agents@.len(),
        after.agents@[agent].vertex == before.agents@[agent].vertex,
        after.agents@[agent].belief@ == b,
        forall|a: int|
            0 <= a < before.agents@.len() && a != agent ==> #[trigger] after.agents@[a]
                == before.agents@[a],
    ensures
        after.wf(),
        after.beliefs_cover_stalks(),
        forall|i: int|
            0 <= i < before.sheaf.stalk_dims@[agent] ==> after.spec_combined_belief(zero)[before.sheaf.vertex_prefix(agent)
                + i] == #[trigger] b[i],
        forall|v: int, i: int|
            0 <= v < before.agents@.len() && v != agent && 0 <= i < before.sheaf.stalk_dims@[v]
                ==> after.spec_combined_belief(zero)[before.sheaf.vertex_prefix(v) + i]
                == #[trigger] before.spec_combined_belief(zero)[before.sheaf.vertex_prefix(v) + i],
{
    assert forall|v: int| 0 <= v < after.agents@.len() implies #[trigger] after.agents@[v].vertex == v by {
        if v != agent {
            assert(after.agents@[v] == before.agents@[v]);
        }
    }
    assert forall|v: int| 0 <= v < after.agents@.len() implies #[trigger] after.agents@[v].belief@.len()
        >= after.sheaf.stalk_dims@[v] by {
        if v != agent {
            assert(after.agents@[v] == before.agents@[v]);
        }
    }
    before.lemma_combined_prefix(before.sheaf.stalk_dims@.len() as int, zero);
    after.lemma_combined_prefix(after.sheaf.stalk_dims@.len() as int, zero);
    assert forall|v: int, i: int|
        0 <= v < before.agents@.len() && v != agent && 0 <= i < before.sheaf.stalk_dims@[v]
            implies after.spec_combined_belief(zero)[before.sheaf.vertex_prefix(v) + i]
        == #[trigger] before.spec_combined_belief(zero)[before.sheaf.vertex_prefix(v) + i] by {
        assert(after.agents@[v] == before.agents@[v]);
        assert(after.spec_combined_belief(zero)[after.sheaf.vertex_prefix(v) + i] == after.agents@[v].belief@[i]);
        assert(before.spec_combined_belief(zero)[before.sheaf.vertex_prefix(v) + i] == before.agents@[v].belief@[i]);
    }
    assert forall|i: int| 0 <= i < before.sheaf.stalk_dims@[agent] implies after.spec_combined_belief(zero)[before.sheaf.vertex_prefix(agent)
        + i] == #[trigger] b[i] by {
        assert(after.spec_combined_belief(zero)[after.sheaf.vertex_prefix(agent) + i] == after.agents@[agent].belief@[i]);
    }
}

} // verus!
