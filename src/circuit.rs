//! The finalized circuit and its two-phase relay step.

use vstd::prelude::*;
use crate::graph::{closed_lists, flood, linked, reachable, rows};
use crate::handle::{ground_view, Bus, Handle, HandleView};
use crate::labels::{LabelTable, NodeId};
use vstd::arithmetic::power2::{lemma2_to64, lemma_pow2_unfold, pow2};
use vstd::bits::lemma_u32_shr_is_div;

verus! {

/// A switch: an index into the circuit's switch array.
pub type SwitchId = usize;

/// A single-pole double-throw contact. The pole touches `nc` at rest and
/// `no` while the switch is active.
#[derive(Clone, Copy, Debug, PartialEq, Eq, Structural)]
pub struct Switch {
    pub pole: NodeId,
    pub no: NodeId,
    pub nc: NodeId,
}

impl Switch {
    /// The terminal that the pole touches in the given position.
    pub open spec fn throw(self, active: bool) -> NodeId {
        if active {
            self.no
        } else {
            self.nc
        }
    }
}

/// A coil: the node of its positive terminal (the other one is ground) and
/// the switches that it actuates.
pub struct Coil {
    pub node: NodeId,
    pub switches: Vec<SwitchId>,
}

impl View for Coil {
    type V = (NodeId, Seq<SwitchId>);

    open spec fn view(&self) -> (NodeId, Seq<SwitchId>) {
        (self.node, self.switches@)
    }
}

/// Switch `sw`, in position `active`, conducts between `a` and `b`.
pub open spec fn joins(sw: Switch, active: bool, a: NodeId, b: NodeId) -> bool {
    (sw.pole == a && sw.throw(active) == b) || (sw.pole == b && sw.throw(active) == a)
}

/// Some switch of `switches`, in its position of `positions`, conducts between
/// `a` and `b`.
pub open spec fn conducts(switches: Seq<Switch>, positions: Seq<bool>, a: NodeId, b: NodeId) -> bool {
    exists|s: int| 0 <= s < switches.len() && #[trigger] joins(switches[s], positions[s], a, b)
}

/// The adjacency lists `conn` hold exactly the edges that the switches close.
pub open spec fn wiring(conn: Seq<Seq<NodeId>>, switches: Seq<Switch>, positions: Seq<bool>) -> bool {
    &&& closed_lists(conn)
    &&& forall|a: NodeId, b: NodeId|
        (a as int) < conn.len() && (b as int) < conn.len() ==> (#[trigger] linked(conn, a, b)
            <==> conducts(switches, positions, a, b))
}

/// The neighbours that the first `m` switches give node `x` in `positions`,
/// in the order they are added: for each switch, its closed terminal if its
/// pole is `x`, then its pole if its closed terminal is `x`.
pub open spec fn ends(switches: Seq<Switch>, positions: Seq<bool>, x: NodeId, m: int) -> Seq<NodeId>
    decreases m,
{
    if m <= 0 {
        Seq::empty()
    } else {
        let sw = switches[m - 1];
        let b = sw.throw(positions[m - 1]);
        let first = if sw.pole == x {
            ends(switches, positions, x, m - 1).push(b)
        } else {
            ends(switches, positions, x, m - 1)
        };
        if b == x {
            first.push(sw.pole)
        } else {
            first
        }
    }
}

/// The adjacency lists of `n` nodes that `switches` give in `positions`:
/// one entry for each end of each closed edge.
pub open spec fn wired(switches: Seq<Switch>, positions: Seq<bool>, n: nat) -> Seq<Seq<NodeId>> {
    Seq::new(n, |x: int| ends(switches, positions, x as NodeId, switches.len() as int))
}

/// Every terminal of every switch is a node below `n`.
pub open spec fn terminals_below(switches: Seq<Switch>, n: nat) -> bool {
    forall|s: int|
        0 <= s < switches.len() ==> (#[trigger] switches[s]).pole < n && switches[s].no < n
            && switches[s].nc < n
}

/// Every coil sits on a node below `n` and actuates switches below `m`.
pub open spec fn coils_below(coils: Seq<(NodeId, Seq<SwitchId>)>, n: nat, m: nat) -> bool {
    forall|c: int|
        0 <= c < coils.len() ==> (#[trigger] coils[c]).0 < n && forall|j: int|
            0 <= j < coils[c].1.len() ==> (#[trigger] coils[c].1[j]) < m
}

/// A simulated relay circuit: its wiring, the positions of its switches,
/// the nodes driven for the next step, and what the traced nodes showed in
/// the last one.
pub struct Circuit {
    num_nodes: usize,
    coils: Vec<Coil>,
    switches: Vec<Switch>,
    labels: LabelTable,
    traced: Vec<bool>,
    traces: Vec<bool>,
    sources: Vec<NodeId>,
    switch_positions: Vec<bool>,
    connections: Vec<Vec<NodeId>>,
}

impl Circuit {
    pub closed spec fn num_nodes(&self) -> nat {
        self.num_nodes as nat
    }

    /// Which node each handle names.
    pub closed spec fn labels(&self) -> Map<HandleView, NodeId> {
        self.labels.map()
    }

    pub closed spec fn switches(&self) -> Seq<Switch> {
        self.switches@
    }

    /// Each coil: its node and the switches it actuates.
    pub closed spec fn coils(&self) -> Seq<(NodeId, Seq<SwitchId>)> {
        self.coils@.map_values(|c: Coil| c@)
    }

    /// Which nodes are traced, by node.
    pub closed spec fn traced(&self) -> Seq<bool> {
        self.traced@
    }

    /// What each node showed in the last step; false for untraced nodes.
    pub closed spec fn traces(&self) -> Seq<bool> {
        self.traces@
    }

    /// The nodes driven from outside in the next step.
    pub closed spec fn sources(&self) -> Seq<NodeId> {
        self.sources@
    }

    /// The position of each switch: true is active (pole on `no`).
    pub closed spec fn switch_positions(&self) -> Seq<bool> {
        self.switch_positions@
    }

    /// The adjacency lists that the current switch positions give.
    pub closed spec fn connections(&self) -> Seq<Seq<NodeId>> {
        rows(&self.connections)
    }

    pub closed spec fn wf(&self) -> bool {
        let n = self.num_nodes as nat;
        &&& n >= 1
        &&& self.traced@.len() == n
        &&& self.traces@.len() == n
        &&& self.labels.wf()
        &&& self.labels.nodes_below(n)
        &&& self.labels.map().contains_key(ground_view())
        &&& self.labels.map()[ground_view()] == 0
        &&& coils_below(self.coils(), n, self.switches@.len())
        &&& terminals_below(self.switches@, n)
        &&& self.switch_positions@.len() == self.switches@.len()
        &&& forall|k: int| 0 <= k < self.sources@.len() ==> (#[trigger] self.sources@[k] as int) < n
        &&& self.connections@.len() == n
        &&& wiring(self.connections(), self.switches@, self.switch_positions@)
        &&& self.connections() == wired(self.switches@, self.switch_positions@, n)
    }

    /// The nodes energized in a step: the sources and the ground rail.
    pub open spec fn seeds(&self) -> Seq<NodeId> {
        self.sources().push(self.labels()[ground_view()])
    }

    /// Node `n` is reached by voltage in the next step.
    pub open spec fn energized(&self, n: NodeId) -> bool {
        reachable(self.connections(), self.seeds(), n)
    }

    /// Some energized coil actuates switch `s`.
    pub open spec fn driven(&self, s: SwitchId) -> bool {
        exists|c: int|
            0 <= c < self.coils().len() && self.energized(self.coils()[c].0) && (#[trigger] self.coils()[c]).1.contains(s)
    }

    /// The switch positions that the next step brings into effect.
    pub open spec fn activation(&self) -> Seq<bool> {
        Seq::new(self.switches().len(), |s: int| self.driven(s as SwitchId))
    }

    /// What the nodes show after the next step: traced nodes their
    /// energization, the others what they showed before.
    pub open spec fn observation(&self) -> Seq<bool> {
        Seq::new(
            self.num_nodes(),
            |n: int|
                if self.traced()[n] {
                    self.energized(n as NodeId)
                } else {
                    self.traces()[n]
                },
        )
    }

    /// `next` is what one step makes of `self`: the switch positions that the
    /// energized coils called for, the traced nodes' energization, and no
    /// sources.
    pub open spec fn steps_to(&self, next: &Circuit) -> bool {
        &&& next.wf()
        &&& next.same_wiring(self)
        &&& next.switch_positions() == self.activation()
        &&& next.traces() == self.observation()
        &&& next.sources() == Seq::<NodeId>::empty()
        &&& next.connections() == wired(next.switches(), next.switch_positions(), next.num_nodes())
    }

    /// `self` and `other` agree in all but the sources and the traces.
    pub open spec fn same_state(&self, other: &Circuit) -> bool {
        &&& self.same_wiring(other)
        &&& self.switch_positions() == other.switch_positions()
        &&& self.connections() == other.connections()
    }

    /// `self` and `other` have one wiring: nodes, names, switches, coils and
    /// traced nodes.
    pub open spec fn same_wiring(&self, other: &Circuit) -> bool {
        &&& self.num_nodes() == other.num_nodes()
        &&& self.labels() == other.labels()
        &&& self.switches() == other.switches()
        &&& self.coils() == other.coils()
        &&& self.traced() == other.traced()
    }
}

/// A sequence with `z` pushed holds what it held, and `z`.
pub proof fn lemma_push_contains(s: Seq<NodeId>, z: NodeId, y: NodeId)
    ensures
        s.push(z).contains(y) <==> (s.contains(y) || y == z),
{
    if s.contains(y) {
        let j = choose|j: int| 0 <= j < s.len() && s[j] == y;
        assert(s.push(z)[j] == y);
    }
    if y == z {
        assert(s.push(z)[s.len() as int] == y);
    }
    if s.push(z).contains(y) && y != z {
        let j = choose|j: int| 0 <= j < s.len() + 1 && s.push(z)[j] == y;
        assert(s[j] == y);
    }
}

/// Some coil among the first `upto`, on a node that `live` marks, actuates
/// switch `s`.
pub open spec fn driven_by(coils: Seq<(NodeId, Seq<SwitchId>)>, live: Seq<bool>, upto: int, s: SwitchId) -> bool {
    exists|c: int| 0 <= c < upto && live[coils[c].0 as int] && (#[trigger] coils[c]).1.contains(s)
}

/// Adds the edge between `a` and `b`, in both directions.
fn connect(connections: &mut Vec<Vec<NodeId>>, a: NodeId, b: NodeId)
    requires
        (a as int) < old(connections)@.len(),
        (b as int) < old(connections)@.len(),
        closed_lists(rows(old(connections))),
    ensures
        final(connections)@.len() == old(connections)@.len(),
        closed_lists(rows(final(connections))),
        forall|x: NodeId, y: NodeId|
            #[trigger] linked(rows(final(connections)), x, y) <==> (linked(rows(old(connections)), x, y)
                || (x == a && y == b) || (x == b && y == a)),
        forall|x: int|
            0 <= x < old(connections)@.len() ==> #[trigger] rows(final(connections))[x] == ({
                let first = if x == a as int {
                    rows(old(connections))[x].push(b)
                } else {
                    rows(old(connections))[x]
                };
                if x == b as int {
                    first.push(a)
                } else {
                    first
                }
            }),
{
    let ghost g0 = rows(connections);
    connections[a].push(b);
    let ghost g1 = rows(connections);
    assert(g1 =~= g0.update(a as int, g0[a as int].push(b)));
    connections[b].push(a);
    let ghost g2 = rows(connections);
    assert(g2 =~= g1.update(b as int, g1[b as int].push(a)));
    assert forall|x: NodeId, y: NodeId|
        #[trigger] linked(g2, x, y) <==> (linked(g0, x, y) || (x == a && y == b) || (x == b && y == a)) by {
        if (x as int) < g0.len() {
            lemma_push_contains(g0[x as int], b, y);
            lemma_push_contains(g1[x as int], a, y);
        }
    }
    assert forall|x: int, j: int| 0 <= x < g2.len() && 0 <= j < g2[x].len() implies (#[trigger] g2[x][j] as int) < g2.len() by {
        if x == b as int && j == g2[x].len() - 1 {
        } else if x == b as int {
            assert(g2[x][j] == g1[x][j]);
            if x == a as int && j == g1[x].len() - 1 {
            } else if x == a as int {
                assert(g1[x][j] == g0[x][j]);
            }
        } else if x == a as int && j == g1[x].len() - 1 {
        } else if x == a as int {
            assert(g2[x][j] == g0[x][j]);
        }
    }
}

/// The adjacency lists of the edges that `switches` close in `positions`.
fn wire(switches: &Vec<Switch>, positions: &Vec<bool>, n: usize) -> (conn: Vec<Vec<NodeId>>)
    requires
        positions@.len() == switches@.len(),
        terminals_below(switches@, n as nat),
    ensures
        conn@.len() == n,
        wiring(rows(&conn), switches@, positions@),
        rows(&conn) == wired(switches@, positions@, n as nat),
{
    let mut conn: Vec<Vec<NodeId>> = Vec::new();
    let mut i: usize = 0;
    while i < n
        invariant
            i <= n,
            conn@.len() == i,
            forall|x: int| 0 <= x < i ==> (#[trigger] conn@[x])@.len() == 0,
        decreases n - i,
    {
        conn.push(Vec::new());
        i = i + 1;
    }
    assert forall|x: int| 0 <= x < n implies #[trigger] rows(&conn)[x] == ends(switches@, positions@, x as NodeId, 0) by {
        assert(rows(&conn)[x] =~= Seq::<NodeId>::empty());
    }
    let mut s: usize = 0;
    while s < switches.len()
        invariant
            positions@.len() == switches@.len(),
            terminals_below(switches@, n as nat),
            s <= switches@.len(),
            conn@.len() == n,
            closed_lists(rows(&conn)),
            forall|a: NodeId, b: NodeId|
                (a as int) < n && (b as int) < n ==> (#[trigger] linked(rows(&conn), a, b) <==> exists|t: int|
                    0 <= t < s && #[trigger] joins(switches@[t], positions@[t], a, b)),
            forall|x: int| 0 <= x < n ==> #[trigger] rows(&conn)[x] == ends(switches@, positions@, x as NodeId, s as int),
        decreases switches@.len() - s,
    {
        let sw = switches[s];
        let branch = if positions[s] {
            sw.no
        } else {
            sw.nc
        };
        let ghost before = rows(&conn);
        connect(&mut conn, sw.pole, branch);
        proof {
            assert(switches@[s as int] == sw);
            assert(branch == sw.throw(positions@[s as int]));
            assert forall|x: int| 0 <= x < n implies #[trigger] rows(&conn)[x] == ends(
                switches@,
                positions@,
                x as NodeId,
                s + 1,
            ) by {
                assert(before[x] == ends(switches@, positions@, x as NodeId, s as int));
                assert((x as NodeId) as int == x);
            }
            assert forall|a: NodeId, b: NodeId|
                (a as int) < n && (b as int) < n implies (#[trigger] linked(rows(&conn), a, b) <==> exists|t: int|
                    0 <= t < s + 1 && #[trigger] joins(switches@[t], positions@[t], a, b)) by {
                if linked(rows(&conn), a, b) {
                    if linked(before, a, b) {
                        let t = choose|t: int| 0 <= t < s && #[trigger] joins(switches@[t], positions@[t], a, b);
                    } else {
                        assert(joins(switches@[s as int], positions@[s as int], a, b));
                    }
                }
                if exists|t: int| 0 <= t < s + 1 && #[trigger] joins(switches@[t], positions@[t], a, b) {
                    let t = choose|t: int| 0 <= t < s + 1 && #[trigger] joins(switches@[t], positions@[t], a, b);
                    if t < s {
                        assert(linked(before, a, b));
                    }
                }
            }
        }
        s = s + 1;
    }
    assert(rows(&conn) =~= wired(switches@, positions@, n as nat));
    conn
}

impl Circuit {
    /// A circuit at rest: every switch in its normally-closed position,
    /// nothing driven and nothing observed yet.
    pub(crate) fn assemble(
        num_nodes: usize,
        coils: Vec<Coil>,
        switches: Vec<Switch>,
        labels: LabelTable,
        traced: Vec<bool>,
    ) -> (r: Circuit)
        requires
            num_nodes >= 1,
            traced@.len() == num_nodes,
            labels.wf(),
            labels.nodes_below(num_nodes as nat),
            labels.map().contains_key(ground_view()),
            labels.map()[ground_view()] == 0,
            coils_below(coils@.map_values(|c: Coil| c@), num_nodes as nat, switches@.len()),
            terminals_below(switches@, num_nodes as nat),
        ensures
            r.wf(),
            r.num_nodes() == num_nodes,
            r.coils() == coils@.map_values(|c: Coil| c@),
            r.switches() == switches@,
            r.labels() == labels.map(),
            r.traced() == traced@,
            r.traces() == Seq::new(num_nodes as nat, |i: int| false),
            r.switch_positions() == Seq::new(switches@.len(), |i: int| false),
            r.sources() == Seq::<NodeId>::empty(),
    {
        let mut traces: Vec<bool> = Vec::new();
        let mut i: usize = 0;
        while i < num_nodes
            invariant
                i <= num_nodes,
                traces@ == Seq::new(i as nat, |k: int| false),
            decreases num_nodes - i,
        {
            traces.push(false);
            i = i + 1;
            assert(traces@ =~= Seq::new(i as nat, |k: int| false));
        }
        let mut positions: Vec<bool> = Vec::new();
        let mut s: usize = 0;
        while s < switches.len()
            invariant
                s <= switches@.len(),
                positions@ == Seq::new(s as nat, |k: int| false),
            decreases switches@.len() - s,
        {
            positions.push(false);
            s = s + 1;
            assert(positions@ =~= Seq::new(s as nat, |k: int| false));
        }
        let connections = wire(&switches, &positions, num_nodes);
        let r = Circuit {
            num_nodes,
            coils,
            switches,
            labels,
            traced,
            traces,
            sources: Vec::new(),
            switch_positions: positions,
            connections,
        };
        assert(r.sources() =~= Seq::<NodeId>::empty());
        r
    }

    /// What the nodes show, given which of them `visited` marks energized.
    fn observe(&self, visited: &Vec<bool>) -> (r: Vec<bool>)
        requires
            self.wf(),
            visited@.len() == self.num_nodes(),
        ensures
            r@ == Seq::new(
                self.num_nodes(),
                |n: int|
                    if self.traced()[n] {
                        visited@[n]
                    } else {
                        self.traces()[n]
                    },
            ),
    {
        let mut r: Vec<bool> = Vec::new();
        let mut n: usize = 0;
        while n < self.num_nodes
            invariant
                self.wf(),
                visited@.len() == self.num_nodes(),
                n <= self.num_nodes(),
                r@ == Seq::new(
                    n as nat,
                    |k: int|
                        if self.traced()[k] {
                            visited@[k]
                        } else {
                            self.traces()[k]
                        },
                ),
            decreases self.num_nodes() - n,
        {
            if self.traced[n] {
                r.push(visited[n]);
            } else {
                r.push(self.traces[n]);
            }
            n = n + 1;
            assert(r@ =~= Seq::new(
                n as nat,
                |k: int|
                    if self.traced()[k] {
                        visited@[k]
                    } else {
                        self.traces()[k]
                    },
            ));
        }
        r
    }

    /// Which switches the coils on nodes that `visited` marks actuate.
    fn actuate(&self, visited: &Vec<bool>) -> (r: Vec<bool>)
        requires
            self.wf(),
            visited@.len() == self.num_nodes(),
        ensures
            r@.len() == self.switches().len(),
            forall|s: SwitchId|
                (s as int) < self.switches().len() ==> #[trigger] r@[s as int] == driven_by(
                    self.coils(),
                    visited@,
                    self.coils().len() as int,
                    s,
                ),
    {
        let mut r: Vec<bool> = Vec::new();
        let mut s: usize = 0;
        while s < self.switches.len()
            invariant
                s <= self.switches@.len(),
                r@.len() == s,
                forall|k: int| 0 <= k < s ==> !r@[k],
            decreases self.switches@.len() - s,
        {
            r.push(false);
            s = s + 1;
        }
        let ghost coils = self.coils();
        let mut c: usize = 0;
        while c < self.coils.len()
            invariant
                self.wf(),
                coils == self.coils(),
                visited@.len() == self.num_nodes(),
                c <= coils.len(),
                r@.len() == self.switches().len(),
                forall|s: SwitchId| (s as int) < r@.len() ==> #[trigger] r@[s as int] == driven_by(coils, visited@, c as int, s),
            decreases coils.len() - c,
        {
            let coil = &self.coils[c];
            assert(coils[c as int] == coil@);
            if visited[coil.node] {
                let mut j: usize = 0;
                while j < coil.switches.len()
                    invariant
                        self.wf(),
                        coils == self.coils(),
                        c < coils.len(),
                        coils[c as int] == coil@,
                        visited@.len() == self.num_nodes(),
                        visited@[coil.node as int],
                        j <= coil.switches@.len(),
                        r@.len() == self.switches().len(),
                        forall|s: SwitchId|
                            (s as int) < r@.len() ==> #[trigger] r@[s as int] == (driven_by(coils, visited@, c as int, s)
                                || coil.switches@.subrange(0, j as int).contains(s)),
                    decreases coil.switches@.len() - j,
                {
                    let t = coil.switches[j];
                    assert(coils_below(coils, self.num_nodes(), self.switches().len()));
                    assert(coils[c as int].1[j as int] == t);
                    let ghost r0 = r@;
                    r.set(t, true);
                    proof {
                        assert forall|s: SwitchId| (s as int) < r@.len() implies #[trigger] r@[s as int] == (driven_by(
                            coils,
                            visited@,
                            c as int,
                            s,
                        ) || coil.switches@.subrange(0, j + 1).contains(s)) by {
                            let sub = coil.switches@.subrange(0, j as int);
                            assert(coil.switches@.subrange(0, j + 1) =~= sub.push(t));
                            lemma_push_contains(sub, t, s);
                            assert(r@[s as int] == (r0[s as int] || s == t));
                        }
                    }
                    j = j + 1;
                }
                proof {
                    assert(coil.switches@.subrange(0, j as int) =~= coil.switches@);
                    assert forall|s: SwitchId| (s as int) < r@.len() implies #[trigger] r@[s as int] == driven_by(
                        coils,
                        visited@,
                        c + 1,
                        s,
                    ) by {
                        if driven_by(coils, visited@, c + 1, s) {
                            let k = choose|k: int|
                                0 <= k < c + 1 && visited@[coils[k].0 as int] && (#[trigger] coils[k]).1.contains(s);
                            if k < c {
                                assert(driven_by(coils, visited@, c as int, s));
                            }
                        }
                        if coil.switches@.contains(s) {
                            assert(coils[c as int].1.contains(s));
                        }
                        if driven_by(coils, visited@, c as int, s) {
                            let k = choose|k: int|
                                0 <= k < c && visited@[coils[k].0 as int] && (#[trigger] coils[k]).1.contains(s);
                            assert(driven_by(coils, visited@, c + 1, s));
                        }
                    }
                }
            } else {
                proof {
                    assert forall|s: SwitchId| (s as int) < r@.len() implies #[trigger] r@[s as int] == driven_by(
                        coils,
                        visited@,
                        c + 1,
                        s,
                    ) by {
                        if driven_by(coils, visited@, c + 1, s) {
                            let k = choose|k: int|
                                0 <= k < c + 1 && visited@[coils[k].0 as int] && (#[trigger] coils[k]).1.contains(s);
                            assert(k != c);
                            assert(driven_by(coils, visited@, c as int, s));
                        }
                        if driven_by(coils, visited@, c as int, s) {
                            let k = choose|k: int|
                                0 <= k < c && visited@[coils[k].0 as int] && (#[trigger] coils[k]).1.contains(s);
                            assert(driven_by(coils, visited@, c + 1, s));
                        }
                    }
                }
            }
            c = c + 1;
        }
        r
    }
}

impl Circuit {
    /// The first phase of a step: floods voltage from the sources and the
    /// ground rail through the closed switches, records what the traced
    /// nodes show, clears the sources, and returns the switch positions that
    /// the energized coils call for.
    pub fn step_a(&mut self) -> (next: Vec<bool>)
        requires
            old(self).wf(),
        ensures
            final(self).wf(),
            final(self).same_state(old(self)),
            final(self).traces() == old(self).observation(),
            final(self).sources() == Seq::<NodeId>::empty(),
            next@ == old(self).activation(),
    {
        let ground = self.labels.get(&Handle::ground());
        let ground = ground.unwrap();
        self.sources.push(ground);
        assert(self.sources@ == old(self).seeds());
        let visited = flood(&self.connections, &self.sources);
        assert(forall|v: int| 0 <= v < self.num_nodes() ==> #[trigger] visited@[v] == old(self).energized(v as NodeId));
        let next = self.actuate(&visited);
        let traces = self.observe(&visited);
        self.traces = traces;
        self.sources = Vec::new();
        let switch_count = next.len();
        proof {
            let c = old(self);
            assert(switch_count == c.switches().len());
            assert(self.sources() =~= Seq::<NodeId>::empty());
            assert(self.traces() =~= c.observation());
            assert forall|s: SwitchId| (s as int) < next@.len() implies next@[s as int] == #[trigger] c.driven(s) by {
                let coils = c.coils();
                assert(coils_below(coils, c.num_nodes(), c.switches().len()));
                assert(next@[s as int] == driven_by(coils, visited@, coils.len() as int, s));
                if driven_by(coils, visited@, coils.len() as int, s) {
                    let k = choose|k: int|
                        0 <= k < coils.len() && visited@[coils[k].0 as int] && (#[trigger] coils[k]).1.contains(s);
                    assert(visited@[coils[k].0 as int] == c.energized(coils[k].0));
                    assert(c.driven(s));
                }
                if c.driven(s) {
                    let k = choose|k: int|
                        0 <= k < coils.len() && c.energized(coils[k].0) && (#[trigger] coils[k]).1.contains(s);
                    assert(visited@[coils[k].0 as int] == c.energized(coils[k].0));
                    assert(driven_by(coils, visited@, coils.len() as int, s));
                }
            }
            assert forall|i: int| 0 <= i < next@.len() implies next@[i] == c.activation()[i] by {
                let s = i as SwitchId;
                assert(s as int == i);
                assert(next@[s as int] == c.driven(s));
            }
            assert(next@ =~= c.activation());
        }
        next
    }

    /// The second phase of a step: brings `next` into effect and rebuilds the
    /// connections from it.
    pub fn step_b(&mut self, next: Vec<bool>)
        requires
            old(self).wf(),
            next@.len() == old(self).switches().len(),
        ensures
            final(self).wf(),
            final(self).same_wiring(old(self)),
            final(self).switch_positions() == next@,
            final(self).connections() == wired(final(self).switches(), next@, final(self).num_nodes()),
            final(self).traces() == old(self).traces(),
            final(self).sources() == old(self).sources(),
    {
        let connections = wire(&self.switches, &next, self.num_nodes);
        self.switch_positions = next;
        self.connections = connections;
    }

    /// One relay step: what the coils energized now call for takes effect at
    /// the end of the step, so that each relay acts with a delay of one step.
    pub fn step(&mut self)
        requires
            old(self).wf(),
        ensures
            old(self).steps_to(final(self)),
    {
        let next = self.step_a();
        self.step_b(next);
    }

    /// Drives the node that `handle` names in the next step; does nothing
    /// when no node has that name.
    pub fn set(&mut self, handle: &Handle)
        requires
            old(self).wf(),
        ensures
            final(self).wf(),
            final(self).same_state(old(self)),
            final(self).traces() == old(self).traces(),
            final(self).sources() == if old(self).labels().contains_key(handle@) {
                old(self).sources().push(old(self).labels()[handle@])
            } else {
                old(self).sources()
            },
    {
        if let Some(node) = self.labels.get(handle) {
            self.sources.push(node);
        }
    }

    /// What the node that `handle` names showed in the last step.
    pub fn inspect(&self, handle: &Handle) -> (r: bool)
        requires
            self.wf(),
            self.labels().contains_key(handle@),
            self.traced()[self.labels()[handle@] as int],
        ensures
            r == self.traces()[self.labels()[handle@] as int],
    {
        let node = self.labels.get(handle).unwrap();
        self.traces[node]
    }

    /// The node that `handle` names, if any.
    pub fn node_of(&self, handle: &Handle) -> (r: Option<NodeId>)
        requires
            self.wf(),
        ensures
            r == if self.labels().contains_key(handle@) {
                Some(self.labels()[handle@])
            } else {
                None
            },
    {
        self.labels.get(handle)
    }

    /// What node `node` showed in the last step (false if it is not traced).
    pub fn node_trace(&self, node: NodeId) -> (r: bool)
        requires
            self.wf(),
            (node as int) < self.num_nodes(),
        ensures
            r == self.traces()[node as int],
    {
        self.traces[node]
    }

    /// The position of switch `id`: true when it is active.
    pub fn switch_position(&self, id: SwitchId) -> (r: bool)
        requires
            self.wf(),
            (id as int) < self.switches().len(),
        ensures
            r == self.switch_positions()[id as int],
    {
        self.switch_positions[id]
    }
}

/// The 32-bit two's-complement form of `k`, as an unsigned number.
pub open spec fn word_of(k: i32) -> nat {
    if k >= 0 {
        k as nat
    } else {
        (k + 0x1_0000_0000) as nat
    }
}

/// Bit `i` of the two's-complement form of `k`.
pub open spec fn bit_of(k: i32, i: nat) -> bool {
    (word_of(k) / pow2(i)) % 2 == 1
}

/// Some entry of `entries` before position `j` is the handle at `index` of
/// `bus`.
pub open spec fn bus_seen(entries: Seq<(HandleView, NodeId)>, bus: &Bus, index: int, j: int) -> bool {
    exists|jj: int| 0 <= jj < j && #[trigger] entries[jj].0 == bus.member(index)
}

/// Whether bit `i` of the two's-complement form of `k` is set.
pub fn bit_is_set(k: i32, i: u32) -> (r: bool)
    requires
        i < 32,
    ensures
        r == bit_of(k, i as nat),
{
    let word: u32 = if k >= 0 {
        k as u32
    } else {
        (k as i64 + 0x1_0000_0000) as u32
    };
    proof {
        lemma_u32_shr_is_div(word, i);
    }
    (word >> i) % 2 == 1
}

/// `h` is a handle of `bus` whose index is a set bit of `k`.
pub open spec fn bus_selects(bus: &Bus, k: i32, h: HandleView) -> bool {
    h.0 == bus.name@ && h.2 == bus.sup && h.1 is Some && bit_of(k, h.1.unwrap() as nat)
}

impl Circuit {
    /// Every handle of `bus` that names a node has an index in 0..32.
    pub open spec fn bus_indexed(&self, bus: &Bus) -> bool {
        forall|h: HandleView|
            #[trigger] self.labels().contains_key(h) && h.0 == bus.name@ && h.2 == bus.sup ==> h.1 is Some
                && 0 <= h.1.unwrap() < 32
    }

    /// A node is named by the handle at `index` of `bus`.
    pub open spec fn bus_has(&self, bus: &Bus, index: int) -> bool {
        self.labels().contains_key(bus.member(index))
    }

    /// Every node of `bus` is traced.
    pub open spec fn bus_traced(&self, bus: &Bus) -> bool {
        forall|i: int| 0 <= i < 32 && #[trigger] self.bus_has(bus, i) ==> self.traced()[self.labels()[bus.member(i)] as int]
    }

    /// The node at `index` of `bus` showed voltage in the last step.
    pub open spec fn bus_bit(&self, bus: &Bus, index: int) -> bool {
        self.bus_has(bus, index) && self.traces()[self.labels()[bus.member(index)] as int]
    }

    /// The largest index of `bus` that names a node.
    pub open spec fn bus_top(&self, bus: &Bus) -> int {
        choose|k: int|
            0 <= k < 32 && self.bus_has(bus, k) && forall|i: int| 0 <= i < 32 && #[trigger] self.bus_has(bus, i) ==> i <= k
    }

    /// The number whose bits below `count` are the bits of `bus`.
    pub open spec fn bus_raw(&self, bus: &Bus, count: nat) -> int
        decreases count,
    {
        if count == 0 {
            0
        } else {
            self.bus_raw(bus, (count - 1) as nat) + if self.bus_bit(bus, count - 1) {
                pow2((count - 1) as nat) as int
            } else {
                0
            }
        }
    }

    /// The bits of `bus` up to its largest index, read as a two's-complement
    /// number whose sign bit is that largest index.
    pub open spec fn bus_value(&self, bus: &Bus) -> int {
        let k = self.bus_top(bus);
        let raw = self.bus_raw(bus, (k + 1) as nat);
        if raw >= pow2(k as nat) {
            raw - pow2((k + 1) as nat)
        } else {
            raw
        }
    }

    /// The bits below `count` make a number in `0 .. 2^count`.
    pub proof fn lemma_bus_raw_bound(&self, bus: &Bus, count: nat)
        ensures
            0 <= self.bus_raw(bus, count) < pow2(count),
        decreases count,
    {
        lemma2_to64();
        if count > 0 {
            self.lemma_bus_raw_bound(bus, (count - 1) as nat);
            lemma_pow2_unfold(count);
        }
    }

    /// The nodes of `bus` whose index is a set bit of `k`.
    fn bus_sources(&self, bus: &Bus, k: i32) -> (r: Vec<NodeId>)
        requires
            self.wf(),
            self.bus_indexed(bus),
        ensures
            forall|t: int| 0 <= t < r@.len() ==> (#[trigger] r@[t] as int) < self.num_nodes(),
            forall|n: NodeId|
                #[trigger] r@.contains(n) <==> exists|i: int|
                    0 <= i < 32 && self.bus_has(bus, i) && self.labels()[bus.member(i)] == n && bit_of(k, i as nat),
    {
        let ghost entries = self.labels.entries();
        proof {
            self.labels.lemma_wf();
        }
        let mut r: Vec<NodeId> = Vec::new();
        let mut j: usize = 0;
        while j < self.labels.len()
            invariant
                self.wf(),
                self.bus_indexed(bus),
                entries == self.labels.entries(),
                j <= entries.len(),
                forall|t: int| 0 <= t < r@.len() ==> (#[trigger] r@[t] as int) < self.num_nodes(),
                forall|n: NodeId|
                    #[trigger] r@.contains(n) <==> exists|jj: int|
                        0 <= jj < j && entries[jj].1 == n && #[trigger] bus_selects(bus, k, entries[jj].0),
            decreases entries.len() - j,
        {
            proof {
                self.labels.lemma_wf();
            }
            let (h, node) = self.labels.entry(j);
            let ghost r0 = r@;
            assert(self.labels().contains_key(entries[j as int].0));
            let mut chosen = false;
            if bus.holds(h) {
                let index = h.index.unwrap();
                chosen = bit_is_set(k, index as u32);
            }
            assert(chosen == bus_selects(bus, k, entries[j as int].0));
            if chosen {
                r.push(node);
            }
            proof {
                assert forall|n: NodeId| #[trigger] r@.contains(n) <==> exists|jj: int|
                    0 <= jj < j + 1 && entries[jj].1 == n && #[trigger] bus_selects(bus, k, entries[jj].0) by {
                    lemma_push_contains(r0, node, n);
                    if r0.contains(n) {
                        let jj = choose|jj: int| 0 <= jj < j && entries[jj].1 == n && #[trigger] bus_selects(bus, k, entries[jj].0);
                        assert(0 <= jj < j + 1 && entries[jj].1 == n && bus_selects(bus, k, entries[jj].0));
                    }
                    if r@.contains(n) && !r0.contains(n) {
                        assert(chosen);
                        assert(entries[j as int].1 == n && bus_selects(bus, k, entries[j as int].0));
                    }
                    if exists|jj: int| 0 <= jj < j + 1 && entries[jj].1 == n && #[trigger] bus_selects(bus, k, entries[jj].0) {
                        let jj = choose|jj: int| 0 <= jj < j + 1 && entries[jj].1 == n && #[trigger] bus_selects(bus, k, entries[jj].0);
                        if jj < j {
                            assert(r0.contains(n));
                        } else {
                            assert(chosen);
                            assert(r@[r@.len() - 1] == n);
                        }
                    }
                }
            }
            j = j + 1;
        }
        proof {
            self.labels.lemma_wf();
            assert forall|n: NodeId| #[trigger] r@.contains(n) <==> exists|i: int|
                0 <= i < 32 && self.bus_has(bus, i) && self.labels()[bus.member(i)] == n && bit_of(k, i as nat) by {
                if r@.contains(n) {
                    let jj = choose|jj: int| 0 <= jj < j && entries[jj].1 == n && #[trigger] bus_selects(bus, k, entries[jj].0);
                    let h = entries[jj].0;
                    assert(self.labels().contains_key(h));
                    let i = h.1.unwrap() as int;
                    assert(h == bus.member(i));
                    assert(self.bus_has(bus, i));
                }
                if exists|i: int| 0 <= i < 32 && self.bus_has(bus, i) && self.labels()[bus.member(i)] == n && bit_of(k, i as nat) {
                    let i = choose|i: int| 0 <= i < 32 && self.bus_has(bus, i) && self.labels()[bus.member(i)] == n && bit_of(k, i as nat);
                    let jj = choose|jj: int| 0 <= jj < entries.len() && #[trigger] entries[jj].0 == bus.member(i);
                    assert(bus_selects(bus, k, entries[jj].0));
                }
            }
        }
        r
    }

    /// Drives, in the next step, each node of `bus` whose index is a set bit
    /// of `k`.
    pub fn set_bus(&mut self, bus: &Bus, k: i32)
        requires
            old(self).wf(),
            old(self).bus_indexed(bus),
        ensures
            final(self).wf(),
            final(self).same_state(old(self)),
            final(self).traces() == old(self).traces(),
            final(self).sources().len() >= old(self).sources().len(),
            final(self).sources().subrange(0, old(self).sources().len() as int) == old(self).sources(),
            forall|n: NodeId|
                #[trigger] final(self).sources().subrange(
                    old(self).sources().len() as int,
                    final(self).sources().len() as int,
                ).contains(n) <==> exists|i: int|
                    0 <= i < 32 && old(self).bus_has(bus, i) && old(self).labels()[bus.member(i)] == n && bit_of(
                        k,
                        i as nat,
                    ),
    {
        let mut added = self.bus_sources(bus, k);
        let ghost a = added@;
        self.sources.append(&mut added);
        proof {
            assert(self.sources().subrange(0, old(self).sources().len() as int) =~= old(self).sources());
            assert(self.sources().subrange(old(self).sources().len() as int, self.sources().len() as int) =~= a);
        }
    }

    /// Whether `inspect_bus` can read `bus`: some node of it is named, every
    /// handle of it has an index in 0..32, and all its nodes are traced.
    pub fn can_inspect_bus(&self, bus: &Bus) -> (r: bool)
        requires
            self.wf(),
        ensures
            r == (self.bus_indexed(bus) && self.bus_traced(bus) && exists|i: int|
                0 <= i < 32 && #[trigger] self.bus_has(bus, i)),
    {
        let ghost entries = self.labels.entries();
        proof {
            self.labels.lemma_wf();
        }
        let mut found = false;
        let mut j: usize = 0;
        while j < self.labels.len()
            invariant
                self.wf(),
                entries == self.labels.entries(),
                j <= entries.len(),
                forall|jj: int|
                    0 <= jj < j && (#[trigger] entries[jj]).0.0 == bus.name@ && entries[jj].0.2 == bus.sup
                        ==> entries[jj].0.1 is Some && 0 <= entries[jj].0.1.unwrap() < 32
                        && self.traced()[entries[jj].1 as int],
                found == exists|jj: int|
                    0 <= jj < j && (#[trigger] entries[jj]).0.0 == bus.name@ && entries[jj].0.2 == bus.sup,
            decreases entries.len() - j,
        {
            proof {
                self.labels.lemma_wf();
            }
            let (h, node) = self.labels.entry(j);
            assert(self.labels().contains_key(entries[j as int].0));
            if bus.holds(h) {
                match h.index {
                    Some(index) => {
                        if index < 0 || index >= 32 {
                            assert(!self.bus_indexed(bus));
                            return false;
                        }
                        assert(entries[j as int].0 == bus.member(index as int));
                        if !self.traced[node] {
                            assert(self.bus_has(bus, index as int));
                            assert(!self.bus_traced(bus));
                            return false;
                        }
                    },
                    None => {
                        assert(!self.bus_indexed(bus));
                        return false;
                    },
                }
                found = true;
            }
            j = j + 1;
        }
        proof {
            assert forall|h: HandleView|
                #[trigger] self.labels().contains_key(h) && h.0 == bus.name@ && h.2 == bus.sup implies h.1 is Some
                && 0 <= h.1.unwrap() < 32 by {
                let jj = choose|jj: int| 0 <= jj < entries.len() && #[trigger] entries[jj].0 == h;
                assert(entries[jj].0.0 == bus.name@);
            }
            assert forall|i: int| 0 <= i < 32 && #[trigger] self.bus_has(bus, i) implies self.traced()[self.labels()[bus.member(
                i,
            )] as int] by {
                let jj = choose|jj: int| 0 <= jj < entries.len() && #[trigger] entries[jj].0 == bus.member(i);
                assert(entries[jj].0.0 == bus.name@);
            }
            if found {
                let jj = choose|jj: int|
                    0 <= jj < j && (#[trigger] entries[jj]).0.0 == bus.name@ && entries[jj].0.2 == bus.sup;
                let i = entries[jj].0.1.unwrap() as int;
                assert(entries[jj].0 == bus.member(i));
                assert(self.bus_has(bus, i));
            }
            if exists|i: int| 0 <= i < 32 && #[trigger] self.bus_has(bus, i) {
                let i = choose|i: int| 0 <= i < 32 && #[trigger] self.bus_has(bus, i);
                let jj = choose|jj: int| 0 <= jj < entries.len() && #[trigger] entries[jj].0 == bus.member(i);
                assert(entries[jj].0.0 == bus.name@ && entries[jj].0.2 == bus.sup);
            }
        }
        found
    }

    /// The value that the nodes of `bus` showed in the last step: bit `i` is
    /// the node at index `i`, and the largest index present is the sign bit.
    pub fn inspect_bus(&self, bus: &Bus) -> (r: i32)
        requires
            self.wf(),
            self.bus_indexed(bus),
            self.bus_traced(bus),
            exists|i: int| 0 <= i < 32 && #[trigger] self.bus_has(bus, i),
        ensures
            r == self.bus_value(bus),
    {
        let ghost entries = self.labels.entries();
        proof {
            self.labels.lemma_wf();
        }
        let mut bits: Vec<bool> = Vec::new();
        let mut i: usize = 0;
        while i < 32
            invariant
                i <= 32,
                bits@.len() == i,
                forall|t: int| 0 <= t < i ==> !bits@[t],
            decreases 32 - i,
        {
            bits.push(false);
            i = i + 1;
        }
        let mut top: i8 = -1;
        let mut j: usize = 0;
        while j < self.labels.len()
            invariant
                self.wf(),
                self.bus_indexed(bus),
                entries == self.labels.entries(),
                forall|t: int|
                    0 <= t < entries.len() ==> #[trigger] self.labels().contains_key(entries[t].0)
                        && self.labels()[entries[t].0] == entries[t].1,
                j <= entries.len(),
                bits@.len() == 32,
                forall|t: int| 0 <= t < 32 ==> #[trigger] bits@[t] == (bus_seen(entries, bus, t, j as int) && self.bus_bit(bus, t)),
                -1 <= top < 32,
                forall|t: int| 0 <= t < 32 && #[trigger] bus_seen(entries, bus, t, j as int) ==> t <= top,
                top >= 0 ==> bus_seen(entries, bus, top as int, j as int),
            decreases entries.len() - j,
        {
            let (h, node) = self.labels.entry(j);
            if bus.holds(h) {
                assert(self.labels().contains_key(entries[j as int].0));
                let index = h.index.unwrap();
                assert(entries[j as int].0 == bus.member(index as int));
                let ghost bits0 = bits@;
                bits.set(index as usize, self.traces[node]);
                if index > top {
                    top = index;
                }
                proof {
                    assert forall|t: int| 0 <= t < 32 implies #[trigger] bus_seen(entries, bus, t, j + 1) == (bus_seen(
                        entries,
                        bus,
                        t,
                        j as int,
                    ) || t == index as int) by {
                        if bus_seen(entries, bus, t, j + 1) && t != index as int {
                            let jj = choose|jj: int| 0 <= jj < j + 1 && #[trigger] entries[jj].0 == bus.member(t);
                            assert(jj != j);
                        }
                        if t == index as int {
                            assert(entries[j as int].0 == bus.member(t));
                        }
                        if bus_seen(entries, bus, t, j as int) {
                            let jj = choose|jj: int| 0 <= jj < j && #[trigger] entries[jj].0 == bus.member(t);
                            assert(entries[jj].0 == bus.member(t));
                        }
                    }
                }
            } else {
                proof {
                    assert forall|t: int| 0 <= t < 32 implies #[trigger] bus_seen(entries, bus, t, j + 1) == bus_seen(
                        entries,
                        bus,
                        t,
                        j as int,
                    ) by {
                        if bus_seen(entries, bus, t, j + 1) {
                            let jj = choose|jj: int| 0 <= jj < j + 1 && #[trigger] entries[jj].0 == bus.member(t);
                            assert(jj != j);
                        }
                    }
                }
            }
            j = j + 1;
        }
        proof {
            assert forall|t: int| 0 <= t < 32 implies #[trigger] bus_seen(entries, bus, t, entries.len() as int)
                == self.bus_has(bus, t) by {
                if self.bus_has(bus, t) {
                    let jj = choose|jj: int| 0 <= jj < entries.len() && #[trigger] entries[jj].0 == bus.member(t);
                }
            }
            let w = choose|t: int| 0 <= t < 32 && #[trigger] self.bus_has(bus, t);
            assert(bus_seen(entries, bus, w, entries.len() as int));
            let k = self.bus_top(bus);
            assert(self.bus_has(bus, top as int));
            assert(0 <= k < 32 && self.bus_has(bus, k) && forall|t: int| 0 <= t < 32 && #[trigger] self.bus_has(bus, t) ==> t <= k);
            assert(bus_seen(entries, bus, k, j as int));
            assert(k <= top);
            assert(top <= k);
        }
        let mut raw: i64 = 0;
        let mut p: i64 = 1;
        let mut i: usize = 0;
        proof {
            lemma2_to64();
        }
        while i <= top as usize
            invariant
                0 <= top < 32,
                i <= top + 1,
                bits@.len() == 32,
                forall|t: int| 0 <= t < 32 ==> #[trigger] bits@[t] == self.bus_bit(bus, t),
                raw == self.bus_raw(bus, i as nat),
                p == pow2(i as nat),
                0 <= raw < p,
                p <= 0x1_0000_0000,
            decreases top + 1 - i,
        {
            proof {
                lemma_pow2_unfold((i + 1) as nat);
                lemma2_to64();
                if i + 1 < 32 {
                    assert(pow2((i + 1) as nat) <= pow2(32)) by {
                        vstd::arithmetic::power2::lemma_pow2_strictly_increases((i + 1) as nat, 32);
                    }
                }
            }
            if bits[i] {
                raw = raw + p;
            }
            p = p * 2;
            i = i + 1;
        }
        proof {
            lemma_pow2_unfold((top + 1) as nat);
        }
        let half = p / 2;
        let value = if raw >= half {
            raw - p
        } else {
            raw
        };
        value as i32
    }
}

/// Each switch closes the edge between its pole and the terminal of its
/// position, in both directions; the edge to its other terminal is there only
/// where some switch closes it. This holds of every well-formed circuit, so
/// after every step.
pub proof fn lemma_switch_edges(c: &Circuit, s: int)
    requires
        c.wf(),
        0 <= s < c.switches().len(),
    ensures
        linked(c.connections(), c.switches()[s].pole, c.switches()[s].throw(c.switch_positions()[s])),
        linked(c.connections(), c.switches()[s].throw(c.switch_positions()[s]), c.switches()[s].pole),
        linked(c.connections(), c.switches()[s].pole, c.switches()[s].throw(!c.switch_positions()[s]))
            ==> conducts(
            c.switches(),
            c.switch_positions(),
            c.switches()[s].pole,
            c.switches()[s].throw(!c.switch_positions()[s]),
        ),
{
    let sw = c.switches()[s];
    let pos = c.switch_positions()[s];
    assert(terminals_below(c.switches(), c.num_nodes()));
    assert(joins(c.switches()[s], c.switch_positions()[s], sw.pole, sw.throw(pos)));
    assert(joins(c.switches()[s], c.switch_positions()[s], sw.throw(pos), sw.pole));
    assert(linked(c.connections(), sw.pole, sw.throw(pos)));
    assert(linked(c.connections(), sw.throw(pos), sw.pole));
}

/// The connections of a well-formed circuit (so after every step) hold one
/// list per node, and in it one entry for each end of each edge that a switch
/// closes in its current position, and nothing else.
pub proof fn lemma_connections(c: &Circuit)
    requires
        c.wf(),
    ensures
        c.connections().len() == c.num_nodes(),
        c.connections() == wired(c.switches(), c.switch_positions(), c.num_nodes()),
        wiring(c.connections(), c.switches(), c.switch_positions()),
{
}

/// A coil whose node is energized in a step actuates every one of its
/// switches in the next.
pub proof fn lemma_energized_coil_actuates(c: &Circuit, i: int, s: SwitchId)
    requires
        c.wf(),
        0 <= i < c.coils().len(),
        c.coils()[i].1.contains(s),
        c.energized(c.coils()[i].0),
    ensures
        (s as int) < c.activation().len(),
        c.activation()[s as int],
{
    assert(coils_below(c.coils(), c.num_nodes(), c.switches().len()));
    let j = choose|j: int| 0 <= j < c.coils()[i].1.len() && c.coils()[i].1[j] == s;
    assert(c.coils()[i].1[j] < c.switches().len());
    assert(c.driven(s));
}

/// After a step, reading a traced node gives whether it was reached from the
/// sources or the ground rail in that step.
pub proof fn lemma_inspect_after_step(before: &Circuit, after: &Circuit, h: HandleView)
    requires
        before.wf(),
        before.steps_to(after),
        before.labels().contains_key(h),
        before.traced()[before.labels()[h] as int],
    ensures
        after.labels().contains_key(h),
        after.traced()[after.labels()[h] as int],
        after.traces()[after.labels()[h] as int] == before.energized(before.labels()[h]),
{
    assert(before.labels.nodes_below(before.num_nodes()));
}

proof fn lemma_top_exists(c: &Circuit, bus: &Bus, limit: int)
    requires
        0 <= limit <= 32,
        exists|i: int| 0 <= i < limit && #[trigger] c.bus_has(bus, i),
    ensures
        exists|k: int|
            0 <= k < limit && c.bus_has(bus, k) && forall|i: int| 0 <= i < limit && #[trigger] c.bus_has(bus, i) ==> i <= k,
    decreases limit,
{
    if c.bus_has(bus, limit - 1) {
        assert(forall|i: int| 0 <= i < limit && #[trigger] c.bus_has(bus, i) ==> i <= limit - 1);
    } else {
        let w = choose|i: int| 0 <= i < limit && #[trigger] c.bus_has(bus, i);
        assert(w < limit - 1);
        lemma_top_exists(c, bus, limit - 1);
        let k = choose|k: int|
            0 <= k < limit - 1 && c.bus_has(bus, k) && forall|i: int| 0 <= i < limit - 1 && #[trigger] c.bus_has(bus, i) ==> i <= k;
        assert(forall|i: int| 0 <= i < limit && #[trigger] c.bus_has(bus, i) ==> i <= k);
    }
}

/// The value read from a bus whose largest index is `k` lies in
/// `-2^k ..= 2^k - 1`.
pub proof fn lemma_bus_value_range(c: &Circuit, bus: &Bus)
    requires
        exists|i: int| 0 <= i < 32 && #[trigger] c.bus_has(bus, i),
    ensures
        0 <= c.bus_top(bus) < 32,
        -(pow2(c.bus_top(bus) as nat) as int) <= c.bus_value(bus) <= pow2(c.bus_top(bus) as nat) - 1,
{
    lemma_top_exists(c, bus, 32);
    let k = c.bus_top(bus);
    c.lemma_bus_raw_bound(bus, (k + 1) as nat);
    lemma_pow2_unfold((k + 1) as nat);
}

proof fn lemma_raw_is_low_bits(c: &Circuit, bus: &Bus, k: i32, m: nat)
    requires
        m <= 32,
        forall|i: int| 0 <= i < m ==> #[trigger] c.bus_bit(bus, i) == bit_of(k, i as nat),
    ensures
        c.bus_raw(bus, m) == word_of(k) % pow2(m),
    decreases m,
{
    lemma2_to64();
    if m > 0 {
        let p = (m - 1) as nat;
        lemma_raw_is_low_bits(c, bus, k, p);
        lemma_pow2_unfold(m);
        assert(pow2(m) == pow2(p) * 2);
        vstd::arithmetic::div_mod::lemma_mod_breakdown(word_of(k) as int, pow2(p) as int, 2);
        assert(c.bus_bit(bus, p as int) == bit_of(k, p));
    } else {
        assert(word_of(k) % 1 == 0);
    }
}

/// A bus whose bits, from index 0 up to its largest index `t`, are those of
/// `k` reads back as `k` whenever `k` lies in `-2^t ..= 2^t - 1`. This is the
/// arithmetic half of the round trip from `set_bus`, which drives the indices
/// of the set bits of `k`, to `inspect_bus`.
pub proof fn lemma_bus_reads_back(c: &Circuit, bus: &Bus, k: i32)
    requires
        exists|i: int| 0 <= i < 32 && #[trigger] c.bus_has(bus, i),
        forall|i: int| 0 <= i <= c.bus_top(bus) ==> #[trigger] c.bus_bit(bus, i) == bit_of(k, i as nat),
        -(pow2(c.bus_top(bus) as nat) as int) <= k < pow2(c.bus_top(bus) as nat),
    ensures
        c.bus_value(bus) == k,
{
    lemma_top_exists(c, bus, 32);
    let t = c.bus_top(bus);
    let m = (t + 1) as nat;
    lemma_raw_is_low_bits(c, bus, k, m);
    lemma_pow2_unfold(m);
    lemma2_to64();
    let w = word_of(k) as int;
    let big = pow2(m) as int;
    if k >= 0 {
        vstd::arithmetic::div_mod::lemma_small_mod(k as nat, pow2(m));
    } else {
        vstd::arithmetic::power2::lemma_pow2_adds(m, (32 - m) as nat);
        assert(pow2(32) == 0x1_0000_0000);
        let q = pow2((32 - m) as nat) as int;
        assert(w == big * (q - 1) + (k + big)) by (nonlinear_arith)
            requires
                w == k + 0x1_0000_0000,
                0x1_0000_0000 == big * q,
        ;
        vstd::arithmetic::div_mod::lemma_mod_multiples_vanish(q - 1, k + big, big);
        vstd::arithmetic::div_mod::lemma_small_mod((k + big) as nat, big as nat);
    }
}

proof fn lemma_div_shift(x: int, c: int, d: int)
    requires
        d > 0,
    ensures
        (x + c * d) / d == x / d + c,
        (x + c * d) % d == x % d,
{
    vstd::arithmetic::div_mod::lemma_fundamental_div_mod(x, d);
    let q = x / d;
    let r = x % d;
    assert(x + c * d == (q + c) * d + r) by (nonlinear_arith)
        requires
            x == d * q + r,
    ;
    vstd::arithmetic::div_mod::lemma_fundamental_div_mod_converse(x + c * d, d, q + c, r);
}

/// Bit `i` (below `m`) of the number that the bits of `bus` below `m` make
/// is the bit of `bus` at `i`.
proof fn lemma_raw_bit(c: &Circuit, bus: &Bus, m: nat, i: int)
    requires
        0 <= i < m,
    ensures
        (c.bus_raw(bus, m) / pow2(i as nat) as int) % 2 == if c.bus_bit(bus, i) {
            1int
        } else {
            0int
        },
    decreases m,
{
    let p = (m - 1) as nat;
    let r = c.bus_raw(bus, p);
    let b: int = if c.bus_bit(bus, p as int) {
        1
    } else {
        0
    };
    let big = pow2(p) as int;
    assert(c.bus_raw(bus, m) == r + b * big);
    c.lemma_bus_raw_bound(bus, p);
    vstd::arithmetic::power2::lemma_pow2_pos(p);
    if i == p as int {
        vstd::arithmetic::div_mod::lemma_fundamental_div_mod_converse(r + b * big, big, b, r);
    } else {
        lemma_raw_bit(c, bus, p, i);
        let q = (p - i) as nat;
        vstd::arithmetic::power2::lemma_pow2_adds(i as nat, q);
        assert(i as nat + q == p);
        let small = pow2(i as nat) as int;
        let step = pow2(q) as int;
        vstd::arithmetic::power2::lemma_pow2_pos(i as nat);
        assert(big == small * step);
        assert(b * big == (b * step) * small) by (nonlinear_arith)
            requires
                big == small * step,
        ;
        lemma_div_shift(r, b * step, small);
        lemma_pow2_unfold(q);
        let half = pow2((q - 1) as nat) as int;
        assert(b * step == (b * half) * 2) by (nonlinear_arith)
            requires
                step == 2 * half,
        ;
        lemma_div_shift(r / small, b * half, 2);
    }
}

/// Bit `i` of the two's-complement word of `v` is bit `i` of `v`.
proof fn lemma_word_bit(v: int, i: int)
    requires
        -0x8000_0000 <= v < 0x8000_0000,
        0 <= i < 32,
    ensures
        (word_of(v as i32) / pow2(i as nat)) % 2 == (v / pow2(i as nat) as int) % 2,
{
    lemma2_to64();
    vstd::arithmetic::power2::lemma_pow2_pos(i as nat);
    if v < 0 {
        let q = (32 - i) as nat;
        vstd::arithmetic::power2::lemma_pow2_adds(i as nat, q);
        assert(i as nat + q == 32);
        let small = pow2(i as nat) as int;
        let step = pow2(q) as int;
        assert(word_of(v as i32) as int == v + step * small) by (nonlinear_arith)
            requires
                word_of(v as i32) as int == v + 0x1_0000_0000,
                0x1_0000_0000 == small * step,
        ;
        lemma_div_shift(v, step, small);
        lemma_pow2_unfold(q);
        let half = pow2((q - 1) as nat) as int;
        lemma_div_shift(v / small, half, 2);
    }
}

/// The value read from a bus is the sign extension of its bits: below and
/// at its largest index `k` the bits of the value are the bits of the bus,
/// and every bit above `k` (up to 31) equals the bit at `k`.
pub proof fn lemma_bus_value_bits(c: &Circuit, bus: &Bus)
    requires
        exists|i: int| 0 <= i < 32 && #[trigger] c.bus_has(bus, i),
    ensures
        -0x8000_0000 <= c.bus_value(bus) < 0x8000_0000,
        forall|i: int|
            0 <= i <= c.bus_top(bus) ==> bit_of(c.bus_value(bus) as i32, i as nat) == #[trigger] c.bus_bit(bus, i),
        forall|i: int|
            c.bus_top(bus) < i < 32 ==> #[trigger] bit_of(c.bus_value(bus) as i32, i as nat) == c.bus_bit(
                bus,
                c.bus_top(bus),
            ),
{
    lemma_bus_value_range(c, bus);
    lemma2_to64();
    let k = c.bus_top(bus);
    let m = (k + 1) as nat;
    let raw = c.bus_raw(bus, m);
    let v = c.bus_value(bus);
    let top = pow2(k as nat) as int;
    c.lemma_bus_raw_bound(bus, m);
    lemma_pow2_unfold(m);
    assert(pow2(k as nat) <= pow2(31)) by {
        if k < 31 {
            vstd::arithmetic::power2::lemma_pow2_strictly_increases(k as nat, 31);
        }
    }
    lemma_raw_bit(c, bus, m, k);
    if raw < top {
        vstd::arithmetic::div_mod::lemma_fundamental_div_mod_converse(raw, top, 0, raw);
        assert(!c.bus_bit(bus, k));
    } else {
        vstd::arithmetic::div_mod::lemma_fundamental_div_mod_converse(raw, top, 1, raw - top);
        assert(c.bus_bit(bus, k));
    }
    assert forall|i: int| 0 <= i <= k implies bit_of(v as i32, i as nat) == #[trigger] c.bus_bit(bus, i) by {
        lemma_word_bit(v, i);
        lemma_raw_bit(c, bus, m, i);
        vstd::arithmetic::power2::lemma_pow2_pos(i as nat);
        if raw >= top {
            let q = (m - i) as nat;
            vstd::arithmetic::power2::lemma_pow2_adds(i as nat, q);
            assert(i as nat + q == m);
            let small = pow2(i as nat) as int;
            let step = pow2(q) as int;
            assert(v == raw + (-step) * small) by (nonlinear_arith)
                requires
                    v == raw - pow2(m),
                    pow2(m) == small * step,
            ;
            lemma_div_shift(raw, -step, small);
            lemma_pow2_unfold(q);
            let half = pow2((q - 1) as nat) as int;
            lemma_div_shift(raw / small, -half, 2);
        }
    }
    assert forall|i: int| k < i < 32 implies #[trigger] bit_of(v as i32, i as nat) == c.bus_bit(bus, k) by {
        lemma_word_bit(v, i);
        vstd::arithmetic::power2::lemma_pow2_strictly_increases(k as nat, i as nat);
        let big = pow2(i as nat) as int;
        if raw < top {
            vstd::arithmetic::div_mod::lemma_fundamental_div_mod_converse(v, big, 0, v);
        } else {
            vstd::arithmetic::div_mod::lemma_fundamental_div_mod_converse(v, big, -1, v + big);
        }
    }
}

} // verus!
