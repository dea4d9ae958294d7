//! Building a circuit: coils, switches and named nodes, collected by
//! sub-circuits that share one set of names.

use vstd::prelude::*;
use crate::circuit::{coils_below, lemma_push_contains, terminals_below, Circuit, Coil, Switch, SwitchId};
use crate::handle::{ground_view, Handle, HandleView};
use crate::labels::{unique_keys, LabelTable, NodeId};

verus! {

/// The lower-case form of a text.
pub uninterp spec fn lower_of(s: Seq<char>) -> Seq<char>;

/// Relies on `str::to_lowercase`: the lower-case form of `s`, which depends on
/// its characters alone.
#[verifier::external_body]
fn lowercase(s: &str) -> (r: String)
    ensures
        r@ == lower_of(s@),
{
    s.to_lowercase()
}

/// The family of switches that a coil named `h` actuates: its name in lower
/// case, its index, and no superscript.
pub open spec fn switch_name_of(h: HandleView) -> HandleView {
    (lower_of(h.0), h.1, None)
}

/// Switch `s` of `switches` belongs to the family that the coil named `coil`
/// actuates.
pub open spec fn links(switches: Seq<(HandleView, Switch)>, coil: HandleView, s: SwitchId) -> bool {
    (s as int) < switches.len() && switches[s as int].0 == switch_name_of(coil)
}

/// The switches of `switches` whose family is `name`.
fn switches_named(switches: &Vec<(Handle, Switch)>, name: &Handle) -> (ids: Vec<SwitchId>)
    ensures
        forall|s: SwitchId|
            #[trigger] ids@.contains(s) <==> ((s as int) < switches@.len() && switches@[s as int].0@ == name@),
{
    let mut ids: Vec<SwitchId> = Vec::new();
    let mut i: usize = 0;
    while i < switches.len()
        invariant
            i <= switches@.len(),
            forall|s: SwitchId|
                #[trigger] ids@.contains(s) <==> (s < i && switches@[s as int].0@ == name@),
        decreases switches@.len() - i,
    {
        let ghost before = ids@;
        let matched = switches[i].0 == *name;
        if matched {
            ids.push(i);
        }
        proof {
            assert forall|s: SwitchId| #[trigger] ids@.contains(s) <==> (s < i + 1 && switches@[s as int].0@ == name@) by {
                lemma_push_contains(before, i, s);
            }
        }
        i = i + 1;
    }
    ids
}

/// `c` is the circuit at rest that the builder contents `m` describe: its
/// nodes, names, switches and traced nodes are those of `m`; its coils are
/// those of `m`, in order, each actuating exactly the switches of its family;
/// every switch rests in its normally-closed position; nothing is driven or
/// observed yet.
pub open spec fn finalized(m: BuilderModel, c: &Circuit) -> bool {
    &&& c.wf()
    &&& c.num_nodes() == m.num_nodes()
    &&& c.labels() == m.labels
    &&& c.traced() == m.traced
    &&& c.switches() == m.switches.map_values(|e: (HandleView, Switch)| e.1)
    &&& c.coils().len() == m.coils.len()
    &&& forall|i: int| 0 <= i < c.coils().len() ==> (#[trigger] c.coils()[i]).0 == m.coils[i].1
    &&& forall|i: int, s: SwitchId|
        0 <= i < c.coils().len() ==> (#[trigger] c.coils()[i].1.contains(s) <==> links(m.switches, m.coils[i].0, s))
    &&& c.switch_positions() == Seq::new(c.switches().len(), |s: int| false)
    &&& c.traces() == Seq::new(c.num_nodes(), |n: int| false)
    &&& c.sources() == Seq::<NodeId>::empty()
}

/// A coil, however its name is capitalized and whatever its superscript,
/// actuates exactly the switches whose family is its name in lower case with
/// its index and no superscript. So coils that differ only in superscript, or
/// in names with one lower-case form, actuate the same switches, and no coil
/// actuates a switch whose family has a superscript.
pub proof fn lemma_coil_family(m: BuilderModel, c: &Circuit, i: int, j: int, s: SwitchId)
    requires
        finalized(m, c),
        0 <= i < c.coils().len(),
        0 <= j < c.coils().len(),
    ensures
        c.coils()[i].1.contains(s) <==> ((s as int) < m.switches.len() && m.switches[s as int].0 == (
        lower_of(m.coils[i].0.0),
        m.coils[i].0.1,
        None::<u8>,
        )),
        (s as int) < m.switches.len() && m.switches[s as int].0.2 is Some ==> !c.coils()[i].1.contains(s),
        lower_of(m.coils[i].0.0) == lower_of(m.coils[j].0.0) && m.coils[i].0.1 == m.coils[j].0.1 ==> (
        c.coils()[i].1.contains(s) <==> c.coils()[j].1.contains(s)),
{
    assert(c.coils()[i].1.contains(s) <==> links(m.switches, m.coils[i].0, s));
    assert(c.coils()[j].1.contains(s) <==> links(m.switches, m.coils[j].0, s));
}

/// What a builder holds, as mathematical values.
pub struct BuilderModel {
    /// Which node each handle names.
    pub labels: Map<HandleView, NodeId>,
    /// Each coil, in the order of addition: its handle and its node.
    pub coils: Seq<(HandleView, NodeId)>,
    /// Each switch, in the order of addition: the handle of the coils that
    /// actuate it, and its terminals.
    pub switches: Seq<(HandleView, Switch)>,
    /// For each node allocated so far, whether it is traced.
    pub traced: Seq<bool>,
}

impl BuilderModel {
    pub open spec fn num_nodes(self) -> nat {
        self.traced.len()
    }

    /// Names, coils and switches refer to existing nodes; `G` names node 0;
    /// each coil's handle is unique and names the coil's node.
    pub open spec fn wf(self) -> bool {
        &&& self.num_nodes() >= 1
        &&& forall|h: HandleView| #[trigger] self.labels.contains_key(h) ==> (self.labels[h] as nat) < self.num_nodes()
        &&& self.labels.contains_key(ground_view())
        &&& self.labels[ground_view()] == 0
        &&& unique_keys(self.coils)
        &&& forall|i: int|
            0 <= i < self.coils.len() ==> #[trigger] self.labels.contains_key(self.coils[i].0)
                && self.labels[self.coils[i].0] == self.coils[i].1
        &&& terminals_below(self.switches.map_values(|e: (HandleView, Switch)| e.1), self.num_nodes())
    }

    /// One more node, untraced.
    pub open spec fn grown(self) -> BuilderModel {
        BuilderModel { traced: self.traced.push(false), ..self }
    }

    /// `spec` is a node that exists, or asks for a new one.
    pub open spec fn admits(self, spec: Option<NodeId>) -> bool {
        match spec {
            Some(n) => (n as nat) < self.num_nodes(),
            None => true,
        }
    }

    /// The node that `spec` gives: the one it names, or a new one.
    pub open spec fn resolved(self, spec: Option<NodeId>) -> (BuilderModel, NodeId) {
        match spec {
            Some(n) => (self, n),
            None => (self.grown(), self.num_nodes() as NodeId),
        }
    }

    /// The node named `h`, made and named if no node has that name yet.
    pub open spec fn labelled(self, h: HandleView) -> (BuilderModel, NodeId) {
        if self.labels.contains_key(h) {
            (self, self.labels[h])
        } else {
            let n = self.num_nodes() as NodeId;
            (BuilderModel { labels: self.labels.insert(h, n), ..self.grown() }, n)
        }
    }

    /// A coil named `h` on the node that `pos` gives; if `h` names a node
    /// already, that node is returned and no coil is added.
    pub open spec fn with_coil(self, h: HandleView, pos: Option<NodeId>) -> (BuilderModel, NodeId) {
        if self.labels.contains_key(h) {
            (self, self.labels[h])
        } else {
            let (m, n) = self.resolved(pos);
            (BuilderModel { labels: m.labels.insert(h, n), coils: m.coils.push((h, n)), ..m }, n)
        }
    }

    /// A switch of family `name` whose pole, normally-open and
    /// normally-closed terminals are the nodes that `loc` gives, in that order.
    pub open spec fn with_switch(
        self,
        name: HandleView,
        loc: (Option<NodeId>, Option<NodeId>, Option<NodeId>),
    ) -> (BuilderModel, (NodeId, NodeId, NodeId)) {
        let (m1, pole) = self.resolved(loc.0);
        let (m2, no) = m1.resolved(loc.1);
        let (m3, nc) = m2.resolved(loc.2);
        (
            BuilderModel { switches: m3.switches.push((name, Switch { pole, no, nc })), ..m3 },
            (pole, no, nc),
        )
    }

    /// Node `n` traced.
    pub open spec fn with_trace(self, n: NodeId) -> BuilderModel {
        BuilderModel { traced: self.traced.update(n as int, true), ..self }
    }
}

/// The contents of a builder, with its invariant stated by `wf`.
struct Draft {
    labels: LabelTable,
    coils: Vec<(Handle, NodeId)>,
    switches: Vec<(Handle, Switch)>,
    traced: Vec<bool>,
}

impl Draft {
    spec fn coil_entries(&self) -> Seq<(HandleView, NodeId)> {
        self.coils@.map_values(|e: (Handle, NodeId)| (e.0@, e.1))
    }

    spec fn switch_entries(&self) -> Seq<(HandleView, Switch)> {
        self.switches@.map_values(|e: (Handle, Switch)| (e.0@, e.1))
    }

    spec fn model(&self) -> BuilderModel {
        BuilderModel {
            labels: self.labels.map(),
            coils: self.coil_entries(),
            switches: self.switch_entries(),
            traced: self.traced@,
        }
    }

    spec fn wf(&self) -> bool {
        self.labels.wf() && self.model().wf()
    }

    fn empty() -> (d: Draft)
        ensures
            d.wf(),
            d.model().labels == Map::<HandleView, NodeId>::empty().insert(ground_view(), 0),
            d.model().coils == Seq::<(HandleView, NodeId)>::empty(),
            d.model().switches == Seq::<(HandleView, Switch)>::empty(),
            d.model().traced == seq![false],
    {
        let mut labels = LabelTable::new();
        labels.insert(Handle::ground(), 0);
        let mut traced: Vec<bool> = Vec::new();
        traced.push(false);
        let d = Draft { labels, coils: Vec::new(), switches: Vec::new(), traced };
        assert(d.coil_entries() =~= Seq::<(HandleView, NodeId)>::empty());
        assert(d.switch_entries() =~= Seq::<(HandleView, Switch)>::empty());
        assert(d.traced@ =~= seq![false]);
        d
    }

    fn new_node(&mut self) -> (r: NodeId)
        requires
            old(self).wf(),
        ensures
            final(self).wf(),
            final(self).model() == old(self).model().grown(),
            r == old(self).model().num_nodes(),
    {
        let r = self.traced.len();
        self.traced.push(false);
        proof {
            let sw = self.switch_entries().map_values(|e: (HandleView, Switch)| e.1);
            assert(terminals_below(sw, old(self).traced@.len()));
            assert(terminals_below(sw, self.traced@.len()));
        }
        r
    }

    fn node(&mut self, spec: Option<NodeId>) -> (r: NodeId)
        requires
            old(self).wf(),
            old(self).model().admits(spec),
        ensures
            final(self).wf(),
            (final(self).model(), r) == old(self).model().resolved(spec),
    {
        match spec {
            Some(existing) => existing,
            None => self.new_node(),
        }
    }

    fn label(&mut self, handle: Handle) -> (r: NodeId)
        requires
            old(self).wf(),
        ensures
            final(self).wf(),
            (final(self).model(), r) == old(self).model().labelled(handle@),
    {
        match self.labels.get(&handle) {
            Some(existing) => existing,
            None => {
                let node = self.new_node();
                self.labels.insert(handle, node);
                node
            },
        }
    }

    fn add_coil(&mut self, handle: Handle, pos: Option<NodeId>) -> (r: NodeId)
        requires
            old(self).wf(),
            old(self).model().admits(pos),
            old(self).model().labels.contains_key(handle@) ==> pos is None,
        ensures
            final(self).wf(),
            (final(self).model(), r) == old(self).model().with_coil(handle@, pos),
    {
        match self.labels.get(&handle) {
            Some(existing) => existing,
            None => {
                let node = self.node(pos);
                let ghost before = self.coil_entries();
                proof {
                    assert forall|i: int| 0 <= i < before.len() implies before[i].0 != handle@ by {
                        assert(self.labels.map().contains_key(before[i].0));
                    }
                }
                self.coils.push((handle.duplicate(), node));
                self.labels.insert(handle, node);
                assert(self.coil_entries() =~= before.push((handle@, node)));
                node
            },
        }
    }

    fn add_switch(&mut self, name: Handle, loc: (Option<NodeId>, Option<NodeId>, Option<NodeId>)) -> (r: (
        NodeId,
        NodeId,
        NodeId,
    ))
        requires
            old(self).wf(),
            old(self).model().admits(loc.0),
            old(self).model().admits(loc.1),
            old(self).model().admits(loc.2),
        ensures
            final(self).wf(),
            (final(self).model(), r) == old(self).model().with_switch(name@, loc),
    {
        let pole = self.node(loc.0);
        let no = self.node(loc.1);
        let nc = self.node(loc.2);
        let ghost before = self.switch_entries();
        self.switches.push((name, Switch { pole, no, nc }));
        proof {
            assert(self.switch_entries() =~= before.push((name@, Switch { pole, no, nc })));
            let sw0 = before.map_values(|e: (HandleView, Switch)| e.1);
            let sw = self.switch_entries().map_values(|e: (HandleView, Switch)| e.1);
            assert(sw =~= sw0.push(Switch { pole, no, nc }));
            assert(terminals_below(sw0, self.traced@.len()));
        }
        (pole, no, nc)
    }

    fn trace(&mut self, node: NodeId)
        requires
            old(self).wf(),
            (node as nat) < old(self).model().num_nodes(),
        ensures
            final(self).wf(),
            final(self).model() == old(self).model().with_trace(node),
    {
        self.traced.set(node, true);
    }
}

/// Collects the components of a circuit; `finalize` turns it into a
/// [`Circuit`]. The ground rail `G` is node 0 from the start.
pub struct CircuitBuilder {
    draft: Draft,
}

impl CircuitBuilder {
    #[verifier::type_invariant]
    spec fn inv(self) -> bool {
        self.draft.wf()
    }

    /// What the builder holds.
    pub closed spec fn model(&self) -> BuilderModel {
        self.draft.model()
    }

    pub fn new() -> (r: CircuitBuilder)
        ensures
            r.model().wf(),
            r.model().labels == Map::<HandleView, NodeId>::empty().insert(ground_view(), 0),
            r.model().coils == Seq::<(HandleView, NodeId)>::empty(),
            r.model().switches == Seq::<(HandleView, Switch)>::empty(),
            r.model().traced == seq![false],
    {
        CircuitBuilder { draft: Draft::empty() }
    }

    /// Takes the contents out, leaving an empty builder in their place.
    fn take_draft(&mut self) -> (d: Draft)
        ensures
            d.wf(),
            d.model() == old(self).model(),
    {
        proof {
            use_type_invariant(&*self);
        }
        let mut other = CircuitBuilder::new();
        std::mem::swap(self, &mut other);
        let CircuitBuilder { draft } = other;
        draft
    }

    fn label(&mut self, handle: Handle) -> (r: NodeId)
        ensures
            final(self).model().wf(),
            (final(self).model(), r) == old(self).model().labelled(handle@),
    {
        let mut draft = self.take_draft();
        let r = draft.label(handle);
        *self = CircuitBuilder { draft };
        r
    }

    fn node(&mut self, spec: Option<NodeId>) -> (r: NodeId)
        requires
            old(self).model().admits(spec),
        ensures
            final(self).model().wf(),
            (final(self).model(), r) == old(self).model().resolved(spec),
    {
        let mut draft = self.take_draft();
        let r = draft.node(spec);
        *self = CircuitBuilder { draft };
        r
    }

    fn add_coil(&mut self, handle: Handle, pos: Option<NodeId>) -> (r: NodeId)
        requires
            old(self).model().admits(pos),
            old(self).model().labels.contains_key(handle@) ==> pos is None,
        ensures
            final(self).model().wf(),
            (final(self).model(), r) == old(self).model().with_coil(handle@, pos),
    {
        let mut draft = self.take_draft();
        let r = draft.add_coil(handle, pos);
        *self = CircuitBuilder { draft };
        r
    }

    fn add_switch(&mut self, name: Handle, loc: (Option<NodeId>, Option<NodeId>, Option<NodeId>)) -> (r: (
        NodeId,
        NodeId,
        NodeId,
    ))
        requires
            old(self).model().admits(loc.0),
            old(self).model().admits(loc.1),
            old(self).model().admits(loc.2),
        ensures
            final(self).model().wf(),
            (final(self).model(), r) == old(self).model().with_switch(name@, loc),
    {
        let mut draft = self.take_draft();
        let r = draft.add_switch(name, loc);
        *self = CircuitBuilder { draft };
        r
    }

    fn trace(&mut self, node: NodeId)
        requires
            (node as nat) < old(self).model().num_nodes(),
        ensures
            final(self).model().wf(),
            final(self).model() == old(self).model().with_trace(node),
    {
        let mut draft = self.take_draft();
        draft.trace(node);
        *self = CircuitBuilder { draft };
    }

    /// The circuit that the builder describes, at rest: every switch in its
    /// normally-closed position, nothing driven, nothing observed. Each coil
    /// actuates exactly the switches of the family its name gives.
    pub fn finalize(self) -> (c: Circuit)
        ensures
            finalized(self.model(), &c),
    {
        proof {
            use_type_invariant(&self);
        }
        let ghost m = self.model();
        let CircuitBuilder { draft } = self;
        let ghost d = draft;
        let Draft { labels, coils, switches, traced } = draft;
        let ghost sw = d.switch_entries().map_values(|e: (HandleView, Switch)| e.1);
        assert forall|k: int| 0 <= k < sw.len() implies #[trigger] sw[k] == switches@[k].1 by {
            assert(d.switch_entries()[k] == (switches@[k].0@, switches@[k].1));
        }
        let mut circuit_switches: Vec<Switch> = Vec::new();
        let mut i: usize = 0;
        while i < switches.len()
            invariant
                i <= switches@.len(),
                switches@ == d.switches@,
                sw.len() == switches@.len(),
                forall|k: int| 0 <= k < sw.len() ==> #[trigger] sw[k] == switches@[k].1,
                circuit_switches@ == sw.subrange(0, i as int),
            decreases switches@.len() - i,
        {
            circuit_switches.push(switches[i].1);
            i = i + 1;
            assert(circuit_switches@ =~= sw.subrange(0, i as int));
        }
        assert(circuit_switches@ =~= sw);
        let mut circuit_coils: Vec<Coil> = Vec::new();
        let mut c: usize = 0;
        while c < coils.len()
            invariant
                d.wf(),
                m == d.model(),
                c <= coils@.len(),
                coils@ == d.coils@,
                switches@ == d.switches@,
                circuit_coils@.len() == c,
                forall|k: int| 0 <= k < c ==> (#[trigger] circuit_coils@[k]).node == m.coils[k].1,
                forall|k: int, s: SwitchId|
                    0 <= k < c ==> (#[trigger] circuit_coils@[k].switches@.contains(s) <==> links(m.switches, m.coils[k].0, s)),
            decreases coils@.len() - c,
        {
            let name = CircuitBuilder::coil_to_switch_name(&coils[c].0);
            let ids = switches_named(&switches, &name);
            let ghost before = circuit_coils@;
            circuit_coils.push(Coil { node: coils[c].1, switches: ids });
            proof {
                assert(m.coils[c as int] == (coils@[c as int].0@, coils@[c as int].1));
                assert forall|k: int, s: SwitchId|
                    0 <= k < c + 1 implies (#[trigger] circuit_coils@[k].switches@.contains(s) <==> links(
                        m.switches,
                        m.coils[k].0,
                        s,
                    )) by {
                    if k < c {
                        assert(circuit_coils@[k] == before[k]);
                    } else {
                        if (s as int) < switches@.len() {
                            assert(m.switches[s as int] == (switches@[s as int].0@, switches@[s as int].1));
                        }
                    }
                }
            }
            c = c + 1;
        }
        proof {
            let cv = circuit_coils@.map_values(|k: Coil| k@);
            assert forall|k: int| 0 <= k < cv.len() implies (#[trigger] cv[k]).0 < traced@.len() && forall|j: int|
                0 <= j < cv[k].1.len() ==> (#[trigger] cv[k].1[j]) < sw.len() by {
                assert(d.labels.map().contains_key(d.coil_entries()[k].0));
                assert forall|j: int| 0 <= j < cv[k].1.len() implies (#[trigger] cv[k].1[j]) < sw.len() by {
                    assert(circuit_coils@[k].switches@.contains(cv[k].1[j]));
                }
            }
            assert(coils_below(cv, traced@.len(), sw.len()));
        }
        let n = traced.len();
        let r = Circuit::assemble(n, circuit_coils, circuit_switches, labels, traced);
        proof {
            assert forall|k: int| 0 <= k < r.coils().len() implies (#[trigger] r.coils()[k]).0 == m.coils[k].1 by {
                assert(r.coils()[k] == circuit_coils@[k]@);
            }
            assert forall|k: int, s: SwitchId| 0 <= k < r.coils().len() implies (#[trigger] r.coils()[k].1.contains(s)
                <==> links(m.switches, m.coils[k].0, s)) by {
                assert(r.coils()[k] == circuit_coils@[k]@);
            }
        }
        r
    }

    /// The coil at position `i` actuates no switch: no switch is of its
    /// family.
    pub open spec fn orphaned(m: BuilderModel, i: int) -> bool {
        forall|s: SwitchId| !#[trigger] links(m.switches, m.coils[i].0, s)
    }

    /// The handles of the first `upto` coils of `m` that actuate no switch,
    /// in order.
    pub open spec fn orphans(m: BuilderModel, upto: int) -> Seq<HandleView>
        decreases upto,
    {
        if upto <= 0 {
            Seq::empty()
        } else if Self::orphaned(m, upto - 1) {
            Self::orphans(m, upto - 1).push(m.coils[upto - 1].0)
        } else {
            Self::orphans(m, upto - 1)
        }
    }

    /// The handles of the coils that actuate no switch, in the order of
    /// addition.
    pub fn orphan_coils(&self) -> (r: Vec<Handle>)
        ensures
            r@.map_values(|h: Handle| h@) == Self::orphans(self.model(), self.model().coils.len() as int),
    {
        let ghost m = self.model();
        let coils = &self.draft.coils;
        let switches = &self.draft.switches;
        let mut r: Vec<Handle> = Vec::new();
        let mut c: usize = 0;
        assert(r@.map_values(|h: Handle| h@) =~= Self::orphans(m, 0));
        while c < coils.len()
            invariant
                m == self.model(),
                coils == &self.draft.coils,
                switches == &self.draft.switches,
                m.coils.len() == coils@.len(),
                c <= coils@.len(),
                r@.map_values(|h: Handle| h@) == Self::orphans(m, c as int),
            decreases coils@.len() - c,
        {
            let name = CircuitBuilder::coil_to_switch_name(&coils[c].0);
            let ids = switches_named(switches, &name);
            let ghost r0 = r@;
            assert(m.coils[c as int].0 == coils@[c as int].0@);
            let none = ids.len() == 0;
            proof {
                assert forall|s: SwitchId| #[trigger] links(m.switches, m.coils[c as int].0, s) <==> ids@.contains(s) by {
                    if (s as int) < switches@.len() {
                        assert(m.switches[s as int] == (switches@[s as int].0@, switches@[s as int].1));
                    }
                }
                if !none {
                    assert(ids@.contains(ids@[0]));
                    assert(links(m.switches, m.coils[c as int].0, ids@[0]));
                } else {
                    assert forall|s: SwitchId| !#[trigger] links(m.switches, m.coils[c as int].0, s) by {
                        if ids@.contains(s) {
                            let t = choose|t: int| 0 <= t < ids@.len() && ids@[t] == s;
                        }
                    }
                }
                assert(none == Self::orphaned(m, c as int));
            }
            if none {
                r.push(coils[c].0.duplicate());
                assert(r@.map_values(|h: Handle| h@) =~= r0.map_values(|h: Handle| h@).push(m.coils[c as int].0));
            }
            c = c + 1;
        }
        r
    }

    /// Runs `build` on a sub-circuit builder over this builder's components,
    /// and returns the builder as `build` left it.
    pub fn add_subcircuit<F: FnOnce(SubcircuitBuilder)>(self, build: F) -> (r: CircuitBuilder)
        requires
            forall|scb: SubcircuitBuilder| build.requires((scb,)),
        ensures
            exists|scb: SubcircuitBuilder|
                scb.model() == self.model() && #[trigger] build.ensures((scb,), ()) && r.model() == mut_ref_future(
                    scb.cb,
                ).model(),
    {
        let mut this = self;
        let scb = SubcircuitBuilder { cb: &mut this };
        build(scb);
        this
    }

    /// The handle of the switch family that the coil `coil_handle` actuates.
    pub fn coil_to_switch_name(coil_handle: &Handle) -> (r: Handle)
        ensures
            r@ == switch_name_of(coil_handle@),
    {
        Handle { name: lowercase(coil_handle.name.as_str()), index: coil_handle.index, sup: None }
    }
}

/// A view of a [`CircuitBuilder`] through which one sub-circuit adds its
/// components. Names are shared by all sub-circuits.
pub struct SubcircuitBuilder<'a> {
    /// The builder that the sub-circuit adds to.
    pub cb: &'a mut CircuitBuilder,
}

impl<'a> SubcircuitBuilder<'a> {
    /// What the underlying builder holds.
    pub open spec fn model(&self) -> BuilderModel {
        (*self.cb).model()
    }

    /// The node named `label`, made if no node has that name yet.
    pub fn label(&mut self, label: Handle) -> (r: NodeId)
        ensures
            mut_ref_future(final(self).cb) == mut_ref_future(old(self).cb),
            final(self).model().wf(),
            (final(self).model(), r) == old(self).model().labelled(label@),
    {
        self.cb.label(label)
    }

    /// Marks `node` for read-back after each step.
    pub fn trace(&mut self, node: NodeId)
        requires
            (node as nat) < old(self).model().num_nodes(),
        ensures
            mut_ref_future(final(self).cb) == mut_ref_future(old(self).cb),
            final(self).model().wf(),
            final(self).model() == old(self).model().with_trace(node),
    {
        self.cb.trace(node)
    }

    /// Marks each of `nodes` for read-back after each step.
    pub fn trace_all(&mut self, nodes: &[NodeId])
        requires
            forall|k: int| 0 <= k < nodes@.len() ==> (nodes@[k] as nat) < old(self).model().num_nodes(),
        ensures
            mut_ref_future(final(self).cb) == mut_ref_future(old(self).cb),
            final(self).model().wf(),
            final(self).model().labels == old(self).model().labels,
            final(self).model().coils == old(self).model().coils,
            final(self).model().switches == old(self).model().switches,
            final(self).model().num_nodes() == old(self).model().num_nodes(),
            forall|n: NodeId|
                (n as nat) < old(self).model().num_nodes() ==> #[trigger] final(self).model().traced[n as int] == (
                old(self).model().traced[n as int] || nodes@.contains(n)),
    {
        let mut k: usize = 0;
        while k < nodes.len()
            invariant
                k <= nodes@.len(),
                mut_ref_future(self.cb) == mut_ref_future(old(self).cb),
                k > 0 ==> self.model().wf(),
                forall|j: int| 0 <= j < nodes@.len() ==> (nodes@[j] as nat) < old(self).model().num_nodes(),
                self.model().labels == old(self).model().labels,
                self.model().coils == old(self).model().coils,
                self.model().switches == old(self).model().switches,
                self.model().num_nodes() == old(self).model().num_nodes(),
                forall|n: NodeId|
                    (n as nat) < old(self).model().num_nodes() ==> #[trigger] self.model().traced[n as int] == (
                    old(self).model().traced[n as int] || nodes@.subrange(0, k as int).contains(n)),
            decreases nodes@.len() - k,
        {
            let ghost before = self.model().traced;
            self.trace(nodes[k]);
            proof {
                assert forall|n: NodeId|
                    (n as nat) < old(self).model().num_nodes() implies #[trigger] self.model().traced[n as int] == (
                    old(self).model().traced[n as int] || nodes@.subrange(0, k + 1).contains(n)) by {
                    let sub = nodes@.subrange(0, k as int);
                    assert(nodes@.subrange(0, k + 1) =~= sub.push(nodes@[k as int]));
                    lemma_push_contains(sub, nodes@[k as int], n);
                }
            }
            k = k + 1;
        }
        assert(nodes@.subrange(0, nodes@.len() as int) =~= nodes@);
        if nodes.len() == 0 {
            proof {
                use_type_invariant(&*self.cb);
            }
        }
    }

    /// The node that `maybe_node` gives: that node, or a new one.
    pub fn node(&mut self, maybe_node: Option<NodeId>) -> (r: NodeId)
        requires
            old(self).model().admits(maybe_node),
        ensures
            mut_ref_future(final(self).cb) == mut_ref_future(old(self).cb),
            final(self).model().wf(),
            (final(self).model(), r) == old(self).model().resolved(maybe_node),
    {
        self.cb.node(maybe_node)
    }

    /// Adds a coil named `handle` whose positive terminal is the node that
    /// `pos` gives, and names that node `handle`. If `handle` names a node
    /// already, returns it and adds nothing.
    pub fn add_coil(&mut self, handle: Handle, pos: Option<NodeId>) -> (r: NodeId)
        requires
            old(self).model().admits(pos),
            old(self).model().labels.contains_key(handle@) ==> pos is None,
        ensures
            mut_ref_future(final(self).cb) == mut_ref_future(old(self).cb),
            final(self).model().wf(),
            (final(self).model(), r) == old(self).model().with_coil(handle@, pos),
    {
        self.cb.add_coil(handle, pos)
    }

    /// Adds a switch of family `name` with terminals (pole, normally open,
    /// normally closed) given by `loc`; returns the three nodes.
    pub fn add_switch(&mut self, name: Handle, loc: (Option<NodeId>, Option<NodeId>, Option<NodeId>)) -> (r: (
        NodeId,
        NodeId,
        NodeId,
    ))
        requires
            old(self).model().admits(loc.0),
            old(self).model().admits(loc.1),
            old(self).model().admits(loc.2),
        ensures
            mut_ref_future(final(self).cb) == mut_ref_future(old(self).cb),
            final(self).model().wf(),
            (final(self).model(), r) == old(self).model().with_switch(name@, loc),
    {
        self.cb.add_switch(name, loc)
    }

    /// Threads a value through `func` over `items`, in order: a fold, for
    /// wiring repeated stages.
    pub fn chain<T, Idx: Copy, F: FnMut(T, Idx) -> T>(init: T, items: &[Idx], mut func: F) -> (r: T)
        requires
            forall|t: T, i: Idx| func.requires((t, i)),
        ensures
            exists|vals: Seq<T>|
                vals.len() == items@.len() + 1 && vals[0] == init && vals[items@.len() as int] == r && forall|k: int|
                    0 <= k < items@.len() ==> func.ensures((vals[k], items@[k]), #[trigger] vals[k + 1]),
    {
        let ghost f0 = func;
        let mut curr = init;
        let ghost mut vals = seq![init];
        let mut j: usize = 0;
        while j < items.len()
            invariant
                func == f0,
                forall|t: T, i: Idx| func.requires((t, i)),
                j <= items@.len(),
                vals.len() == j + 1,
                vals[0] == init,
                vals[j as int] == curr,
                forall|k: int| 0 <= k < j ==> func.ensures((vals[k], items@[k]), #[trigger] vals[k + 1]),
            decreases items@.len() - j,
        {
            let next = func(curr, items[j]);
            proof {
                vals = vals.push(next);
            }
            curr = next;
            j = j + 1;
        }
        assert(vals.len() == items@.len() + 1 && vals[0] == init && vals[items@.len() as int] == curr);
        curr
    }
}

} // verus!
