//! The dependency graph: which compilation unit is needed by which others.

use vstd::prelude::*;
use crate::text::texts;

verus! {

/// A dependency graph as a value. A unit is named by the path of its source
/// file.
pub struct Graph {
    /// The units that were recorded, as a product or as a dependency.
    pub nodes: Set<Seq<char>>,
    /// For a dependency, the products that need it, in the order in which
    /// they were recorded. A relation recorded twice stands twice.
    pub edges: Map<Seq<char>, Seq<Seq<char>>>,
}

impl Graph {
    /// The graph without units.
    pub open spec fn empty() -> Graph {
        Graph { nodes: Set::empty(), edges: Map::empty() }
    }

    /// The products that need `dep`.
    pub open spec fn dependents(self, dep: Seq<char>) -> Seq<Seq<char>> {
        if self.edges.contains_key(dep) {
            self.edges[dep]
        } else {
            Seq::empty()
        }
    }

    /// The graph after `product` was recorded to need `dep`: both are units
    /// of it, and `product` ends the list of `dep`, unless the two are one.
    pub open spec fn record(self, product: Seq<char>, dep: Seq<char>) -> Graph {
        Graph {
            nodes: self.nodes.insert(product).insert(dep),
            edges: if product == dep {
                self.edges
            } else {
                self.edges.insert(dep, self.dependents(dep).push(product))
            },
        }
    }

    /// The graph after `product` was recorded to need each of `deps`, in
    /// their order.
    pub open spec fn record_each(self, product: Seq<char>, deps: Seq<Seq<char>>) -> Graph
        decreases deps.len(),
    {
        if deps.len() == 0 {
            self
        } else {
            self.record_each(product, deps.drop_last()).record(product, deps.last())
        }
    }

    /// The graph after each of `products`, in their order, was recorded to
    /// need each of `deps`.
    pub open spec fn record_rule(self, products: Seq<Seq<char>>, deps: Seq<Seq<char>>) -> Graph
        decreases products.len(),
    {
        if products.len() == 0 {
            self
        } else {
            self.record_rule(products.drop_last(), deps).record_each(products.last(), deps)
        }
    }

    /// The graph after each of `rules` was recorded, in their order.
    pub open spec fn record_rules(self, rules: Seq<(Seq<Seq<char>>, Seq<Seq<char>>)>) -> Graph
        decreases rules.len(),
    {
        if rules.len() == 0 {
            self
        } else {
            self.record_rules(rules.drop_last()).record_rule(rules.last().0, rules.last().1)
        }
    }

    /// Whether `product` was recorded to need `dep`, and is another unit.
    pub open spec fn is_edge(self, dep: Seq<char>, product: Seq<char>) -> bool {
        dep != product && self.dependents(dep).contains(product)
    }

    /// Whether each unit of `chain` is needed by the next.
    pub open spec fn is_chain(self, chain: Seq<Seq<char>>) -> bool {
        forall|i: int|
            #![trigger chain[i]]
            0 <= i < chain.len() - 1 ==> self.is_edge(chain[i], chain[i + 1])
    }

    /// Whether a chain leads from `from` to `to`. The chain of one unit leads
    /// from it to itself.
    pub open spec fn reaches(self, from: Seq<char>, to: Seq<char>) -> bool {
        exists|chain: Seq<Seq<char>>|
            chain.len() >= 1 && chain.first() == from && chain.last() == to && self.is_chain(
                chain,
            )
    }

    /// Whether `dep` must be compiled before `product`: the two differ, and
    /// `product` needs `dep`, directly or through others.
    pub open spec fn is_dependent(self, product: Seq<char>, dep: Seq<char>) -> bool {
        product != dep && self.reaches(dep, product)
    }

    /// Whether no unit is listed among its own dependents.
    pub open spec fn is_loop_free(self) -> bool {
        forall|dep: Seq<char>| !(#[trigger] self.dependents(dep)).contains(dep)
    }

    /// Whether a set of units holds, with each unit, the units that need it.
    pub open spec fn is_closed(self, units: Set<Seq<char>>) -> bool {
        forall|a: Seq<char>, b: Seq<char>|
            units.contains(a) && #[trigger] self.is_edge(a, b) ==> units.contains(b)
    }

    /// Every unit reaches itself.
    pub proof fn lemma_reaches_itself(self, unit: Seq<char>)
        ensures
            self.reaches(unit, unit),
    {
        let chain = seq![unit];
        assert(chain.first() == unit && chain.last() == unit);
        assert(self.is_chain(chain));
    }

    /// A unit that reaches `via` reaches what needs `via`.
    pub proof fn lemma_reaches_further(self, from: Seq<char>, via: Seq<char>, to: Seq<char>)
        requires
            self.reaches(from, via),
            self.is_edge(via, to),
        ensures
            self.reaches(from, to),
    {
        let chain = choose|chain: Seq<Seq<char>>|
            chain.len() >= 1 && chain.first() == from && chain.last() == via && self.is_chain(
                chain,
            );
        let longer = chain.push(to);
        assert forall|i: int| #![trigger longer[i]] 0 <= i < longer.len() - 1 implies self.is_edge(
            longer[i],
            longer[i + 1],
        ) by {
            if i < chain.len() - 1 {
                assert(longer[i] == chain[i]);
                assert(longer[i + 1] == chain[i + 1]);
            }
        }
        assert(longer.first() == from && longer.last() == to);
    }

    /// A unit reaches what is reached by a unit that it reaches.
    pub proof fn lemma_reaches_transitive(self, from: Seq<char>, via: Seq<char>, to: Seq<char>)
        requires
            self.reaches(from, via),
            self.reaches(via, to),
        ensures
            self.reaches(from, to),
    {
        let tail = choose|chain: Seq<Seq<char>>|
            chain.len() >= 1 && chain.first() == via && chain.last() == to && self.is_chain(chain);
        self.lemma_reaches_along(from, tail, tail.len() as int);
    }

    /// A unit that reaches the first unit of a chain reaches each unit of it.
    pub proof fn lemma_reaches_along(self, from: Seq<char>, chain: Seq<Seq<char>>, n: int)
        requires
            1 <= n <= chain.len(),
            self.is_chain(chain),
            self.reaches(from, chain.first()),
        ensures
            self.reaches(from, chain[n - 1]),
        decreases n,
    {
        if n > 1 {
            self.lemma_reaches_along(from, chain, n - 1);
            assert(self.is_edge(chain[n - 2], chain[n - 2 + 1]));
            self.lemma_reaches_further(from, chain[n - 2], chain[n - 1]);
        }
    }

    /// A closed set of units holds whatever one of its units reaches.
    pub proof fn lemma_closed_holds_reached(
        self,
        units: Set<Seq<char>>,
        from: Seq<char>,
        to: Seq<char>,
    )
        requires
            self.is_closed(units),
            units.contains(from),
            self.reaches(from, to),
        ensures
            units.contains(to),
    {
        let chain = choose|chain: Seq<Seq<char>>|
            chain.len() >= 1 && chain.first() == from && chain.last() == to && self.is_chain(
                chain,
            );
        self.lemma_closed_holds_chain(units, chain, chain.len() as int);
    }

    proof fn lemma_closed_holds_chain(self, units: Set<Seq<char>>, chain: Seq<Seq<char>>, n: int)
        requires
            self.is_closed(units),
            1 <= n <= chain.len(),
            units.contains(chain.first()),
            self.is_chain(chain),
        ensures
            units.contains(chain[n - 1]),
        decreases n,
    {
        if n > 1 {
            self.lemma_closed_holds_chain(units, chain, n - 1);
            assert(self.is_edge(chain[n - 2], chain[n - 2 + 1]));
        }
    }

    /// No unit depends on itself.
    pub proof fn lemma_is_dependent_irreflexive(self, unit: Seq<char>)
        ensures
            !self.is_dependent(unit, unit),
    {
    }

    /// Recording a relation loses no dependence: what depended on a unit
    /// before depends on it afterwards.
    pub proof fn lemma_record_keeps_dependence(
        self,
        product: Seq<char>,
        dep: Seq<char>,
        a: Seq<char>,
        b: Seq<char>,
    )
        requires
            self.is_dependent(a, b),
        ensures
            self.record(product, dep).is_dependent(a, b),
    {
        let after = self.record(product, dep);
        let chain = choose|chain: Seq<Seq<char>>|
            chain.len() >= 1 && chain.first() == b && chain.last() == a && self.is_chain(chain);
        assert forall|i: int| #![trigger chain[i]] 0 <= i < chain.len() - 1 implies after.is_edge(
            chain[i],
            chain[i + 1],
        ) by {
            assert(self.is_edge(chain[i], chain[i + 1]));
            let list = self.dependents(chain[i]);
            let k = choose|k: int| 0 <= k < list.len() && list[k] == chain[i + 1];
            if product != dep && chain[i] == dep {
                assert(after.dependents(chain[i]) == list.push(product));
                assert(list.push(product)[k] == chain[i + 1]);
            } else {
                assert(after.dependents(chain[i]) == list);
            }
        }
        assert(after.is_chain(chain));
    }

    /// A unit depends on what it was just recorded to need, unless the two
    /// are one.
    pub proof fn lemma_record_makes_dependent(self, product: Seq<char>, dep: Seq<char>)
        requires
            product != dep,
        ensures
            self.record(product, dep).is_dependent(product, dep),
    {
        let after = self.record(product, dep);
        let list = self.dependents(dep).push(product);
        assert(after.dependents(dep) == list);
        assert(list[list.len() - 1] == product);
        assert(after.is_edge(dep, product));
        let chain = seq![dep, product];
        assert(chain[0] == dep && chain[1] == product);
        assert(after.is_chain(chain));
        assert(chain.first() == dep && chain.last() == product);
    }

    /// Recording a relation makes no unit a dependent of itself.
    pub proof fn lemma_record_is_loop_free(self, product: Seq<char>, dep: Seq<char>)
        requires
            self.is_loop_free(),
        ensures
            self.record(product, dep).is_loop_free(),
    {
        let after = self.record(product, dep);
        assert forall|unit: Seq<char>| !(#[trigger] after.dependents(unit)).contains(unit) by {
            assert(!self.dependents(unit).contains(unit));
            if product != dep && unit == dep {
                let list = self.dependents(dep);
                assert(after.dependents(unit) == list.push(product));
                if list.push(product).contains(unit) {
                    let i = choose|i: int|
                        0 <= i < list.push(product).len() && list.push(product)[i] == unit;
                    if i < list.len() {
                        assert(list[i] == unit);
                    }
                }
            } else {
                assert(after.dependents(unit) == self.dependents(unit));
            }
        }
    }
}

/// How many places of `visited` are not marked.
spec fn unvisited(visited: Seq<bool>) -> nat
    decreases visited.len(),
{
    if visited.len() == 0 {
        0
    } else {
        unvisited(visited.drop_last()) + if visited.last() {
            0nat
        } else {
            1nat
        }
    }
}

proof fn lemma_visit(visited: Seq<bool>, i: int)
    requires
        0 <= i < visited.len(),
        !visited[i],
    ensures
        unvisited(visited.update(i, true)) == unvisited(visited) - 1,
    decreases visited.len(),
{
    if i == visited.len() - 1 {
        assert(visited.update(i, true).drop_last() =~= visited.drop_last());
    } else {
        lemma_visit(visited.drop_last(), i);
        assert(visited.update(i, true).drop_last() =~= visited.drop_last().update(i, true));
    }
}

/// The dependency graph of a project.
///
/// Each unit is held once; the list of a unit holds the places of the units
/// that need it.
#[derive(Debug, Clone)]
pub struct Dependencies {
    nodes: Vec<String>,
    edges: Vec<Vec<usize>>,
}

impl View for Dependencies {
    type V = Graph;

    closed spec fn view(&self) -> Graph {
        Graph {
            nodes: Set::new(|name: Seq<char>| self.names().contains(name)),
            edges: Map::new(
                |name: Seq<char>|
                    self.names().contains(name) && self.edges[self.names().index_of(name)].len()
                        > 0,
                |name: Seq<char>| self.dependents_at(self.names().index_of(name)),
            ),
        }
    }
}

impl Dependencies {
    /// The units, each at its place.
    closed spec fn names(&self) -> Seq<Seq<char>> {
        texts(self.nodes@)
    }

    /// The units that need the unit at place `i`.
    closed spec fn dependents_at(&self, i: int) -> Seq<Seq<char>> {
        self.edges[i]@.map_values(|j: usize| self.names()[j as int])
    }

    /// Whether the graph is sound: each unit is held once, and each list
    /// holds places of other units.
    pub closed spec fn wf(&self) -> bool {
        &&& self.edges.len() == self.nodes.len()
        &&& forall|i: int, j: int|
            0 <= i < self.nodes.len() && 0 <= j < self.nodes.len() && i != j ==> self.nodes[i]@
                != self.nodes[j]@
        &&& forall|i: int, k: int|
            0 <= i < self.edges.len() && 0 <= k < self.edges[i].len() ==> #[trigger] self.edges[i][k]
                < self.nodes.len() && self.edges[i][k] != i
    }

    proof fn lemma_place(&self, i: int)
        requires
            self.wf(),
            0 <= i < self.nodes.len(),
        ensures
            self.names().contains(self.names()[i]),
            self.names().index_of(self.names()[i]) == i,
    {
        let names = self.names();
        assert(names[i] == self.nodes[i]@);
        let j = names.index_of(names[i]);
        assert(0 <= j < names.len() && names[j] == names[i]);
        assert(names[j] == self.nodes[j]@);
    }

    proof fn lemma_dependents(&self, i: int)
        requires
            self.wf(),
            0 <= i < self.nodes.len(),
        ensures
            self@.dependents(self.names()[i]) == self.dependents_at(i),
    {
        self.lemma_place(i);
        if self.edges[i].len() == 0 {
            assert(self.dependents_at(i) =~= Seq::empty());
        }
    }

    proof fn lemma_unknown(&self, name: Seq<char>)
        requires
            !self.names().contains(name),
        ensures
            self@.dependents(name) == Seq::<Seq<char>>::empty(),
            !self@.nodes.contains(name),
    {
    }

    /// A sound graph has no unit among its own dependents.
    pub proof fn lemma_is_loop_free(&self)
        requires
            self.wf(),
        ensures
            self@.is_loop_free(),
    {
        assert forall|unit: Seq<char>| !(#[trigger] self@.dependents(unit)).contains(unit) by {
            if self.names().contains(unit) {
                let i = self.names().index_of(unit);
                self.lemma_dependents(i);
                let list = self.dependents_at(i);
                if list.contains(unit) {
                    let k = choose|k: int| 0 <= k < list.len() && list[k] == unit;
                    let j = self.edges[i][k];
                    assert(self.names()[j as int] == self.nodes[j as int]@);
                    assert(self.names()[i] == self.nodes[i]@);
                }
            } else {
                self.lemma_unknown(unit);
            }
        }
    }

    /// A unit that is needed, and a unit that needs another, is a unit of the
    /// graph.
    pub proof fn lemma_edges_join_nodes(&self, dep: Seq<char>, product: Seq<char>)
        requires
            self.wf(),
            self@.is_edge(dep, product),
        ensures
            self@.nodes.contains(dep),
            self@.nodes.contains(product),
    {
        if self.names().contains(dep) {
            let i = self.names().index_of(dep);
            self.lemma_dependents(i);
            let list = self.dependents_at(i);
            let k = choose|k: int| 0 <= k < list.len() && list[k] == product;
            let j = self.edges[i][k];
            assert(self.names()[j as int] == product);
        } else {
            self.lemma_unknown(dep);
        }
    }

    /// The graph without units.
    pub fn empty() -> (graph: Dependencies)
        ensures
            graph.wf(),
            graph@ == Graph::empty(),
    {
        let graph = Dependencies { nodes: Vec::new(), edges: Vec::new() };
        assert(graph.names() =~= Seq::empty());
        assert(graph@.nodes =~= Set::empty());
        assert(graph@.edges =~= Map::empty());
        graph
    }

    /// The place of the unit `name`, if the graph holds it.
    fn find(&self, name: &String) -> (place: Option<usize>)
        requires
            self.wf(),
        ensures
            match place {
                Some(i) => i < self.nodes.len() && self.names()[i as int] == name@,
                None => !self.names().contains(name@),
            },
    {
        let mut i: usize = 0;
        while i < self.nodes.len()
            invariant
                i <= self.nodes.len(),
                forall|k: int| 0 <= k < i ==> self.names()[k] != name@,
            decreases self.nodes.len() - i,
        {
            if self.nodes[i] == *name {
                return Some(i);
            }
            i += 1;
        }
        None
    }

    /// The place of the unit `name`, which joins the graph if it is new to it.
    fn intern(&mut self, name: String) -> (place: usize)
        requires
            old(self).wf(),
        ensures
            final(self).wf(),
            place < final(self).nodes.len(),
            final(self).names()[place as int] == name@,
            final(self)@.nodes == old(self)@.nodes.insert(name@),
            final(self)@.edges == old(self)@.edges,
            old(self).names().len() <= final(self).names().len(),
            forall|k: int|
                0 <= k < old(self).names().len() ==> final(self).names()[k] == old(self).names()[k],
    {
        match self.find(&name) {
            Some(i) => {
                assert(self@.nodes =~= self@.nodes.insert(name@));
                i
            },
            None => {
                let place = self.nodes.len();
                let ghost before = *self;
                let ghost text = name@;
                self.nodes.push(name);
                self.edges.push(Vec::new());
                proof {
                    assert(self.names() =~= before.names().push(text));
                    assert forall|i: int, j: int|
                        0 <= i < self.nodes.len() && 0 <= j < self.nodes.len() && i
                            != j implies self.nodes[i]@ != self.nodes[j]@ by {
                        assert(self.names()[i] == self.nodes[i]@);
                        assert(self.names()[j] == self.nodes[j]@);
                        if i < place && j < place {
                            assert(before.nodes[i]@ != before.nodes[j]@);
                        } else if i < place {
                            assert(before.names()[i] == self.names()[i]);
                        } else {
                            assert(before.names()[j] == self.names()[j]);
                        }
                    }
                    assert forall|i: int, k: int|
                        0 <= i < self.edges.len() && 0 <= k < self.edges[i].len() implies #[trigger] self.edges[i][k]
                            < self.nodes.len() && self.edges[i][k] != i by {
                        assert(self.edges[i] == before.edges[i]);
                        assert(before.edges[i][k] < before.nodes.len());
                    }
                    assert(self.wf());
                    assert forall|x: Seq<char>|
                        self.names().contains(x) <==> before.names().contains(x) || x
                            == text by {
                        if before.names().contains(x) {
                            let k = before.names().index_of(x);
                            assert(self.names()[k] == x);
                        }
                        if x == text {
                            assert(self.names()[place as int] == x);
                        }
                    }
                    assert(self@.nodes =~= before@.nodes.insert(text));
                    assert forall|x: Seq<char>|
                        self@.edges.contains_key(x) <==> before@.edges.contains_key(x) by {
                        if before.names().contains(x) {
                            let k = before.names().index_of(x);
                            before.lemma_place(k);
                            self.lemma_place(k);
                        } else if x == text {
                            self.lemma_place(place as int);
                        }
                    }
                    assert forall|x: Seq<char>| before@.edges.contains_key(x) implies self@.edges[x]
                        == before@.edges[x] by {
                        let k = before.names().index_of(x);
                        before.lemma_place(k);
                        self.lemma_place(k);
                        assert(self.dependents_at(k) =~= before.dependents_at(k));
                    }
                    assert(self@.edges =~= before@.edges);
                }
                place
            },
        }
    }

    /// Lists the unit at place `p` among those that need the unit at `d`.
    fn link(&mut self, d: usize, p: usize)
        requires
            old(self).wf(),
            d < old(self).nodes.len(),
            p < old(self).nodes.len(),
            p != d,
        ensures
            final(self).wf(),
            final(self).names() == old(self).names(),
            final(self)@.nodes == old(self)@.nodes,
            final(self)@.edges == old(self)@.edges.insert(
                old(self).names()[d as int],
                old(self)@.dependents(old(self).names()[d as int]).push(
                    old(self).names()[p as int],
                ),
            ),
    {
        let ghost before = *self;
        self.edges[d].push(p);
        proof {
            let dep = before.names()[d as int];
            let product = before.names()[p as int];
            assert(self.names() == before.names());
            assert(self.wf());
            before.lemma_dependents(d as int);
            self.lemma_dependents(d as int);
            assert(self.dependents_at(d as int) =~= before.dependents_at(d as int).push(product));
            let target = before@.edges.insert(dep, before@.dependents(dep).push(product));
            assert forall|x: Seq<char>|
                self@.edges.contains_key(x) <==> target.contains_key(x) by {
                if before.names().contains(x) {
                    let k = before.names().index_of(x);
                    before.lemma_place(k);
                }
                before.lemma_place(d as int);
            }
            assert forall|x: Seq<char>| target.contains_key(x) implies self@.edges[x]
                == target[x] by {
                before.lemma_place(d as int);
                if x != dep {
                    let k = before.names().index_of(x);
                    before.lemma_place(k);
                    assert(self.dependents_at(k) =~= before.dependents_at(k));
                }
            }
            assert(self@.edges =~= target);
            assert(self@.nodes =~= before@.nodes);
        }
    }

    /// The units at the marked places.
    closed spec fn marked(&self, visited: Seq<bool>) -> Set<Seq<char>> {
        Set::new(
            |name: Seq<char>|
                exists|v: int| 0 <= v < visited.len() && visited[v] && self.names()[v] == name,
        )
    }

    /// Whether each place that is marked and no longer waits has the places
    /// of its list marked. The place `skip` is left out.
    closed spec fn settled(&self, visited: Seq<bool>, waiting: Seq<usize>, skip: int) -> bool {
        forall|u: usize, k: int|
            #![trigger self.edges[u as int][k]]
            u < visited.len() && u != skip && visited[u as int] && !waiting.contains(u) && 0 <= k
                < self.edges[u as int].len() ==> visited[self.edges[u as int][k] as int]
    }

    proof fn lemma_link_is_edge(&self, u: int, k: int)
        requires
            self.wf(),
            0 <= u < self.nodes.len(),
            0 <= k < self.edges[u].len(),
        ensures
            self@.is_edge(self.names()[u], self.names()[self.edges[u][k] as int]),
    {
        self.lemma_dependents(u);
        let v = self.edges[u][k];
        assert(self.dependents_at(u)[k] == self.names()[v as int]);
        assert(self.names()[u] == self.nodes[u]@);
        assert(self.names()[v as int] == self.nodes[v as int]@);
    }

    proof fn lemma_marked_is_closed(&self, visited: Seq<bool>)
        requires
            self.wf(),
            visited.len() == self.nodes.len(),
            self.settled(visited, Seq::empty(), -1),
        ensures
            self@.is_closed(self.marked(visited)),
    {
        let units = self.marked(visited);
        assert forall|a: Seq<char>, b: Seq<char>|
            units.contains(a) && #[trigger] self@.is_edge(a, b) implies units.contains(b) by {
            let u = choose|u: int| 0 <= u < visited.len() && visited[u] && self.names()[u] == a;
            self.lemma_dependents(u);
            let list = self.dependents_at(u);
            let k = choose|k: int| 0 <= k < list.len() && list[k] == b;
            let v = self.edges[u][k];
            assert(!Seq::<usize>::empty().contains(u as usize));
            assert(visited[self.edges[u as usize as int][k] as int]);
            assert(self.names()[v as int] == b);
        }
    }

    /// Marks the places of the units that the unit at `start` reaches.
    fn reached_from(&self, start: usize) -> (visited: Vec<bool>)
        requires
            self.wf(),
            start < self.nodes.len(),
        ensures
            visited.len() == self.nodes.len(),
            forall|v: int|
                0 <= v < visited.len() ==> (visited[v] <==> self@.reaches(
                    self.names()[start as int],
                    #[trigger] self.names()[v],
                )),
    {
        let n = self.nodes.len();
        let ghost origin = self.names()[start as int];
        let mut visited: Vec<bool> = Vec::new();
        while visited.len() < n
            invariant
                visited.len() <= n,
                forall|v: int| 0 <= v < visited.len() ==> !visited[v],
            decreases n - visited.len(),
        {
            visited.push(false);
        }
        visited[start] = true;
        let mut waiting: Vec<usize> = Vec::new();
        waiting.push(start);
        proof {
            self@.lemma_reaches_itself(origin);
            assert forall|u: usize| u < n && visited[u as int] implies waiting@.contains(u) by {
                assert(waiting@[0] == start);
            }
        }
        while waiting.len() > 0
            invariant
                self.wf(),
                n == self.nodes.len(),
                visited.len() == n,
                start < n,
                origin == self.names()[start as int],
                visited[start as int],
                forall|v: int|
                    0 <= v < n && visited[v] ==> self@.reaches(origin, #[trigger] self.names()[v]),
                forall|i: int|
                    0 <= i < waiting.len() ==> #[trigger] waiting[i] < n && visited[waiting[i] as int],
                self.settled(visited@, waiting@, -1),
            decreases unvisited(visited@), waiting.len(),
        {
            let ghost earlier = waiting@;
            let ghost count = unvisited(visited@);
            let u = waiting.pop().unwrap();
            assert(u == earlier[earlier.len() - 1]);
            assert(self.settled(visited@, waiting@, u as int)) by {
                assert forall|w: usize| w != u && !waiting@.contains(w) implies !earlier.contains(
                    w,
                ) by {
                    if earlier.contains(w) {
                        let i = choose|i: int| 0 <= i < earlier.len() && earlier[i] == w;
                        assert(waiting@[i] == w);
                    }
                }
            }
            let ghost rest = waiting@.len();
            let mut k: usize = 0;
            while k < self.edges[u].len()
                invariant
                    self.wf(),
                    n == self.nodes.len(),
                    visited.len() == n,
                    start < n,
                    u < n,
                    origin == self.names()[start as int],
                    visited[start as int],
                    visited[u as int],
                    k <= self.edges[u as int].len(),
                    forall|v: int|
                        0 <= v < n && visited[v] ==> self@.reaches(
                            origin,
                            #[trigger] self.names()[v],
                        ),
                    forall|i: int|
                        0 <= i < waiting.len() ==> #[trigger] waiting[i] < n
                            && visited[waiting[i] as int],
                    self.settled(visited@, waiting@, u as int),
                    forall|j: int| 0 <= j < k ==> visited[#[trigger] self.edges[u as int][j] as int],
                    unvisited(visited@) + waiting.len() == count + rest,
                    unvisited(visited@) <= count,
                decreases self.edges[u as int].len() - k,
            {
                let v = self.edges[u][k];
                if !visited[v] {
                    let ghost marks = visited@;
                    let ghost line = waiting@;
                    visited[v] = true;
                    waiting.push(v);
                    proof {
                        lemma_visit(marks, v as int);
                        self.lemma_link_is_edge(u as int, k as int);
                        self@.lemma_reaches_further(
                            origin,
                            self.names()[u as int],
                            self.names()[v as int],
                        );
                        assert(waiting@[line.len() as int] == v);
                        assert forall|w: usize| line.contains(w) implies waiting@.contains(w) by {
                            let i = choose|i: int| 0 <= i < line.len() && line[i] == w;
                            assert(waiting@[i] == w);
                        }
                        assert(self.settled(visited@, waiting@, u as int));
                    }
                }
                k += 1;
            }
            assert(self.settled(visited@, waiting@, -1));
        }
        proof {
            assert(waiting@ =~= Seq::empty());
            self.lemma_marked_is_closed(visited@);
            let units = self.marked(visited@);
            assert(units.contains(origin));
            assert forall|v: int| 0 <= v < visited.len() && self@.reaches(
                origin,
                #[trigger] self.names()[v],
            ) implies visited[v] by {
                self@.lemma_closed_holds_reached(units, origin, self.names()[v]);
                let w = choose|w: int|
                    0 <= w < visited.len() && visited[w] && self.names()[w] == self.names()[v];
                assert(self.names()[w] == self.nodes[w]@);
                assert(self.names()[v] == self.nodes[v]@);
            }
        }
        visited
    }

    /// A unit that the graph does not hold depends on nothing, and nothing
    /// depends on it.
    proof fn lemma_strangers(&self, product: Seq<char>, dep: Seq<char>)
        requires
            self.wf(),
            !self.names().contains(dep) || !self.names().contains(product),
        ensures
            !self@.is_dependent(product, dep),
    {
        if product != dep && self@.reaches(dep, product) {
            let chain = choose|chain: Seq<Seq<char>>|
                chain.len() >= 1 && chain.first() == dep && chain.last() == product
                    && self@.is_chain(chain);
            let m = chain.len() - 2;
            assert(self@.is_edge(chain[0], chain[1]));
            assert(self@.is_edge(chain[m], chain[m + 1]));
            self.lemma_edges_join_nodes(chain[0], chain[1]);
            self.lemma_edges_join_nodes(chain[m], chain[m + 1]);
        }
    }

    /// For each of `files`, which of them depend on it: the entry at `d`
    /// and `p` says whether the file at `p` depends on the file at `d`.
    pub fn dependents_among(&self, files: &Vec<String>) -> (table: Vec<Vec<bool>>)
        requires
            self.wf(),
        ensures
            table.len() == files.len(),
            forall|d: int| 0 <= d < files.len() ==> (#[trigger] table[d]).len() == files.len(),
            forall|d: int, p: int|
                0 <= d < files.len() && 0 <= p < files.len() ==> #[trigger] table[d][p]
                    == self@.is_dependent(files[p]@, files[d]@),
    {
        let n = files.len();
        let mut places: Vec<Option<usize>> = Vec::new();
        while places.len() < n
            invariant
                self.wf(),
                n == files.len(),
                places.len() <= n,
                forall|i: int|
                    0 <= i < places.len() ==> match #[trigger] places[i] {
                        Some(k) => k < self.nodes.len() && self.names()[k as int] == files[i]@,
                        None => !self.names().contains(files[i]@),
                    },
            decreases n - places.len(),
        {
            let place = self.find(&files[places.len()]);
            places.push(place);
        }
        let mut table: Vec<Vec<bool>> = Vec::new();
        while table.len() < n
            invariant
                self.wf(),
                n == files.len(),
                places.len() == n,
                table.len() <= n,
                forall|i: int|
                    0 <= i < n ==> match #[trigger] places[i] {
                        Some(k) => k < self.nodes.len() && self.names()[k as int] == files[i]@,
                        None => !self.names().contains(files[i]@),
                    },
                forall|d: int| 0 <= d < table.len() ==> (#[trigger] table[d]).len() == n,
                forall|d: int, p: int|
                    0 <= d < table.len() && 0 <= p < n ==> #[trigger] table[d][p]
                        == self@.is_dependent(files[p]@, files[d]@),
            decreases n - table.len(),
        {
            let d = table.len();
            let reached: Option<Vec<bool>> = match places[d] {
                Some(k) => Some(self.reached_from(k)),
                None => None,
            };
            let mut row: Vec<bool> = Vec::new();
            while row.len() < n
                invariant
                    self.wf(),
                    n == files.len(),
                    places.len() == n,
                    d < n,
                    row.len() <= n,
                    forall|i: int|
                        0 <= i < n ==> match #[trigger] places[i] {
                            Some(k) => k < self.nodes.len() && self.names()[k as int] == files[i]@,
                            None => !self.names().contains(files[i]@),
                        },
                    match (places[d as int], reached) {
                        (Some(k), Some(visited)) => visited.len() == self.nodes.len() && forall|
                            v: int,
                        |
                            0 <= v < visited.len() ==> (visited[v] <==> self@.reaches(
                                self.names()[k as int],
                                #[trigger] self.names()[v],
                            )),
                        (None, None) => true,
                        _ => false,
                    },
                    forall|p: int|
                        0 <= p < row.len() ==> #[trigger] row[p] == self@.is_dependent(
                            files[p]@,
                            files[d as int]@,
                        ),
                decreases n - row.len(),
            {
                let p = row.len();
                let depends = match (&reached, places[p], places[d]) {
                    (Some(visited), Some(j), Some(k)) => j != k && visited[j],
                    _ => false,
                };
                proof {
                    match (places[p as int], places[d as int]) {
                        (Some(j), Some(k)) => {
                            assert(self.names()[j as int] == self.nodes[j as int]@);
                            assert(self.names()[k as int] == self.nodes[k as int]@);
                        },
                        _ => {
                            self.lemma_strangers(files[p as int]@, files[d as int]@);
                        },
                    }
                }
                row.push(depends);
            }
            table.push(row);
        }
        table
    }

    /// Whether `dep` must be compiled before `product`: whether `product`
    /// is another unit than `dep` and needs it, directly or through other
    /// units. The search ends on every graph, with or without cycles.
    pub fn is_dependent(&self, product: &str, dep: &str) -> (dependent: bool)
        requires
            self.wf(),
        ensures
            dependent == self@.is_dependent(product@, dep@),
            product@ == dep@ ==> !dependent,
    {
        let product = product.to_owned();
        let dep = dep.to_owned();
        if product == dep {
            return false;
        }
        match (self.find(&dep), self.find(&product)) {
            (Some(d), Some(p)) => {
                let visited = self.reached_from(d);
                visited[p]
            },
            _ => {
                proof {
                    self.lemma_strangers(product@, dep@);
                }
                false
            },
        }
    }

    /// Records that `product` needs `dep`. Both become units of the graph;
    /// `product` is added to the units that need `dep`, unless the two are
    /// the same unit.
    pub fn record(&mut self, product: &str, dep: &str)
        requires
            old(self).wf(),
        ensures
            final(self).wf(),
            final(self)@ == old(self)@.record(product@, dep@),
    {
        let p = self.intern(product.to_owned());
        let d = self.intern(dep.to_owned());
        if p != d {
            proof {
                self.lemma_place(p as int);
                self.lemma_place(d as int);
            }
            self.link(d, p);
        } else {
            assert(product@ == dep@);
        }
    }

    /// Whether `unit` is a unit of the graph.
    pub fn contains(&self, unit: &str) -> (found: bool)
        requires
            self.wf(),
        ensures
            found == self@.nodes.contains(unit@),
    {
        let wanted = unit.to_owned();
        self.find(&wanted).is_some()
    }

    /// The units that were recorded to need `dep`, in the order in which
    /// they were recorded.
    pub fn dependents(&self, dep: &str) -> (list: Vec<String>)
        requires
            self.wf(),
        ensures
            texts(list@) == self@.dependents(dep@),
    {
        let wanted = dep.to_owned();
        let mut list: Vec<String> = Vec::new();
        match self.find(&wanted) {
            None => {
                proof {
                    self.lemma_unknown(dep@);
                    assert(texts(list@) =~= Seq::<Seq<char>>::empty());
                }
            },
            Some(d) => {
                proof {
                    self.lemma_dependents(d as int);
                }
                let places = &self.edges[d];
                let mut k: usize = 0;
                while k < places.len()
                    invariant
                        self.wf(),
                        d < self.nodes.len(),
                        places == self.edges[d as int],
                        k <= places.len(),
                        texts(list@) == self.dependents_at(d as int).take(k as int),
                    decreases places.len() - k,
                {
                    let ghost before = list@;
                    list.push(self.nodes[places[k]].clone());
                    proof {
                        assert(self.names()[places[k as int] as int] == self.nodes[places[k as int] as int]@);
                        assert(texts(list@) =~= texts(before).push(
                            self.dependents_at(d as int)[k as int],
                        ));
                        assert(texts(list@) =~= self.dependents_at(d as int).take(k + 1));
                    }
                    k += 1;
                }
                assert(self.dependents_at(d as int).take(places.len() as int)
                    =~= self.dependents_at(d as int));
            },
        }
        list
    }

    /// Records each of `rules`, in their order: of each rule every product,
    /// in their order, is recorded to need every dependency, in their order.
    pub fn merge(&mut self, rules: &Vec<(Vec<String>, Vec<String>)>)
        requires
            old(self).wf(),
        ensures
            final(self).wf(),
            final(self)@ == old(self)@.record_rules(
                rules@.map_values(|rule: (Vec<String>, Vec<String>)| (texts(rule.0@), texts(rule.1@))),
            ),
    {
        let ghost start = self@;
        let ghost all = rules@.map_values(
            |rule: (Vec<String>, Vec<String>)| (texts(rule.0@), texts(rule.1@)),
        );
        let mut r: usize = 0;
        assert(all.take(0) =~= Seq::empty());
        while r < rules.len()
            invariant
                r <= rules.len(),
                self.wf(),
                all == rules@.map_values(
                    |rule: (Vec<String>, Vec<String>)| (texts(rule.0@), texts(rule.1@)),
                ),
                self@ == start.record_rules(all.take(r as int)),
            decreases rules.len() - r,
        {
            let products = &rules[r].0;
            let deps = &rules[r].1;
            let ghost earlier = self@;
            let ghost names = texts(products@);
            let ghost needs = texts(deps@);
            let mut p: usize = 0;
            assert(names.take(0) =~= Seq::<Seq<char>>::empty());
            while p < products.len()
                invariant
                    p <= products.len(),
                    self.wf(),
                    names == texts(products@),
                    needs == texts(deps@),
                    self@ == earlier.record_rule(names.take(p as int), needs),
                decreases products.len() - p,
            {
                let ghost half = self@;
                let mut d: usize = 0;
                assert(needs.take(0) =~= Seq::<Seq<char>>::empty());
                while d < deps.len()
                    invariant
                        d <= deps.len(),
                        p < products.len(),
                        self.wf(),
                        names == texts(products@),
                        needs == texts(deps@),
                        self@ == half.record_each(names[p as int], needs.take(d as int)),
                    decreases deps.len() - d,
                {
                    self.record(products[p].as_str(), deps[d].as_str());
                    proof {
                        assert(needs.take(d + 1).drop_last() =~= needs.take(d as int));
                        assert(needs.take(d + 1).last() == deps[d as int]@);
                    }
                    d += 1;
                }
                proof {
                    assert(needs.take(deps.len() as int) =~= needs);
                    assert(names.take(p + 1).drop_last() =~= names.take(p as int));
                    assert(names.take(p + 1).last() == names[p as int]);
                }
                p += 1;
            }
            proof {
                assert(names.take(products.len() as int) =~= names);
                assert(all.take(r + 1).drop_last() =~= all.take(r as int));
                assert(all.take(r + 1).last() == (names, needs));
            }
            r += 1;
        }
        assert(all.take(rules.len() as int) =~= all);
    }
}

} // verus!
