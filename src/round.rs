//! Bookkeeping of one translation round: which nodes may still be translated
//! into, which were changed, and when the round is over.
use vstd::prelude::*;
use crate::graph::{
    add_hop, add_node, contains_string, distinct_identifiers, known, nodes_view, register,
    strings_view, HopView, NodeView, Registry, TranslationGraph,
};
use crate::translations::TranslationResult;
use crate::ordered_map::{distinct_keys, has_key, lemma_index_of, lemma_insert_entry, lemma_lookup_insert, lookup};

verus! {

/// Node `y` is a neighbor of node `x`.
pub open spec fn adjacent(hops: Seq<(Seq<char>, Seq<HopView>)>, x: Seq<char>, y: Seq<char>) -> bool {
    has_key(hops, x) && exists|j: int| 0 <= j < lookup(hops, x).len() && #[trigger] lookup(hops, x)[j].to == y
}

/// The identifiers of the graph's nodes.
pub open spec fn node_ids(nodes: Seq<NodeView>) -> Set<Seq<char>> {
    nodes.map_values(|n: NodeView| n.identifier).to_set()
}

/// Every edge leads to a registered node.
pub open spec fn edges_known(nodes: Seq<NodeView>, hops: Seq<(Seq<char>, Seq<HopView>)>) -> bool {
    forall|x: Seq<char>, y: Seq<char>| #[trigger] adjacent(hops, x, y) ==> node_ids(nodes).contains(y)
}

/// `r` holds every neighbor, outside `avoid`, of each of its members.
pub open spec fn closed_under(r: Set<Seq<char>>, avoid: Set<Seq<char>>, hops: Seq<(Seq<char>, Seq<HopView>)>) -> bool {
    forall|x: Seq<char>, y: Seq<char>|
        r.contains(x) && #[trigger] adjacent(hops, x, y) && !avoid.contains(y) ==> r.contains(y)
}

/// `s` lies within every set that holds `start` and is closed under the
/// neighbor relation outside `avoid`: each member of `s` is reachable from
/// `start` without passing through `avoid`.
pub open spec fn reached_from(
    s: Set<Seq<char>>,
    start: Seq<char>,
    avoid: Set<Seq<char>>,
    hops: Seq<(Seq<char>, Seq<HopView>)>,
) -> bool {
    forall|r: Set<Seq<char>>| #[trigger] closed_under(r, avoid, hops) && r.contains(start) ==> s.subset_of(r)
}

pub open spec fn set_of(v: Seq<String>) -> Set<Seq<char>> {
    strings_view(v).to_set()
}

impl TranslationGraph {
    pub open spec fn wf(&self) -> bool {
        &&& edges_known(nodes_view(self.nodes@), self.hops@)
        &&& distinct_identifiers(nodes_view(self.nodes@))
    }
}

/// Appending an edge adds that one neighbor.
pub proof fn lemma_add_hop_adjacent(hops: Seq<(Seq<char>, Seq<HopView>)>, id: Seq<char>, h: HopView, x: Seq<char>, y: Seq<char>)
    requires
        distinct_keys(hops),
        adjacent(add_hop(hops, id, h), x, y),
    ensures
        adjacent(hops, x, y) || y == h.to,
{
    let l = if has_key(hops, id) { lookup(hops, id).push(h) } else { seq![h] };
    let r = add_hop(hops, id, h);
    lemma_lookup_insert(hops, id, l, x);
    let j = choose|j: int| 0 <= j < lookup(r, x).len() && #[trigger] lookup(r, x)[j].to == y;
    if x == id {
        if has_key(hops, id) && j < lookup(hops, id).len() {
            assert(lookup(hops, x)[j] == l[j]);
        }
    } else {
        assert(lookup(r, x) == lookup(hops, x));
    }
}

/// The edges of a graph under construction stay among its nodes.
pub proof fn lemma_register_edges(reg: Registry, f: NodeView, g: NodeView, t: nat)
    requires
        distinct_keys(reg.hops),
        edges_known(reg.nodes, reg.hops),
        register(reg, f, g, t) is Ok,
    ensures
        distinct_keys(register(reg, f, g, t)->Ok_0.hops),
        edges_known(register(reg, f, g, t)->Ok_0.nodes, register(reg, f, g, t)->Ok_0.hops),
{
    let n1 = add_node(reg.nodes, f);
    let n2 = add_node(n1, g);
    let hf = HopView { to: g.identifier, translation: t, forward: true };
    let hg = HopView { to: f.identifier, translation: t, forward: false };
    let h1 = add_hop(reg.hops, f.identifier, hf);
    let h2 = add_hop(h1, g.identifier, hg);
    let lf = if has_key(reg.hops, f.identifier) { lookup(reg.hops, f.identifier).push(hf) } else { seq![hf] };
    let lg = if has_key(h1, g.identifier) { lookup(h1, g.identifier).push(hg) } else { seq![hg] };
    lemma_insert_entry(reg.hops, f.identifier, lf);
    lemma_insert_entry(h1, g.identifier, lg);
    assert forall|y: Seq<char>| node_ids(reg.nodes).contains(y) || y == f.identifier || y == g.identifier
        implies #[trigger] node_ids(n2).contains(y) by {
        lemma_node_ids_add(reg.nodes, f, y);
        lemma_node_ids_add(n1, g, y);
    }
    assert forall|x: Seq<char>, y: Seq<char>| #[trigger] adjacent(h2, x, y) implies node_ids(n2).contains(y) by {
        lemma_add_hop_adjacent(h1, g.identifier, hg, x, y);
        if adjacent(h1, x, y) {
            lemma_add_hop_adjacent(reg.hops, f.identifier, hf, x, y);
        }
    }
}

pub proof fn lemma_node_ids_add(nodes: Seq<NodeView>, n: NodeView, y: Seq<char>)
    ensures
        node_ids(add_node(nodes, n)).contains(y) <== (node_ids(nodes).contains(y) || y == n.identifier),
{
    let ids = nodes.map_values(|m: NodeView| m.identifier);
    let r = add_node(nodes, n);
    let rids = r.map_values(|m: NodeView| m.identifier);
    if ids.contains(y) {
        let k = choose|k: int| 0 <= k < ids.len() && ids[k] == y;
        assert(rids[k] == y);
    } else if y == n.identifier {
        if known(nodes, y) {
            let k = choose|k: int| 0 <= k < nodes.len() && #[trigger] nodes[k].identifier == y;
            assert(rids[k] == y);
        } else {
            assert(rids[nodes.len() as int] == y);
        }
    }
}

/// Each step from a source not yet visited leaves fewer nodes unvisited, so
/// a round whose steps start at unvisited nodes ends after at most as many
/// steps as there are nodes.
pub proof fn lemma_round_progress(ids: Set<Seq<char>>, visited: Set<Seq<char>>, source: Seq<char>)
    requires
        ids.finite(),
        visited.subset_of(ids),
        ids.contains(source),
        !visited.contains(source),
    ensures
        ids.difference(visited.insert(source)).len() < ids.difference(visited).len(),
        visited.insert(source).subset_of(ids),
{
    assert(ids.difference(visited.insert(source)) =~= ids.difference(visited).remove(source));
}

/// A round whose source `s` finds every translation unchanged saturates in
/// that one step. `states` are the visited sets the step passes through: it
/// starts from `{s}`, and each edge of `s` in turn (`targets`, listing every
/// neighbor of `s`) leaves its destination visited and, as `after_translation`
/// promises for an unchanged result, the newly visited nodes closed under the
/// neighbor relation. When every node is connected to `s`, the last visited
/// set holds every node.
pub proof fn lemma_unchanged_step_saturates(
    states: Seq<Set<Seq<char>>>,
    targets: Seq<Seq<char>>,
    s: Seq<char>,
    hops: Seq<(Seq<char>, Seq<HopView>)>,
    ids: Set<Seq<char>>,
)
    requires
        states.len() == targets.len() + 1,
        states[0] == Set::<Seq<char>>::empty().insert(s),
        forall|k: int| 0 <= k < targets.len() ==> #[trigger] states[k + 1].contains(targets[k]) && states[k].subset_of(states[k + 1])
            && closed_beyond(states[k + 1], states[k], hops),
        forall|y: Seq<char>| #[trigger] adjacent(hops, s, y) ==> exists|k: int| 0 <= k < targets.len() && targets[k] == y,
        reached_from(ids, s, Set::<Seq<char>>::empty(), hops),
    ensures
        ids.subset_of(states.last()),
{
    let n = targets.len() as int;
    assert forall|i: int, j: int| 0 <= i <= j <= n implies #[trigger] states[i].subset_of(states[j]) by {
        lemma_chain_grows(states, targets, hops, i, j);
    }
    assert forall|j: int| 0 <= j <= n implies closed_beyond(#[trigger] states[j], Set::<Seq<char>>::empty().insert(s), hops) by {
        lemma_chain_closed(states, targets, s, hops, j);
    }
    let v = states.last();
    assert(v == states[n]);
    assert forall|x: Seq<char>, y: Seq<char>|
        v.contains(x) && #[trigger] adjacent(hops, x, y) && !Set::<Seq<char>>::empty().contains(y) implies v.contains(y) by {
        if x == s {
            let k = choose|k: int| 0 <= k < targets.len() && targets[k] == y;
            assert(states[k + 1].contains(targets[k]));
            assert(states[k + 1].subset_of(states[n]));
        }
    }
    assert(closed_under(v, Set::<Seq<char>>::empty(), hops));
    assert(v.contains(s)) by {
        assert(states[0].subset_of(states[n]));
    }
}

proof fn lemma_chain_grows(
    states: Seq<Set<Seq<char>>>,
    targets: Seq<Seq<char>>,
    hops: Seq<(Seq<char>, Seq<HopView>)>,
    i: int,
    j: int,
)
    requires
        states.len() == targets.len() + 1,
        forall|k: int| 0 <= k < targets.len() ==> #[trigger] states[k + 1].contains(targets[k]) && states[k].subset_of(states[k + 1])
            && closed_beyond(states[k + 1], states[k], hops),
        0 <= i <= j < states.len(),
    ensures
        states[i].subset_of(states[j]),
    decreases j - i,
{
    if i < j {
        lemma_chain_grows(states, targets, hops, i, j - 1);
        assert(states[j - 1 + 1].contains(targets[j - 1]));
    }
}

proof fn lemma_chain_closed(
    states: Seq<Set<Seq<char>>>,
    targets: Seq<Seq<char>>,
    s: Seq<char>,
    hops: Seq<(Seq<char>, Seq<HopView>)>,
    j: int,
)
    requires
        states.len() == targets.len() + 1,
        states[0] == Set::<Seq<char>>::empty().insert(s),
        forall|k: int| 0 <= k < targets.len() ==> #[trigger] states[k + 1].contains(targets[k]) && states[k].subset_of(states[k + 1])
            && closed_beyond(states[k + 1], states[k], hops),
        0 <= j < states.len(),
    ensures
        closed_beyond(states[j], Set::<Seq<char>>::empty().insert(s), hops),
    decreases j,
{
    if j > 0 {
        lemma_chain_closed(states, targets, s, hops, j - 1);
        assert(states[j - 1 + 1].contains(targets[j - 1]));
        assert forall|x: Seq<char>, y: Seq<char>|
            states[j].contains(x) && !Set::<Seq<char>>::empty().insert(s).contains(x) && #[trigger] adjacent(hops, x, y)
                implies states[j].contains(y) by {
            if states[j - 1].contains(x) {
                assert(states[j - 1].contains(y));
            }
        }
    }
}

/// A round ends: along the visited sets of a round, each step whose source
/// was not yet visited adds at least that source, and every visited set lies
/// within the finite set of nodes. So a round has at most as many such steps
/// as there are nodes, and after that many the visited set is every node.
pub proof fn lemma_round_ends(states: Seq<Set<Seq<char>>>, sources: Seq<Seq<char>>, ids: Set<Seq<char>>)
    requires
        ids.finite(),
        states.len() == sources.len() + 1,
        forall|k: int| 0 <= k < states.len() ==> (#[trigger] states[k]).subset_of(ids),
        forall|k: int| 0 <= k < sources.len() ==> !states[k].contains(#[trigger] sources[k])
            && states[k].insert(sources[k]).subset_of(states[k + 1]),
    ensures
        sources.len() <= ids.len(),
        sources.len() == ids.len() ==> states.last() == ids,
{
    lemma_steps_grow(states, sources, ids, sources.len() as int);
    vstd::set_lib::lemma_len_subset(states.last(), ids);
    if sources.len() == ids.len() {
        vstd::set_lib::lemma_subset_equality(states.last(), ids);
    }
}

proof fn lemma_steps_grow(states: Seq<Set<Seq<char>>>, sources: Seq<Seq<char>>, ids: Set<Seq<char>>, j: int)
    requires
        ids.finite(),
        states.len() == sources.len() + 1,
        forall|k: int| 0 <= k < states.len() ==> (#[trigger] states[k]).subset_of(ids),
        forall|k: int| 0 <= k < sources.len() ==> !states[k].contains(#[trigger] sources[k])
            && states[k].insert(sources[k]).subset_of(states[k + 1]),
        0 <= j <= sources.len(),
    ensures
        states[j].finite(),
        states[j].len() >= j,
    decreases j,
{
    vstd::set_lib::lemma_len_subset(states[j], ids);
    if j > 0 {
        lemma_steps_grow(states, sources, ids, j - 1);
        let prev = states[j - 1];
        assert(!prev.contains(sources[j - 1]));
        vstd::set_lib::lemma_len_subset(prev.insert(sources[j - 1]), states[j]);
    }
}

/// The state of a round in progress.
pub struct Round {
    pub visited: Vec<String>,
    pub changed: Vec<String>,
}

pub proof fn lemma_set_of_push(v: Seq<String>, s: String)
    ensures
        set_of(v.push(s)) == set_of(v).insert(s@),
{
    assert(strings_view(v.push(s)) =~= strings_view(v).push(s@));
    let a = strings_view(v);
    assert forall|x: Seq<char>| #[trigger] a.push(s@).contains(x) <==> (a.contains(x) || x == s@) by {
        if a.contains(x) {
            let k = choose|k: int| 0 <= k < a.len() && a[k] == x;
            assert(a.push(s@)[k] == x);
        }
        if x == s@ {
            assert(a.push(s@)[a.len() as int] == x);
        }
        if a.push(s@).contains(x) {
            let k = choose|k: int| 0 <= k < a.push(s@).len() && a.push(s@)[k] == x;
            if k < a.len() {
                assert(a[k] == x);
            }
        }
    }
    assert(set_of(v.push(s)) =~= set_of(v).insert(s@));
}

/// Nodes in `s` outside `avoid` have all their neighbors in `s`.
pub open spec fn closed_beyond(s: Set<Seq<char>>, avoid: Set<Seq<char>>, hops: Seq<(Seq<char>, Seq<HopView>)>) -> bool {
    forall|x: Seq<char>, y: Seq<char>|
        s.contains(x) && !avoid.contains(x) && #[trigger] adjacent(hops, x, y) ==> s.contains(y)
}

fn add_string(v: &mut Vec<String>, s: &String)
    ensures
        set_of(final(v)@) == set_of(old(v)@).insert(s@),
        strings_view(old(v)@).no_duplicates() ==> strings_view(final(v)@).no_duplicates(),
        final(v)@.len() <= old(v)@.len() + 1,
        !set_of(old(v)@).contains(s@) ==> final(v)@.len() == old(v)@.len() + 1,
{
    if !contains_string(v, s) {
        let t = s.clone();
        proof {
            lemma_set_of_push(v@, t);
        }
        v.push(t);
        proof {
            let a = strings_view(old(v)@);
            assert(strings_view(v@) =~= a.push(s@));
            assert forall|i: int, j: int| 0 <= i < a.push(s@).len() && 0 <= j < a.push(s@).len() && i != j && a.no_duplicates()
                implies a.push(s@)[i] != a.push(s@)[j] by {
                if i == a.len() {
                    assert(!a.contains(a[j]) ==> false);
                } else if j == a.len() {
                    assert(!a.contains(a[i]) ==> false);
                }
            }
        }
    } else {
        assert(set_of(v@) =~= set_of(old(v)@).insert(s@));
    }
}

impl Round {
    pub open spec fn visited_set(&self) -> Set<Seq<char>> {
        set_of(self.visited@)
    }

    pub open spec fn changed_set(&self) -> Set<Seq<char>> {
        set_of(self.changed@)
    }

    pub fn new() -> (r: Round)
        ensures
            r.visited_set() == Set::<Seq<char>>::empty(),
            r.changed_set() == Set::<Seq<char>>::empty(),
    {
        let r = Round { visited: Vec::new(), changed: Vec::new() };
        assert(r.visited_set() =~= Set::<Seq<char>>::empty());
        assert(r.changed_set() =~= Set::<Seq<char>>::empty());
        r
    }

    /// Marks the source of a round step as visited.
    pub fn visit_source(&mut self, id: &String)
        ensures
            strings_view(old(self).visited@).no_duplicates() ==> strings_view(final(self).visited@).no_duplicates(),
            final(self).visited_set() == old(self).visited_set().insert(id@),
            final(self).changed_set() == old(self).changed_set(),
            !old(self).visited_set().contains(id@) ==> final(self).visited@.len() == old(self).visited@.len() + 1,
    {
        add_string(&mut self.visited, id);
    }

    /// A destination is translated into only while it is not visited.
    pub fn should_translate(&self, to: &String) -> (r: bool)
        ensures
            r == !self.visited_set().contains(to@),
    {
        !contains_string(&self.visited, to)
    }

    /// Records that a translation changed node `to`.
    pub fn record_changed(&mut self, to: &String)
        ensures
            final(self).changed_set() == old(self).changed_set().insert(to@),
            final(self).visited_set() == old(self).visited_set().insert(to@),
            strings_view(old(self).visited@).no_duplicates() ==> strings_view(final(self).visited@).no_duplicates(),
    {
        add_string(&mut self.changed, to);
        add_string(&mut self.visited, to);
    }

    /// Records the outcome of translating into `to` from the current source:
    /// a changed destination is recorded as changed; either way it is
    /// visited, so no later edge of this round translates into it again. An
    /// unchanged destination also closes off what lies beyond it.
    pub fn after_translation(&mut self, g: &TranslationGraph, to: &String, result: TranslationResult)
        requires
            g.wf(),
        ensures
            final(self).visited_set().contains(to@),
            old(self).visited_set().subset_of(final(self).visited_set()),
            strings_view(old(self).visited@).no_duplicates() ==> strings_view(final(self).visited@).no_duplicates(),
            result is Changed ==> final(self).changed_set() == old(self).changed_set().insert(to@)
                && final(self).visited_set() == old(self).visited_set().insert(to@),
            result is Unchanged ==> final(self).changed_set() == old(self).changed_set()
                && closed_beyond(final(self).visited_set(), old(self).visited_set(), g.hops@)
                && (!old(self).visited_set().contains(to@) ==> reached_from(
                final(self).visited_set().difference(old(self).visited_set()),
                to@,
                old(self).visited_set(),
                g.hops@,
            )) && (old(self).visited_set().contains(to@) ==> final(self).visited_set() == old(self).visited_set()),
            old(self).visited_set().subset_of(node_ids(nodes_view(g.nodes@))) && node_ids(nodes_view(g.nodes@)).contains(to@)
                ==> final(self).visited_set().subset_of(node_ids(nodes_view(g.nodes@))),
    {
        match result {
            TranslationResult::Changed => self.record_changed(to),
            TranslationResult::Unchanged => self.mark_unchanged(g, to),
        }
    }

    /// Records that a translation left node `start` unchanged: `start` and
    /// every node reachable from it through nodes not yet visited become
    /// visited, so nothing is translated into them again this round.
    pub fn mark_unchanged(&mut self, g: &TranslationGraph, start: &String)
        requires
            g.wf(),
        ensures
            strings_view(old(self).visited@).no_duplicates() ==> strings_view(final(self).visited@).no_duplicates(),
            old(self).visited_set().subset_of(node_ids(nodes_view(g.nodes@))) && node_ids(nodes_view(g.nodes@)).contains(start@)
                ==> final(self).visited_set().subset_of(node_ids(nodes_view(g.nodes@))),
            final(self).changed_set() == old(self).changed_set(),
            old(self).visited_set().contains(start@) ==> final(self).visited_set() == old(self).visited_set(),
            old(self).visited_set().insert(start@).subset_of(final(self).visited_set()),
            closed_beyond(final(self).visited_set(), old(self).visited_set(), g.hops@),
            !old(self).visited_set().contains(start@) ==> reached_from(
                final(self).visited_set().difference(old(self).visited_set()),
                start@,
                old(self).visited_set(),
                g.hops@,
            ),
    {
        let ghost old_set = self.visited_set();
        let ghost universe = node_ids(nodes_view(g.nodes@));
        if contains_string(&self.visited, start) {
            return;
        }
        add_string(&mut self.visited, start);
        let mut stack: Vec<String> = Vec::new();
        let t = start.clone();
        proof {
            lemma_set_of_push(stack@, t);
            assert(set_of(stack@) =~= Set::<Seq<char>>::empty());
        }
        stack.push(t);
        proof {
            nodes_view(g.nodes@).map_values(|n: NodeView| n.identifier).lemma_cardinality_of_set();
            assert forall|r: Set<Seq<char>>| #[trigger] closed_under(r, old_set, g.hops@) && r.contains(start@)
                implies self.visited_set().difference(old_set).subset_of(r) by {
                assert(self.visited_set().difference(old_set) =~= set![start@]);
            }
        }
        while stack.len() > 0
            invariant
                g.wf(),
                universe == node_ids(nodes_view(g.nodes@)),
                universe.finite(),
                old_set.insert(start@).subset_of(self.visited_set()),
                !old_set.contains(start@),
                self.changed_set() == old(self).changed_set(),
                old_set == old(self).visited_set(),
                strings_view(old(self).visited@).no_duplicates() ==> strings_view(self.visited@).no_duplicates(),
                old_set.subset_of(universe) && universe.contains(start@) ==> self.visited_set().subset_of(universe),
                forall|k: int| 0 <= k < stack@.len() ==> #[trigger] self.visited_set().contains(stack@[k]@)
                    && !old_set.contains(stack@[k]@),
                forall|x: Seq<char>, y: Seq<char>|
                    self.visited_set().contains(x) && !old_set.contains(x) && !set_of(stack@).contains(x)
                        && #[trigger] adjacent(g.hops@, x, y) ==> self.visited_set().contains(y),
                reached_from(self.visited_set().difference(old_set), start@, old_set, g.hops@),
            decreases universe.difference(self.visited_set()).len(), stack@.len(),
        {
            let ghost full = stack@;
            let x = stack.pop().unwrap();
            let ghost mid_set = self.visited_set();
            let ghost pop_len = stack@.len();
            proof {
                lemma_index_of(g.hops@, x@);
                assert(full == stack@.push(x));
                lemma_set_of_push(stack@, x);
                assert(full[full.len() - 1] == x);
                assert(self.visited_set().contains(full[full.len() - 1]@) && !old_set.contains(full[full.len() - 1]@));
                assert forall|k: int| 0 <= k < stack@.len() implies #[trigger] stack@[k] == full[k] by {}
            }
            match g.hops.get(&x) {
                Some(hs) => {
                    let n = hs.list.len();
                    let mut j: usize = 0;
                    while j < n
                        invariant
                            g.wf(),
                            universe == node_ids(nodes_view(g.nodes@)),
                            universe.finite(),
                            n == hs.list@.len(),
                            j <= n,
                            has_key(g.hops@, x@),
                            hs@ == lookup(g.hops@, x@),
                            mid_set.subset_of(self.visited_set()),
                            old_set.insert(start@).subset_of(self.visited_set()),
                            self.changed_set() == old(self).changed_set(),
                            old_set == old(self).visited_set(),
                            strings_view(old(self).visited@).no_duplicates() ==> strings_view(self.visited@).no_duplicates(),
                            old_set.subset_of(universe) && universe.contains(start@) ==> self.visited_set().subset_of(universe),
                            self.visited_set().contains(x@),
                            !old_set.contains(x@),
                            forall|k: int| 0 <= k < stack@.len() ==> #[trigger] self.visited_set().contains(stack@[k]@)
                                && !old_set.contains(stack@[k]@),
                            forall|k: int| 0 <= k < j ==> self.visited_set().contains(#[trigger] hs@[k].to),
                            forall|z: Seq<char>, y: Seq<char>|
                                self.visited_set().contains(z) && !old_set.contains(z) && !set_of(stack@).contains(z)
                                    && z != x@ && #[trigger] adjacent(g.hops@, z, y) ==> self.visited_set().contains(y),
                            reached_from(self.visited_set().difference(old_set), start@, old_set, g.hops@),
                            universe.difference(self.visited_set()).len() < universe.difference(mid_set).len()
                                || (universe.difference(self.visited_set()).len() == universe.difference(mid_set).len()
                                && stack@.len() == pop_len),
                        decreases n - j,
                    {
                        let y = &hs.list[j].to;
                        assert(hs@[j as int].to == y@);
                        if !contains_string(&self.visited, y) {
                            let ghost before = self.visited_set();
                            assert(adjacent(g.hops@, x@, y@));
                            add_string(&mut self.visited, y);
                            let t = y.clone();
                            proof {
                                lemma_set_of_push(stack@, t);
                            }
                            stack.push(t);
                            proof {
                                assert(universe.contains(y@));
                                assert(universe.difference(self.visited_set()) =~= universe.difference(before).remove(y@));
                                assert forall|r: Set<Seq<char>>| #[trigger] closed_under(r, old_set, g.hops@) && r.contains(start@)
                                    implies self.visited_set().difference(old_set).subset_of(r) by {
                                    assert(before.difference(old_set).subset_of(r));
                                    assert(r.contains(x@));
                                }
                            }
                        }
                        j = j + 1;
                    }
                },
                None => {
                    assert forall|y: Seq<char>| !adjacent(g.hops@, x@, y) by {}
                },
            }
        }
    }

    /// The round is over when every node has been visited.
    pub fn is_complete(&self, g: &TranslationGraph) -> (r: bool)
        ensures
            r == (self.visited@.len() == g.nodes@.len()),
            g.wf() && strings_view(self.visited@).no_duplicates() && self.visited_set().subset_of(
                node_ids(nodes_view(g.nodes@)),
            ) ==> (r == (self.visited_set() == node_ids(nodes_view(g.nodes@)))),
    {
        proof {
            let ns = nodes_view(g.nodes@);
            let ids = ns.map_values(|n: NodeView| n.identifier);
            if g.wf() && strings_view(self.visited@).no_duplicates() && self.visited_set().subset_of(node_ids(ns)) {
                assert(ids.no_duplicates()) by {
                    assert forall|i: int, j: int| 0 <= i < ids.len() && 0 <= j < ids.len() && i != j implies ids[i] != ids[j] by {
                        assert(ids[i] == ns[i].identifier && ids[j] == ns[j].identifier);
                    }
                }
                ids.unique_seq_to_set();
                strings_view(self.visited@).unique_seq_to_set();
                ids.lemma_cardinality_of_set();
                if self.visited@.len() == g.nodes@.len() {
                    vstd::set_lib::lemma_subset_equality(self.visited_set(), node_ids(ns));
                }
            }
        }
        self.visited.len() == g.nodes.len()
    }

    /// The round may close only once every changed node has reported `Done`:
    /// true exactly when each member of the changed set is in `heard`.
    pub fn all_changed_reported(&self, heard: &Vec<String>) -> (r: bool)
        ensures
            r == self.changed_set().subset_of(set_of(heard@)),
    {
        let mut i: usize = 0;
        while i < self.changed.len()
            invariant
                i <= self.changed@.len(),
                forall|j: int| 0 <= j < i ==> set_of(heard@).contains(#[trigger] self.changed@[j]@),
            decreases self.changed@.len() - i,
        {
            if !contains_string(heard, &self.changed[i]) {
                assert(self.changed_set().contains(self.changed@[i as int]@)) by {
                    assert(strings_view(self.changed@)[i as int] == self.changed@[i as int]@);
                }
                return false;
            }
            i = i + 1;
        }
        assert forall|x: Seq<char>| self.changed_set().contains(x) implies set_of(heard@).contains(x) by {
            let k = choose|k: int| 0 <= k < strings_view(self.changed@).len() && strings_view(self.changed@)[k] == x;
            assert(self.changed@[k]@ == x);
        }
        true
    }

    /// Closes the round once every changed node has reported `Done`: then
    /// the state is cleared for the next round and the result is true;
    /// otherwise nothing changes and the result is false. With no changed
    /// node, nothing is awaited.
    pub fn close_out(&mut self, heard: &Vec<String>) -> (r: bool)
        ensures
            r == old(self).changed_set().subset_of(set_of(heard@)),
            r ==> final(self).visited_set() == Set::<Seq<char>>::empty() && final(self).changed_set()
                == Set::<Seq<char>>::empty(),
            !r ==> *final(self) == *old(self),
            old(self).changed_set() == Set::<Seq<char>>::empty() ==> r,
    {
        if self.all_changed_reported(heard) {
            self.finish();
            true
        } else {
            false
        }
    }

    /// Clears the state for the next round.
    pub fn finish(&mut self)
        ensures
            final(self).visited_set() == Set::<Seq<char>>::empty(),
            final(self).changed_set() == Set::<Seq<char>>::empty(),
    {
        self.visited = Vec::new();
        self.changed = Vec::new();
        assert(self.visited_set() =~= Set::<Seq<char>>::empty());
        assert(self.changed_set() =~= Set::<Seq<char>>::empty());
    }
}

} // verus!
