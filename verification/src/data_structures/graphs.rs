// simple concept of graph
//!
//! A directed graph of named nodes. The nodes are kept by name, and beside
//! the name of a node stands the list of the names that its edges lead to.

use std::collections::VecDeque;
use vstd::prelude::*;

verus! {

/// A node of the graph: a name, and whether the one of that name sells.
#[derive(Debug, Clone)]
pub struct Node {
    pub name: String,
    pub is_seller: bool,
}

/// A directed graph of named nodes.
#[derive(Debug)]
pub struct MoGraph {
    nodes: Vec<Node>,
    adjacency_list: Vec<(String, Vec<String>)>,
}

/// The texts of a list of names.
pub open spec fn names(list: Seq<String>) -> Seq<Seq<char>> {
    list.map_values(|name: String| name@)
}

/// No two nodes of the list have the same name.
pub open spec fn distinct_nodes(nodes: Seq<Node>) -> bool {
    forall|i: int, j: int|
        #![trigger nodes[i], nodes[j]]
        0 <= i < j < nodes.len() ==> nodes[i].name@ != nodes[j].name@
}

/// No two lists of neighbours stand beside the same name.
pub open spec fn distinct_sources(lists: Seq<(String, Vec<String>)>) -> bool {
    forall|i: int, j: int|
        #![trigger lists[i], lists[j]]
        0 <= i < j < lists.len() ==> lists[i].0@ != lists[j].0@
}

/// The position of the node called `name`, or the length of the list.
pub open spec fn node_index(nodes: Seq<Node>, name: Seq<char>) -> int
    decreases nodes.len(),
{
    if nodes.len() == 0 {
        0
    } else if nodes[0].name@ == name {
        0
    } else {
        1 + node_index(nodes.drop_first(), name)
    }
}

/// The position of the neighbours of `name`, or the length of the list.
pub open spec fn source_index(lists: Seq<(String, Vec<String>)>, name: Seq<char>) -> int
    decreases lists.len(),
{
    if lists.len() == 0 {
        0
    } else if lists[0].0@ == name {
        0
    } else {
        1 + source_index(lists.drop_first(), name)
    }
}

/// `node_index` is the first position of the name, and no more than the
/// length.
pub proof fn lemma_node_index(nodes: Seq<Node>, name: Seq<char>)
    ensures
        0 <= node_index(nodes, name) <= nodes.len(),
        node_index(nodes, name) < nodes.len() ==> nodes[node_index(nodes, name)].name@ == name,
        forall|j: int| 0 <= j < node_index(nodes, name) ==> (#[trigger] nodes[j]).name@ != name,
    decreases nodes.len(),
{
    if nodes.len() > 0 && nodes[0].name@ != name {
        let rest = nodes.drop_first();
        lemma_node_index(rest, name);
        assert forall|j: int| 0 <= j < node_index(nodes, name) implies (#[trigger] nodes[j]).name@
            != name by {
            if j > 0 {
                assert(rest[j - 1] == nodes[j]);
            }
        }
    }
}

/// A position before which the name does not occur, and at which it does or
/// which is the length, is `node_index`.
pub proof fn lemma_is_node_index(nodes: Seq<Node>, name: Seq<char>, at: int)
    requires
        0 <= at <= nodes.len(),
        forall|j: int| 0 <= j < at ==> (#[trigger] nodes[j]).name@ != name,
        at < nodes.len() ==> nodes[at].name@ == name,
    ensures
        node_index(nodes, name) == at,
{
    lemma_node_index(nodes, name);
    let f = node_index(nodes, name);
    if f < at {
        assert(nodes[f].name@ != name);
    }
}

/// `source_index` is the first position of the name, and no more than the
/// length.
pub proof fn lemma_source_index(lists: Seq<(String, Vec<String>)>, name: Seq<char>)
    ensures
        0 <= source_index(lists, name) <= lists.len(),
        source_index(lists, name) < lists.len() ==> lists[source_index(lists, name)].0@ == name,
        forall|j: int| 0 <= j < source_index(lists, name) ==> (#[trigger] lists[j]).0@ != name,
    decreases lists.len(),
{
    if lists.len() > 0 && lists[0].0@ != name {
        let rest = lists.drop_first();
        lemma_source_index(rest, name);
        assert forall|j: int| 0 <= j < source_index(lists, name) implies (#[trigger] lists[j]).0@
            != name by {
            if j > 0 {
                assert(rest[j - 1] == lists[j]);
            }
        }
    }
}

/// A position before which the name does not occur, and at which it does or
/// which is the length, is `source_index`.
pub proof fn lemma_is_source_index(lists: Seq<(String, Vec<String>)>, name: Seq<char>, at: int)
    requires
        0 <= at <= lists.len(),
        forall|j: int| 0 <= j < at ==> (#[trigger] lists[j]).0@ != name,
        at < lists.len() ==> lists[at].0@ == name,
    ensures
        source_index(lists, name) == at,
{
    lemma_source_index(lists, name);
    let f = source_index(lists, name);
    if f < at {
        assert(lists[f].0@ != name);
    }
}

/// All the names that the lists of neighbours hold, list after list.
pub open spec fn all_targets(lists: Seq<(String, Vec<String>)>) -> Seq<Seq<char>>
    decreases lists.len(),
{
    if lists.len() == 0 {
        Seq::empty()
    } else {
        all_targets(lists.drop_last()) + names(lists.last().1@)
    }
}

/// Every neighbour in a list is among all the targets.
pub proof fn lemma_target(lists: Seq<(String, Vec<String>)>, i: int, j: int)
    requires
        0 <= i < lists.len(),
        0 <= j < lists[i].1@.len(),
    ensures
        all_targets(lists).contains(lists[i].1@[j]@),
    decreases lists.len(),
{
    let front = all_targets(lists.drop_last());
    let last = names(lists.last().1@);
    if i == lists.len() - 1 {
        assert((front + last)[front.len() + j] == lists[i].1@[j]@);
    } else {
        assert(lists.drop_last()[i] == lists[i]);
        lemma_target(lists.drop_last(), i, j);
        let k = choose|k: int| 0 <= k < front.len() && front[k] == lists[i].1@[j]@;
        assert((front + last)[k] == lists[i].1@[j]@);
    }
}

/// Marking a name of the universe that was not marked leaves one name less
/// to mark.
pub proof fn lemma_one_less(universe: Set<Seq<char>>, marked: Set<Seq<char>>, name: Seq<char>)
    requires
        universe.finite(),
        universe.contains(name),
        !marked.contains(name),
    ensures
        universe.difference(marked.insert(name)).len() + 1 == universe.difference(marked).len(),
        universe.difference(marked).finite(),
{
    assert(universe.difference(marked.insert(name)) =~= universe.difference(marked).remove(name));
    vstd::set_lib::lemma_len_difference(universe, marked);
}

/// The names of a longer list are the names of the list and the new name.
pub proof fn lemma_names_push(list: Seq<String>, name: String)
    ensures
        names(list.push(name)) == names(list).push(name@),
        names(list.push(name)).to_set() == names(list).to_set().insert(name@),
{
    assert(names(list.push(name)) =~= names(list).push(name@));
    let longer = names(list).push(name@);
    assert forall|x: Seq<char>| longer.to_set().contains(x) <==> names(list).to_set().insert(
        name@,
    ).contains(x) by {
        if longer.contains(x) {
            let i = choose|i: int| 0 <= i < longer.len() && longer[i] == x;
            if i < list.len() {
                assert(names(list)[i] == x);
            }
        }
        if names(list).contains(x) {
            let i = choose|i: int| 0 <= i < names(list).len() && names(list)[i] == x;
            assert(longer[i] == x);
        }
        if x == name@ {
            assert(longer[list.len() as int] == x);
        }
    }
    assert(longer.to_set() =~= names(list).to_set().insert(name@));
}

impl MoGraph {
    /// The nodes, in the order in which their names first came.
    pub closed spec fn node_list(self) -> Seq<Node> {
        self.nodes@
    }

    /// The lists of neighbours, each beside the name it belongs to.
    pub closed spec fn edge_lists(self) -> Seq<(String, Vec<String>)> {
        self.adjacency_list@
    }

    /// The invariant of the graph: no name has two nodes or two lists of
    /// neighbours.
    pub open spec fn well_formed(self) -> bool {
        &&& distinct_nodes(self.node_list())
        &&& distinct_sources(self.edge_lists())
    }

    /// The node called `name`, if the graph has one.
    pub open spec fn node_named(self, name: Seq<char>) -> Option<Node> {
        let at = node_index(self.node_list(), name);
        if at < self.node_list().len() {
            Some(self.node_list()[at])
        } else {
            None
        }
    }

    /// The names that the edges from `name` lead to, in the order in which
    /// the edges came, if there is an edge from `name`.
    pub open spec fn neighbors_of(self, name: Seq<char>) -> Option<Seq<Seq<char>>> {
        let at = source_index(self.edge_lists(), name);
        if at < self.edge_lists().len() {
            Some(names(self.edge_lists()[at].1@))
        } else {
            None
        }
    }

    /// An edge leads from `from` to `to`.
    pub open spec fn edge(self, from: Seq<char>, to: Seq<char>) -> bool {
        self.neighbors_of(from) matches Some(list) && list.contains(to)
    }

    /// Each name of `walk` but the last has an edge to the next.
    pub open spec fn path(self, walk: Seq<Seq<char>>) -> bool {
        forall|i: int| 0 <= i < walk.len() - 1 ==> self.edge(#[trigger] walk[i], walk[i + 1])
    }

    /// Edges lead from `from` to `to`, in no or more steps.
    pub open spec fn reachable(self, from: Seq<char>, to: Seq<char>) -> bool {
        exists|walk: Seq<Seq<char>>|
            #![trigger self.path(walk)]
            walk.len() > 0 && walk[0] == from && walk.last() == to && self.path(walk)
    }

    /// The names to which an edge leads.
    pub open spec fn targets(self) -> Set<Seq<char>> {
        all_targets(self.edge_lists()).to_set()
    }

    /// Every name of `list` can be reached from `start`.
    pub open spec fn all_reachable(self, start: Seq<char>, list: Seq<Seq<char>>) -> bool {
        forall|i: int| 0 <= i < list.len() ==> self.reachable(start, #[trigger] list[i])
    }

    /// The edges from the names in `done` lead to names in `marked`.
    pub open spec fn closed_under(self, done: Set<Seq<char>>, marked: Set<Seq<char>>) -> bool {
        forall|x: Seq<char>, y: Seq<char>|
            done.contains(x) && #[trigger] self.edge(x, y) ==> marked.contains(y)
    }

    /// The condition has said no to every node with a name in `done`.
    pub open spec fn all_rejected<F: Fn(&Node) -> bool>(
        self,
        done: Set<Seq<char>>,
        condition: F,
    ) -> bool {
        forall|x: Seq<char>|
            done.contains(x) && #[trigger] self.node_named(x) is Some ==> call_ensures(
                condition,
                (&self.node_named(x)->0,),
                false,
            )
    }

    /// A name with an edge to another name has the other name in its list.
    pub proof fn lemma_edge(self, from: Seq<char>, to: Seq<char>)
        requires
            self.edge(from, to),
        ensures
            self.targets().contains(to),
            self.targets().finite(),
    {
        let lists = self.edge_lists();
        lemma_source_index(lists, from);
        let at = source_index(lists, from);
        let list = names(lists[at].1@);
        let j = choose|j: int| 0 <= j < list.len() && list[j] == to;
        lemma_target(lists, at, j);
        vstd::seq_lib::seq_to_set_is_finite(all_targets(lists));
    }

    /// A name can be reached from itself.
    pub proof fn lemma_reach_self(self, name: Seq<char>)
        ensures
            self.reachable(name, name),
    {
        let walk = seq![name];
        assert(self.path(walk));
        assert(walk[0] == name && walk.last() == name);
    }

    /// What can be reached from a name that can be reached, can be reached.
    pub proof fn lemma_reach_on(self, from: Seq<char>, over: Seq<char>, to: Seq<char>)
        requires
            self.reachable(from, over),
            self.edge(over, to),
        ensures
            self.reachable(from, to),
    {
        let walk = choose|walk: Seq<Seq<char>>|
            #![trigger self.path(walk)]
            walk.len() > 0 && walk[0] == from && walk.last() == over && self.path(walk);
        let longer = walk.push(to);
        assert forall|i: int| 0 <= i < longer.len() - 1 implies self.edge(
            #[trigger] longer[i],
            longer[i + 1],
        ) by {
            if i < walk.len() - 1 {
                assert(self.edge(walk[i], walk[i + 1]));
            }
        }
        assert(self.path(longer));
        assert(longer[0] == from && longer.last() == to);
    }

    /// What can be reached from the end of an edge can be reached from its
    /// start.
    pub proof fn lemma_reach_from(self, from: Seq<char>, over: Seq<char>, to: Seq<char>)
        requires
            self.edge(from, over),
            self.reachable(over, to),
        ensures
            self.reachable(from, to),
    {
        let walk = choose|walk: Seq<Seq<char>>|
            #![trigger self.path(walk)]
            walk.len() > 0 && walk[0] == over && walk.last() == to && self.path(walk);
        let longer = seq![from] + walk;
        assert forall|i: int| 0 <= i < longer.len() - 1 implies self.edge(
            #[trigger] longer[i],
            longer[i + 1],
        ) by {
            if i > 0 {
                assert(self.edge(walk[i - 1], walk[i - 1 + 1]));
                assert(longer[i] == walk[i - 1] && longer[i + 1] == walk[i]);
            } else {
                assert(longer[1] == walk[0]);
            }
        }
        assert(self.path(longer));
        assert(longer[0] == from && longer.last() == to);
    }

    /// A set of names that holds `start` and every name to which an edge
    /// leads from one of its names holds all that can be reached from
    /// `start`.
    pub proof fn lemma_closed_holds_reachable(self, start: Seq<char>, closed: Set<Seq<char>>, to: Seq<char>)
        requires
            closed.contains(start),
            self.closed_under(closed, closed),
            self.reachable(start, to),
        ensures
            closed.contains(to),
    {
        let walk = choose|walk: Seq<Seq<char>>|
            #![trigger self.path(walk)]
            walk.len() > 0 && walk[0] == start && walk.last() == to && self.path(walk);
        self.lemma_walk_stays(closed, walk, walk.len() - 1);
    }

    /// A walk that starts in a closed set stays in it.
    proof fn lemma_walk_stays(self, closed: Set<Seq<char>>, walk: Seq<Seq<char>>, at: int)
        requires
            0 <= at < walk.len(),
            closed.contains(walk[0]),
            self.closed_under(closed, closed),
            self.path(walk),
        ensures
            closed.contains(walk[at]),
        decreases at,
    {
        if at > 0 {
            self.lemma_walk_stays(closed, walk, at - 1);
            assert(self.edge(walk[at - 1], walk[at - 1 + 1]));
        }
    }

    /// A walk of no more than `steps` edges leads from `from` to `to`.
    pub open spec fn within(self, from: Seq<char>, to: Seq<char>, steps: int) -> bool {
        exists|walk: Seq<Seq<char>>|
            #![trigger self.path(walk)]
            0 < walk.len() <= steps + 1 && walk[0] == from && walk.last() == to && self.path(walk)
    }

    /// The names that wait in the queue of a breadth-first search, each with
    /// the number of edges at which the search met it, and the names that
    /// the search is done with. The names wait in the order of these
    /// numbers, which are `depth` or one more. The search is done with every
    /// name within less than `depth` edges from `start`. A name within
    /// `depth` edges is done with, is being dealt with, or waits.
    pub open spec fn frontier(
        self,
        start: Seq<char>,
        waiting: Seq<Seq<char>>,
        levels: Seq<int>,
        depth: int,
        done: Set<Seq<char>>,
        current: Set<Seq<char>>,
    ) -> bool {
        &&& levels.len() == waiting.len()
        &&& forall|i: int|
            0 <= i < waiting.len() ==> depth <= #[trigger] levels[i] <= depth + 1 && self.within(
                start,
                waiting[i],
                levels[i],
            )
        &&& forall|i: int, j: int|
            #![trigger levels[i], levels[j]]
            0 <= i <= j < waiting.len() ==> levels[i] <= levels[j]
        &&& forall|name: Seq<char>| #[trigger] self.within(start, name, depth - 1) ==> done.contains(name)
        &&& forall|name: Seq<char>| #[trigger]
            self.within(start, name, depth) ==> done.contains(name) || current.contains(name)
                || self.waits_at(waiting, levels, name, depth)
    }

    /// `name` waits with the number `level`.
    pub open spec fn waits_at(
        self,
        waiting: Seq<Seq<char>>,
        levels: Seq<int>,
        name: Seq<char>,
        level: int,
    ) -> bool {
        exists|i: int| 0 <= i < waiting.len() && #[trigger] waiting[i] == name && levels[i] == level
    }

    /// The condition has said no to every node within less than `steps`
    /// edges from `start`.
    pub open spec fn nearer_rejected<F: Fn(&Node) -> bool>(
        self,
        start: Seq<char>,
        steps: int,
        condition: F,
    ) -> bool {
        forall|name: Seq<char>|
            self.within(start, name, steps - 1) && #[trigger] self.node_named(name) is Some
                ==> call_ensures(condition, (&self.node_named(name)->0,), false)
    }

    /// No node is nearer to `start` than the one called `name` but those to
    /// which the condition has said no: for some number of edges, `name` is
    /// within that number from `start`, and the condition has said no to
    /// every node within a smaller number.
    pub open spec fn nearest<F: Fn(&Node) -> bool>(
        self,
        start: Seq<char>,
        name: Seq<char>,
        condition: F,
    ) -> bool {
        exists|steps: int|
            self.within(start, name, steps) && #[trigger] self.nearer_rejected(
                start,
                steps,
                condition,
            )
    }

    /// A walk of no edge ends where it starts, and a walk of edges has a
    /// last edge.
    pub proof fn lemma_within(self, from: Seq<char>, to: Seq<char>, steps: int)
        requires
            self.within(from, to, steps),
        ensures
            steps >= 0,
            self.reachable(from, to),
            steps == 0 ==> to == from,
            steps > 0 ==> self.within(from, to, steps - 1) || exists|over: Seq<char>|
                #[trigger] self.edge(over, to) && self.within(from, over, steps - 1),
    {
        let walk = choose|walk: Seq<Seq<char>>|
            #![trigger self.path(walk)]
            0 < walk.len() <= steps + 1 && walk[0] == from && walk.last() == to && self.path(walk);
        if steps > 0 && walk.len() == steps + 1 {
            let front = walk.drop_last();
            let over = front.last();
            assert forall|i: int| 0 <= i < front.len() - 1 implies self.edge(
                #[trigger] front[i],
                front[i + 1],
            ) by {
                assert(self.edge(walk[i], walk[i + 1]));
            }
            assert(self.path(front));
            assert(front[0] == from);
            assert(self.within(from, over, steps - 1));
            assert(self.edge(walk[walk.len() - 2], walk[walk.len() - 2 + 1]));
            assert(self.edge(over, to));
        }
    }

    /// One edge more leads one name further.
    pub proof fn lemma_within_on(self, from: Seq<char>, over: Seq<char>, to: Seq<char>, steps: int)
        requires
            self.within(from, over, steps),
            self.edge(over, to),
        ensures
            self.within(from, to, steps + 1),
    {
        let walk = choose|walk: Seq<Seq<char>>|
            #![trigger self.path(walk)]
            0 < walk.len() <= steps + 1 && walk[0] == from && walk.last() == over && self.path(walk);
        let longer = walk.push(to);
        assert forall|i: int| 0 <= i < longer.len() - 1 implies self.edge(
            #[trigger] longer[i],
            longer[i + 1],
        ) by {
            if i < walk.len() - 1 {
                assert(self.edge(walk[i], walk[i + 1]));
            }
        }
        assert(self.path(longer));
        assert(longer[0] == from && longer.last() == to);
    }

    /// A search starts with `start` waiting, at no edge from itself.
    pub proof fn lemma_frontier_start(self, start: Seq<char>)
        ensures
            self.frontier(start, seq![start], seq![0int], 0, Set::empty(), Set::empty()),
    {
        let waiting = seq![start];
        let levels = seq![0int];
        let walk = seq![start];
        assert(self.path(walk));
        assert(walk[0] == start && walk.last() == start);
        assert(self.within(start, start, 0));
        assert forall|name: Seq<char>| #[trigger] self.within(start, name, 0 - 1) implies false by {
            self.lemma_within(start, name, -1);
        }
        assert forall|name: Seq<char>| #[trigger] self.within(start, name, 0) implies self.waits_at(
            waiting,
            levels,
            name,
            0,
        ) by {
            self.lemma_within(start, name, 0);
            assert(waiting[0] == name && levels[0] == 0);
        }
    }

    /// When the first name that waits was met one edge further than
    /// `depth`, the search is done with every name within `depth` edges, and
    /// goes on one edge further.
    pub proof fn lemma_frontier_deeper(
        self,
        start: Seq<char>,
        waiting: Seq<Seq<char>>,
        levels: Seq<int>,
        depth: int,
        done: Set<Seq<char>>,
        marked: Set<Seq<char>>,
    )
        requires
            self.frontier(start, waiting, levels, depth, done, Set::empty()),
            waiting.len() > 0,
            levels[0] == depth + 1,
            self.closed_under(done, marked),
            forall|x: Seq<char>| marked.contains(x) ==> done.contains(x) || waiting.contains(x),
        ensures
            self.frontier(start, waiting, levels, depth + 1, done, Set::empty()),
    {
        assert forall|i: int| 0 <= i < waiting.len() implies #[trigger] levels[i] == depth + 1 by {
            assert(levels[0] <= levels[i]);
        }
        assert forall|name: Seq<char>| #[trigger]
            self.within(start, name, depth + 1 - 1) implies done.contains(name) by {
            if self.waits_at(waiting, levels, name, depth) {
                let i = choose|i: int|
                    0 <= i < waiting.len() && #[trigger] waiting[i] == name && levels[i] == depth;
                assert(levels[i] == depth + 1);
            }
        }
        assert forall|name: Seq<char>| #[trigger]
            self.within(start, name, depth + 1) implies done.contains(name) || self.waits_at(
            waiting,
            levels,
            name,
            depth + 1,
        ) by {
            let steps = depth + 1;
            self.lemma_within(start, name, steps);
            self.lemma_within(start, waiting[0], levels[0]);
            if steps == 0 {
                assert(waiting[0] == name && levels[0] == depth + 1);
            } else if !self.within(start, name, steps - 1) {
                let over = choose|over: Seq<char>|
                    #[trigger] self.edge(over, name) && self.within(start, over, steps - 1);
                assert(done.contains(over));
                assert(marked.contains(name));
                if !done.contains(name) {
                    let i = choose|i: int| 0 <= i < waiting.len() && waiting[i] == name;
                    assert(levels[i] == depth + 1);
                }
            }
        }
    }

    /// The first name that waits is taken from the queue to be dealt with.
    pub proof fn lemma_frontier_take(
        self,
        start: Seq<char>,
        waiting: Seq<Seq<char>>,
        levels: Seq<int>,
        depth: int,
        done: Set<Seq<char>>,
    )
        requires
            self.frontier(start, waiting, levels, depth, done, Set::empty()),
            waiting.len() > 0,
            levels[0] == depth,
        ensures
            self.frontier(
                start,
                waiting.drop_first(),
                levels.drop_first(),
                depth,
                done,
                set![waiting[0]],
            ),
            self.within(start, waiting[0], depth),
    {
        let rest = waiting.drop_first();
        let rest_levels = levels.drop_first();
        assert forall|i: int| 0 <= i < rest.len() implies depth <= #[trigger] rest_levels[i] <= depth
            + 1 && self.within(start, rest[i], rest_levels[i]) by {
            assert(rest_levels[i] == levels[i + 1] && rest[i] == waiting[i + 1]);
        }
        assert forall|i: int, j: int|
            #![trigger rest_levels[i], rest_levels[j]]
            0 <= i <= j < rest.len() implies rest_levels[i] <= rest_levels[j] by {
            assert(rest_levels[i] == levels[i + 1] && rest_levels[j] == levels[j + 1]);
        }
        assert forall|name: Seq<char>| #[trigger]
            self.within(start, name, depth) implies done.contains(name) || set![
            waiting[0],
        ].contains(name) || self.waits_at(rest, rest_levels, name, depth) by {
            if self.waits_at(waiting, levels, name, depth) {
                let i = choose|i: int|
                    0 <= i < waiting.len() && #[trigger] waiting[i] == name && levels[i] == depth;
                if i > 0 {
                    assert(rest[i - 1] == name && rest_levels[i - 1] == depth);
                }
            }
        }
        assert(levels[0] == depth);
    }

    /// A name next to the name that is dealt with joins the end of the
    /// queue, one edge further.
    pub proof fn lemma_frontier_push(
        self,
        start: Seq<char>,
        waiting: Seq<Seq<char>>,
        levels: Seq<int>,
        depth: int,
        done: Set<Seq<char>>,
        current: Seq<char>,
        next: Seq<char>,
    )
        requires
            self.frontier(start, waiting, levels, depth, done, set![current]),
            self.within(start, current, depth),
            self.edge(current, next),
        ensures
            self.frontier(
                start,
                waiting.push(next),
                levels.push(depth + 1),
                depth,
                done,
                set![current],
            ),
    {
        let longer = waiting.push(next);
        let more = levels.push(depth + 1);
        self.lemma_within_on(start, current, next, depth);
        assert forall|i: int| 0 <= i < longer.len() implies depth <= #[trigger] more[i] <= depth + 1
            && self.within(start, longer[i], more[i]) by {
            if i < waiting.len() {
                assert(more[i] == levels[i] && longer[i] == waiting[i]);
            }
        }
        assert forall|i: int, j: int|
            #![trigger more[i], more[j]]
            0 <= i <= j < longer.len() implies more[i] <= more[j] by {
            if j < waiting.len() {
                assert(more[i] == levels[i] && more[j] == levels[j]);
            } else if i < waiting.len() {
                assert(more[i] == levels[i]);
            }
        }
        assert forall|name: Seq<char>| #[trigger]
            self.within(start, name, depth) implies done.contains(name) || set![current].contains(
            name,
        ) || self.waits_at(longer, more, name, depth) by {
            if self.waits_at(waiting, levels, name, depth) {
                let i = choose|i: int|
                    0 <= i < waiting.len() && #[trigger] waiting[i] == name && levels[i] == depth;
                assert(longer[i] == name && more[i] == depth);
            }
        }
    }

    /// The search is done with the name that was dealt with.
    pub proof fn lemma_frontier_done(
        self,
        start: Seq<char>,
        waiting: Seq<Seq<char>>,
        levels: Seq<int>,
        depth: int,
        done: Set<Seq<char>>,
        current: Seq<char>,
    )
        requires
            self.frontier(start, waiting, levels, depth, done, set![current]),
        ensures
            self.frontier(start, waiting, levels, depth, done.insert(current), Set::empty()),
    {
        assert forall|name: Seq<char>| #[trigger]
            self.within(start, name, depth) implies done.insert(current).contains(name)
            || self.waits_at(waiting, levels, name, depth) by {
            assert(done.contains(name) || set![current].contains(name) || self.waits_at(
                waiting,
                levels,
                name,
                depth,
            ));
        }
    }

    /// The graph without nodes and edges.
    pub fn new() -> (graph: Self)
        ensures
            graph.well_formed(),
            graph.node_list().len() == 0,
            graph.edge_lists().len() == 0,
    {
        Self { nodes: Vec::new(), adjacency_list: Vec::new() }
    }

    /// The number of nodes.
    pub fn node_count(&self) -> (count: usize)
        ensures
            count == self.node_list().len(),
    {
        self.nodes.len()
    }

    /// The number of names from which an edge leads.
    pub fn source_count(&self) -> (count: usize)
        ensures
            count == self.edge_lists().len(),
    {
        self.adjacency_list.len()
    }

    /// Puts the node into the graph, in the place of the node of that name
    /// where there is one.
    pub fn add_node(&mut self, node: Node)
        requires
            old(self).well_formed(),
        ensures
            final(self).well_formed(),
            final(self).node_named(node.name@) == Some(node),
            forall|name: Seq<char>|
                name != node.name@ ==> final(self).node_named(name) == old(self).node_named(name),
            final(self).edge_lists() == old(self).edge_lists(),
            final(self).node_list().len() == if old(self).node_named(node.name@) is Some {
                old(self).node_list().len()
            } else {
                old(self).node_list().len() + 1
            },
    {
        let ghost before = self.nodes@;
        let found = Self::position_of_node(&self.nodes, node.name.as_str());
        proof {
            lemma_node_index(before, node.name@);
        }
        match found {
            Some(at) => {
                self.nodes[at] = node;
            },
            None => {
                self.nodes.push(node);
            },
        }
        proof {
            let after = self.nodes@;
            let at = node_index(before, node.name@);
            assert forall|i: int, j: int|
                #![trigger after[i], after[j]]
                0 <= i < j < after.len() implies after[i].name@ != after[j].name@ by {
                if i != at && j != at {
                    assert(after[i] == before[i] && after[j] == before[j]);
                } else if i == at {
                    if j < before.len() {
                        assert(after[j] == before[j]);
                        assert(before[i].name@ != before[j].name@);
                    }
                } else {
                    assert(after[i] == before[i]);
                    if at < before.len() {
                        assert(before[i].name@ != before[j].name@);
                    }
                }
            }
            lemma_is_node_index(after, node.name@, at);
            assert forall|name: Seq<char>| name != node.name@ implies self.node_named(name) == old(self).node_named(name) by {
                lemma_node_index(before, name);
                let p = node_index(before, name);
                assert forall|j: int| 0 <= j < p implies (#[trigger] after[j]).name@ != name by {
                    if j != at {
                        assert(after[j] == before[j]);
                    }
                }
                if p < before.len() {
                    assert(after[p] == before[p]);
                    lemma_is_node_index(after, name, p);
                } else {
                    assert forall|j: int| 0 <= j < after.len() implies (#[trigger] after[j]).name@
                        != name by {
                        if j != at {
                            assert(after[j] == before[j]);
                        }
                    }
                    lemma_is_node_index(after, name, after.len() as int);
                }
            }
        }
    }

    /// Adds an edge from `from` to `to`, after the edges from `from` that
    /// are there.
    pub fn add_edge(&mut self, from: String, to: String)
        requires
            old(self).well_formed(),
        ensures
            final(self).well_formed(),
            final(self).neighbors_of(from@) == Some(
                match old(self).neighbors_of(from@) {
                    Some(list) => list.push(to@),
                    None => seq![to@],
                },
            ),
            forall|name: Seq<char>|
                name != from@ ==> final(self).neighbors_of(name) == old(self).neighbors_of(name),
            final(self).node_list() == old(self).node_list(),
    {
        let ghost before = self.adjacency_list@;
        let found = Self::position_of_source(&self.adjacency_list, from.as_str());
        proof {
            lemma_source_index(before, from@);
        }
        match found {
            Some(at) => {
                self.adjacency_list[at].1.push(to);
                proof {
                    assert(names(self.adjacency_list@[at as int].1@) =~= names(
                        before[at as int].1@,
                    ).push(to@));
                }
            },
            None => {
                let mut list: Vec<String> = Vec::new();
                list.push(to);
                proof {
                    assert(names(list@) =~= seq![to@]);
                }
                self.adjacency_list.push((from, list));
            },
        }
        proof {
            let after = self.adjacency_list@;
            let at = source_index(before, from@);
            assert forall|j: int| 0 <= j < after.len() && j != at implies (#[trigger] after[j])
                == before[j] by {}
            assert(after[at].0@ == from@);
            assert forall|i: int, j: int|
                #![trigger after[i], after[j]]
                0 <= i < j < after.len() implies after[i].0@ != after[j].0@ by {
                if i != at && j != at {
                    assert(after[i] == before[i] && after[j] == before[j]);
                } else if i == at {
                    if j < before.len() {
                        assert(after[j] == before[j]);
                        assert(before[i].0@ != before[j].0@);
                    }
                } else {
                    assert(after[i] == before[i]);
                    if at < before.len() {
                        assert(before[i].0@ != before[j].0@);
                    }
                }
            }
            lemma_is_source_index(after, from@, at);
            assert forall|name: Seq<char>| name != from@ implies self.neighbors_of(name) == old(self).neighbors_of(name) by {
                lemma_source_index(before, name);
                let p = source_index(before, name);
                assert forall|j: int| 0 <= j < p implies (#[trigger] after[j]).0@ != name by {
                    if j != at {
                        assert(after[j] == before[j]);
                    }
                }
                if p < before.len() {
                    assert(after[p] == before[p]);
                    lemma_is_source_index(after, name, p);
                } else {
                    assert forall|j: int| 0 <= j < after.len() implies (#[trigger] after[j]).0@
                        != name by {
                        if j != at {
                            assert(after[j] == before[j]);
                        }
                    }
                    lemma_is_source_index(after, name, after.len() as int);
                }
            }
        }
    }

    /// The names that the edges from `node` lead to, if there is an edge
    /// from `node`.
    pub fn neighbors(&self, node: &str) -> (list: Option<&Vec<String>>)
        ensures
            match list {
                Some(l) => self.neighbors_of(node@) == Some(names(l@)),
                None => self.neighbors_of(node@) is None,
            },
    {
        match Self::position_of_source(&self.adjacency_list, node) {
            Some(at) => Some(&self.adjacency_list[at].1),
            None => None,
        }
    }

    /// The node called `key`, if the graph has one.
    pub fn get_node(&self, key: &str) -> (node: Option<&Node>)
        ensures
            match node {
                Some(n) => self.node_named(key@) == Some(*n),
                None => self.node_named(key@) is None,
            },
    {
        match Self::position_of_node(&self.nodes, key) {
            Some(at) => Some(&self.nodes[at]),
            None => None,
        }
    }

    /// Does the list hold the name?
    fn contains_name(list: &Vec<String>, name: &str) -> (held: bool)
        ensures
            held == names(list@).contains(name@),
    {
        for i in 0..list.len()
            invariant
                forall|j: int| 0 <= j < i ==> (#[trigger] list@[j])@ != name@,
        {
            if list[i] == name {
                assert(names(list@)[i as int] == name@);
                return true;
            }
        }
        proof {
            assert forall|j: int| 0 <= j < names(list@).len() implies (#[trigger] names(list@)[j])
                != name@ by {
                assert(list@[j]@ != name@);
            }
        }
        false
    }

    /// Breadth-first search
    ///
    /// Looks for a node to which the condition says yes, among the nodes
    /// that can be reached from `start`: first at `start`, then at the
    /// names next to it, then at those next to them.
    ///
    /// # Arguments
    ///
    /// * `start` - The name of the starting node
    /// * `condition` - A predicate function that returns `true` when the desired node is found
    ///
    /// # Returns
    ///
    /// A node to which the condition said yes and which can be reached
    /// from `start`. Nothing where the graph has no node called `start`, or
    /// where the condition said no to every node that can be reached.
    pub fn bfs<F>(&self, start: &str, condition: &F) -> (found: Option<&Node>) where
        F: Fn(&Node) -> bool,

        requires
            self.well_formed(),
            forall|node: Node| call_requires(*condition, (&node,)),
        ensures
            match found {
                Some(node) => call_ensures(*condition, (node,), true) && self.reachable(
                    start@,
                    node.name@,
                ) && self.node_named(node.name@) == Some(*node) && self.nearest(
                    start@,
                    node.name@,
                    *condition,
                ),
                None => self.node_named(start@) is None || forall|name: Seq<char>|
                    self.reachable(start@, name) && #[trigger] self.node_named(name) is Some
                        ==> call_ensures(*condition, (&self.node_named(name)->0,), false),
            },
    {
        if self.get_node(start).is_none() {
            return None;
        }
        let mut queue: VecDeque<String> = VecDeque::new();
        let mut visited: Vec<String> = Vec::new();

        queue.push_back(start.to_string());
        let ghost mut done: Set<Seq<char>> = Set::empty();
        let ghost mut levels: Seq<int> = seq![0int];
        let ghost mut depth: int = 0;
        let ghost universe = self.targets();
        proof {
            self.lemma_reach_self(start@);
            self.lemma_frontier_start(start@);
            vstd::seq_lib::seq_to_set_is_finite(all_targets(self.edge_lists()));
            assert(names(queue@) =~= seq![start@]);
            assert(names(queue@)[0] == start@);
        }

        loop
            invariant
                self.well_formed(),
                forall|node: Node| call_requires(*condition, (&node,)),
                universe == self.targets(),
                universe.finite(),
                self.all_reachable(start@, names(queue@)),
                self.closed_under(done, names(visited@).to_set()),
                self.all_rejected(done, *condition),
                forall|x: Seq<char>|
                    x == start@ || names(visited@).to_set().contains(x) ==> done.contains(x)
                        || names(queue@).contains(x),
                names(visited@).to_set().subset_of(universe),
                self.frontier(start@, names(queue@), levels, depth, done, Set::empty()),
            ensures
                queue@.len() == 0,
                self.closed_under(done, names(visited@).to_set()),
                self.all_rejected(done, *condition),
                forall|x: Seq<char>|
                    x == start@ || names(visited@).to_set().contains(x) ==> done.contains(x),
            decreases universe.difference(names(visited@).to_set()).len(), queue@.len(),
        {
            let ghost waiting = names(queue@);
            let next = queue.pop_front();
            if next.is_none() {
                proof {
                    assert forall|x: Seq<char>|
                        x == start@ || names(visited@).to_set().contains(x) implies done.contains(
                        x,
                    ) by {
                        if names(queue@).contains(x) {
                            let i = choose|i: int| 0 <= i < names(queue@).len() && names(queue@)[i] == x;
                        }
                    }
                }
                break ;
            }
            let key = next.unwrap();
            proof {
                assert(names(queue@) =~= waiting.drop_first());
                assert(waiting[0] == key@);
                assert forall|i: int| 0 <= i < names(queue@).len() implies self.reachable(
                    start@,
                    #[trigger] names(queue@)[i],
                ) by {
                    assert(names(queue@)[i] == waiting[i + 1]);
                }
                if levels[0] == depth + 1 {
                    self.lemma_frontier_deeper(
                        start@,
                        waiting,
                        levels,
                        depth,
                        done,
                        names(visited@).to_set(),
                    );
                    depth = depth + 1;
                }
                self.lemma_frontier_take(start@, waiting, levels, depth, done);
                levels = levels.drop_first();
            }
            if let Some(node) = self.get_node(key.as_str()) {
                if condition(node) {
                    proof {
                        lemma_node_index(self.node_list(), key@);
                        assert(self.nearer_rejected(start@, depth, *condition));
                    }
                    return Some(node);
                }
            }
            let ghost marked_before = names(visited@).to_set();
            let ghost visited_before = visited@.len();
            let ghost waiting_before = queue@.len();
            proof {
                assert forall|x: Seq<char>|
                    x == start@ || names(visited@).to_set().contains(x) implies done.contains(x)
                    || names(queue@).contains(x) || x == key@ by {
                    if waiting.contains(x) {
                        let i = choose|i: int| 0 <= i < waiting.len() && waiting[i] == x;
                        if i > 0 {
                            assert(names(queue@)[i - 1] == x);
                        }
                    }
                }
            }
            if let Some(neighbors) = self.neighbors(key.as_str()) {
                for neighbor in list: neighbors.iter()
                    invariant
                        list.seq().len() == neighbors@.len(),
                        forall|i: int|
                            0 <= i < neighbors@.len() ==> *(#[trigger] list.seq()[i])
                                == neighbors@[i],
                        self.neighbors_of(key@) == Some(names(neighbors@)),
                        self.reachable(start@, key@),
                        self.within(start@, key@, depth),
                        universe == self.targets(),
                        universe.finite(),
                        self.all_reachable(start@, names(queue@)),
                        self.closed_under(done, names(visited@).to_set()),
                        forall|x: Seq<char>|
                            x == start@ || names(visited@).to_set().contains(x) ==> done.contains(x)
                                || names(queue@).contains(x) || x == key@,
                        names(visited@).to_set().subset_of(universe),
                        marked_before.subset_of(names(visited@).to_set()),
                        forall|i: int|
                            0 <= i < list.index() ==> names(visited@).to_set().contains(
                                #[trigger] names(neighbors@)[i],
                            ),
                        visited@.len() >= visited_before,
                        universe.difference(names(visited@).to_set()).len() + (visited@.len()
                            - visited_before) == universe.difference(marked_before).len(),
                        queue@.len() == waiting_before + (visited@.len() - visited_before),
                        self.frontier(start@, names(queue@), levels, depth, done, set![key@]),
                {
                    let ghost i = list.index();
                    let ghost marked = names(visited@).to_set();
                    let ghost waiting_now = names(queue@);
                    proof {
                        assert(names(neighbors@)[i] == neighbor@);
                        assert(self.edge(key@, neighbor@));
                        self.lemma_edge(key@, neighbor@);
                        self.lemma_reach_on(start@, key@, neighbor@);
                    }
                    if !Self::contains_name(&visited, neighbor.as_str()) {
                        proof {
                            lemma_names_push(visited@, *neighbor);
                            lemma_names_push(queue@, *neighbor);
                            lemma_one_less(universe, marked, neighbor@);
                            self.lemma_frontier_push(
                                start@,
                                waiting_now,
                                levels,
                                depth,
                                done,
                                key@,
                                neighbor@,
                            );
                            levels = levels.push(depth + 1);
                        }
                        visited.push(neighbor.clone());
                        queue.push_back(neighbor.clone());
                        proof {
                            assert(names(queue@) =~= waiting_now.push(neighbor@));
                            assert forall|k: int| 0 <= k < names(queue@).len() implies self.reachable(
                                start@,
                                #[trigger] names(queue@)[k],
                            ) by {
                                if k < waiting_now.len() {
                                    assert(names(queue@)[k] == waiting_now[k]);
                                }
                            }
                            assert forall|x: Seq<char>|
                                x == start@ || names(visited@).to_set().contains(x) implies done.contains(
                                x,
                            ) || names(queue@).contains(x) || x == key@ by {
                                if x == neighbor@ {
                                    assert(names(queue@)[waiting_now.len() as int] == x);
                                } else if waiting_now.contains(x) {
                                    let k = choose|k: int|
                                        0 <= k < waiting_now.len() && waiting_now[k] == x;
                                    assert(names(queue@)[k] == x);
                                }
                            }
                        }
                    }
                }
            }
            proof {
                let marked = names(visited@).to_set();
                assert forall|x: Seq<char>, y: Seq<char>|
                    done.insert(key@).contains(x) && #[trigger] self.edge(x, y) implies marked.contains(
                    y,
                ) by {
                    if x == key@ && !done.contains(x) {
                        let list = self.neighbors_of(key@)->0;
                        let i = choose|i: int| 0 <= i < list.len() && list[i] == y;
                        assert(marked.contains(list[i]));
                    }
                }
                assert(self.all_rejected(done.insert(key@), *condition)) by {
                    lemma_node_index(self.node_list(), key@);
                }
                self.lemma_frontier_done(start@, names(queue@), levels, depth, done, key@);
                done = done.insert(key@);
            }
        }
        proof {
            let marked = names(visited@).to_set();
            assert forall|name: Seq<char>|
                self.reachable(start@, name) && #[trigger] self.node_named(name) is Some implies call_ensures(
                *condition,
                (&self.node_named(name)->0,),
                false,
            ) by {
                assert(done.contains(start@));
                assert forall|x: Seq<char>, y: Seq<char>|
                    done.contains(x) && #[trigger] self.edge(x, y) implies done.contains(y) by {
                    assert(marked.contains(y));
                }
                self.lemma_closed_holds_reachable(start@, done, name);
            }
        }
        None
    }

    /// Depth-first search
    ///
    /// Looks for a node to which the condition says yes, among the nodes
    /// that can be reached from `start`: at `start`, then along the first
    /// edge as far as it goes before the next edge is tried.
    ///
    /// # Arguments
    ///
    /// * `start` - The name of the starting node
    /// * `condition` - A predicate function that returns `true` when the desired node is found
    ///
    /// # Returns
    ///
    /// A node to which the condition said yes and which can be reached
    /// from `start`. Nothing where the condition said no to every node
    /// that can be reached.
    pub fn dfs<F>(&self, start: &str, condition: &F) -> (found: Option<&Node>) where
        F: Fn(&Node) -> bool,

        requires
            self.well_formed(),
            forall|node: Node| call_requires(*condition, (&node,)),
        ensures
            match found {
                Some(node) => call_ensures(*condition, (node,), true) && self.reachable(
                    start@,
                    node.name@,
                ) && self.node_named(node.name@) == Some(*node),
                None => forall|name: Seq<char>|
                    self.reachable(start@, name) && #[trigger] self.node_named(name) is Some
                        ==> call_ensures(*condition, (&self.node_named(name)->0,), false),
            },
    {
        let mut visited: Vec<String> = Vec::new();
        let ghost universe = self.targets().insert(start@);
        proof {
            vstd::seq_lib::seq_to_set_is_finite(all_targets(self.edge_lists()));
            assert(names(visited@).to_set() =~= Set::<Seq<char>>::empty());
        }
        let found = self.dfs_helper(start, condition, &mut visited, Ghost(universe));
        proof {
            if found is None {
                let marked = names(visited@).to_set();
                assert(marked.difference(Set::<Seq<char>>::empty()) =~= marked);
                assert forall|name: Seq<char>|
                    self.reachable(start@, name) && #[trigger] self.node_named(name) is Some implies call_ensures(
                    *condition,
                    (&self.node_named(name)->0,),
                    false,
                ) by {
                    self.lemma_closed_holds_reachable(start@, marked, name);
                }
            }
        }
        found
    }

    /// Depth-first search from `start` that passes by the names in `visited`
    /// and adds to them the names that it meets. `universe` holds every name
    /// that the search can meet.
    fn dfs_helper<F>(
        &self,
        start: &str,
        condition: &F,
        visited: &mut Vec<String>,
        Ghost(universe): Ghost<Set<Seq<char>>>,
    ) -> (found: Option<&Node>) where F: Fn(&Node) -> bool
        requires
            self.well_formed(),
            forall|node: Node| call_requires(*condition, (&node,)),
            universe.finite(),
            self.targets().subset_of(universe),
            universe.contains(start@),
            names(old(visited)@).to_set().subset_of(universe),
        ensures
            names(old(visited)@).to_set().subset_of(names(final(visited)@).to_set()),
            names(final(visited)@).to_set().subset_of(universe),
            match found {
                Some(node) => call_ensures(*condition, (node,), true) && self.reachable(
                    start@,
                    node.name@,
                ) && self.node_named(node.name@) == Some(*node),
                None => names(final(visited)@).to_set().contains(start@) && self.closed_under(
                    names(final(visited)@).to_set().difference(names(old(visited)@).to_set()),
                    names(final(visited)@).to_set(),
                ) && self.all_rejected(
                    names(final(visited)@).to_set().difference(names(old(visited)@).to_set()),
                    *condition,
                ),
            },
        decreases universe.difference(names(old(visited)@).to_set()).len(),
    {
        let ghost marked_at_first = names(visited@).to_set();
        if Self::contains_name(visited, start) {
            proof {
                assert(marked_at_first.difference(marked_at_first) =~= Set::<Seq<char>>::empty());
            }
            return None;
        }
        let own = start.to_string();
        proof {
            lemma_names_push(visited@, own);
            lemma_one_less(universe, marked_at_first, start@);
        }
        visited.push(own);
        let ghost marked_with_start = names(visited@).to_set();

        if let Some(node) = self.get_node(start) {
            if condition(node) {
                proof {
                    self.lemma_reach_self(start@);
                    lemma_node_index(self.node_list(), start@);
                }
                return Some(node);
            }
        }
        proof {
            lemma_node_index(self.node_list(), start@);
        }
        if let Some(neighbors) = self.neighbors(start) {
            for neighbor in list: neighbors.iter()
                invariant
                    list.seq().len() == neighbors@.len(),
                    forall|i: int|
                        0 <= i < neighbors@.len() ==> *(#[trigger] list.seq()[i]) == neighbors@[i],
                    self.neighbors_of(start@) == Some(names(neighbors@)),
                    self.well_formed(),
                    forall|node: Node| call_requires(*condition, (&node,)),
                    universe.finite(),
                    self.targets().subset_of(universe),
                    marked_with_start == marked_at_first.insert(start@),
                    marked_with_start.subset_of(names(visited@).to_set()),
                    names(visited@).to_set().subset_of(universe),
                    universe.difference(marked_with_start).len() < universe.difference(
                        marked_at_first,
                    ).len(),
                    names(old(visited)@).to_set() == marked_at_first,
                    self.closed_under(
                        names(visited@).to_set().difference(marked_with_start),
                        names(visited@).to_set(),
                    ),
                    self.all_rejected(
                        names(visited@).to_set().difference(marked_at_first),
                        *condition,
                    ),
                    forall|i: int|
                        0 <= i < list.index() ==> names(visited@).to_set().contains(
                            #[trigger] names(neighbors@)[i],
                        ),
            {
                let ghost i = list.index();
                let ghost marked = names(visited@).to_set();
                proof {
                    assert(names(neighbors@)[i] == neighbor@);
                    assert(self.edge(start@, neighbor@));
                    self.lemma_edge(start@, neighbor@);
                    vstd::set_lib::lemma_len_subset(
                        universe.difference(marked),
                        universe.difference(marked_with_start),
                    );
                }
                let deeper = self.dfs_helper(neighbor.as_str(), condition, visited, Ghost(universe));
                if let Some(result) = deeper {
                    proof {
                        self.lemma_reach_from(start@, neighbor@, result.name@);
                    }
                    return Some(result);
                }
                proof {
                    let more = names(visited@).to_set();
                    assert forall|x: Seq<char>, y: Seq<char>|
                        more.difference(marked_with_start).contains(x) && #[trigger] self.edge(
                            x,
                            y,
                        ) implies more.contains(y) by {
                        if marked.contains(x) {
                            assert(marked.difference(marked_with_start).contains(x));
                            assert(marked.contains(y));
                        } else {
                            assert(more.difference(marked).contains(x));
                        }
                    }
                    assert forall|x: Seq<char>|
                        more.difference(marked_at_first).contains(x) && #[trigger] self.node_named(
                            x,
                        ) is Some implies call_ensures(
                        *condition,
                        (&self.node_named(x)->0,),
                        false,
                    ) by {
                        if marked.contains(x) {
                            assert(marked.difference(marked_at_first).contains(x));
                        } else {
                            assert(more.difference(marked).contains(x));
                        }
                    }
                    assert forall|k: int| 0 <= k < i + 1 implies more.contains(
                        #[trigger] names(neighbors@)[k],
                    ) by {
                        if k < i {
                            assert(marked.contains(names(neighbors@)[k]));
                        }
                    }
                }
            }
        }
        proof {
            let after = names(visited@).to_set();
            assert forall|x: Seq<char>, y: Seq<char>|
                after.difference(marked_at_first).contains(x) && #[trigger] self.edge(
                    x,
                    y,
                ) implies after.contains(y) by {
                if x == start@ {
                    let list = self.neighbors_of(start@)->0;
                    let i = choose|i: int| 0 <= i < list.len() && list[i] == y;
                    assert(after.contains(list[i]));
                } else {
                    assert(after.difference(marked_with_start).contains(x));
                }
            }
        }

        None
    }

    /// The position of the node called `name`, if there is one.
    fn position_of_node(nodes: &Vec<Node>, name: &str) -> (found: Option<usize>)
        ensures
            match found {
                Some(at) => at < nodes@.len() && at == node_index(nodes@, name@),
                None => node_index(nodes@, name@) == nodes@.len(),
            },
    {
        for i in 0..nodes.len()
            invariant
                forall|j: int| 0 <= j < i ==> (#[trigger] nodes@[j]).name@ != name@,
        {
            if nodes[i].name == name {
                proof {
                    lemma_is_node_index(nodes@, name@, i as int);
                }
                return Some(i);
            }
        }
        proof {
            lemma_is_node_index(nodes@, name@, nodes@.len() as int);
        }
        None
    }

    /// The position of the neighbours of `name`, if it has any.
    fn position_of_source(lists: &Vec<(String, Vec<String>)>, name: &str) -> (found: Option<usize>)
        ensures
            match found {
                Some(at) => at < lists@.len() && at == source_index(lists@, name@),
                None => source_index(lists@, name@) == lists@.len(),
            },
    {
        for i in 0..lists.len()
            invariant
                forall|j: int| 0 <= j < i ==> (#[trigger] lists@[j]).0@ != name@,
        {
            if lists[i].0 == name {
                proof {
                    lemma_is_source_index(lists@, name@, i as int);
                }
                return Some(i);
            }
        }
        proof {
            lemma_is_source_index(lists@, name@, lists@.len() as int);
        }
        None
    }
}

} // verus!
