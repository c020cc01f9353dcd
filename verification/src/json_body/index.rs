//! Trie over the pointers of an operation list.
//!
//! Every lookup answers what a scan of the whole list would answer; the
//! contracts are stated over the list.

use vstd::prelude::*;

use crate::json_body::ops::{append_op, array_index, extract_op, lemma_token_index_unique, lemma_token_of_index, models, mutate_op, place_of, segments, token_index, touches, CompiledOp, Op, PathToken};
use crate::number::decimal;
use crate::text::same_text;

verus! {

/// One node of the pointer trie.
pub struct PathNode {
    /// Extract operation at exactly this place.
    extract_idx: Option<usize>,
    /// Mutating operation at exactly this place.
    mutate_idx: Option<usize>,
    /// Children by object key.
    object_children: Vec<(String, usize)>,
    /// Children by array index.
    array_children: Vec<(usize, usize)>,
    /// Append operation for an array at this place.
    array_append: Option<usize>,
}

/// Lookup structure for pointer operations.
pub struct OpPathIndex {
    nodes: Vec<PathNode>,
    /// The place of each node.
    labels: Ghost<Seq<Seq<Seq<char>>>>,
    /// The operation list that this index answers for.
    listed: Ghost<Seq<Op>>,
}

pub open spec fn int_of(v: Option<usize>) -> Option<int> {
    match v {
        Some(n) => Some(n as int),
        None => None,
    }
}

/// The links of the trie agree with the places of its nodes.
spec fn linked(nodes: Seq<PathNode>, labels: Seq<Seq<Seq<char>>>) -> bool {
    &&& labels.len() == nodes.len()
    &&& nodes.len() > 0
    &&& labels[0] == Seq::<Seq<char>>::empty()
    &&& forall|a: int, b: int|
        0 <= a < labels.len() && 0 <= b < labels.len() && #[trigger] labels[a] == #[trigger] labels[b]
            ==> a == b
    &&& forall|p: int, i: int|
        0 <= p < nodes.len() && 0 <= i < nodes[p].object_children@.len() ==> object_link_ok(
            labels,
            p,
            #[trigger] nodes[p].object_children@[i],
        )
    &&& forall|p: int, i: int|
        0 <= p < nodes.len() && 0 <= i < nodes[p].array_children@.len() ==> array_link_ok(
            labels,
            p,
            #[trigger] nodes[p].array_children@[i],
        )
    &&& forall|c: int| 0 < c < labels.len() ==> #[trigger] labels[c].len() > 0
    &&& orphan_free(labels)
    &&& forall|p: int, c: int|
        0 <= p < labels.len() && 0 < c < labels.len() && #[trigger] labels[p] == (
        #[trigger] labels[c]).drop_last() ==> has_links(nodes, labels, p, c)
}

/// The place above every node but the root is the place of a node.
spec fn orphan_free(labels: Seq<Seq<Seq<char>>>) -> bool {
    forall|c: int| 0 < c < labels.len() ==> labels.contains((#[trigger] labels[c]).drop_last())
}

/// Changing what is recorded at nodes leaves their links as they are.
proof fn lemma_same_links(before: Seq<PathNode>, after: Seq<PathNode>, labels: Seq<Seq<Seq<char>>>)
    requires
        linked(before, labels),
        after.len() == before.len(),
        forall|p: int|
            0 <= p < before.len() ==> (#[trigger] after[p]).object_children == before[p].object_children
                && after[p].array_children == before[p].array_children,
    ensures
        linked(after, labels),
{
    assert forall|p: int, i: int|
        0 <= p < after.len() && 0 <= i < after[p].object_children@.len() implies object_link_ok(
        labels,
        p,
        #[trigger] after[p].object_children@[i],
    ) by {
        assert(object_link_ok(labels, p, before[p].object_children@[i]));
    }
    assert forall|p: int, i: int|
        0 <= p < after.len() && 0 <= i < after[p].array_children@.len() implies array_link_ok(
        labels,
        p,
        #[trigger] after[p].array_children@[i],
    ) by {
        assert(array_link_ok(labels, p, before[p].array_children@[i]));
    }
    assert forall|p: int, c: int|
        0 <= p < labels.len() && 0 < c < labels.len() && #[trigger] labels[p] == (
        #[trigger] labels[c]).drop_last() implies has_links(after, labels, p, c) by {
        assert(has_links(before, labels, p, c));
        let i = choose|i: int|
            0 <= i < before[p].object_children@.len() && #[trigger] before[p].object_children@[i].1 == c;
        assert(after[p].object_children@[i].1 == c);
        if token_index(labels[c].last()) is Some {
            let m = choose|m: int|
                0 <= m < before[p].array_children@.len() && #[trigger] before[p].array_children@[m].1 == c;
            assert(after[p].array_children@[m].1 == c);
        }
    }
}

/// A place that is touched stays touched when an operation is added.
proof fn lemma_touches_grow(ops: Seq<Op>, op: Op, place: Seq<Seq<char>>)
    requires
        touches(ops, place),
    ensures
        touches(ops.push(op), place),
{
    let j = choose|j: int| 0 <= j < ops.len() && #[trigger] ops[j].reaches(place);
    assert(ops.push(op)[j].reaches(place));
}

spec fn object_link_ok(labels: Seq<Seq<Seq<char>>>, p: int, link: (String, usize)) -> bool {
    0 < link.1 < labels.len() && labels[link.1 as int] == labels[p].push(link.0@)
}

spec fn array_link_ok(labels: Seq<Seq<Seq<char>>>, p: int, link: (usize, usize)) -> bool {
    &&& 0 < link.1 < labels.len()
    &&& labels[link.1 as int].len() == labels[p].len() + 1
    &&& labels[link.1 as int].drop_last() == labels[p]
    &&& token_index(labels[link.1 as int].last()) == Some(link.0 as int)
}

/// Node `p` links to its child `c` by key and, for an index token, by index.
spec fn has_links(nodes: Seq<PathNode>, labels: Seq<Seq<Seq<char>>>, p: int, c: int) -> bool {
    &&& exists|i: int|
        0 <= i < nodes[p].object_children@.len() && #[trigger] nodes[p].object_children@[i].1 == c
    &&& token_index(labels[c].last()) is Some ==> exists|i: int|
        0 <= i < nodes[p].array_children@.len() && #[trigger] nodes[p].array_children@[i].1 == c
}

/// The operations recorded at the nodes are those of `ops`.
spec fn recorded(nodes: Seq<PathNode>, labels: Seq<Seq<Seq<char>>>, ops: Seq<Op>) -> bool {
    forall|p: int|
        0 <= p < nodes.len() ==> {
            &&& int_of((#[trigger] nodes[p]).mutate_idx) == mutate_op(ops, labels[p])
            &&& int_of(nodes[p].extract_idx) == extract_op(ops, labels[p])
            &&& int_of(nodes[p].array_append) == append_op(ops, labels[p])
        }
}

/// Every prefix of the place of an operation is a node.
spec fn covered(labels: Seq<Seq<Seq<char>>>, ops: Seq<Op>) -> bool {
    forall|j: int, k: int|
        0 <= j < ops.len() && 0 <= k <= ops[j].place_len() ==> labels.contains(
            #[trigger] ops[j].tokens.take(k),
        )
}

/// Every node but the root lies on the way to the place of an operation.
spec fn live(labels: Seq<Seq<Seq<char>>>, ops: Seq<Op>) -> bool {
    forall|p: int| 0 < p < labels.len() ==> touches(ops, #[trigger] labels[p])
}

impl OpPathIndex {
    /// The operation list that this index answers for.
    pub closed spec fn ops(self) -> Seq<Op> {
        self.listed@
    }

    /// The index is complete and sound for its operation list.
    pub closed spec fn wf(self) -> bool {
        &&& linked(self.nodes@, self.labels@)
        &&& recorded(self.nodes@, self.labels@, self.listed@)
        &&& covered(self.labels@, self.listed@)
        &&& live(self.labels@, self.listed@)
    }
}

/// The child that `children` links to `key`.
fn find_key(children: &Vec<(String, usize)>, key: &str) -> (r: Option<usize>)
    ensures
        match r {
            Some(c) => exists|i: int|
                0 <= i < children@.len() && #[trigger] children@[i].0@ == key@ && children@[i].1 == c,
            None => forall|i: int| 0 <= i < children@.len() ==> #[trigger] children@[i].0@ != key@,
        },
{
    let mut i: usize = 0;
    while i < children.len()
        invariant
            i <= children@.len(),
            forall|k: int| 0 <= k < i ==> #[trigger] children@[k].0@ != key@,
        decreases children@.len() - i,
    {
        if same_text(children[i].0.as_str(), key) {
            return Some(children[i].1);
        }
        i = i + 1;
    }
    None
}

/// The child that `children` links to the array index `idx`.
fn find_index(children: &Vec<(usize, usize)>, idx: usize) -> (r: Option<usize>)
    ensures
        match r {
            Some(c) => exists|i: int|
                0 <= i < children@.len() && #[trigger] children@[i].0 == idx && children@[i].1 == c,
            None => forall|i: int| 0 <= i < children@.len() ==> #[trigger] children@[i].0 != idx,
        },
{
    let mut i: usize = 0;
    while i < children.len()
        invariant
            i <= children@.len(),
            forall|k: int| 0 <= k < i ==> #[trigger] children@[k].0 != idx,
        decreases children@.len() - i,
    {
        if children[i].0 == idx {
            return Some(children[i].1);
        }
        i = i + 1;
    }
    None
}

/// The node with the place `place`, if there is one.
spec fn at_place(labels: Seq<Seq<Seq<char>>>, place: Seq<Seq<char>>, r: Option<usize>) -> bool {
    match r {
        Some(c) => 0 <= c < labels.len() && labels[c as int] == place,
        None => !labels.contains(place),
    }
}

/// The child of node `p` for the object key `key`.
fn child_object(nodes: &Vec<PathNode>, labels: Ghost<Seq<Seq<Seq<char>>>>, p: usize, key: &str) -> (r: Option<usize>)
    requires
        linked(nodes@, labels@),
        p < nodes@.len(),
    ensures
        at_place(labels@, labels@[p as int].push(key@), r),
{
    let r = find_key(&nodes[p].object_children, key);
    proof {
        let place = labels@[p as int].push(key@);
        match r {
            Some(c) => {
                let i = choose|i: int|
                    0 <= i < nodes@[p as int].object_children@.len()
                        && #[trigger] nodes@[p as int].object_children@[i].0@ == key@
                        && nodes@[p as int].object_children@[i].1 == c;
                assert(object_link_ok(labels@, p as int, nodes@[p as int].object_children@[i]));
            },
            None => {
                if labels@.contains(place) {
                    let c = choose|c: int| 0 <= c < labels@.len() && labels@[c] == place;
                    assert(place.drop_last() =~= labels@[p as int]);
                    assert(has_links(nodes@, labels@, p as int, c));
                    let i = choose|i: int|
                        0 <= i < nodes@[p as int].object_children@.len()
                            && #[trigger] nodes@[p as int].object_children@[i].1 == c;
                    assert(object_link_ok(labels@, p as int, nodes@[p as int].object_children@[i]));
                    assert(nodes@[p as int].object_children@[i].0@ == place.last());
                }
            },
        }
    }
    r
}

/// The child of node `p` for the array index `idx`.
fn child_array(nodes: &Vec<PathNode>, labels: Ghost<Seq<Seq<Seq<char>>>>, p: usize, idx: usize) -> (r: Option<usize>)
    requires
        linked(nodes@, labels@),
        p < nodes@.len(),
    ensures
        at_place(labels@, labels@[p as int].push(decimal(idx as nat)), r),
{
    let r = find_index(&nodes[p].array_children, idx);
    proof {
        let token = decimal(idx as nat);
        let place = labels@[p as int].push(token);
        lemma_token_of_index(idx);
        match r {
            Some(c) => {
                let i = choose|i: int|
                    0 <= i < nodes@[p as int].array_children@.len()
                        && #[trigger] nodes@[p as int].array_children@[i].0 == idx
                        && nodes@[p as int].array_children@[i].1 == c;
                assert(array_link_ok(labels@, p as int, nodes@[p as int].array_children@[i]));
                lemma_token_index_unique(labels@[c as int].last(), token);
                assert(labels@[c as int] =~= place);
            },
            None => {
                if labels@.contains(place) {
                    let c = choose|c: int| 0 <= c < labels@.len() && labels@[c] == place;
                    assert(place.drop_last() =~= labels@[p as int]);
                    assert(place.last() == token);
                    assert(has_links(nodes@, labels@, p as int, c));
                    let i = choose|i: int|
                        0 <= i < nodes@[p as int].array_children@.len()
                            && #[trigger] nodes@[p as int].array_children@[i].1 == c;
                    assert(array_link_ok(labels@, p as int, nodes@[p as int].array_children@[i]));
                }
            },
        }
    }
    r
}


proof fn lemma_mutate_op(ops: Seq<Op>, place: Seq<Seq<char>>)
    ensures
        mutate_op(ops, place) matches Some(j) ==> 0 <= j < ops.len() && ops[j].mutates(place),
    decreases ops.len(),
{
    if ops.len() > 0 && !ops.last().mutates(place) {
        lemma_mutate_op(ops.drop_last(), place);
    }
}

proof fn lemma_extract_op(ops: Seq<Op>, place: Seq<Seq<char>>)
    ensures
        extract_op(ops, place) matches Some(j) ==> 0 <= j < ops.len() && ops[j].extracts(place),
    decreases ops.len(),
{
    if ops.len() > 0 && !ops.last().extracts(place) {
        lemma_extract_op(ops.drop_last(), place);
    }
}

proof fn lemma_append_op(ops: Seq<Op>, place: Seq<Seq<char>>)
    ensures
        append_op(ops, place) matches Some(j) ==> 0 <= j < ops.len() && ops[j].appends_to(place),
    decreases ops.len(),
{
    if ops.len() > 0 && !ops.last().appends_to(place) {
        lemma_append_op(ops.drop_last(), place);
    }
}

/// An operation in the list is found at its own place.
proof fn lemma_found(ops: Seq<Op>, j: int)
    requires
        0 <= j < ops.len(),
    ensures
        ops[j].mutates(ops[j].tokens) ==> mutate_op(ops, ops[j].tokens) is Some,
        ops[j].extracts(ops[j].tokens) ==> extract_op(ops, ops[j].tokens) is Some,
        ops[j].appends() ==> append_op(ops, ops[j].tokens.drop_last()) is Some,
    decreases ops.len(),
{
    if j < ops.len() - 1 {
        lemma_found(ops.drop_last(), j);
        assert(ops.drop_last()[j] == ops[j]);
    }
}

/// A place without a node has no operation.
proof fn lemma_uncovered(labels: Seq<Seq<Seq<char>>>, ops: Seq<Op>, place: Seq<Seq<char>>)
    requires
        covered(labels, ops),
        !labels.contains(place),
    ensures
        mutate_op(ops, place) is None,
        extract_op(ops, place) is None,
        append_op(ops, place) is None,
        !touches(ops, place),
{
    lemma_mutate_op(ops, place);
    lemma_extract_op(ops, place);
    lemma_append_op(ops, place);
    if let Some(j) = mutate_op(ops, place) {
        assert(ops[j].tokens.take(place.len() as int) =~= place);
    }
    if let Some(j) = extract_op(ops, place) {
        assert(ops[j].tokens.take(place.len() as int) =~= place);
    }
    if let Some(j) = append_op(ops, place) {
        assert(ops[j].tokens.take(place.len() as int) =~= place);
    }
    if touches(ops, place) {
        let j = choose|j: int| 0 <= j < ops.len() && #[trigger] ops[j].reaches(place);
        assert(labels.contains(ops[j].tokens.take(place.len() as int)));
    }
}

/// The prefixes of the place of a node are places of nodes.
proof fn lemma_prefix_closed(labels: Seq<Seq<Seq<char>>>, ops: Seq<Op>, place: Seq<Seq<char>>, k: int)
    requires
        covered(labels, ops),
        live(labels, ops),
        labels.len() > 0,
        labels[0] == Seq::<Seq<char>>::empty(),
        labels.contains(place),
        0 <= k <= place.len(),
    ensures
        labels.contains(place.take(k)),
{
    let c = choose|c: int| 0 <= c < labels.len() && labels[c] == place;
    if c == 0 {
        assert(place.take(k) =~= place);
    } else {
        assert(touches(ops, labels[c]));
        let j = choose|j: int| 0 <= j < ops.len() && #[trigger] ops[j].reaches(place);
        assert(labels.contains(ops[j].tokens.take(k)));
        assert(ops[j].tokens.take(k) =~= ops[j].tokens.take(place.len() as int).take(k));
    }
}

impl OpPathIndex {
    /// The node at `path`.
    fn node_at(&self, path: &[PathToken]) -> (r: Option<usize>)
        requires
            self.wf(),
        ensures
            at_place(self.labels@, place_of(segments(path@)), r),
    {
        let ghost place = place_of(segments(path@));
        let mut node: usize = 0;
        let mut i: usize = 0;
        assert(place.take(0) =~= Seq::<Seq<char>>::empty());
        while i < path.len()
            invariant
                self.wf(),
                i <= path@.len(),
                place == place_of(segments(path@)),
                node < self.nodes@.len(),
                self.labels@[node as int] == place.take(i as int),
            decreases path@.len() - i,
        {
            assert(place.take(i + 1) =~= place.take(i as int).push(place[i as int]));
            let next = match &path[i] {
                PathToken::Key(key) => child_object(&self.nodes, Ghost(self.labels@), node, key.as_str()),
                PathToken::Index(idx) => child_array(&self.nodes, Ghost(self.labels@), node, *idx),
            };
            match next {
                Some(id) => {
                    node = id;
                },
                None => {
                    proof {
                        if self.labels@.contains(place) {
                            lemma_prefix_closed(self.labels@, self.listed@, place, i + 1);
                        }
                    }
                    return None;
                },
            }
            i = i + 1;
        }
        assert(place.take(path@.len() as int) =~= place);
        Some(node)
    }

    /// The extract operation at exactly `path`.
    pub fn extract_at(&self, path: &[PathToken]) -> (r: Option<usize>)
        requires
            self.wf(),
        ensures
            int_of(r) == extract_op(self.ops(), place_of(segments(path@))),
    {
        match self.node_at(path) {
            Some(p) => self.nodes[p].extract_idx,
            None => {
                proof {
                    lemma_uncovered(self.labels@, self.listed@, place_of(segments(path@)));
                }
                None
            },
        }
    }

    /// The operation that appends to the array at `path`.
    pub fn add_append(&self, path: &[PathToken]) -> (r: Option<usize>)
        requires
            self.wf(),
        ensures
            int_of(r) == append_op(self.ops(), place_of(segments(path@))),
    {
        match self.node_at(path) {
            Some(p) => self.nodes[p].array_append,
            None => {
                proof {
                    lemma_uncovered(self.labels@, self.listed@, place_of(segments(path@)));
                }
                None
            },
        }
    }

    /// The child node for the object key `key` below `path`.
    fn child_object_node(&self, path: &[PathToken], key: &str) -> (r: Option<usize>)
        requires
            self.wf(),
        ensures
            at_place(self.labels@, place_of(segments(path@)).push(key@), r),
    {
        let ghost place = place_of(segments(path@)).push(key@);
        match self.node_at(path) {
            Some(p) => child_object(&self.nodes, Ghost(self.labels@), p, key),
            None => {
                proof {
                    if self.labels@.contains(place) {
                        lemma_prefix_closed(self.labels@, self.listed@, place, place.len() - 1);
                        assert(place.take(place.len() - 1) =~= place_of(segments(path@)));
                    }
                }
                None
            },
        }
    }

    /// The child node for the array index `idx` below `path`.
    fn child_array_node(&self, path: &[PathToken], idx: usize) -> (r: Option<usize>)
        requires
            self.wf(),
        ensures
            at_place(self.labels@, place_of(segments(path@)).push(decimal(idx as nat)), r),
    {
        let ghost place = place_of(segments(path@)).push(decimal(idx as nat));
        match self.node_at(path) {
            Some(p) => child_array(&self.nodes, Ghost(self.labels@), p, idx),
            None => {
                proof {
                    if self.labels@.contains(place) {
                        lemma_prefix_closed(self.labels@, self.listed@, place, place.len() - 1);
                        assert(place.take(place.len() - 1) =~= place_of(segments(path@)));
                    }
                }
                None
            },
        }
    }

    /// The mutating operation at `path` and the object key `last`.
    pub fn mutate_child_key(&self, path: &[PathToken], last: &str) -> (r: Option<usize>)
        requires
            self.wf(),
        ensures
            int_of(r) == mutate_op(self.ops(), place_of(segments(path@)).push(last@)),
    {
        match self.child_object_node(path, last) {
            Some(p) => self.nodes[p].mutate_idx,
            None => {
                proof {
                    lemma_uncovered(self.labels@, self.listed@, place_of(segments(path@)).push(last@));
                }
                None
            },
        }
    }

    /// The mutating operation at `path` and the array index `idx`.
    pub fn mutate_at_index(&self, path: &[PathToken], idx: usize) -> (r: Option<usize>)
        requires
            self.wf(),
        ensures
            int_of(r) == mutate_op(self.ops(), place_of(segments(path@)).push(decimal(idx as nat))),
    {
        match self.child_array_node(path, idx) {
            Some(p) => self.nodes[p].mutate_idx,
            None => {
                proof {
                    lemma_uncovered(
                        self.labels@,
                        self.listed@,
                        place_of(segments(path@)).push(decimal(idx as nat)),
                    );
                }
                None
            },
        }
    }

    /// Whether anything is recorded at node `p` or below it.
    fn node_has_work(&self, p: usize) -> (r: bool)
        requires
            self.wf(),
            p < self.labels@.len(),
        ensures
            r == touches(self.ops(), self.labels@[p as int]),
    {
        let node = &self.nodes[p];
        let r = node.mutate_idx.is_some() || node.extract_idx.is_some() || node.array_append.is_some()
            || node.object_children.len() > 0 || node.array_children.len() > 0;
        proof {
            let ops = self.listed@;
            let labels = self.labels@;
            let nodes = self.nodes@;
            let place = labels[p as int];
            lemma_mutate_op(ops, place);
            lemma_extract_op(ops, place);
            lemma_append_op(ops, place);
            assert(nodes[p as int] == *node);
            if r {
                if let Some(j) = mutate_op(ops, place) {
                    assert(ops[j].tokens.take(place.len() as int) =~= place);
                    assert(ops[j].reaches(place));
                }
                if let Some(j) = extract_op(ops, place) {
                    assert(ops[j].tokens.take(place.len() as int) =~= place);
                    assert(ops[j].reaches(place));
                }
                if let Some(j) = append_op(ops, place) {
                    assert(ops[j].tokens.take(place.len() as int) =~= place);
                    assert(ops[j].reaches(place));
                }
                if node.object_children@.len() > 0 || node.array_children@.len() > 0 {
                    let c: int = if node.object_children@.len() > 0 {
                        assert(object_link_ok(labels, p as int, nodes[p as int].object_children@[0]));
                        node.object_children@[0].1 as int
                    } else {
                        assert(array_link_ok(labels, p as int, nodes[p as int].array_children@[0]));
                        node.array_children@[0].1 as int
                    };
                    assert(labels[c].drop_last() =~= place);
                    assert(touches(ops, labels[c]));
                    let j = choose|j: int| 0 <= j < ops.len() && #[trigger] ops[j].reaches(labels[c]);
                    assert(ops[j].tokens.take(place.len() as int) =~= labels[c].drop_last());
                    assert(ops[j].reaches(place));
                }
            }
            if touches(ops, place) {
                let j = choose|j: int| 0 <= j < ops.len() && #[trigger] ops[j].reaches(place);
                let op = ops[j];
                if place.len() < op.place_len() {
                    let below = op.tokens.take(place.len() as int + 1);
                    assert(labels.contains(below));
                    let c = choose|c: int| 0 <= c < labels.len() && labels[c] == below;
                    assert(below.drop_last() =~= place);
                    assert(has_links(nodes, labels, p as int, c));
                } else {
                    lemma_found(ops, j);
                    if op.appends() {
                        assert(op.tokens.take(place.len() as int) =~= op.tokens.drop_last());
                    } else {
                        assert(op.tokens.take(place.len() as int) =~= op.tokens);
                    }
                }
            }
        }
        r
    }

    /// Whether any operation has its place at or below `path`.
    pub fn has_descendant_ops(&self, path: &[PathToken]) -> (r: bool)
        requires
            self.wf(),
        ensures
            r == touches(self.ops(), place_of(segments(path@))),
    {
        match self.node_at(path) {
            Some(p) => self.node_has_work(p),
            None => {
                proof {
                    lemma_uncovered(self.labels@, self.listed@, place_of(segments(path@)));
                }
                false
            },
        }
    }

    /// Whether the object member `key` below `path` must be walked.
    pub fn child_needs_rewrite(&self, path: &[PathToken], key: &str) -> (r: bool)
        requires
            self.wf(),
        ensures
            r == touches(self.ops(), place_of(segments(path@)).push(key@)),
    {
        match self.child_object_node(path, key) {
            Some(p) => self.node_has_work(p),
            None => {
                proof {
                    lemma_uncovered(self.labels@, self.listed@, place_of(segments(path@)).push(key@));
                }
                false
            },
        }
    }

    /// Whether the array element `idx` below `path` must be walked.
    pub fn child_index_needs_rewrite(&self, path: &[PathToken], idx: usize) -> (r: bool)
        requires
            self.wf(),
        ensures
            r == touches(self.ops(), place_of(segments(path@)).push(decimal(idx as nat))),
    {
        match self.child_array_node(path, idx) {
            Some(p) => self.node_has_work(p),
            None => {
                proof {
                    lemma_uncovered(
                        self.labels@,
                        self.listed@,
                        place_of(segments(path@)).push(decimal(idx as nat)),
                    );
                }
                false
            },
        }
    }
}


/// A node without operations or children.
fn empty_node() -> (r: PathNode)
    ensures
        r.extract_idx is None,
        r.mutate_idx is None,
        r.array_append is None,
        r.object_children@.len() == 0,
        r.array_children@.len() == 0,
{
    PathNode {
        extract_idx: None,
        mutate_idx: None,
        object_children: Vec::new(),
        array_children: Vec::new(),
        array_append: None,
    }
}

/// The node for `token` below node `parent`, made if it does not exist.
fn ensure_child(
    nodes: &mut Vec<PathNode>,
    labels: Ghost<Seq<Seq<Seq<char>>>>,
    ops: Ghost<Seq<Op>>,
    parent: usize,
    token: &str,
) -> (r: (usize, Ghost<Seq<Seq<Seq<char>>>>))
    requires
        linked(old(nodes)@, labels@),
        recorded(old(nodes)@, labels@, ops@),
        covered(labels@, ops@),
        parent < old(nodes)@.len(),
    ensures
        linked(final(nodes)@, r.1@),
        recorded(final(nodes)@, r.1@, ops@),
        covered(r.1@, ops@),
        r.0 < final(nodes)@.len(),
        r.1@[r.0 as int] == labels@[parent as int].push(token@),
        r.1@ == labels@ || r.1@ == labels@.push(labels@[parent as int].push(token@)),
{
    let ghost place = labels@[parent as int].push(token@);
    match child_object(nodes, Ghost(labels@), parent, token) {
        Some(id) => {
            return (id, labels);
        },
        None => {},
    }
    let ghost before = nodes@;
    let child: usize = nodes.len();
    nodes.push(empty_node());
    let as_index = array_index(token);
    let key: String = token.to_owned();
    {
        let node = &mut nodes[parent];
        node.object_children.push((key, child));
        if let Some(idx) = as_index {
            node.array_children.push((idx, child));
        }
    }
    let ghost grown = labels@.push(place);
    proof {
        lemma_uncovered(labels@, ops@, place);
        let after = nodes@;
        let link = (key, child);
        assert(after.len() == before.len() + 1);
        assert(after[parent as int].object_children@ == before[parent as int].object_children@.push(link));
        assert forall|p: int| 0 <= p < before.len() && p != parent implies after[p] == before[p] by {}
        assert(place.drop_last() =~= labels@[parent as int]);
        assert(place.last() == token@);
        assert forall|a: int, b: int|
            0 <= a < grown.len() && 0 <= b < grown.len() && #[trigger] grown[a] == #[trigger] grown[b]
            implies a == b by {
            if a < labels@.len() && b < labels@.len() {
                assert(labels@[a] == labels@[b]);
            } else if a < labels@.len() {
                assert(labels@.contains(labels@[a]));
            } else if b < labels@.len() {
                assert(labels@.contains(labels@[b]));
            }
        }
        assert forall|p: int, i: int|
            0 <= p < after.len() && 0 <= i < after[p].object_children@.len() implies object_link_ok(
            grown,
            p,
            #[trigger] after[p].object_children@[i],
        ) by {
            if p < before.len() && i < before[p].object_children@.len() {
                assert(after[p].object_children@[i] == before[p].object_children@[i]);
                assert(object_link_ok(labels@, p, before[p].object_children@[i]));
            }
        }
        assert forall|p: int, i: int|
            0 <= p < after.len() && 0 <= i < after[p].array_children@.len() implies array_link_ok(
            grown,
            p,
            #[trigger] after[p].array_children@[i],
        ) by {
            if p < before.len() && i < before[p].array_children@.len() {
                assert(after[p].array_children@[i] == before[p].array_children@[i]);
                assert(array_link_ok(labels@, p, before[p].array_children@[i]));
            }
        }
        assert forall|p: int, c: int|
            0 <= p < grown.len() && 0 < c < grown.len() && #[trigger] grown[p] == (
            #[trigger] grown[c]).drop_last() implies has_links(after, grown, p, c) by {
            if c == child {
                assert(grown[p] == grown[parent as int]);
                assert(p == parent);
                let n = before[p].object_children@.len() as int;
                assert(after[p].object_children@[n].1 == c);
                if token_index(grown[c].last()) is Some {
                    let m = before[p].array_children@.len() as int;
                    assert(after[p].array_children@[m].1 == c);
                }
            } else if p == child {
                // a child of the new node would have made the new node's place known before
                assert(labels@[c].drop_last() == place);
                assert(false) by {
                    assert(orphan_free(labels@));
                    assert(labels@.contains(labels@[c].drop_last()));
                }
            } else {
                assert(labels@[p] == labels@[c].drop_last());
                assert(has_links(before, labels@, p, c));
                let i = choose|i: int|
                    0 <= i < before[p].object_children@.len()
                        && #[trigger] before[p].object_children@[i].1 == c;
                assert(after[p].object_children@[i] == before[p].object_children@[i]);
                if token_index(labels@[c].last()) is Some {
                    let m = choose|m: int|
                        0 <= m < before[p].array_children@.len()
                            && #[trigger] before[p].array_children@[m].1 == c;
                    assert(after[p].array_children@[m] == before[p].array_children@[m]);
                }
            }
        }
        assert(orphan_free(grown)) by {
            assert forall|c: int| 0 < c < grown.len() implies grown.contains((#[trigger] grown[c]).drop_last()) by {
                if c < labels@.len() {
                    assert(labels@.contains(labels@[c].drop_last()));
                    let p = choose|p: int| 0 <= p < labels@.len() && labels@[p] == labels@[c].drop_last();
                    assert(grown[p] == grown[c].drop_last());
                } else {
                    assert(grown[parent as int] == grown[c].drop_last());
                }
            }
        }
        assert forall|j: int, k: int|
            0 <= j < ops@.len() && 0 <= k <= ops@[j].place_len() implies grown.contains(
            #[trigger] ops@[j].tokens.take(k),
        ) by {
            assert(labels@.contains(ops@[j].tokens.take(k)));
            let c = choose|c: int| 0 <= c < labels@.len() && labels@[c] == ops@[j].tokens.take(k);
            assert(grown[c] == ops@[j].tokens.take(k));
        }
    }
    (child, Ghost(grown))
}

impl OpPathIndex {
    /// Build the index of an operation list.
    pub fn build(ops: &[CompiledOp]) -> (r: Self)
        ensures
            r.wf(),
            r.ops() == models(ops@),
    {
        let ghost all = models(ops@);
        let mut nodes: Vec<PathNode> = Vec::new();
        nodes.push(empty_node());
        let mut labels: Ghost<Seq<Seq<Seq<char>>>> = Ghost(Seq::<Seq<Seq<char>>>::empty().push(Seq::<Seq<char>>::empty()));
        let mut idx: usize = 0;
        assert(all.take(0) =~= Seq::<Op>::empty());
        while idx < ops.len()
            invariant
                idx <= ops@.len(),
                all == models(ops@),
                linked(nodes@, labels@),
                recorded(nodes@, labels@, all.take(idx as int)),
                covered(labels@, all.take(idx as int)),
                live(labels@, all.take(idx as int)),
            decreases ops@.len() - idx,
        {
            let op = &ops[idx];
            let ghost done = all.take(idx as int);
            let ghost model = all[idx as int];
            let ghost next = all.take(idx + 1);
            assert(model == op.model());
            assert(next =~= done.push(model));
            let n: usize = op.tokens.len();
            let append = op.is_append();
            let limit: usize = if append {
                n - 1
            } else {
                n
            };
            let mut node: usize = 0;
            let mut depth: usize = 0;
            assert(model.tokens.take(0) =~= Seq::<Seq<char>>::empty());
            proof {
                assert forall|p: int| 0 < p < labels@.len() implies touches(next, #[trigger] labels@[p]) by {
                    lemma_touches_grow(done, model, labels@[p]);
                }
            }
            while depth < limit
                invariant
                    limit <= op.tokens@.len(),
                    limit == model.place_len(),
                    depth <= limit,
                    model == op.model(),
                    next == done.push(model),
                    linked(nodes@, labels@),
                    recorded(nodes@, labels@, done),
                    covered(labels@, done),
                    live(labels@, next),
                    node < nodes@.len(),
                    labels@[node as int] == model.tokens.take(depth as int),
                    forall|k: int| 0 <= k <= depth ==> labels@.contains(#[trigger] model.tokens.take(k)),
                decreases limit - depth,
            {
                let ghost before = labels@;
                let (id, grown) = ensure_child(
                    &mut nodes,
                    labels,
                    Ghost(done),
                    node,
                    op.tokens[depth].as_str(),
                );
                labels = grown;
                node = id;
                proof {
                    let place = model.tokens.take(depth + 1);
                    assert(place =~= model.tokens.take(depth as int).push(model.tokens[depth as int]));
                    assert(model.tokens[depth as int] == op.tokens@[depth as int]@);
                    assert(labels@[node as int] == place);
                    assert forall|k: int| 0 <= k <= depth + 1 implies labels@.contains(
                        #[trigger] model.tokens.take(k),
                    ) by {
                        if k <= depth {
                            assert(before.contains(model.tokens.take(k)));
                            let c = choose|c: int| 0 <= c < before.len() && before[c] == model.tokens.take(k);
                            assert(labels@[c] == model.tokens.take(k));
                        } else {
                            assert(labels@[node as int] == model.tokens.take(k));
                        }
                    }
                    assert forall|p: int| 0 < p < labels@.len() implies touches(next, #[trigger] labels@[p]) by {
                        if p < before.len() {
                            assert(labels@[p] == before[p]);
                        } else {
                            assert(labels@[p] == place);
                            assert(next[done.len() as int] == model);
                            assert(model.reaches(place));
                        }
                    }
                }
                depth = depth + 1;
            }
            let ghost before = nodes@;
            let ghost place = labels@[node as int];
            {
                let entry = &mut nodes[node];
                if append {
                    entry.array_append = Some(idx);
                } else if op.kind.is_mutating() {
                    entry.mutate_idx = Some(idx);
                } else {
                    entry.extract_idx = Some(idx);
                }
            }
            proof {
                let after = nodes@;
                assert(next.drop_last() =~= done);
                assert(next.last() == model);
                assert(model.appends() ==> model.tokens.drop_last() =~= place);
                assert(!model.appends() ==> model.tokens =~= place);
                assert forall|p: int| 0 <= p < before.len() && p != node implies after[p] == before[p] by {}
                assert forall|p: int| 0 <= p < after.len() implies {
                    &&& int_of((#[trigger] after[p]).mutate_idx) == mutate_op(next, labels@[p])
                    &&& int_of(after[p].extract_idx) == extract_op(next, labels@[p])
                    &&& int_of(after[p].array_append) == append_op(next, labels@[p])
                } by {
                    assert(int_of(before[p].mutate_idx) == mutate_op(done, labels@[p]));
                    if p != node {
                        assert(labels@[p] != place);
                    }
                }
                lemma_same_links(before, after, labels@);
                assert forall|j: int, k: int|
                    0 <= j < next.len() && 0 <= k <= next[j].place_len() implies labels@.contains(
                    #[trigger] next[j].tokens.take(k),
                ) by {
                    if j < done.len() {
                        assert(next[j] == done[j]);
                        assert(labels@.contains(done[j].tokens.take(k)));
                    } else {
                        assert(labels@.contains(model.tokens.take(k)));
                    }
                }
            }
            idx = idx + 1;
        }
        assert(all.take(ops@.len() as int) =~= all);
        OpPathIndex { nodes, labels, listed: Ghost(all) }
    }
}

} // verus!
