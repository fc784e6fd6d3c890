use vstd::prelude::*;

use crate::contents::{Target, TargetM, str_view, strs_view, target_view, targets_view};

verus! {

/// One group of sibling builder nodes sharing a key, in attachment order.
pub struct Group {
    pub key: String,
    pub members: Vec<usize>,
}

/// One builder node: an entry's offset, key and accumulated text, its
/// parent as an arena index, and its children grouped by key in first-seen
/// key order.
pub struct Node {
    pub parent: Option<usize>,
    pub offset: usize,
    pub key: String,
    pub text: String,
    pub groups: Vec<Group>,
}

/// The builder tree: an arena of nodes addressed by stable index, the
/// top-level groups, and the most recently attached node, which is the
/// starting point for resolving the next entry's offset.
pub struct Root {
    pub nodes: Vec<Node>,
    pub tops: Vec<Group>,
    pub last: Option<usize>,
}

pub ghost struct GroupM {
    pub key: Seq<char>,
    pub members: Seq<usize>,
}

pub ghost struct NodeM {
    pub parent: Option<usize>,
    pub offset: usize,
    pub key: Seq<char>,
    pub text: Seq<char>,
    pub groups: Seq<GroupM>,
}

pub ghost struct RootM {
    pub nodes: Seq<NodeM>,
    pub tops: Seq<GroupM>,
    pub last: Option<usize>,
}

pub open spec fn group_view(g: Group) -> GroupM {
    GroupM { key: g.key@, members: g.members@ }
}

pub open spec fn groups_view(gs: Seq<Group>) -> Seq<GroupM>
    decreases gs.len(),
{
    if gs.len() == 0 {
        Seq::empty()
    } else {
        groups_view(gs.drop_last()).push(group_view(gs.last()))
    }
}

pub open spec fn node_view(n: Node) -> NodeM {
    NodeM {
        parent: n.parent,
        offset: n.offset,
        key: n.key@,
        text: n.text@,
        groups: groups_view(n.groups@),
    }
}

pub open spec fn nodes_view(ns: Seq<Node>) -> Seq<NodeM>
    decreases ns.len(),
{
    if ns.len() == 0 {
        Seq::empty()
    } else {
        nodes_view(ns.drop_last()).push(node_view(ns.last()))
    }
}

impl View for Root {
    type V = RootM;

    open spec fn view(&self) -> RootM {
        RootM { nodes: nodes_view(self.nodes@), tops: groups_view(self.tops@), last: self.last }
    }
}

pub proof fn lemma_groups_view(gs: Seq<Group>)
    ensures
        groups_view(gs).len() == gs.len(),
        forall|i: int| 0 <= i < gs.len() ==> groups_view(gs)[i] == group_view(gs[i]),
    decreases gs.len(),
{
    if gs.len() > 0 {
        lemma_groups_view(gs.drop_last());
    }
}

pub proof fn lemma_nodes_view(ns: Seq<Node>)
    ensures
        nodes_view(ns).len() == ns.len(),
        forall|i: int| 0 <= i < ns.len() ==> nodes_view(ns)[i] == node_view(ns[i]),
    decreases ns.len(),
{
    if ns.len() > 0 {
        lemma_nodes_view(ns.drop_last());
    }
}

/// All member indices of a group lie in `[lo, hi)`.
pub open spec fn group_in(g: GroupM, lo: int, hi: int) -> bool {
    forall|k: int| 0 <= k < g.members.len() ==> lo <= #[trigger] g.members[k] && g.members[k] < hi
}

/// A node's parent precedes it in the arena, and its children follow it.
pub open spec fn node_wf(nodes: Seq<NodeM>, i: int) -> bool {
    &&& match nodes[i].parent {
        Some(p) => p < i,
        None => true,
    }
    &&& forall|j: int|
        0 <= j < nodes[i].groups.len() ==> group_in(
            #[trigger] nodes[i].groups[j],
            i + 1,
            nodes.len() as int,
        )
}

/// Well-formedness of the builder tree: every index in it is in bounds, a
/// parent precedes its children, and children follow their parent.
pub open spec fn root_wf(r: RootM) -> bool {
    &&& match r.last {
        Some(l) => l < r.nodes.len(),
        None => true,
    }
    &&& forall|i: int| 0 <= i < r.nodes.len() ==> #[trigger] node_wf(r.nodes, i)
    &&& forall|j: int| 0 <= j < r.tops.len() ==> group_in(#[trigger] r.tops[j], 0, r.nodes.len() as int)
}

/// The index of the first group with the given key, or -1 if none has it.
pub open spec fn find_group(groups: Seq<GroupM>, key: Seq<char>) -> int
    decreases groups.len(),
{
    if groups.len() == 0 {
        -1
    } else if groups[0].key == key {
        0
    } else {
        let r = find_group(groups.drop_first(), key);
        if r < 0 {
            -1
        } else {
            1 + r
        }
    }
}

pub proof fn lemma_find_group(groups: Seq<GroupM>, key: Seq<char>)
    ensures
        -1 <= find_group(groups, key) < groups.len(),
        find_group(groups, key) == -1 ==> forall|j: int|
            0 <= j < groups.len() ==> (#[trigger] groups[j]).key != key,
        find_group(groups, key) >= 0 ==> groups[find_group(groups, key)].key == key,
        find_group(groups, key) >= 0 ==> forall|j: int|
            0 <= j < find_group(groups, key) ==> (#[trigger] groups[j]).key != key,
    decreases groups.len(),
{
    if groups.len() > 0 && groups[0].key != key {
        lemma_find_group(groups.drop_first(), key);
        assert forall|j: int| 1 <= j < groups.len() implies groups.drop_first()[j - 1]
            == groups[j] by {}
    }
}

/// Insert a new member into the group with its key, or open a new group at
/// the end when no group has that key yet.
pub open spec fn push_group(groups: Seq<GroupM>, key: Seq<char>, idx: usize) -> Seq<GroupM> {
    let r = find_group(groups, key);
    if r >= 0 {
        groups.update(r, GroupM { key: groups[r].key, members: groups[r].members.push(idx) })
    } else {
        groups.push(GroupM { key, members: Seq::empty().push(idx) })
    }
}

/// Walk the parent chain from node `i` until a node with offset `off` is
/// found, and give that node's parent; give nothing when a strictly
/// shallower node is reached first or the chain ends.
pub open spec fn seek_spec(nodes: Seq<NodeM>, i: int, off: usize) -> Option<usize>
    decreases i,
{
    if i < 0 || i >= nodes.len() {
        None
    } else if nodes[i].offset == off {
        nodes[i].parent
    } else if off < nodes[i].offset {
        match nodes[i].parent {
            Some(p) => {
                if p < i {
                    seek_spec(nodes, p as int, off)
                } else {
                    None
                }
            },
            None => None,
        }
    } else {
        None
    }
}

/// Attach a fresh node with the given parent: append it to the arena, add
/// it to the parent's group with its key, and make it the last node.
pub open spec fn attach_spec(rm: RootM, p: int, offset: usize, key: Seq<char>, text: Seq<char>) -> RootM {
    let idx = rm.nodes.len() as usize;
    let node = NodeM {
        parent: Some(p as usize),
        offset,
        key,
        text,
        groups: Seq::empty(),
    };
    let nodes1 = rm.nodes.push(node);
    let nodes2 = nodes1.update(
        p,
        NodeM { groups: push_group(nodes1[p].groups, key, idx), ..nodes1[p] },
    );
    RootM { nodes: nodes2, tops: rm.tops, last: Some(idx) }
}

/// Where one parsed entry goes: a top-level entry joins the root groups; a
/// deeper entry is attached under the node found from the last attached
/// node, first directly when its offset is one deeper, else through the
/// parent chain; an entry whose offset cannot be resolved is dropped.
pub open spec fn add_spec(rm: RootM, offset: usize, key: Seq<char>, text: Seq<char>) -> RootM {
    let idx = rm.nodes.len() as usize;
    if offset == 0 {
        let node = NodeM { parent: None, offset, key, text, groups: Seq::empty() };
        RootM {
            nodes: rm.nodes.push(node),
            tops: push_group(rm.tops, key, idx),
            last: Some(idx),
        }
    } else {
        match rm.last {
            None => rm,
            Some(l) => {
                if offset - 1 == rm.nodes[l as int].offset {
                    attach_spec(rm, l as int, offset, key, text)
                } else {
                    match seek_spec(rm.nodes, l as int, offset) {
                        Some(p) => attach_spec(rm, p as int, offset, key, text),
                        None => rm,
                    }
                }
            },
        }
    }
}

/// The non-empty texts of the given arena nodes, in order.
pub open spec fn texts_of(nodes: Seq<NodeM>, members: Seq<usize>) -> Seq<Seq<char>>
    decreases members.len(),
{
    if members.len() == 0 {
        Seq::empty()
    } else {
        let rest = texts_of(nodes, members.drop_last());
        let m = members.last() as int;
        if 0 <= m < nodes.len() && nodes[m].text.len() > 0 {
            rest.push(nodes[m].text)
        } else {
            rest
        }
    }
}

/// Export one target per group: its name is the group's key, its text the
/// non-empty texts of the group's members, its children the concatenated
/// exports of every member's own groups.  `b` is a lower bound on every
/// index reachable from `groups`, which makes the recursion through the
/// arena well-founded.
pub open spec fn exp_groups(nodes: Seq<NodeM>, groups: Seq<GroupM>, b: int) -> Seq<TargetM>
    decreases nodes.len() - b, 1nat, groups.len(),
{
    if b < 0 || b > nodes.len() {
        Seq::empty()
    } else if groups.len() == 0 {
        Seq::empty()
    } else {
        let g = groups.last();
        exp_groups(nodes, groups.drop_last(), b).push(
            TargetM {
                name: g.key,
                text: texts_of(nodes, g.members),
                value: exp_children(nodes, g.members, b),
            },
        )
    }
}

/// The concatenated exports of every member's child groups.
pub open spec fn exp_children(nodes: Seq<NodeM>, members: Seq<usize>, b: int) -> Seq<TargetM>
    decreases nodes.len() - b, 0nat, members.len(),
{
    if b < 0 || b > nodes.len() {
        Seq::empty()
    } else if members.len() == 0 {
        Seq::empty()
    } else {
        let rest = exp_children(nodes, members.drop_last(), b);
        let m = members.last() as int;
        if b <= m < nodes.len() {
            rest + exp_groups(nodes, nodes[m].groups, m + 1)
        } else {
            rest
        }
    }
}

pub proof fn lemma_nodes_view_push(ns: Seq<Node>, n: Node)
    ensures
        nodes_view(ns.push(n)) == nodes_view(ns).push(node_view(n)),
{
    assert(ns.push(n).drop_last() =~= ns);
}

pub proof fn lemma_groups_view_push(gs: Seq<Group>, g: Group)
    ensures
        groups_view(gs.push(g)) == groups_view(gs).push(group_view(g)),
{
    assert(gs.push(g).drop_last() =~= gs);
}

pub proof fn lemma_nodes_view_update(ns: Seq<Node>, p: int, n: Node)
    requires
        0 <= p < ns.len(),
    ensures
        nodes_view(ns.update(p, n)) == nodes_view(ns).update(p, node_view(n)),
{
    lemma_nodes_view(ns.update(p, n));
    lemma_nodes_view(ns);
    assert(nodes_view(ns.update(p, n)) =~= nodes_view(ns).update(p, node_view(n)));
}

pub proof fn lemma_groups_view_update(gs: Seq<Group>, p: int, g: Group)
    requires
        0 <= p < gs.len(),
    ensures
        groups_view(gs.update(p, g)) == groups_view(gs).update(p, group_view(g)),
{
    lemma_groups_view(gs.update(p, g));
    lemma_groups_view(gs);
    assert(groups_view(gs.update(p, g)) =~= groups_view(gs).update(p, group_view(g)));
}

pub proof fn lemma_targets_view_add(a: Seq<Target>, b: Seq<Target>)
    ensures
        targets_view(a + b) == targets_view(a) + targets_view(b),
    decreases b.len(),
{
    if b.len() == 0 {
        assert(a + b =~= a);
        assert(targets_view(a) + targets_view(b) =~= targets_view(a));
    } else {
        lemma_targets_view_add(a, b.drop_last());
        assert((a + b).drop_last() =~= a + b.drop_last());
        assert((a + b).last() == b.last());
        assert(targets_view(a) + targets_view(b.drop_last()).push(target_view(b.last()))
            =~= (targets_view(a) + targets_view(b.drop_last())).push(target_view(b.last())));
    }
}

impl Node {
    /// A fresh, unattached builder node for one parsed entry.
    pub fn new(offset: usize, key: String, text: String) -> (n: Node)
        ensures
            n.parent is None,
            n.offset == offset,
            n.key@ == key@,
            n.text@ == text@,
            n.groups@.len() == 0,
    {
        Node { parent: None, offset, key, text, groups: Vec::new() }
    }
}

/// The index of the first group in `groups` whose key is `key`.
fn find_group_idx(groups: &Vec<Group>, key: &String) -> (r: Option<usize>)
    ensures
        ({
            let f = find_group(groups_view(groups@), key@);
            match r {
                Some(j) => f == j,
                None => f == -1,
            }
        }),
{
    let mut j: usize = 0;
    while j < groups.len()
        invariant
            j <= groups@.len(),
            forall|j2: int| 0 <= j2 < j ==> (#[trigger] groups_view(groups@)[j2]).key != key@,
        decreases groups@.len() - j,
    {
        if groups[j].key == *key {
            proof {
                lemma_groups_view(groups@);
                lemma_find_group(groups_view(groups@), key@);
                let f = find_group(groups_view(groups@), key@);
                assert(groups_view(groups@)[j as int].key == key@);
                assert(f != -1);
                assert(!(f < j));
                assert(!(f > j));
            }
            return Some(j);
        }
        proof {
            lemma_groups_view(groups@);
        }
        j += 1;
    }
    proof {
        lemma_groups_view(groups@);
        lemma_find_group(groups_view(groups@), key@);
    }
    None
}

impl Root {
    /// An empty tree.
    pub fn new() -> (r: Root)
        ensures
            r@ == (RootM { nodes: Seq::<NodeM>::empty(), tops: Seq::<GroupM>::empty(), last: None::<usize> }),
            root_wf(r@),
    {
        let r = Root { nodes: Vec::new(), tops: Vec::new(), last: None };
        proof {
            assert(nodes_view(r.nodes@) =~= Seq::<NodeM>::empty());
            assert(groups_view(r.tops@) =~= Seq::<GroupM>::empty());
        }
        r
    }

    /// Walk the parent chain from node `i` to the ancestor with the given
    /// offset and give that ancestor's parent.
    pub fn get_parent_by_offset(&self, i: usize, seekoffset: usize) -> (r: Option<usize>)
        requires
            root_wf(self@),
            i < self@.nodes.len(),
        ensures
            r == seek_spec(self@.nodes, i as int, seekoffset),
            r matches Some(p) ==> p < i,
    {
        let mut cur = i;
        loop
            invariant
                root_wf(self@),
                cur < self@.nodes.len(),
                cur <= i,
                i < self@.nodes.len(),
                seek_spec(self@.nodes, i as int, seekoffset) == seek_spec(
                    self@.nodes,
                    cur as int,
                    seekoffset,
                ),
            decreases cur,
        {
            proof {
                lemma_nodes_view(self.nodes@);
                assert(node_wf(self@.nodes, cur as int));
                lemma_seek_in_bounds(self@.nodes, i as int, seekoffset);
                lemma_seek_in_bounds(self@.nodes, cur as int, seekoffset);
            }
            if self.nodes[cur].offset == seekoffset {
                return self.nodes[cur].parent;
            } else if seekoffset < self.nodes[cur].offset {
                match self.nodes[cur].parent {
                    Some(p) => {
                        cur = p;
                    },
                    None => {
                        return None;
                    },
                }
            } else {
                return None;
            }
        }
    }

    /// Attach a fresh node as a child of node `p`.
    fn attach(&mut self, p: usize, node: Node)
        requires
            root_wf(old(self)@),
            p < old(self)@.nodes.len(),
            node.groups@.len() == 0,
        ensures
            final(self)@ == attach_spec(old(self)@, p as int, node.offset, node.key@, node.text@),
    {
        let idx = self.nodes.len();
        let mut node = node;
        node.parent = Some(p);
        let key = node.key.clone();
        let ghost nodem = node_view(node);
        let ghost nodes1 = old(self)@.nodes.push(nodem);
        self.nodes.push(node);
        let ghost ns_mid = self.nodes@;
        proof {
            lemma_nodes_view(old(self).nodes@);
            lemma_nodes_view_push(old(self).nodes@, node);
            assert(groups_view(node.groups@) =~= Seq::<GroupM>::empty());
            assert(nodes_view(ns_mid) == nodes1);
            assert(ns_mid[p as int] == old(self).nodes@[p as int]);
            assert(nodes1[p as int] == node_view(ns_mid[p as int]));
        }
        let ghost gseq = self.nodes@[p as int].groups@;
        let ghost gv = groups_view(gseq);
        let r = find_group_idx(&self.nodes[p].groups, &key);
        proof {
            lemma_groups_view(gseq);
            lemma_find_group(gv, key@);
        }
        match r {
            Some(j) => {
                self.nodes[p].groups[j].members.push(idx);
                proof {
                    let n_new = self.nodes@[p as int];
                    let g_new = n_new.groups@[j as int];
                    assert(self.nodes@ =~= ns_mid.update(p as int, n_new));
                    assert(n_new.groups@ =~= gseq.update(j as int, g_new));
                    assert(g_new.key == gseq[j as int].key);
                    assert(g_new.members@ == gseq[j as int].members@.push(idx));
                    assert(n_new.parent == ns_mid[p as int].parent);
                    assert(n_new.offset == ns_mid[p as int].offset);
                    assert(n_new.key == ns_mid[p as int].key);
                    assert(n_new.text == ns_mid[p as int].text);
                    lemma_groups_view_update(gseq, j as int, g_new);
                    lemma_nodes_view_update(ns_mid, p as int, n_new);
                    assert(group_view(g_new) == (GroupM {
                        key: gv[j as int].key,
                        members: gv[j as int].members.push(idx),
                    }));
                    assert(push_group(gv, key@, idx) == gv.update(j as int, group_view(g_new)));
                    assert(node_view(n_new) == (NodeM {
                        groups: push_group(nodes1[p as int].groups, key@, idx),
                        ..nodes1[p as int]
                    }));
                    assert(nodes_view(self.nodes@) == nodes1.update(
                        p as int,
                        NodeM {
                            groups: push_group(nodes1[p as int].groups, key@, idx),
                            ..nodes1[p as int]
                        },
                    ));
                }
            },
            None => {
                self.nodes[p].groups.push(Group { key, members: vec![idx] });
                proof {
                    let n_new = self.nodes@[p as int];
                    let g_new = n_new.groups@.last();
                    assert(self.nodes@ =~= ns_mid.update(p as int, n_new));
                    assert(n_new.groups@ =~= gseq.push(g_new));
                    assert(g_new.key@ == key@);
                    assert(g_new.members@ =~= Seq::<usize>::empty().push(idx));
                    assert(n_new.parent == ns_mid[p as int].parent);
                    assert(n_new.offset == ns_mid[p as int].offset);
                    assert(n_new.key == ns_mid[p as int].key);
                    assert(n_new.text == ns_mid[p as int].text);
                    lemma_groups_view_push(gseq, g_new);
                    lemma_nodes_view_update(ns_mid, p as int, n_new);
                    assert(group_view(g_new) == (GroupM {
                        key: key@,
                        members: Seq::<usize>::empty().push(idx),
                    }));
                    assert(push_group(gv, key@, idx) == gv.push(group_view(g_new)));
                    assert(node_view(n_new) == (NodeM {
                        groups: push_group(nodes1[p as int].groups, key@, idx),
                        ..nodes1[p as int]
                    }));
                    assert(nodes_view(self.nodes@) == nodes1.update(
                        p as int,
                        NodeM {
                            groups: push_group(nodes1[p as int].groups, key@, idx),
                            ..nodes1[p as int]
                        },
                    ));
                }
            },
        }
        self.last = Some(idx);
        proof {
            assert(groups_view(self.tops@) == groups_view(old(self).tops@));
        }
    }

    /// Add one parsed entry to the tree, per the offset reachability rule.
    pub fn add(&mut self, node: Node)
        requires
            root_wf(old(self)@),
            node.parent is None,
            node.groups@.len() == 0,
        ensures
            final(self)@ == add_spec(old(self)@, node.offset, node.key@, node.text@),
            root_wf(final(self)@),
    {
        let ghost rm = old(self)@;
        let ghost offm = node.offset;
        let ghost keym = node.key@;
        let ghost textm = node.text@;
        if node.offset == 0 {
            let idx = self.nodes.len();
            let key = node.key.clone();
            let ghost nodem = node_view(node);
            self.nodes.push(node);
            proof {
                lemma_nodes_view(old(self).nodes@);
                assert(rm.nodes.len() == idx);
                lemma_nodes_view_push(old(self).nodes@, node);
                assert(groups_view(node.groups@) =~= Seq::<GroupM>::empty());
                assert(nodes_view(self.nodes@) == rm.nodes.push(
                    NodeM { parent: None, offset: offm, key: keym, text: textm, groups: Seq::empty() },
                ));
            }
            let ghost tseq = self.tops@;
            let ghost tv = groups_view(tseq);
            let r = find_group_idx(&self.tops, &key);
            proof {
                lemma_groups_view(tseq);
                lemma_find_group(tv, key@);
            }
            match r {
                Some(j) => {
                    self.tops[j].members.push(idx);
                    proof {
                        let g_new = self.tops@[j as int];
                        assert(self.tops@ =~= tseq.update(j as int, g_new));
                        assert(g_new.key == tseq[j as int].key);
                        assert(g_new.members@ == tseq[j as int].members@.push(idx));
                        lemma_groups_view_update(tseq, j as int, g_new);
                        assert(group_view(g_new) == (GroupM {
                            key: tv[j as int].key,
                            members: tv[j as int].members.push(idx),
                        }));
                        assert(groups_view(self.tops@) == push_group(tv, keym, idx));
                    }
                },
                None => {
                    self.tops.push(Group { key, members: vec![idx] });
                    proof {
                        let g_new = self.tops@.last();
                        assert(self.tops@ =~= tseq.push(g_new));
                        assert(g_new.key@ == keym);
                        assert(g_new.members@ =~= Seq::<usize>::empty().push(idx));
                        lemma_groups_view_push(tseq, g_new);
                        assert(group_view(g_new) == (GroupM {
                            key: keym,
                            members: Seq::<usize>::empty().push(idx),
                        }));
                        assert(groups_view(self.tops@) == push_group(tv, keym, idx));
                    }
                },
            }
            self.last = Some(idx);
        } else {
            match self.last {
                None => {},
                Some(l) => {
                    proof {
                        lemma_nodes_view(self.nodes@);
                    }
                    if node.offset - 1 == self.nodes[l].offset {
                        self.attach(l, node);
                    } else {
                        match self.get_parent_by_offset(l, node.offset) {
                            Some(p) => {
                                proof {
                                    lemma_seek_in_bounds(rm.nodes, l as int, offm);
                                }
                                self.attach(p, node);
                            },
                            None => {},
                        }
                    }
                },
            }
        }
        proof {
            lemma_nodes_view(old(self).nodes@);
            assert(old(self).nodes.len() == old(self).nodes@.len());
            lemma_add_wf(rm, offm, keym, textm);
        }
    }

    /// Export the tree as the public target values.
    pub fn build(&self) -> (r: Vec<Target>)
        requires
            root_wf(self@),
        ensures
            targets_view(r@) == exp_groups(self@.nodes, self@.tops, 0),
    {
        proof {
            lemma_nodes_view(self.nodes@);
            lemma_groups_view(self.tops@);
            assert forall|k: int| 0 <= k < self.nodes@.len() implies #[trigger] node_wf(
                nodes_view(self.nodes@),
                k,
            ) by {
                assert(node_wf(self@.nodes, k));
            }
            assert forall|j: int| 0 <= j < self.tops@.len() implies group_in(
                #[trigger] groups_view(self.tops@)[j],
                0,
                self.nodes@.len() as int,
            ) by {
                assert(group_in(self@.tops[j], 0, self@.nodes.len() as int));
            }
        }
        build(&self.nodes, &self.tops, 0)
    }
}

/// Indices handed back by the parent-chain walk are in bounds.
pub proof fn lemma_seek_in_bounds(nodes: Seq<NodeM>, i: int, off: usize)
    requires
        forall|k: int| 0 <= k < nodes.len() ==> #[trigger] node_wf(nodes, k),
        0 <= i < nodes.len(),
    ensures
        seek_spec(nodes, i, off) matches Some(p) ==> p < i,
    decreases i,
{
    if nodes[i].offset == off {
        assert(node_wf(nodes, i));
    } else if off < nodes[i].offset {
        match nodes[i].parent {
            Some(p) => {
                assert(node_wf(nodes, i));
                if p < i {
                    lemma_seek_in_bounds(nodes, p as int, off);
                }
            },
            None => {},
        }
    }
}

/// Inserting a member that lies in `[lo, hi2)` into groups whose members
/// lie in `[lo, hi)`, `hi <= hi2`, leaves every member in `[lo, hi2)`.
pub proof fn lemma_push_group_in(
    groups: Seq<GroupM>,
    key: Seq<char>,
    idx: usize,
    lo: int,
    hi: int,
    hi2: int,
)
    requires
        forall|j: int| 0 <= j < groups.len() ==> group_in(#[trigger] groups[j], lo, hi),
        lo <= idx < hi2,
        hi <= hi2,
    ensures
        forall|j: int|
            0 <= j < push_group(groups, key, idx).len() ==> group_in(
                #[trigger] push_group(groups, key, idx)[j],
                lo,
                hi2,
            ),
{
    lemma_find_group(groups, key);
    let r = push_group(groups, key, idx);
    assert forall|j: int| 0 <= j < r.len() implies group_in(#[trigger] r[j], lo, hi2) by {
        let f = find_group(groups, key);
        if f >= 0 {
            if j == f {
                assert(group_in(groups[j], lo, hi));
                assert forall|k: int| 0 <= k < r[j].members.len() implies lo <= #[trigger] r[
                    j
                ].members[k] && r[j].members[k] < hi2 by {
                    if k < groups[j].members.len() {
                        assert(lo <= groups[j].members[k] < hi);
                    }
                }
            } else {
                assert(group_in(groups[j], lo, hi));
                lemma_group_in_widen(groups[j], lo, hi, hi2);
            }
        } else {
            if j < groups.len() {
                assert(group_in(groups[j], lo, hi));
                lemma_group_in_widen(groups[j], lo, hi, hi2);
            } else {
                assert(r[j].members == Seq::<usize>::empty().push(idx));
            }
        }
    }
}

/// Widening the upper bound keeps a group's members in range.
pub proof fn lemma_group_in_widen(g: GroupM, lo: int, hi: int, hi2: int)
    requires
        group_in(g, lo, hi),
        hi <= hi2,
    ensures
        group_in(g, lo, hi2),
{
}

/// Attaching one entry preserves well-formedness.
pub proof fn lemma_attach_wf(rm: RootM, p: int, offset: usize, key: Seq<char>, text: Seq<char>)
    requires
        root_wf(rm),
        rm.nodes.len() <= usize::MAX,
        0 <= p < rm.nodes.len(),
    ensures
        root_wf(attach_spec(rm, p, offset, key, text)),
{
    let r2 = attach_spec(rm, p, offset, key, text);
    let idx = rm.nodes.len() as usize;
    let n = rm.nodes.len() as int;
    assert forall|i: int| 0 <= i < r2.nodes.len() implies #[trigger] node_wf(r2.nodes, i) by {
        if i < n {
            assert(node_wf(rm.nodes, i));
            if i == p {
                lemma_push_group_in(rm.nodes[p].groups, key, idx, p + 1, n, n + 1);
            } else {
                assert forall|j: int| 0 <= j < r2.nodes[i].groups.len() implies group_in(
                    #[trigger] r2.nodes[i].groups[j],
                    i + 1,
                    r2.nodes.len() as int,
                ) by {
                    lemma_group_in_widen(rm.nodes[i].groups[j], i + 1, n, n + 1);
                }
            }
        }
    }
    assert forall|j: int| 0 <= j < r2.tops.len() implies group_in(
        #[trigger] r2.tops[j],
        0,
        r2.nodes.len() as int,
    ) by {
        lemma_group_in_widen(rm.tops[j], 0, n, n + 1);
    }
}

/// Adding one entry preserves well-formedness.
pub proof fn lemma_add_wf(rm: RootM, offset: usize, key: Seq<char>, text: Seq<char>)
    requires
        root_wf(rm),
        rm.nodes.len() <= usize::MAX,
    ensures
        root_wf(add_spec(rm, offset, key, text)),
{
    let r2 = add_spec(rm, offset, key, text);
    let idx = rm.nodes.len() as usize;
    let n = rm.nodes.len() as int;
    if offset == 0 {
        lemma_push_group_in(rm.tops, key, idx, 0, n, n + 1);
        assert forall|i: int| 0 <= i < r2.nodes.len() implies #[trigger] node_wf(r2.nodes, i) by {
            if i < n {
                assert(node_wf(rm.nodes, i));
                assert forall|j: int| 0 <= j < r2.nodes[i].groups.len() implies group_in(
                    #[trigger] r2.nodes[i].groups[j],
                    i + 1,
                    r2.nodes.len() as int,
                ) by {
                    lemma_group_in_widen(rm.nodes[i].groups[j], i + 1, n, n + 1);
                }
            }
        }
    } else {
        match rm.last {
            None => {},
            Some(l) => {
                if offset - 1 == rm.nodes[l as int].offset {
                    lemma_attach_wf(rm, l as int, offset, key, text);
                } else {
                    lemma_seek_in_bounds(rm.nodes, l as int, offset);
                    match seek_spec(rm.nodes, l as int, offset) {
                        Some(p) => {
                            lemma_attach_wf(rm, p as int, offset, key, text);
                        },
                        None => {},
                    }
                }
            },
        }
    }
}

/// Export: one target per group, with the group's non-empty texts and the
/// concatenated exports of its members' children.
pub(crate) fn build(nodes: &Vec<Node>, groups: &Vec<Group>, b: usize) -> (r: Vec<Target>)
    requires
        forall|k: int| 0 <= k < nodes@.len() ==> #[trigger] node_wf(nodes_view(nodes@), k),
        b <= nodes@.len(),
        forall|j: int| 0 <= j < groups@.len() ==> group_in(
            #[trigger] groups_view(groups@)[j],
            b as int,
            nodes@.len() as int,
        ),
    ensures
        targets_view(r@) == exp_groups(nodes_view(nodes@), groups_view(groups@), b as int),
    decreases nodes@.len() - b,
{
    let ghost nv = nodes_view(nodes@);
    let ghost gv = groups_view(groups@);
    proof {
        lemma_nodes_view(nodes@);
        lemma_groups_view(groups@);
        assert(targets_view(Seq::<Target>::empty()) =~= Seq::<TargetM>::empty());
        assert(gv.take(0) =~= Seq::<GroupM>::empty());
    }
    let mut rst: Vec<Target> = Vec::new();
    let mut j: usize = 0;
    while j < groups.len()
        invariant
            forall|k: int| 0 <= k < nodes@.len() ==> #[trigger] node_wf(nodes_view(nodes@), k),
            b <= nodes@.len(),
            forall|j2: int| 0 <= j2 < groups@.len() ==> group_in(
                #[trigger] groups_view(groups@)[j2],
                b as int,
                nodes@.len() as int,
            ),
            nv == nodes_view(nodes@),
            gv == groups_view(groups@),
            j <= groups@.len(),
            targets_view(rst@) == exp_groups(nv, gv.take(j as int), b as int),
        decreases groups@.len() - j,
    {
        proof {
            lemma_nodes_view(nodes@);
            lemma_groups_view(groups@);
        }
        let g = &groups[j];
        let mut o = Target::new(g.key.clone());
        proof {
            assert(strs_view(o.text@) =~= Seq::<Seq<char>>::empty());
            assert(targets_view(o.value@) =~= Seq::<TargetM>::empty());
            assert(gv[j as int].members.take(0) =~= Seq::<usize>::empty());
        }
        let mut k: usize = 0;
        while k < g.members.len()
            invariant
                forall|k2: int| 0 <= k2 < nodes@.len() ==> #[trigger] node_wf(nodes_view(nodes@), k2),
                b <= nodes@.len(),
                nv == nodes_view(nodes@),
                j < groups@.len(),
                gv == groups_view(groups@),
                g == groups@[j as int],
                group_view(*g) == gv[j as int],
                group_in(gv[j as int], b as int, nodes@.len() as int),
                k <= g.members@.len(),
                o.name@ == gv[j as int].key,
                strs_view(o.text@) == texts_of(nv, gv[j as int].members.take(k as int)),
                targets_view(o.value@) == exp_children(nv, gv[j as int].members.take(k as int), b as int),
            decreases g.members@.len() - k,
        {
            proof {
                lemma_nodes_view(nodes@);
                assert(gv[j as int].members[k as int] == g.members@[k as int]);
            }
            let m = g.members[k];
            proof {
                assert(b <= m < nodes@.len());
                assert(nodes.len() == nodes@.len());
                assert(node_wf(nv, m as int));
            }
            let ghost old_text = o.text@;
            let ghost old_value = o.value@;
            if !nodes[m].text.as_str().is_empty() {
                o.text.push(nodes[m].text.clone());
            }
            proof {
                let mems1 = gv[j as int].members.take(k + 1);
                assert(mems1.drop_last() =~= gv[j as int].members.take(k as int));
                assert(mems1.last() == gv[j as int].members[k as int]);
                if nv[m as int].text.len() > 0 {
                    assert(o.text@ == old_text.push(nodes@[m as int].text));
                    assert(strs_view(old_text.push(nodes@[m as int].text)).drop_last()
                        =~= strs_view(old_text)) by {
                        assert forall|i2: int|
                            0 <= i2 < old_text.len() implies strs_view(
                            old_text.push(nodes@[m as int].text),
                        )[i2] == strs_view(old_text)[i2] by {}
                        assert(strs_view(old_text.push(nodes@[m as int].text)).len() == old_text.len()
                            + 1);
                    }
                    assert(strs_view(o.text@) =~= texts_of(nv, mems1));
                } else {
                    assert(strs_view(o.text@) =~= texts_of(nv, mems1));
                }
            }
            proof {
                lemma_groups_view(nodes@[m as int].groups@);
                assert(nv[m as int].groups == groups_view(nodes@[m as int].groups@));
                assert forall|j2: int| 0 <= j2 < nodes@[m as int].groups@.len() implies group_in(
                    #[trigger] groups_view(nodes@[m as int].groups@)[j2],
                    m as int + 1,
                    nodes@.len() as int,
                ) by {
                    assert(node_wf(nv, m as int));
                    assert(group_in(nv[m as int].groups[j2], m as int + 1, nv.len() as int));
                }
            }
            let mut ch = build(nodes, &nodes[m].groups, m + 1);
            proof {
                lemma_targets_view_add(o.value@, ch@);
                let mems1 = gv[j as int].members.take(k + 1);
                assert(mems1.drop_last() =~= gv[j as int].members.take(k as int));
                assert(mems1.last() == gv[j as int].members[k as int]);
                assert(nv[m as int].groups == groups_view(nodes@[m as int].groups@));
            }
            o.value.append(&mut ch);
            k += 1;
        }
        proof {
            assert(gv[j as int].members.take(g.members@.len() as int) =~= gv[j as int].members);
        }
        let ghost old_rst = rst@;
        let ghost om = target_view(o);
        rst.push(o);
        proof {
            assert(rst@.drop_last() =~= old_rst);
            assert(gv.take(j + 1).drop_last() =~= gv.take(j as int));
            assert(gv.take(j + 1).last() == gv[j as int]);
            assert(om == (TargetM {
                name: gv[j as int].key,
                text: texts_of(nv, gv[j as int].members),
                value: exp_children(nv, gv[j as int].members, b as int),
            }));
            assert(targets_view(rst@) == targets_view(old_rst).push(om));
            assert(targets_view(rst@) == exp_groups(nv, gv.take(j + 1), b as int));
        }
        j += 1;
    }
    proof {
        assert(gv.take(groups@.len() as int) =~= gv);
    }
    rst
}

} // verus!
