//! The tree model: nodes with attributes, grouped children, and text
//! content, together with their mathematical views.

use vstd::prelude::*;

verus! {

/// An element of the tree: a tag, its attributes, its child nodes grouped
/// by tag, and the text found directly inside it.
///
/// A single synthetic value, the sentinel with an empty tag and nothing
/// else, stands for "no element" (an empty document); it renders as empty
/// text.
#[derive(Debug)]
pub struct Node {
    pub tag: String,
    /// Attribute names and values, names unique, in insertion order.
    pub attributes: Vec<(String, String)>,
    /// One group per distinct child tag, in order of first insertion.
    pub(crate) nodes: Vec<Group>,
    pub content: String,
}

/// The children of one node that carry one particular tag, in document
/// order.
#[derive(Debug)]
pub struct Group {
    pub tag: String,
    pub members: Vec<Node>,
}

/// The mathematical value of a [`Node`].
#[verifier::ext_equal]
pub struct NodeView {
    pub tag: Seq<char>,
    pub attributes: Seq<(Seq<char>, Seq<char>)>,
    pub groups: Seq<GroupView>,
    pub content: Seq<char>,
}

/// The mathematical value of a [`Group`].
#[verifier::ext_equal]
pub struct GroupView {
    pub tag: Seq<char>,
    pub members: Seq<NodeView>,
}

/// The view of a sequence of key-value pairs of strings.
pub open spec fn pairs_view(s: Seq<(String, String)>) -> Seq<(Seq<char>, Seq<char>)> {
    Seq::new(s.len(), |i: int| (s[i].0@, s[i].1@))
}

/// The view of a node.
pub closed spec fn node_view(n: Node) -> NodeView
    decreases n,
{
    NodeView {
        tag: n.tag@,
        attributes: pairs_view(n.attributes@),
        groups: groups_view(n.nodes@),
        content: n.content@,
    }
}

/// The views of a sequence of groups.
pub closed spec fn groups_view(gs: Seq<Group>) -> Seq<GroupView>
    decreases gs,
{
    if gs.len() == 0 {
        Seq::empty()
    } else {
        seq![group_view(gs[0])] + groups_view(gs.drop_first())
    }
}

/// The view of a group.
pub closed spec fn group_view(g: Group) -> GroupView
    decreases g,
{
    GroupView { tag: g.tag@, members: members_view(g.members@) }
}

/// The views of a sequence of nodes.
pub closed spec fn members_view(ms: Seq<Node>) -> Seq<NodeView>
    decreases ms,
{
    if ms.len() == 0 {
        Seq::empty()
    } else {
        seq![node_view(ms[0])] + members_view(ms.drop_first())
    }
}

impl View for Node {
    type V = NodeView;

    open spec fn view(&self) -> NodeView {
        node_view(*self)
    }
}

impl View for Group {
    type V = GroupView;

    open spec fn view(&self) -> GroupView {
        group_view(*self)
    }
}

/// What a node's view is made of.
pub(crate) broadcast proof fn lemma_node_view_fields(n: Node)
    ensures
        #[trigger] node_view(n) == (NodeView {
            tag: n.tag@,
            attributes: pairs_view(n.attributes@),
            groups: groups_view(n.nodes@),
            content: n.content@,
        }),
{
}

/// What a group's view is made of.
pub(crate) broadcast proof fn lemma_group_view_fields(g: Group)
    ensures
        #[trigger] group_view(g) == (GroupView { tag: g.tag@, members: members_view(g.members@) }),
{
}

/// A group sequence's view has one view per group, in order.
pub proof fn lemma_groups_view(gs: Seq<Group>)
    ensures
        groups_view(gs).len() == gs.len(),
        forall|i: int| 0 <= i < gs.len() ==> groups_view(gs)[i] == group_view(gs[i]),
    decreases gs.len(),
{
    if gs.len() > 0 {
        lemma_groups_view(gs.drop_first());
    }
}

/// A member sequence's view has one view per node, in order.
pub proof fn lemma_members_view(ms: Seq<Node>)
    ensures
        members_view(ms).len() == ms.len(),
        forall|i: int| 0 <= i < ms.len() ==> members_view(ms)[i] == node_view(ms[i]),
    decreases ms.len(),
{
    if ms.len() > 0 {
        lemma_members_view(ms.drop_first());
    }
}

/// The view of the sentinel node: empty tag, no attributes, no children,
/// empty content.
pub open spec fn empty_node_view() -> NodeView {
    NodeView {
        tag: Seq::empty(),
        attributes: Seq::empty(),
        groups: Seq::empty(),
        content: Seq::empty(),
    }
}

/// The value of `key` in the association list `attrs`, if present.
pub open spec fn amap_get(attrs: Seq<(Seq<char>, Seq<char>)>, key: Seq<char>) -> Option<
    Seq<char>,
>
    decreases attrs.len(),
{
    if attrs.len() == 0 {
        None
    } else if attrs[0].0 == key {
        Some(attrs[0].1)
    } else {
        amap_get(attrs.drop_first(), key)
    }
}

/// `attrs` with `key` bound to `value`: the first pair with that key is
/// replaced in place, or a new pair is appended.
pub open spec fn amap_insert(
    attrs: Seq<(Seq<char>, Seq<char>)>,
    key: Seq<char>,
    value: Seq<char>,
) -> Seq<(Seq<char>, Seq<char>)>
    decreases attrs.len(),
{
    if attrs.len() == 0 {
        seq![(key, value)]
    } else if attrs[0].0 == key {
        seq![(key, value)] + attrs.drop_first()
    } else {
        seq![attrs[0]] + amap_insert(attrs.drop_first(), key, value)
    }
}

/// The members of the group for `tag`, if one exists.
pub open spec fn group_get(gs: Seq<GroupView>, tag: Seq<char>) -> Option<Seq<NodeView>>
    decreases gs.len(),
{
    if gs.len() == 0 {
        None
    } else if gs[0].tag == tag {
        Some(gs[0].members)
    } else {
        group_get(gs.drop_first(), tag)
    }
}

/// `gs` with `n` appended to the group carrying its tag; the group is
/// created at the end if absent.
pub open spec fn group_append(gs: Seq<GroupView>, n: NodeView) -> Seq<GroupView>
    decreases gs.len(),
{
    if gs.len() == 0 {
        seq![GroupView { tag: n.tag, members: seq![n] }]
    } else if gs[0].tag == n.tag {
        seq![GroupView { tag: gs[0].tag, members: gs[0].members.push(n) }] + gs.drop_first()
    } else {
        seq![gs[0]] + group_append(gs.drop_first(), n)
    }
}

/// Well-formed attributes: no two pairs share a name.
pub open spec fn wf_attrs(attrs: Seq<(Seq<char>, Seq<char>)>) -> bool {
    forall|i: int, j: int| 0 <= i < j < attrs.len() ==> attrs[i].0 != attrs[j].0
}

/// A well-formed node: its attribute names are unique, no two of its
/// groups share a tag, and each group is well formed.
pub open spec fn wf_node(v: NodeView) -> bool
    decreases v,
{
    &&& wf_attrs(v.attributes)
    &&& forall|i: int, j: int|
        0 <= i < j < v.groups.len() ==> v.groups[i].tag != v.groups[j].tag
    &&& forall|i: int| 0 <= i < v.groups.len() ==> wf_group(#[trigger] v.groups[i])
}

/// A well-formed group: it is not empty, and every member is a
/// well-formed node carrying the group's tag.
pub open spec fn wf_group(g: GroupView) -> bool
    decreases g,
{
    &&& g.members.len() > 0
    &&& forall|i: int|
        0 <= i < g.members.len() ==> (#[trigger] g.members[i]).tag == g.tag && wf_node(
            g.members[i],
        )
}

/// Inserting a binding keeps attribute names unique, and adds no name but
/// the one inserted.
pub proof fn lemma_amap_insert_wf(attrs: Seq<(Seq<char>, Seq<char>)>, key: Seq<char>, value: Seq<char>)
    requires
        wf_attrs(attrs),
    ensures
        wf_attrs(amap_insert(attrs, key, value)),
        forall|j: int|
            0 <= j < amap_insert(attrs, key, value).len()
                ==> (#[trigger] amap_insert(attrs, key, value)[j]).0 == key || exists|i: int|
                0 <= i < attrs.len() && attrs[i].0 == amap_insert(attrs, key, value)[j].0,
    decreases attrs.len(),
{
    let r = amap_insert(attrs, key, value);
    if attrs.len() == 0 {
        assert(r =~= seq![(key, value)]);
    } else if attrs[0].0 == key {
        assert(r =~= seq![(key, value)] + attrs.drop_first());
        assert forall|j: int| 0 <= j < r.len() implies (#[trigger] r[j]).0 == key || exists|i: int|
            0 <= i < attrs.len() && attrs[i].0 == r[j].0 by {
            if j > 0 {
                assert(attrs[j].0 == r[j].0);
            }
        }
        assert forall|i: int, j: int| 0 <= i < j < r.len() implies r[i].0 != r[j].0 by {
            if i == 0 {
                assert(r[j].0 == attrs[j].0);
                assert(attrs[0].0 != attrs[j].0);
            } else {
                assert(r[i].0 == attrs[i].0 && r[j].0 == attrs[j].0);
            }
        }
    } else {
        let rest = attrs.drop_first();
        assert(wf_attrs(rest)) by {
            assert forall|i: int, j: int| 0 <= i < j < rest.len() implies rest[i].0 != rest[j].0 by {
                assert(attrs[i + 1].0 != attrs[j + 1].0);
            }
        }
        lemma_amap_insert_wf(rest, key, value);
        let ri = amap_insert(rest, key, value);
        assert(r =~= seq![attrs[0]] + ri);
        assert forall|j: int| 0 <= j < r.len() implies (#[trigger] r[j]).0 == key || exists|i: int|
            0 <= i < attrs.len() && attrs[i].0 == r[j].0 by {
            if j == 0 {
                assert(attrs[0].0 == r[0].0);
            } else {
                assert(r[j] == ri[j - 1]);
                if ri[j - 1].0 != key {
                    let i0 = choose|i0: int| 0 <= i0 < rest.len() && rest[i0].0 == ri[j - 1].0;
                    assert(attrs[i0 + 1].0 == r[j].0);
                }
            }
        }
        assert forall|i: int, j: int| 0 <= i < j < r.len() implies r[i].0 != r[j].0 by {
            if i == 0 {
                assert(r[j] == ri[j - 1]);
                if ri[j - 1].0 == key {
                    assert(attrs[0].0 != key);
                } else {
                    let i0 = choose|i0: int| 0 <= i0 < rest.len() && rest[i0].0 == ri[j - 1].0;
                    assert(attrs[0].0 != attrs[i0 + 1].0);
                }
            } else {
                assert(r[i] == ri[i - 1] && r[j] == ri[j - 1]);
            }
        }
    }
}

/// Where `key` first occurs in `attrs`, a lookup returns that pair's value
/// and an insert replaces it in place.
pub proof fn lemma_amap_found(
    attrs: Seq<(Seq<char>, Seq<char>)>,
    key: Seq<char>,
    value: Seq<char>,
    i: int,
)
    requires
        0 <= i < attrs.len(),
        attrs[i].0 == key,
        forall|j: int| 0 <= j < i ==> attrs[j].0 != key,
    ensures
        amap_get(attrs, key) == Some(attrs[i].1),
        amap_insert(attrs, key, value) =~= attrs.update(i, (key, value)),
    decreases i,
{
    if i > 0 {
        lemma_amap_found(attrs.drop_first(), key, value, i - 1);
        assert(amap_insert(attrs, key, value) =~= seq![attrs[0]] + attrs.drop_first().update(
            i - 1,
            (key, value),
        ));
    }
}

/// Where `key` does not occur in `attrs`, a lookup fails and an insert
/// appends.
pub proof fn lemma_amap_absent(attrs: Seq<(Seq<char>, Seq<char>)>, key: Seq<char>, value: Seq<char>)
    requires
        forall|j: int| 0 <= j < attrs.len() ==> attrs[j].0 != key,
    ensures
        amap_get(attrs, key) is None,
        amap_insert(attrs, key, value) =~= attrs.push((key, value)),
    decreases attrs.len(),
{
    if attrs.len() > 0 {
        lemma_amap_absent(attrs.drop_first(), key, value);
        assert(amap_insert(attrs, key, value) =~= seq![attrs[0]] + attrs.drop_first().push(
            (key, value),
        ));
    }
}

/// Appending a well-formed node keeps the groups well formed: tags stay
/// unique, every group stays non-empty with members carrying its tag, and
/// no tag appears but the old ones and the node's.
pub proof fn lemma_group_append_wf(gs: Seq<GroupView>, n: NodeView)
    requires
        forall|i: int, j: int| 0 <= i < j < gs.len() ==> gs[i].tag != gs[j].tag,
        forall|i: int| 0 <= i < gs.len() ==> wf_group(#[trigger] gs[i]),
        wf_node(n),
    ensures
        forall|i: int, j: int|
            0 <= i < j < group_append(gs, n).len() ==> group_append(gs, n)[i].tag != group_append(
                gs,
                n,
            )[j].tag,
        forall|i: int|
            0 <= i < group_append(gs, n).len() ==> wf_group(#[trigger] group_append(gs, n)[i]),
        forall|j: int|
            0 <= j < group_append(gs, n).len()
                ==> (#[trigger] group_append(gs, n)[j]).tag == n.tag || exists|i: int|
                0 <= i < gs.len() && gs[i].tag == group_append(gs, n)[j].tag,
    decreases gs.len(),
{
    let r = group_append(gs, n);
    if gs.len() == 0 {
        let g = GroupView { tag: n.tag, members: seq![n] };
        assert(r =~= seq![g]);
        assert(g.members[0] == n);
        assert(wf_group(g));
    } else if gs[0].tag == n.tag {
        let g = GroupView { tag: gs[0].tag, members: gs[0].members.push(n) };
        assert(r =~= seq![g] + gs.drop_first());
        assert(wf_group(gs[0]));
        assert(wf_group(g)) by {
            assert forall|i: int| 0 <= i < g.members.len() implies (#[trigger] g.members[i]).tag
                == g.tag && wf_node(g.members[i]) by {
                if i < gs[0].members.len() {
                    assert(g.members[i] == gs[0].members[i]);
                } else {
                    assert(g.members[i] == n);
                }
            }
        }
        assert forall|i: int, j: int| 0 <= i < j < r.len() implies r[i].tag != r[j].tag by {
            assert(r[j].tag == gs[j].tag);
            if i > 0 {
                assert(r[i].tag == gs[i].tag);
            }
        }
        assert forall|j: int| 0 <= j < r.len() implies (#[trigger] r[j]).tag == n.tag
            || exists|i: int| 0 <= i < gs.len() && gs[i].tag == r[j].tag by {
            if j > 0 {
                assert(gs[j].tag == r[j].tag);
            }
        }
    } else {
        let rest = gs.drop_first();
        assert forall|i: int, j: int| 0 <= i < j < rest.len() implies rest[i].tag != rest[j].tag by {
            assert(gs[i + 1].tag != gs[j + 1].tag);
        }
        assert forall|i: int| 0 <= i < rest.len() implies wf_group(#[trigger] rest[i]) by {
            assert(rest[i] == gs[i + 1]);
        }
        lemma_group_append_wf(rest, n);
        let ri = group_append(rest, n);
        assert(r =~= seq![gs[0]] + ri);
        assert forall|j: int| 0 <= j < r.len() implies (#[trigger] r[j]).tag == n.tag
            || exists|i: int| 0 <= i < gs.len() && gs[i].tag == r[j].tag by {
            if j == 0 {
                assert(gs[0].tag == r[0].tag);
            } else {
                assert(r[j] == ri[j - 1]);
                if ri[j - 1].tag != n.tag {
                    let i0 = choose|i0: int|
                        0 <= i0 < rest.len() && rest[i0].tag == ri[j - 1].tag;
                    assert(gs[i0 + 1].tag == r[j].tag);
                }
            }
        }
        assert forall|i: int, j: int| 0 <= i < j < r.len() implies r[i].tag != r[j].tag by {
            if i == 0 {
                assert(r[j] == ri[j - 1]);
                if ri[j - 1].tag == n.tag {
                    assert(gs[0].tag != n.tag);
                } else {
                    let i0 = choose|i0: int|
                        0 <= i0 < rest.len() && rest[i0].tag == ri[j - 1].tag;
                    assert(gs[0].tag != gs[i0 + 1].tag);
                }
            } else {
                assert(r[i] == ri[i - 1] && r[j] == ri[j - 1]);
            }
        }
        assert forall|i: int| 0 <= i < r.len() implies wf_group(#[trigger] r[i]) by {
            if i > 0 {
                assert(r[i] == ri[i - 1]);
            }
        }
    }
}

/// Where `tag` first occurs at group `i`, lookup returns that group's
/// members and appending a node extends them.
pub proof fn lemma_group_found(gs: Seq<GroupView>, n: NodeView, i: int)
    requires
        0 <= i < gs.len(),
        gs[i].tag == n.tag,
        forall|j: int| 0 <= j < i ==> gs[j].tag != n.tag,
    ensures
        group_get(gs, n.tag) == Some(gs[i].members),
        group_append(gs, n) =~= gs.update(
            i,
            GroupView { tag: gs[i].tag, members: gs[i].members.push(n) },
        ),
    decreases i,
{
    if i > 0 {
        lemma_group_found(gs.drop_first(), n, i - 1);
        assert(group_append(gs, n) =~= seq![gs[0]] + group_append(gs.drop_first(), n));
        assert(group_append(gs, n) =~= gs.update(
            i,
            GroupView { tag: gs[i].tag, members: gs[i].members.push(n) },
        ));
    }
}

/// Where no group carries `tag`, lookup fails and appending a node creates
/// a new group at the end.
pub proof fn lemma_group_absent(gs: Seq<GroupView>, n: NodeView)
    requires
        forall|j: int| 0 <= j < gs.len() ==> gs[j].tag != n.tag,
    ensures
        group_get(gs, n.tag) is None,
        group_append(gs, n) =~= gs.push(GroupView { tag: n.tag, members: seq![n] }),
    decreases gs.len(),
{
    if gs.len() > 0 {
        lemma_group_absent(gs.drop_first(), n);
        assert(group_append(gs, n) =~= seq![gs[0]] + gs.drop_first().push(
            GroupView { tag: n.tag, members: seq![n] },
        ));
    }
}

/// The view of a member sequence with one node appended.
pub proof fn lemma_members_view_push(ms: Seq<Node>, n: Node)
    ensures
        members_view(ms.push(n)) =~= members_view(ms).push(node_view(n)),
    decreases ms.len(),
{
    if ms.len() == 0 {
        assert(ms.push(n).drop_first() =~= Seq::<Node>::empty());
        assert(members_view(Seq::<Node>::empty()) =~= Seq::<NodeView>::empty());
    } else {
        lemma_members_view_push(ms.drop_first(), n);
        assert(ms.push(n).drop_first() =~= ms.drop_first().push(n));
    }
}

/// Creates a new node with the given tag and content and nothing else.
/// Attributes and child nodes can be added later.
pub fn new(tag: &str, content: String) -> (r: Node)
    ensures
        r@ == (NodeView {
            tag: tag@,
            attributes: Seq::empty(),
            groups: Seq::empty(),
            content: content@,
        }),
{
    let r = Node { attributes: Vec::new(), content, tag: tag.to_owned(), nodes: Vec::new() };
    proof {
        assert(pairs_view(r.attributes@) =~= Seq::empty());
        assert(r@ =~= NodeView {
            tag: tag@,
            attributes: Seq::empty(),
            groups: Seq::empty(),
            content: content@,
        });
    }
    r
}

/// Creates a new node with the given tag, attributes, content, and child
/// groups.
pub fn new_filled(
    tag: &str,
    attributes: Vec<(String, String)>,
    content: String,
    nodes: Vec<Group>,
) -> (r: Node)
    ensures
        r@ == (NodeView {
            tag: tag@,
            attributes: pairs_view(attributes@),
            groups: groups_view(nodes@),
            content: content@,
        }),
{
    let r = Node { tag: tag.to_owned(), attributes, nodes, content };
    proof {
        assert(r@ =~= NodeView {
            tag: tag@,
            attributes: pairs_view(attributes@),
            groups: groups_view(nodes@),
            content: content@,
        });
    }
    r
}

impl Node {
    /// Returns the child nodes carrying the given tag, or `None` if there
    /// are none.
    pub fn get_nodes(&self, tag: &str) -> (r: Option<&Vec<Node>>)
        ensures
            match group_get(self@.groups, tag@) {
                Some(ms) => r matches Some(v) && members_view(v@) == ms,
                None => r is None,
            },
    {
        proof {
            lemma_groups_view(self.nodes@);
        }
        let n = self.nodes.len();
        for i in 0..n
            invariant
                n == self.nodes.len(),
                groups_view(self.nodes@).len() == n,
                forall|j: int| 0 <= j < n ==> groups_view(self.nodes@)[j] == group_view(
                    self.nodes@[j],
                ),
                forall|j: int| 0 <= j < i ==> groups_view(self.nodes@)[j].tag != tag@,
        {
            if crate::text::str_eq(self.nodes[i].tag.as_str(), tag) {
                proof {
                    lemma_group_found_get(self@.groups, tag@, i as int);
                }
                return Some(&self.nodes[i].members);
            }
        }
        proof {
            lemma_group_absent_get(self@.groups, tag@);
        }
        None
    }

    /// Returns the value of the given attribute, if the node has it.
    pub fn get_attribute(&self, key: &str) -> (r: Option<&String>)
        ensures
            match amap_get(self@.attributes, key@) {
                Some(v) => r matches Some(s) && s@ == v,
                None => r is None,
            },
    {
        let n = self.attributes.len();
        for i in 0..n
            invariant
                n == self.attributes.len(),
                forall|j: int| 0 <= j < i ==> pairs_view(self.attributes@)[j].0 != key@,
        {
            if crate::text::str_eq(self.attributes[i].0.as_str(), key) {
                proof {
                    lemma_amap_found(self@.attributes, key@, self@.attributes[i as int].1, i as int);
                }
                return Some(&self.attributes[i].1);
            }
        }
        proof {
            lemma_amap_absent(self@.attributes, key@, Seq::empty());
        }
        None
    }

    /// Adds or updates an attribute. If the node already had an attribute
    /// with that name, its previous value is returned.
    pub fn add_attribute(&mut self, key: &str, val: &str) -> (r: Option<String>)
        ensures
            final(self)@.tag == old(self)@.tag,
            final(self)@.content == old(self)@.content,
            final(self)@.groups == old(self)@.groups,
            final(self)@.attributes == amap_insert(old(self)@.attributes, key@, val@),
            match amap_get(old(self)@.attributes, key@) {
                Some(v) => r matches Some(s) && s@ == v,
                None => r is None,
            },
    {
        let n = self.attributes.len();
        for i in 0..n
            invariant
                *self == *old(self),
                n == self.attributes.len(),
                forall|j: int| 0 <= j < i ==> pairs_view(self.attributes@)[j].0 != key@,
        {
            if crate::text::str_eq(self.attributes[i].0.as_str(), key) {
                proof {
                    lemma_amap_found(self@.attributes, key@, val@, i as int);
                }
                let pair = self.attributes.remove(i);
                self.attributes.insert(i, (key.to_owned(), val.to_owned()));
                proof {
                    assert(self.attributes@ =~= old(self).attributes@.update(
                        i as int,
                        self.attributes@[i as int],
                    ));
                    assert(pairs_view(self.attributes@) =~= amap_insert(
                        old(self)@.attributes,
                        key@,
                        val@,
                    ));
                    assert(self@ =~= NodeView {
                        attributes: amap_insert(old(self)@.attributes, key@, val@),
                        ..old(self)@
                    });
                }
                return Some(pair.1);
            }
        }
        proof {
            lemma_amap_absent(self@.attributes, key@, val@);
        }
        self.attributes.push((key.to_owned(), val.to_owned()));
        proof {
            assert(pairs_view(self.attributes@) =~= amap_insert(old(self)@.attributes, key@, val@));
            assert(self@ =~= NodeView {
                attributes: amap_insert(old(self)@.attributes, key@, val@),
                ..old(self)@
            });
        }
        None
    }

    /// Inserts a child node into the group carrying its tag, creating the
    /// group if absent.
    pub fn add_node(&mut self, node: Node)
        ensures
            final(self)@.tag == old(self)@.tag,
            final(self)@.content == old(self)@.content,
            final(self)@.attributes == old(self)@.attributes,
            final(self)@.groups == group_append(old(self)@.groups, node@),
    {
        push_group(&mut self.nodes, node);
        proof {
            assert(self@ =~= NodeView {
                groups: group_append(old(self)@.groups, node_view(node)),
                ..old(self)@
            });
        }
    }
}

/// Inserts a node into the group of `gs` carrying its tag, creating the
/// group at the end if absent.
pub(crate) fn push_group(gs: &mut Vec<Group>, node: Node)
    ensures
        groups_view(final(gs)@) == group_append(groups_view(old(gs)@), node_view(node)),
{
    proof {
        lemma_groups_view(gs@);
    }
    let n = gs.len();
    let mut found: Option<usize> = None;
    for i in 0..n
        invariant
            *gs == *old(gs),
            n == gs.len(),
            groups_view(gs@).len() == n,
            forall|j: int| 0 <= j < n ==> groups_view(gs@)[j] == group_view(gs@[j]),
            match found {
                Some(k) => k < i <= n && groups_view(gs@)[k as int].tag == node_view(node).tag
                    && forall|j: int|
                        0 <= j < k ==> groups_view(gs@)[j].tag != node_view(node).tag,
                None => forall|j: int| 0 <= j < i ==> groups_view(gs@)[j].tag != node_view(
                    node,
                ).tag,
            },
    {
        if found.is_none() && crate::text::str_eq(gs[i].tag.as_str(), node.tag.as_str()) {
            found = Some(i);
        }
    }
    match found {
        Some(i) => {
            proof {
                lemma_group_found(groups_view(gs@), node_view(node), i as int);
            }
            let mut g = gs.remove(i);
            g.members.push(node);
            proof {
                lemma_members_view_push(old(gs)@[i as int].members@, node);
            }
            gs.insert(i, g);
            proof {
                assert(gs@ =~= old(gs)@.update(i as int, gs@[i as int]));
                lemma_groups_view_update(old(gs)@, i as int, gs@[i as int]);
                assert(groups_view(gs@) =~= group_append(
                    groups_view(old(gs)@),
                    node_view(node),
                ));
            }
        },
        None => {
            proof {
                lemma_group_absent(groups_view(gs@), node_view(node));
            }
            let tag = node.tag.clone();
            let mut members: Vec<Node> = Vec::new();
            members.push(node);
            proof {
                assert(members@ =~= seq![node]);
                lemma_members_view(members@);
                assert(members_view(members@) =~= seq![node_view(node)]);
            }
            gs.push(Group { tag, members });
            proof {
                lemma_groups_view_push(old(gs)@, gs@[gs@.len() - 1]);
                assert(groups_view(gs@) =~= group_append(
                    groups_view(old(gs)@),
                    node_view(node),
                ));
            }
        },
    }
}

/// Binds `key` to `val` in an attribute list: the first pair with that
/// name is replaced in place, or a new pair is appended.
pub(crate) fn amap_set(attrs: &mut Vec<(String, String)>, key: String, val: String)
    ensures
        pairs_view(final(attrs)@) == amap_insert(pairs_view(old(attrs)@), key@, val@),
{
    let ghost kv = key@;
    let ghost vv = val@;
    let n = attrs.len();
    for i in 0..n
        invariant
            *attrs == *old(attrs),
            n == attrs.len(),
            kv == key@,
            vv == val@,
            forall|j: int| 0 <= j < i ==> pairs_view(attrs@)[j].0 != kv,
    {
        if crate::text::str_eq(attrs[i].0.as_str(), key.as_str()) {
            proof {
                lemma_amap_found(pairs_view(attrs@), kv, vv, i as int);
            }
            let _ = attrs.remove(i);
            attrs.insert(i, (key, val));
            proof {
                assert(attrs@ =~= old(attrs)@.update(i as int, attrs@[i as int]));
                assert(pairs_view(attrs@) =~= amap_insert(pairs_view(old(attrs)@), kv, vv));
            }
            return;
        }
    }
    proof {
        lemma_amap_absent(pairs_view(attrs@), kv, vv);
    }
    attrs.push((key, val));
    proof {
        assert(pairs_view(attrs@) =~= amap_insert(pairs_view(old(attrs)@), kv, vv));
    }
}

/// `group_get` returns the members of the first group carrying the tag.
pub proof fn lemma_group_found_get(gs: Seq<GroupView>, tag: Seq<char>, i: int)
    requires
        0 <= i < gs.len(),
        gs[i].tag == tag,
        forall|j: int| 0 <= j < i ==> gs[j].tag != tag,
    ensures
        group_get(gs, tag) == Some(gs[i].members),
    decreases i,
{
    if i > 0 {
        lemma_group_found_get(gs.drop_first(), tag, i - 1);
    }
}

/// `group_get` fails where no group carries the tag.
pub proof fn lemma_group_absent_get(gs: Seq<GroupView>, tag: Seq<char>)
    requires
        forall|j: int| 0 <= j < gs.len() ==> gs[j].tag != tag,
    ensures
        group_get(gs, tag) is None,
    decreases gs.len(),
{
    if gs.len() > 0 {
        lemma_group_absent_get(gs.drop_first(), tag);
    }
}

/// The view of a group sequence with one group updated.
pub proof fn lemma_groups_view_update(gs: Seq<Group>, i: int, g: Group)
    requires
        0 <= i < gs.len(),
    ensures
        groups_view(gs.update(i, g)) =~= groups_view(gs).update(i, group_view(g)),
{
    lemma_groups_view(gs);
    lemma_groups_view(gs.update(i, g));
}

/// The view of a group sequence with one group appended.
pub proof fn lemma_groups_view_push(gs: Seq<Group>, g: Group)
    ensures
        groups_view(gs.push(g)) =~= groups_view(gs).push(group_view(g)),
{
    lemma_groups_view(gs);
    lemma_groups_view(gs.push(g));
}

} // verus!
