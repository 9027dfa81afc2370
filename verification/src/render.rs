//! The serializer: renders a tree back to XML text, compactly or indented.

use crate::node::{
    empty_node_view, group_view, groups_view, lemma_groups_view, lemma_members_view, members_view,
    node_view, pairs_view, GroupView, Node, NodeView,
};
use vstd::prelude::*;

verus! {

broadcast use crate::node::lemma_node_view_fields, crate::node::lemma_group_view_fields;

/// The text of a node's attributes: ` key="value"` for each, in order.
pub open spec fn render_attrs(attrs: Seq<(Seq<char>, Seq<char>)>) -> Seq<char>
    decreases attrs.len(),
{
    if attrs.len() == 0 {
        Seq::empty()
    } else {
        seq![' '] + attrs[0].0 + seq!['=', '"'] + attrs[0].1 + seq!['"'] + render_attrs(
            attrs.drop_first(),
        )
    }
}

/// The compact text of a node: the sentinel renders as empty text, a node
/// with no children and no content as a self-closing tag, and any other
/// node as an opening tag, its children group by group, its content, and a
/// closing tag.
pub open spec fn render_compact(v: NodeView) -> Seq<char>
    decreases v,
{
    if v.tag.len() == 0 {
        Seq::empty()
    } else if v.groups.len() == 0 && v.content.len() == 0 {
        seq!['<'] + v.tag + render_attrs(v.attributes) + seq!['/', '>']
    } else {
        seq!['<'] + v.tag + render_attrs(v.attributes) + seq!['>'] + render_groups_compact(
            v.groups,
        ) + v.content + seq!['<', '/'] + v.tag + seq!['>']
    }
}

/// The compact text of a node's children, group by group.
pub open spec fn render_groups_compact(gs: Seq<GroupView>) -> Seq<char>
    decreases gs,
{
    if gs.len() == 0 {
        Seq::empty()
    } else {
        render_members_compact(gs[0].members) + render_groups_compact(gs.drop_first())
    }
}

/// The compact text of one group's members, in order.
pub open spec fn render_members_compact(ms: Seq<NodeView>) -> Seq<char>
    decreases ms,
{
    if ms.len() == 0 {
        Seq::empty()
    } else {
        render_compact(ms[0]) + render_members_compact(ms.drop_first())
    }
}

/// The indentation for a nesting depth: four spaces per level.
pub open spec fn spec_indent(depth: nat) -> Seq<char>
    decreases depth,
{
    if depth == 0 {
        Seq::empty()
    } else {
        spec_indent((depth - 1) as nat) + seq![' ', ' ', ' ', ' ']
    }
}

/// The indented text of a node: as the compact form, but each tag line is
/// indented by the nesting depth, a newline follows the opening tag where
/// the node has children, and a newline ends the element.
pub open spec fn render_pretty(v: NodeView, depth: nat) -> Seq<char>
    decreases v,
{
    if v.tag.len() == 0 {
        Seq::empty()
    } else if v.groups.len() == 0 && v.content.len() == 0 {
        spec_indent(depth) + seq!['<'] + v.tag + render_attrs(v.attributes) + seq!['/', '>', '\n']
    } else {
        spec_indent(depth) + seq!['<'] + v.tag + render_attrs(v.attributes) + seq!['>'] + (if v.groups.len() > 0 {
            seq!['\n']
        } else {
            Seq::empty()
        }) + render_groups_pretty(v.groups, depth + 1) + v.content + (if v.groups.len() > 0 {
            spec_indent(depth)
        } else {
            Seq::empty()
        }) + seq!['<', '/'] + v.tag + seq!['>', '\n']
    }
}

/// The indented text of a node's children, group by group.
pub open spec fn render_groups_pretty(gs: Seq<GroupView>, depth: nat) -> Seq<char>
    decreases gs,
{
    if gs.len() == 0 {
        Seq::empty()
    } else {
        render_members_pretty(gs[0].members, depth) + render_groups_pretty(gs.drop_first(), depth)
    }
}

/// The indented text of one group's members, in order.
pub open spec fn render_members_pretty(ms: Seq<NodeView>, depth: nat) -> Seq<char>
    decreases ms,
{
    if ms.len() == 0 {
        Seq::empty()
    } else {
        render_pretty(ms[0], depth) + render_members_pretty(ms.drop_first(), depth)
    }
}

/// The sentinel node renders as empty text in both modes.
pub proof fn lemma_sentinel_renders_empty()
    ensures
        render_compact(empty_node_view()) == Seq::<char>::empty(),
        render_pretty(empty_node_view(), 0) == Seq::<char>::empty(),
{
}

/// A round trip for a leaf: rendering a childless, contentless node with
/// one attribute compactly and parsing the text back reproduces the node.
/// Its tag and attribute name are plain name characters and the value is
/// free of `"` and `>`, as the markup requires.
pub proof fn lemma_leaf_round_trip(tag: Seq<char>, key: Seq<char>, value: Seq<char>)
    requires
        tag.len() > 0,
        tag[0] != '?',
        forall|i: int|
            0 <= i < tag.len() ==> crate::parse::plain_name_char(#[trigger] tag[i]),
        forall|i: int|
            0 <= i < key.len() ==> crate::parse::plain_name_char(#[trigger] key[i]),
        forall|i: int| 0 <= i < value.len() ==> value[i] != '"' && value[i] != '>',
    ensures
        crate::parse::spec_load(
            render_compact(
                NodeView {
                    tag,
                    attributes: seq![(key, value)],
                    groups: Seq::empty(),
                    content: Seq::empty(),
                },
            ),
        ) == Ok::<NodeView, crate::error::ErrorView>(
            NodeView {
                tag,
                attributes: seq![(key, value)],
                groups: Seq::empty(),
                content: Seq::empty(),
            },
        ),
{
    let v = NodeView {
        tag,
        attributes: seq![(key, value)],
        groups: Seq::empty(),
        content: Seq::empty(),
    };
    assert(seq![(key, value)].drop_first() =~= Seq::<(Seq<char>, Seq<char>)>::empty());
    assert(render_attrs(Seq::<(Seq<char>, Seq<char>)>::empty()) =~= Seq::<char>::empty());
    assert(render_compact(v) =~= seq!['<'] + tag + seq![' '] + key + seq!['=', '"'] + value
        + seq!['"', '/', '>']);
    crate::parse::lemma_self_closing_element(tag, key, value);
}

/// Renders a node's attributes as ` key="value"` pairs.
fn render_attrs_str(attrs: &Vec<(String, String)>) -> (r: String)
    ensures
        r@ == render_attrs(pairs_view(attrs@)),
{
    let ghost pv = pairs_view(attrs@);
    let mut out = String::new();
    proof {
        assert(pv.skip(0) =~= pv);
    }
    let n = attrs.len();
    for i in 0..n
        invariant
            n == attrs.len(),
            pv == pairs_view(attrs@),
            out@ + render_attrs(pv.skip(i as int)) == render_attrs(pv),
    {
        let ghost prev = out@;
        out.append(" ");
        out.append(attrs[i].0.as_str());
        out.append("=\"");
        out.append(attrs[i].1.as_str());
        out.append("\"");
        proof {
            reveal_strlit(" ");
            reveal_strlit("=\"");
            reveal_strlit("\"");
            assert(" "@ =~= seq![' ']);
            assert("=\""@ =~= seq!['=', '"']);
            assert("\""@ =~= seq!['"']);
            assert(pv.skip(i as int).drop_first() =~= pv.skip(i as int + 1));
            assert(pv.skip(i as int)[0] == pv[i as int]);
            assert(out@ + render_attrs(pv.skip(i as int + 1)) =~= prev + render_attrs(
                pv.skip(i as int),
            ));
        }
    }
    proof {
        assert(pv.skip(n as int) =~= Seq::empty());
        assert(out@ =~= render_attrs(pv));
    }
    out
}

impl Node {
    /// Renders the tree as compact XML text with no added whitespace.
    pub fn to_string_compact(&self) -> (r: String)
        ensures
            r@ == render_compact(self@),
        decreases *self,
    {
        let mut out = String::new();
        if self.tag.unicode_len() == 0 {
            return out;
        }
        let attrs = render_attrs_str(&self.attributes);
        out.append("<");
        out.append(self.tag.as_str());
        out.append(attrs.as_str());
        proof {
            reveal_strlit("<");
            reveal_strlit("/>");
            reveal_strlit("</");
            reveal_strlit(">");
        }
        if self.nodes.len() == 0 && self.content.unicode_len() == 0 {
            out.append("/>");
            proof {
                lemma_groups_view(self.nodes@);
                assert(out@ =~= render_compact(self@));
            }
            out
        } else {
            out.append(">");
            let ghost gsv = groups_view(self.nodes@);
            proof {
                lemma_groups_view(self.nodes@);
                assert(gsv.skip(0) =~= gsv);
            }
            let gn = self.nodes.len();
            for i in 0..gn
                invariant
                    gn == self.nodes.len(),
                    gsv == groups_view(self.nodes@),
                    gsv.len() == gn,
                    forall|k: int| 0 <= k < gn ==> gsv[k] == group_view(self.nodes@[k]),
                    out@ + render_groups_compact(gsv.skip(i as int)) == seq!['<'] + self.tag@
                        + render_attrs(pairs_view(self.attributes@)) + seq!['>']
                        + render_groups_compact(gsv),
            {
                let ghost msv = gsv[i as int].members;
                proof {
                    lemma_members_view(self.nodes@[i as int].members@);
                    assert(msv.skip(0) =~= msv);
                    assert(gsv.skip(i as int).drop_first() =~= gsv.skip(i as int + 1));
                    assert(gsv.skip(i as int)[0] == gsv[i as int]);
                }
                let mn = self.nodes[i].members.len();
                let mut gstr = String::new();
                for j in 0..mn
                    invariant
                        0 <= i < gn == self.nodes.len(),
                        mn == self.nodes@[i as int].members.len(),
                        msv == members_view(self.nodes@[i as int].members@),
                        msv.len() == mn,
                        forall|k: int| 0 <= k < mn ==> msv[k] == node_view(
                            self.nodes@[i as int].members@[k],
                        ),
                        gstr@ + render_members_compact(msv.skip(j as int))
                            == render_members_compact(msv),
                {
                    let child = &self.nodes[i].members[j];
                    let part = child.to_string_compact();
                    gstr.append(part.as_str());
                    proof {
                        assert(msv.skip(j as int).drop_first() =~= msv.skip(j as int + 1));
                        assert(msv.skip(j as int)[0] == msv[j as int]);
                    }
                }
                proof {
                    assert(msv.skip(mn as int) =~= Seq::empty());
                    assert(gstr@ =~= render_members_compact(msv));
                }
                out.append(gstr.as_str());
            }
            proof {
                assert(gsv.skip(gn as int) =~= Seq::empty());
            }
            out.append(self.content.as_str());
            out.append("</");
            out.append(self.tag.as_str());
            out.append(">");
            proof {
                assert(out@ =~= render_compact(self@));
            }
            out
        }
    }

    /// Renders the tree as indented XML text, four columns per nesting
    /// level, with newlines around nested children.
    pub fn to_string_pretty(&self) -> (r: String)
        ensures
            r@ == render_pretty(self@, 0),
    {
        let indent = String::new();
        proof {
            assert(indent@ =~= spec_indent(0));
        }
        self.render_pretty_at(&indent, Ghost(0))
    }

    /// Renders one node at the given nesting depth; `indent` is the
    /// indentation text for that depth.
    fn render_pretty_at(&self, indent: &String, Ghost(depth): Ghost<nat>) -> (r: String)
        requires
            indent@ == spec_indent(depth),
        ensures
            r@ == render_pretty(self@, depth),
        decreases *self,
    {
        let mut out = String::new();
        if self.tag.unicode_len() == 0 {
            return out;
        }
        let attrs = render_attrs_str(&self.attributes);
        out.append(indent.as_str());
        out.append("<");
        out.append(self.tag.as_str());
        out.append(attrs.as_str());
        proof {
            reveal_strlit("<");
            reveal_strlit("/>\n");
            reveal_strlit("</");
            reveal_strlit(">");
            reveal_strlit(">\n");
            reveal_strlit("\n");
            reveal_strlit("    ");
        }
        if self.nodes.len() == 0 && self.content.unicode_len() == 0 {
            out.append("/>\n");
            proof {
                lemma_groups_view(self.nodes@);
                assert(out@ =~= render_pretty(self@, depth));
            }
            out
        } else {
            out.append(">");
            if self.nodes.len() > 0 {
                out.append("\n");
            }
            let next_indent = indent.clone().concat("    ");
            proof {
                assert(next_indent@ =~= spec_indent(depth + 1));
            }
            let ghost gsv = groups_view(self.nodes@);
            let ghost opening = out@;
            proof {
                lemma_groups_view(self.nodes@);
                assert(gsv.skip(0) =~= gsv);
            }
            let gn = self.nodes.len();
            for i in 0..gn
                invariant
                    gn == self.nodes.len(),
                    gsv == groups_view(self.nodes@),
                    gsv.len() == gn,
                    forall|k: int| 0 <= k < gn ==> gsv[k] == group_view(self.nodes@[k]),
                    next_indent@ == spec_indent(depth + 1),
                    out@ + render_groups_pretty(gsv.skip(i as int), depth + 1) == opening
                        + render_groups_pretty(gsv, depth + 1),
            {
                let ghost msv = gsv[i as int].members;
                proof {
                    lemma_members_view(self.nodes@[i as int].members@);
                    assert(msv.skip(0) =~= msv);
                    assert(gsv.skip(i as int).drop_first() =~= gsv.skip(i as int + 1));
                    assert(gsv.skip(i as int)[0] == gsv[i as int]);
                }
                let mn = self.nodes[i].members.len();
                let mut gstr = String::new();
                for j in 0..mn
                    invariant
                        0 <= i < gn == self.nodes.len(),
                        mn == self.nodes@[i as int].members.len(),
                        msv == members_view(self.nodes@[i as int].members@),
                        msv.len() == mn,
                        forall|k: int| 0 <= k < mn ==> msv[k] == node_view(
                            self.nodes@[i as int].members@[k],
                        ),
                        next_indent@ == spec_indent(depth + 1),
                        gstr@ + render_members_pretty(msv.skip(j as int), depth + 1)
                            == render_members_pretty(msv, depth + 1),
                {
                    let child = &self.nodes[i].members[j];
                    let part = child.render_pretty_at(&next_indent, Ghost(depth + 1));
                    gstr.append(part.as_str());
                    proof {
                        assert(msv.skip(j as int).drop_first() =~= msv.skip(j as int + 1));
                        assert(msv.skip(j as int)[0] == msv[j as int]);
                    }
                }
                proof {
                    assert(msv.skip(mn as int) =~= Seq::empty());
                    assert(gstr@ =~= render_members_pretty(msv, depth + 1));
                }
                out.append(gstr.as_str());
            }
            proof {
                assert(gsv.skip(gn as int) =~= Seq::empty());
            }
            out.append(self.content.as_str());
            if self.nodes.len() > 0 {
                out.append(indent.as_str());
            }
            out.append("</");
            out.append(self.tag.as_str());
            out.append(">\n");
            proof {
                assert(out@ =~= render_pretty(self@, depth));
            }
            out
        }
    }
}

} // verus!
