//! The recursive descent parser: consumes a text slice, extracts one
//! element (or detects leading text or end of input), recursively parses
//! the element's inner content, and reports how much input it consumed.

use crate::error::{Error, ErrorView, NO_POSITION};
use crate::node::{
    amap_insert, empty_node_view, group_append, groups_view, lemma_amap_insert_wf,
    lemma_group_append_wf, lemma_groups_view, node_view, pairs_view, push_group, wf_attrs,
    wf_group, wf_node, Group, GroupView, Node, NodeView,
};
use crate::split::{
    lemma_split_after_prefix, lemma_split_attr_token, lemma_split_unquoted_len, lemma_split_whole,
    split_unquoted, split_unquoted_str,
};
use crate::text::{
    find_char, is_space, lemma_find_char, lemma_trim_end_keeps_head, str_find_char, str_trim,
    str_trim_end, trim, trim_end, trim_start,
};
use vstd::prelude::*;

verus! {

broadcast use crate::node::lemma_node_view_fields;

/// What one parser invocation hands back: the text before the element it
/// found, the element itself (`None` where the slice holds no `<`), and
/// the unconsumed text after it.
pub(crate) struct Payload<'a> {
    pub prolog: &'a str,
    pub node: Option<Node>,
    pub remaining: &'a str,
}

/// The abstract result of parsing one element from a slice.
pub enum Outcome {
    /// The slice holds no `<` at or after the point the parse reached; no
    /// node is produced, and `rest` is that unconsumed text.
    NoElement { rest: Seq<char> },
    /// A well-formed element: the raw text before its opening `<`, the
    /// element, and the text after its closing tag.
    Element { prolog: Seq<char>, node: NodeView, rest: Seq<char> },
    Failed(ErrorView),
}

/// The abstract result of parsing an element's inner text: the child
/// groups and the accumulated content, or the first error.
pub enum InnerOutcome {
    Done { groups: Seq<GroupView>, content: Seq<char> },
    Failed(ErrorView),
}

/// Whether the literal text `</tag>` stands at index `i` of `s`.
pub open spec fn matches_close_at(s: Seq<char>, tag: Seq<char>, i: int) -> bool {
    &&& 0 <= i
    &&& i + tag.len() + 3 <= s.len()
    &&& s[i] == '<'
    &&& s[i + 1] == '/'
    &&& s.subrange(i + 2, i + 2 + tag.len() as int) == tag
    &&& s[i + 2 + tag.len()] == '>'
}

/// The first index `i >= from` where `</tag>` stands in `s`, if any.
pub open spec fn find_close(s: Seq<char>, tag: Seq<char>, from: int) -> Option<int>
    decreases s.len() - from when 0 <= from
{
    if from + tag.len() + 3 > s.len() {
        None
    } else if matches_close_at(s, tag, from) {
        Some(from)
    } else {
        find_close(s, tag, from + 1)
    }
}

/// What a `find_close` result means: the index found carries the closing
/// tag text, and no earlier index at or after `from` does.
pub proof fn lemma_find_close(s: Seq<char>, tag: Seq<char>, from: int)
    requires
        0 <= from,
    ensures
        match find_close(s, tag, from) {
            Some(i) => from <= i && matches_close_at(s, tag, i) && forall|j: int|
                from <= j < i ==> !matches_close_at(s, tag, j),
            None => forall|j: int| from <= j ==> !matches_close_at(s, tag, j),
        },
    decreases s.len() - from,
{
    if from + tag.len() + 3 > s.len() {
        assert forall|j: int| from <= j implies !matches_close_at(s, tag, j) by {}
    } else if !matches_close_at(s, tag, from) {
        lemma_find_close(s, tag, from + 1);
    }
}

/// The first index `i >= from` where `</tag>` stands in `s`, if any.
fn str_find_close(s: &str, tag: &str, from: usize) -> (r: Option<usize>)
    ensures
        match find_close(s@, tag@, from as int) {
            Some(i) => r matches Some(u) && u == i,
            None => r is None,
        },
    decreases s@.len() - from,
{
    let n = s.unicode_len();
    let tn = tag.unicode_len();
    if n < 3 || from > n - 3 || tn > n - 3 - from {
        return None;
    }
    let here = s.get_char(from) == '<' && s.get_char(from + 1) == '/' && {
        let mid = s.substring_char(from + 2, from + 2 + tn);
        crate::text::str_eq(mid, tag) && s.get_char(from + 2 + tn) == '>'
    };
    if here {
        proof {
            assert(s@.subrange(from + 2, from + 2 + tag@.len() as int) == tag@);
            assert(matches_close_at(s@, tag@, from as int));
        }
        Some(from)
    } else {
        proof {
            assert(!matches_close_at(s@, tag@, from as int));
        }
        str_find_close(s, tag, from + 1)
    }
}

/// The header text with trailing whitespace removed; a trailing `/` there
/// marks a self-closing element.
pub open spec fn header_self_closing(header: Seq<char>) -> bool {
    let base = trim_end(header);
    base.len() > 0 && base.last() == '/'
}

/// The part of the header that carries the tag name and the attributes:
/// the header without trailing whitespace and without the self-closing
/// marker.
pub open spec fn header_attr_src(header: Seq<char>) -> Seq<char> {
    let base = trim_end(header);
    if base.len() > 0 && base.last() == '/' {
        trim_end(base.drop_last())
    } else {
        base
    }
}

/// The header split into whitespace-separated tokens, quoted runs kept
/// whole. The first token is the tag name; the rest are attributes.
pub open spec fn header_tokens(header: Seq<char>) -> Seq<Seq<char>> {
    split_unquoted(header_attr_src(header), ' ', false)
}

/// The tag name of a header: its first token, trimmed.
pub open spec fn header_tag(header: Seq<char>) -> Seq<char> {
    trim(header_tokens(header)[0])
}

/// The attributes named by the header tokens after the tag name, gathered
/// left to right onto `acc` (a later duplicate name overwrites an earlier
/// one), or the first error: a token without `=`, or a value not wrapped
/// in a pair of double quotes. A lone `/` token ends attribute processing.
pub open spec fn spec_parse_attrs(
    tokens: Seq<Seq<char>>,
    acc: Seq<(Seq<char>, Seq<char>)>,
) -> Result<Seq<(Seq<char>, Seq<char>)>, ErrorView>
    decreases tokens.len(),
{
    if tokens.len() == 0 {
        Ok(acc)
    } else {
        let t = tokens[0];
        if t == seq!['/'] {
            Ok(acc)
        } else {
            match find_char(t, '=', 0) {
                None => Err(ErrorView::MissingAttributeValue(t, NO_POSITION as int)),
                Some(e) => {
                    let value = t.skip(e + 1);
                    if value.len() >= 2 && value[0] == '"' && value.last() == '"' {
                        spec_parse_attrs(
                            tokens.drop_first(),
                            amap_insert(acc, t.take(e), value.drop_first().drop_last()),
                        )
                    } else {
                        Err(ErrorView::MissingQuotes(t, NO_POSITION as int))
                    }
                },
            }
        }
    }
}

/// Parsing one element from `s`:
/// - without a `<`, there is no element;
/// - without a `>` after the first `<`, the parse fails;
/// - a tag name beginning with `?` is a declaration: it is skipped whole,
///   and the parse resumes after its `>`;
/// - otherwise the header names the attributes; a self-closing header
///   yields a leaf; any other element takes its children and content from
///   the text up to the first literal `</tag>`, which must exist.
pub open spec fn spec_parse(s: Seq<char>) -> Outcome
    decreases s.len(), 0int
        via spec_parse_decreases
{
    match find_char(s, '<', 0) {
        None => Outcome::NoElement { rest: s },
        Some(lt) => match find_char(s, '>', lt + 1) {
            None => Outcome::Failed(ErrorView::MissingClosingDelimiter(NO_POSITION as int)),
            Some(gt) => {
                let header = s.subrange(lt + 1, gt);
                let tag = header_tag(header);
                if tag.len() > 0 && tag[0] == '?' {
                    spec_parse(s.subrange(gt + 1, s.len() as int))
                } else {
                    match spec_parse_attrs(header_tokens(header).drop_first(), Seq::empty()) {
                        Err(e) => Outcome::Failed(e),
                        Ok(attrs) => if header_self_closing(header) {
                            Outcome::Element {
                                prolog: s.subrange(0, lt),
                                node: NodeView {
                                    tag,
                                    attributes: attrs,
                                    groups: Seq::empty(),
                                    content: Seq::empty(),
                                },
                                rest: s.subrange(gt + 1, s.len() as int),
                            }
                        } else {
                            match find_close(s, tag, gt + 1) {
                                None => Outcome::Failed(
                                    ErrorView::MissingClosingTag(tag, NO_POSITION as int),
                                ),
                                Some(ct) => match spec_parse_inner(
                                    s.subrange(gt + 1, ct),
                                    Seq::empty(),
                                    Seq::empty(),
                                ) {
                                    InnerOutcome::Failed(e) => Outcome::Failed(e),
                                    InnerOutcome::Done { groups, content } => Outcome::Element {
                                        prolog: s.subrange(0, lt),
                                        node: NodeView {
                                            tag,
                                            attributes: attrs,
                                            groups,
                                            content: trim(content),
                                        },
                                        rest: s.subrange(
                                            ct + tag.len() + 3,
                                            s.len() as int,
                                        ),
                                    },
                                },
                            }
                        },
                    }
                }
            },
        },
    }
}

#[via_fn]
proof fn spec_parse_decreases(s: Seq<char>) {
    lemma_find_char(s, '<', 0);
    if let Some(lt) = find_char(s, '<', 0) {
        lemma_find_char(s, '>', lt + 1);
        if let Some(gt) = find_char(s, '>', lt + 1) {
            let header = s.subrange(lt + 1, gt);
            let tag = header_tag(header);
            lemma_find_close(s, tag, gt + 1);
        }
    }
}

/// Parsing an element's inner text, left to right: each element found is
/// appended to the group carrying its tag and the text before it to the
/// content; once no `<` remains, the rest of the text joins the content.
pub open spec fn spec_parse_inner(
    buf: Seq<char>,
    groups: Seq<GroupView>,
    content: Seq<char>,
) -> InnerOutcome
    decreases buf.len(), 1int,
{
    match spec_parse(buf) {
        Outcome::Failed(e) => InnerOutcome::Failed(e),
        Outcome::NoElement { rest } => if rest.len() < buf.len() {
            // a declaration was skipped; the text before it is dropped
            spec_parse_inner(rest, groups, content)
        } else {
            InnerOutcome::Done { groups, content: content + buf }
        },
        Outcome::Element { prolog, node, rest } => if rest.len() < buf.len() {
            spec_parse_inner(rest, group_append(groups, node), content + prolog)
        } else {
            // never reached: a parsed element always consumes input
            // (lemma_parse_consumes)
            InnerOutcome::Done { groups, content }
        },
    }
}

/// A parsed element always consumes input: what remains is shorter than
/// the slice it was parsed from. Where no element was found, what remains
/// never exceeds the slice.
pub proof fn lemma_parse_consumes(s: Seq<char>)
    ensures
        spec_parse(s) matches Outcome::Element { rest, .. } ==> rest.len() < s.len(),
        spec_parse(s) matches Outcome::NoElement { rest } ==> rest.len() <= s.len(),
    decreases s.len(),
{
    lemma_find_char(s, '<', 0);
    if let Some(lt) = find_char(s, '<', 0) {
        lemma_find_char(s, '>', lt + 1);
        if let Some(gt) = find_char(s, '>', lt + 1) {
            let header = s.subrange(lt + 1, gt);
            let tag = header_tag(header);
            if tag.len() > 0 && tag[0] == '?' {
                lemma_parse_consumes(s.subrange(gt + 1, s.len() as int));
            } else {
                lemma_find_close(s, tag, gt + 1);
            }
        }
    }
}

/// How the whole parse of `s` follows from the parse of the inner slice
/// between an element's opening `>` (after index `lt`) and its closing
/// tag at index `ct`: an inner error is the whole parse's error, and an
/// inner result gives the element.
pub(crate) open spec fn outer_parse_shape(
    s: Seq<char>,
    inner: Seq<char>,
    lt: int,
    ct: int,
    tag: Seq<char>,
    attrs: Seq<(Seq<char>, Seq<char>)>,
) -> bool {
    match spec_parse_inner(inner, Seq::empty(), Seq::empty()) {
        InnerOutcome::Failed(e) => spec_parse(s) == Outcome::Failed(e),
        InnerOutcome::Done { groups, content } => spec_parse(s) == (Outcome::Element {
            prolog: s.subrange(0, lt),
            node: NodeView { tag, attributes: attrs, groups, content: trim(content) },
            rest: s.subrange(ct + tag.len() + 3, s.len() as int),
        }),
    }
}

/// How an executable parse result must relate to the abstract one.
pub(crate) open spec fn payload_matches<'a>(
    input: Seq<char>,
    r: Result<Payload<'a>, Error>,
) -> bool {
    match spec_parse(input) {
        Outcome::NoElement { rest } => {
            &&& r matches Ok(p)
            &&& p.node is None
            &&& p.prolog@.len() == 0
            &&& p.remaining@ == rest
        },
        Outcome::Element { prolog, node, rest } => {
            &&& r matches Ok(p)
            &&& p.prolog@ == prolog
            &&& p.node matches Some(n) && node_view(n) == node
            &&& p.remaining@ == rest
        },
        Outcome::Failed(e) => {
            &&& r matches Err(err)
            &&& err@ == e
        },
    }
}

/// Parses the attribute tokens of a header (every token after the first).
fn parse_attrs(tokens: &Vec<String>) -> (r: Result<Vec<(String, String)>, Error>)
    requires
        tokens.len() >= 1,
    ensures
        match spec_parse_attrs(tokens.deep_view().drop_first(), Seq::empty()) {
            Ok(attrs) => r matches Ok(v) && pairs_view(v@) == attrs,
            Err(e) => r matches Err(err) && err@ == e,
        },
{
    let ghost tdv = tokens.deep_view().drop_first();
    let mut acc: Vec<(String, String)> = Vec::new();
    proof {
        assert(pairs_view(acc@) =~= Seq::empty());
        assert(tdv.skip(0) =~= tdv);
    }
    let n = tokens.len();
    for i in 1..n
        invariant
            n == tokens.len(),
            tdv == tokens.deep_view().drop_first(),
            tdv.len() == n - 1,
            spec_parse_attrs(tdv, Seq::empty()) == spec_parse_attrs(
                tdv.skip(i - 1),
                pairs_view(acc@),
            ),
    {
        let t = &tokens[i];
        proof {
            assert(tdv.skip(i - 1)[0] == t@);
            assert(tdv.skip(i - 1).drop_first() =~= tdv.skip(i as int));
            reveal_strlit("/");
            assert("/"@ =~= seq!['/']);
        }
        if crate::text::str_eq(t.as_str(), "/") {
            proof {
                assert(t@ == seq!['/']);
            }
            return Ok(acc);
        }
        proof {
            assert(t@ != seq!['/']);
        }
        let tn = t.unicode_len();
        let e = match str_find_char(t.as_str(), '=', 0) {
            None => {
                return Err(Error::MissingAttributeValue(t.clone(), NO_POSITION));
            },
            Some(v) => v,
        };
        proof {
            lemma_find_char(t@, '=', 0);
        }
        let ghost value = t@.skip(e + 1);
        proof {
            assert(value.len() == tn - e - 1);
            if value.len() >= 1 {
                assert(value[0] == t@[e + 1]);
                assert(value.last() == t@[tn - 1]);
            }
        }
        let vlen = tn - e - 1;
        if vlen >= 2 && t.get_char(e + 1) == '"' && t.get_char(tn - 1) == '"' {
            let key = t.substring_char(0, e).to_owned();
            let val = t.substring_char(e + 2, tn - 1).to_owned();
            proof {
                assert(key@ =~= t@.take(e as int));
                assert(val@ =~= value.drop_first().drop_last());
            }
            crate::node::amap_set(&mut acc, key, val);
        } else {
            proof {
                assert(!(value.len() >= 2 && value[0] == '"' && value.last() == '"'));
            }
            return Err(Error::MissingQuotes(t.clone(), NO_POSITION));
        }
    }
    proof {
        assert(tdv.skip(n - 1) =~= Seq::empty());
    }
    Ok(acc)
}

/// Parses one element from `string`, as `spec_parse` describes.
pub(crate) fn load_from_slice<'a>(string: &'a str) -> (r: Result<Payload<'a>, Error>)
    ensures
        payload_matches(string@, r),
    decreases string@.len(),
{
    let n = string.unicode_len();
    proof {
        lemma_find_char(string@, '<', 0);
    }
    let lt = match str_find_char(string, '<', 0) {
        None => {
            let r = Ok(Payload { prolog: "", node: None, remaining: string });
            proof {
                reveal_strlit("");
            }
            return r;
        },
        Some(v) => v,
    };
    proof {
        lemma_find_char(string@, '>', lt as int + 1);
    }
    let gt = match str_find_char(string, '>', lt + 1) {
        None => {
            return Err(Error::MissingClosingDelimiter(NO_POSITION));
        },
        Some(v) => v,
    };
    let header = string.substring_char(lt + 1, gt);
    let base = str_trim_end(header);
    let bn = base.unicode_len();
    let self_closing = bn > 0 && base.get_char(bn - 1) == '/';
    let attr_src = if self_closing {
        let without = base.substring_char(0, bn - 1);
        proof {
            assert(without@ =~= base@.drop_last());
        }
        str_trim_end(without)
    } else {
        base
    };
    proof {
        assert(self_closing == header_self_closing(header@));
        assert(attr_src@ == header_attr_src(header@));
    }
    let tokens = split_unquoted_str(attr_src, ' ', false);
    proof {
        assert(tokens.deep_view() == header_tokens(header@));
        assert(tokens.deep_view()[0] == tokens@[0]@);
    }
    let tag = str_trim(tokens[0].as_str());
    proof {
        assert(tag@ == header_tag(header@));
    }
    let tln = tag.unicode_len();
    if tln > 0 && tag.get_char(0) == '?' {
        let rest = string.substring_char(gt + 1, n);
        let r = load_from_slice(rest);
        proof {
            assert(spec_parse(string@) == spec_parse(rest@));
        }
        return r;
    }
    let attrs = match parse_attrs(&tokens) {
        Ok(v) => v,
        Err(e) => {
            return Err(e);
        },
    };
    let ghost av = pairs_view(attrs@);
    let prolog = string.substring_char(0, lt);
    if self_closing {
        let node = Node {
            tag: tag.to_owned(),
            attributes: attrs,
            nodes: Vec::new(),
            content: String::new(),
        };
        proof {
            lemma_groups_view(node.nodes@);
            assert(groups_view(node.nodes@) =~= Seq::<GroupView>::empty());
            assert(node_view(node) =~~= (NodeView {
                tag: tag@,
                attributes: av,
                groups: Seq::empty(),
                content: Seq::empty(),
            }));
        }
        let remaining = string.substring_char(gt + 1, n);
        let r = Ok(Payload { prolog, node: Some(node), remaining });
        proof {
            assert(payload_matches(string@, r));
        }
        return r;
    }
    let ct = match str_find_close(string, tag, gt + 1) {
        None => {
            return Err(Error::MissingClosingTag(tag.to_owned(), NO_POSITION));
        },
        Some(v) => v,
    };
    proof {
        lemma_find_close(string@, tag@, gt as int + 1);
    }
    let mut buf = string.substring_char(gt + 1, ct);
    let ghost inner0 = buf@;
    let mut groups: Vec<Group> = Vec::new();
    let mut content = String::new();
    proof {
        lemma_groups_view(groups@);
        assert(groups_view(groups@) =~= Seq::<GroupView>::empty());
        assert(content@ =~= Seq::<char>::empty());
        assert(string@.subrange(gt as int + 1, ct as int) == inner0);
    }
    loop
        invariant_except_break
            buf@.len() <= inner0.len(),
            inner0.len() < string@.len(),
            spec_parse_inner(inner0, Seq::empty(), Seq::empty()) == spec_parse_inner(
                buf@,
                groups_view(groups@),
                content@,
            ),
            outer_parse_shape(string@, inner0, lt as int, ct as int, tag@, av),
        ensures
            spec_parse_inner(inner0, Seq::empty(), Seq::empty()) == (InnerOutcome::Done {
                groups: groups_view(groups@),
                content: content@,
            }),
        decreases buf@.len(),
    {
        let ghost gv0 = groups_view(groups@);
        let ghost cv0 = content@;
        let ghost buf0 = buf@;
        let bn2 = buf.unicode_len();
        if bn2 == 0 {
            proof {
                assert(spec_parse_inner(buf0, gv0, cv0) == (InnerOutcome::Done {
                    groups: gv0,
                    content: cv0 + buf0,
                }));
                assert(cv0 + buf0 =~= cv0);
            }
            break;
        }
        let payload = match load_from_slice(buf) {
            Ok(p) => p,
            Err(e) => {
                proof {
                    assert(spec_parse_inner(inner0, Seq::empty(), Seq::empty())
                        == InnerOutcome::Failed(e@));
                }
                return Err(e);
            },
        };
        proof {
            lemma_parse_consumes(buf0);
        }
        let ghost had_node = payload.node is Some;
        let ghost nv = if payload.node is Some {
            node_view(payload.node->Some_0)
        } else {
            empty_node_view()
        };
        if let Some(node) = payload.node {
            push_group(&mut groups, node);
        }
        if payload.remaining.unicode_len() == bn2 {
            proof {
                assert(payload.remaining@.len() == buf0.len());
                assert(!had_node);
                assert(groups_view(groups@) == gv0);
            }
            content.append(buf);
            proof {
                assert(spec_parse_inner(buf0, gv0, cv0) == (InnerOutcome::Done {
                    groups: gv0,
                    content: cv0 + buf0,
                }));
                assert(content@ == cv0 + buf0);
            }
            break;
        }
        content.append(payload.prolog);
        buf = payload.remaining;
        proof {
            if had_node {
                assert(groups_view(groups@) == group_append(gv0, nv));
                assert(spec_parse_inner(buf0, gv0, cv0) == spec_parse_inner(
                    buf@,
                    groups_view(groups@),
                    content@,
                ));
            } else {
                assert(groups_view(groups@) == gv0);
                assert(content@ =~= cv0);
                assert(spec_parse_inner(buf0, gv0, cv0) == spec_parse_inner(
                    buf@,
                    groups_view(groups@),
                    content@,
                ));
            }
        }
    }
    let ghost gvf = groups_view(groups@);
    let ghost cvf = content@;
    let trimmed = str_trim(content.as_str()).to_owned();
    let node = Node { tag: tag.to_owned(), attributes: attrs, nodes: groups, content: trimmed };
    proof {
        assert(node_view(node) =~~= (NodeView {
            tag: tag@,
            attributes: av,
            groups: gvf,
            content: trim(cvf),
        }));
        assert(string@.subrange(gt as int + 1, ct as int) == inner0);
    }
    let remaining = string.substring_char(ct + tln + 3, n);
    let r = Ok(Payload { prolog, node: Some(node), remaining });
    proof {
        assert(payload_matches(string@, r));
    }
    r
}

/// The result of loading a whole document: the root element, the sentinel
/// node where the input holds no element, or the first error;
/// non-whitespace text before the root element is an error.
pub open spec fn spec_load(s: Seq<char>) -> Result<NodeView, ErrorView> {
    match spec_parse(s) {
        Outcome::Failed(e) => Err(e),
        Outcome::NoElement { .. } => Ok(empty_node_view()),
        Outcome::Element { prolog, node, .. } => if trim(prolog).len() != 0 {
            Err(ErrorView::ContentOutsideRoot(NO_POSITION as int))
        } else {
            Ok(node)
        },
    }
}

/// Checks the root payload: text before the root element must be
/// whitespace only, and an input without an element yields the sentinel
/// node.
pub(crate) fn validate_root<'a>(root: Result<Payload<'a>, Error>) -> (r: Result<Node, Error>)
    ensures
        match root {
            Err(e) => r matches Err(e2) && e2 == e,
            Ok(p) => if trim(p.prolog@).len() != 0 {
                r matches Err(e) && e@ == ErrorView::ContentOutsideRoot(NO_POSITION as int)
            } else {
                match p.node {
                    Some(m) => r matches Ok(nd) && nd == m,
                    None => r matches Ok(nd) && nd@ == empty_node_view(),
                }
            },
        },
{
    match root {
        Ok(p) => {
            let pr = str_trim(p.prolog);
            if pr.unicode_len() != 0 {
                Err(Error::ContentOutsideRoot(NO_POSITION))
            } else {
                match p.node {
                    Some(node) => Ok(node),
                    None => {
                        let node = Node {
                            tag: String::new(),
                            content: String::new(),
                            nodes: Vec::new(),
                            attributes: Vec::new(),
                        };
                        proof {
                            lemma_groups_view(node.nodes@);
                            assert(groups_view(node.nodes@) =~= Seq::<GroupView>::empty());
                            assert(node@ =~~= empty_node_view());
                        }
                        Ok(node)
                    },
                }
            }
        },
        Err(e) => Err(e),
    }
}

/// Loads an XML tree from a string: the result is exactly what
/// `spec_load` describes for the input's characters.
pub fn from_string(string: &str) -> (r: Result<Node, Error>)
    ensures
        match spec_load(string@) {
            Ok(v) => r matches Ok(n) && n@ == v,
            Err(ev) => r matches Err(e) && e@ == ev,
        },
{
    let root = load_from_slice(string);
    validate_root(root)
}

/// The attributes gathered from well-formed beginnings keep their names
/// unique.
pub proof fn lemma_parse_attrs_wf(tokens: Seq<Seq<char>>, acc: Seq<(Seq<char>, Seq<char>)>)
    requires
        wf_attrs(acc),
    ensures
        spec_parse_attrs(tokens, acc) matches Ok(attrs) ==> wf_attrs(attrs),
    decreases tokens.len(),
{
    if tokens.len() > 0 {
        let t = tokens[0];
        if t != seq!['/'] {
            if let Some(e) = find_char(t, '=', 0) {
                let value = t.skip(e + 1);
                if value.len() >= 2 && value[0] == '"' && value.last() == '"' {
                    lemma_amap_insert_wf(acc, t.take(e), value.drop_first().drop_last());
                    lemma_parse_attrs_wf(
                        tokens.drop_first(),
                        amap_insert(acc, t.take(e), value.drop_first().drop_last()),
                    );
                }
            }
        }
    }
}

/// Every element the parser yields is a well-formed node: its attribute
/// names are unique, no two of its child groups share a tag, and every
/// child carries its group's tag, recursively.
pub proof fn lemma_parse_wf(s: Seq<char>)
    ensures
        spec_parse(s) matches Outcome::Element { node, .. } ==> wf_node(node),
    decreases s.len(), 0int,
{
    lemma_find_char(s, '<', 0);
    if let Some(lt) = find_char(s, '<', 0) {
        lemma_find_char(s, '>', lt + 1);
        if let Some(gt) = find_char(s, '>', lt + 1) {
            let header = s.subrange(lt + 1, gt);
            let tag = header_tag(header);
            if tag.len() > 0 && tag[0] == '?' {
                lemma_parse_wf(s.subrange(gt + 1, s.len() as int));
            } else {
                lemma_parse_attrs_wf(header_tokens(header).drop_first(), Seq::empty());
                if !header_self_closing(header) {
                    lemma_find_close(s, tag, gt + 1);
                    if let Some(ct) = find_close(s, tag, gt + 1) {
                        lemma_parse_inner_wf(
                            s.subrange(gt + 1, ct),
                            Seq::empty(),
                            Seq::empty(),
                        );
                    }
                }
            }
        }
    }
}

/// Parsing inner text keeps the accumulated groups well formed.
pub proof fn lemma_parse_inner_wf(buf: Seq<char>, groups: Seq<GroupView>, content: Seq<char>)
    requires
        forall|i: int, j: int| 0 <= i < j < groups.len() ==> groups[i].tag != groups[j].tag,
        forall|i: int| 0 <= i < groups.len() ==> wf_group(#[trigger] groups[i]),
    ensures
        spec_parse_inner(buf, groups, content) matches InnerOutcome::Done { groups: g2, .. }
            ==> (forall|i: int, j: int| 0 <= i < j < g2.len() ==> g2[i].tag != g2[j].tag)
            && (forall|i: int| 0 <= i < g2.len() ==> wf_group(#[trigger] g2[i])),
    decreases buf.len(), 1int,
{
    lemma_parse_consumes(buf);
    lemma_parse_wf(buf);
    match spec_parse(buf) {
        Outcome::Failed(_) => {},
        Outcome::NoElement { rest } => {
            if rest.len() < buf.len() {
                lemma_parse_inner_wf(rest, groups, content);
            }
        },
        Outcome::Element { prolog, node, rest } => {
            if rest.len() < buf.len() {
                lemma_group_append_wf(groups, node);
                lemma_parse_inner_wf(rest, group_append(groups, node), content + prolog);
            }
        },
    }
}

/// Every tree the loader yields is well formed.
pub proof fn lemma_load_wf(s: Seq<char>)
    ensures
        spec_load(s) matches Ok(v) ==> wf_node(v),
{
    lemma_parse_wf(s);
}

/// A character that may stand in a tag or attribute name without touching
/// the markup: not a delimiter, not a quote, not a separator.
pub open spec fn plain_name_char(c: char) -> bool {
    c != '<' && c != '>' && c != '"' && c != '/' && c != '=' && !is_space(c)
}

/// Any element written `<tag key="value"/>` — its tag and key made of
/// plain name characters, its value free of `"` and `>` (spaces in the
/// value are fine) — loads as a node with that tag, that one attribute,
/// no children, and empty content.
pub proof fn lemma_self_closing_element(tag: Seq<char>, key: Seq<char>, value: Seq<char>)
    requires
        tag.len() > 0,
        tag[0] != '?',
        forall|i: int| 0 <= i < tag.len() ==> plain_name_char(#[trigger] tag[i]),
        forall|i: int| 0 <= i < key.len() ==> plain_name_char(#[trigger] key[i]),
        forall|i: int| 0 <= i < value.len() ==> value[i] != '"' && value[i] != '>',
    ensures
        spec_load(
            seq!['<'] + tag + seq![' '] + key + seq!['=', '"'] + value + seq!['"', '/', '>'],
        ) == Ok::<NodeView, ErrorView>(
            NodeView {
                tag,
                attributes: seq![(key, value)],
                groups: Seq::empty(),
                content: Seq::empty(),
            },
        ),
{
    let header = tag + seq![' '] + key + seq!['=', '"'] + value + seq!['"', '/'];
    let s = seq!['<'] + header + seq!['>'];
    assert(seq!['<'] + tag + seq![' '] + key + seq!['=', '"'] + value + seq!['"', '/', '>']
        =~= s);
    assert(s[0] == '<');
    assert(find_char(s, '<', 0) == Some(0int));
    let gt = 1 + header.len() as int;
    assert(s[gt] == '>');
    let kat = tag.len() + 1;
    let vat = kat + key.len() + 2;
    assert forall|j: int| 0 <= j < header.len() implies header[j] != '>' by {
        if j < tag.len() {
            assert(header[j] == tag[j]);
        } else if j == tag.len() {
            assert(header[j] == ' ');
        } else if j < kat + key.len() {
            assert(header[j] == key[j - kat]);
        } else if j == kat + key.len() {
            assert(header[j] == '=');
        } else if j == kat + key.len() + 1 {
            assert(header[j] == '"');
        } else if j < vat + value.len() {
            assert(header[j] == value[j - vat]);
        } else if j == vat + value.len() {
            assert(header[j] == '"');
        } else {
            assert(header[j] == '/');
        }
    }
    lemma_find_char(s, '>', 1);
    match find_char(s, '>', 1) {
        None => {
            assert(false);
        },
        Some(i) => {
            if i < gt {
                assert(s[i] == header[i - 1]);
                assert(false);
            }
            if i > gt {
                assert(false);
            }
        },
    }
    assert(s.subrange(1, gt) =~= header);
    assert(header.last() == '/');
    assert(trim_end(header) == header);
    assert(header_self_closing(header));
    let token = key + seq!['=', '"'] + value + seq!['"'];
    let attr_src = header.drop_last();
    assert(attr_src =~= tag + seq![' '] + token);
    assert(attr_src.last() == '"');
    assert(trim_end(attr_src) == attr_src);
    assert(header_attr_src(header) == attr_src);
    lemma_split_attr_token(key, value, ' ');
    lemma_split_after_prefix(tag, token, ' ');
    assert(header_tokens(header) == seq![tag] + seq![token]);
    assert(header_tokens(header) =~= seq![tag, token]);
    assert(header_tokens(header)[0] == tag);
    assert(!is_space(tag[0]));
    assert(trim_start(tag) == tag);
    assert(!is_space(tag.last()));
    assert(trim_end(tag) == tag);
    assert(header_tag(header) == tag);
    let tokens = header_tokens(header);
    assert(tokens.drop_first() =~= seq![token]);
    assert(token.len() >= 3);
    assert(token != seq!['/']);
    assert(token[key.len() as int] == '=');
    assert forall|j: int| 0 <= j < key.len() implies token[j] != '=' by {
        assert(token[j] == key[j]);
    }
    lemma_find_char(token, '=', 0);
    match find_char(token, '=', 0) {
        None => {
            assert(false);
        },
        Some(e) => {
            if e < key.len() {
                assert(false);
            }
            if e > key.len() {
                assert(false);
            }
        },
    }
    let val = token.skip(key.len() as int + 1);
    assert(val =~= seq!['"'] + value + seq!['"']);
    assert(val[0] == '"' && val.last() == '"' && val.len() >= 2);
    assert(token.take(key.len() as int) =~= key);
    assert(val.drop_first().drop_last() =~= value);
    assert(amap_insert(Seq::empty(), key, value) =~= seq![(key, value)]);
    assert(seq![token].drop_first() =~= Seq::<Seq<char>>::empty());
    assert(spec_parse_attrs(Seq::<Seq<char>>::empty(), seq![(key, value)]) == Ok::<
        Seq<(Seq<char>, Seq<char>)>,
        ErrorView,
    >(seq![(key, value)]));
    assert(spec_parse_attrs(tokens.drop_first(), Seq::empty()) == Ok::<
        Seq<(Seq<char>, Seq<char>)>,
        ErrorView,
    >(seq![(key, value)]));
    assert(s.subrange(0, 0) =~= Seq::<char>::empty());
    assert(spec_parse(s) == (Outcome::Element {
        prolog: s.subrange(0, 0),
        node: NodeView {
            tag,
            attributes: seq![(key, value)],
            groups: Seq::empty(),
            content: Seq::empty(),
        },
        rest: s.subrange(gt + 1, s.len() as int),
    }));
    assert(trim(s.subrange(0, 0)).len() == 0);
}

/// An attribute whose value is not wrapped in double quotes, as in
/// `<tag key=value/>`, always fails with the missing-quotes error carrying
/// the offending token; it is never coerced silently.
pub proof fn lemma_unquoted_value_rejected(tag: Seq<char>, key: Seq<char>, value: Seq<char>)
    requires
        tag.len() > 0,
        tag[0] != '?',
        forall|i: int| 0 <= i < tag.len() ==> plain_name_char(#[trigger] tag[i]),
        forall|i: int| 0 <= i < key.len() ==> plain_name_char(#[trigger] key[i]),
        forall|i: int|
            0 <= i < value.len() ==> value[i] != '"' && value[i] != '>' && !is_space(
                #[trigger] value[i],
            ),
    ensures
        spec_load(seq!['<'] + tag + seq![' '] + key + seq!['='] + value + seq!['/', '>'])
            == Err::<NodeView, ErrorView>(
            ErrorView::MissingQuotes(key + seq!['='] + value, NO_POSITION as int),
        ),
{
    let header = tag + seq![' '] + key + seq!['='] + value + seq!['/'];
    let s = seq!['<'] + header + seq!['>'];
    assert(seq!['<'] + tag + seq![' '] + key + seq!['='] + value + seq!['/', '>'] =~= s);
    assert(s[0] == '<');
    assert(find_char(s, '<', 0) == Some(0int));
    let gt = 1 + header.len() as int;
    assert(s[gt] == '>');
    let kat = tag.len() + 1;
    let vat = kat + key.len() + 1;
    assert forall|j: int| 0 <= j < header.len() implies header[j] != '>' by {
        if j < tag.len() {
            assert(header[j] == tag[j]);
        } else if j == tag.len() {
            assert(header[j] == ' ');
        } else if j < kat + key.len() {
            assert(header[j] == key[j - kat]);
        } else if j == kat + key.len() {
            assert(header[j] == '=');
        } else if j < vat + value.len() {
            assert(header[j] == value[j - vat]);
        } else {
            assert(header[j] == '/');
        }
    }
    lemma_find_char(s, '>', 1);
    match find_char(s, '>', 1) {
        None => {
            assert(false);
        },
        Some(i) => {
            if i < gt {
                assert(s[i] == header[i - 1]);
                assert(false);
            }
            if i > gt {
                assert(false);
            }
        },
    }
    assert(s.subrange(1, gt) =~= header);
    assert(header.last() == '/');
    assert(trim_end(header) == header);
    assert(header_self_closing(header));
    let token = key + seq!['='] + value;
    let attr_src = header.drop_last();
    assert(attr_src =~= tag + seq![' '] + token);
    assert(token.len() > 0);
    if value.len() > 0 {
        assert(attr_src.last() == value.last());
        assert(!is_space(attr_src.last()));
    } else {
        assert(attr_src.last() == '=');
    }
    assert(trim_end(attr_src) == attr_src);
    assert(header_attr_src(header) == attr_src);
    assert forall|i: int| 0 <= i < token.len() implies token[i] != ' ' && token[i] != '"' by {
        if i < key.len() {
            assert(token[i] == key[i]);
        } else if i == key.len() {
            assert(token[i] == '=');
        } else {
            assert(token[i] == value[i - key.len() - 1]);
        }
    }
    lemma_split_whole(token, ' ');
    lemma_split_after_prefix(tag, token, ' ');
    assert(header_tokens(header) == seq![tag] + seq![token]);
    assert(header_tokens(header) =~= seq![tag, token]);
    assert(header_tokens(header)[0] == tag);
    assert(!is_space(tag[0]));
    assert(trim_start(tag) == tag);
    assert(!is_space(tag.last()));
    assert(trim_end(tag) == tag);
    assert(header_tag(header) == tag);
    let tokens = header_tokens(header);
    assert(tokens.drop_first() =~= seq![token]);
    assert(token != seq!['/']) by {
        if key.len() > 0 {
            assert(token[0] == key[0]);
        } else {
            assert(token[0] == '=');
        }
    }
    assert(token[key.len() as int] == '=');
    assert forall|j: int| 0 <= j < key.len() implies token[j] != '=' by {
        assert(token[j] == key[j]);
    }
    lemma_find_char(token, '=', 0);
    match find_char(token, '=', 0) {
        None => {
            assert(false);
        },
        Some(e) => {
            if e < key.len() {
                assert(false);
            }
            if e > key.len() {
                assert(false);
            }
        },
    }
    let val = token.skip(key.len() as int + 1);
    assert(val =~= value);
    if val.len() >= 2 {
        assert(val[0] == value[0]);
        assert(val[0] != '"');
    }
    assert(spec_parse_attrs(tokens.drop_first(), Seq::empty()) == Err::<
        Seq<(Seq<char>, Seq<char>)>,
        ErrorView,
    >(ErrorView::MissingQuotes(token, NO_POSITION as int)));
    assert(spec_parse(s) == Outcome::Failed(ErrorView::MissingQuotes(token, NO_POSITION as int)));
}

/// An input of whitespace only (or none at all) loads as the sentinel
/// node, never as an error.
pub proof fn lemma_whitespace_only_yields_sentinel(s: Seq<char>)
    requires
        forall|i: int| 0 <= i < s.len() ==> is_space(s[i]),
    ensures
        spec_load(s) == Ok::<NodeView, ErrorView>(empty_node_view()),
{
    lemma_find_char(s, '<', 0);
    if let Some(lt) = find_char(s, '<', 0) {
        assert(is_space(s[lt]));
        assert(false);
    }
}

/// Text before the root element that is not whitespace only is a hard
/// error.
pub proof fn lemma_content_outside_root(s: Seq<char>)
    requires
        spec_parse(s) matches Outcome::Element { prolog, .. } && trim(prolog).len() != 0,
    ensures
        spec_load(s) == Err::<NodeView, ErrorView>(
            ErrorView::ContentOutsideRoot(NO_POSITION as int),
        ),
{
}

/// A leading declaration `<?...>` (its body free of `>`) is skipped whole:
/// the input parses exactly as the text after the declaration does, with
/// no node and no prolog text produced for it.
pub proof fn lemma_declaration_skipped(d: Seq<char>, rest: Seq<char>)
    requires
        forall|i: int| 0 <= i < d.len() ==> d[i] != '>',
    ensures
        spec_parse(seq!['<', '?'] + d + seq!['>'] + rest) == spec_parse(rest),
{
    let s = seq!['<', '?'] + d + seq!['>'] + rest;
    assert(s[0] == '<');
    assert(find_char(s, '<', 0) == Some(0int));
    let gt = 2 + d.len() as int;
    assert(s[gt] == '>');
    lemma_find_char(s, '>', 1);
    assert(s[1] == '?');
    assert(forall|j: int| 2 <= j < gt ==> s[j] == d[j - 2]);
    match find_char(s, '>', 1) {
        None => {
            assert(false);
        },
        Some(i) => {
            if i < gt {
                assert(s[i] == '>');
                assert(false);
            }
            if i > gt {
                assert(s[gt] != '>');
                assert(false);
            }
        },
    }
    let header = s.subrange(1, gt);
    assert(header =~= seq!['?'] + d);
    assert(header[0] == '?');
    lemma_trim_end_keeps_head(header);
    let base = trim_end(header);
    let attr_src = header_attr_src(header);
    if base.len() > 0 && base.last() == '/' {
        assert(base[0] == '?');
        assert(base.len() >= 2);
        assert(base.drop_last()[0] == '?');
        lemma_trim_end_keeps_head(base.drop_last());
    }
    assert(attr_src.len() > 0 && attr_src[0] == '?');
    let tokens = header_tokens(header);
    lemma_split_unquoted_len(attr_src.drop_first(), ' ', false);
    assert(attr_src[0] != ' ' && attr_src[0] != '"');
    assert(tokens[0] == seq![attr_src[0]] + split_unquoted(attr_src.drop_first(), ' ', false)[0]);
    assert(tokens[0].len() > 0 && tokens[0][0] == '?');
    let tag = header_tag(header);
    assert(trim_start(tokens[0]) == tokens[0]);
    lemma_trim_end_keeps_head(tokens[0]);
    assert(tag.len() > 0 && tag[0] == '?');
    assert(s.subrange(gt + 1, s.len() as int) =~= rest);
}

} // verus!
