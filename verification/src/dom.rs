//! Element tree: element and text nodes, attribute lookup, class tokens.

use vstd::prelude::*;

verus! {

/// Attribute map, stored as an association list; lookup takes the first
/// entry with the given name.
pub type StrMap = Vec<(String, String)>;

pub struct Node {
    // data common to all nodes:
    pub children: Vec<Node>,
    // data specific to each node type:
    pub node_type: NodeType,
}

pub enum NodeType {
    Element(ElementData),
    Text(String),
}

pub struct ElementData {
    pub tag_name: String,
    pub attributes: StrMap,
}

/// The value of the first attribute named `name`, if any.
pub open spec fn spec_attr(attrs: Seq<(String, String)>, name: Seq<char>) -> Option<Seq<char>>
    decreases attrs.len(),
{
    if attrs.len() == 0 {
        None
    } else if attrs[0].0@ == name {
        Some(attrs[0].1@)
    } else {
        spec_attr(attrs.drop_first(), name)
    }
}

pub fn text(data: String) -> (n: Node)
    ensures
        n.children@.len() == 0,
        n.node_type == NodeType::Text(data),
{
    Node { children: Vec::new(), node_type: NodeType::Text(data) }
}

pub fn elem(name: String, attrs: StrMap, children: Vec<Node>) -> (n: Node)
    ensures
        n.children == children,
        n.node_type == NodeType::Element(ElementData { tag_name: name, attributes: attrs }),
{
    Node {
        children,
        node_type: NodeType::Element(ElementData { tag_name: name, attributes: attrs }),
    }
}

/// The class tokens of a character sequence: the maximal runs of
/// non-space characters, in order, split at spaces.
pub open spec fn spec_tokens(s: Seq<char>) -> Seq<Seq<char>>
    decreases s.len(),
{
    if s.len() == 0 {
        Seq::empty()
    } else {
        let rest = spec_tokens(s.drop_last());
        let c = s.last();
        if c == ' ' {
            rest
        } else if s.len() >= 2 && s[s.len() - 2] != ' ' {
            rest.update(rest.len() - 1, rest.last().push(c))
        } else {
            rest.push(seq![c])
        }
    }
}

/// The class tokens of an element: the split of its `class` attribute,
/// or no tokens when the attribute is absent.
pub open spec fn spec_classes(e: ElementData) -> Seq<Seq<char>> {
    match spec_attr(e.attributes@, "class"@) {
        Some(cs) => spec_tokens(cs),
        None => Seq::empty(),
    }
}

impl ElementData {
    /// Look up an attribute by name.
    pub fn attr(&self, name: &str) -> (r: Option<String>)
        ensures
            match r {
                Some(v) => spec_attr(self.attributes@, name@) == Some(v@),
                None => spec_attr(self.attributes@, name@) is None,
            },
    {
        let needle = String::from_str(name);
        let mut i: usize = 0;
        proof {
            assert(self.attributes@.skip(0) =~= self.attributes@);
        }
        while i < self.attributes.len()
            invariant
                i <= self.attributes@.len(),
                needle@ == name@,
                spec_attr(self.attributes@, name@) == spec_attr(
                    self.attributes@.skip(i as int),
                    name@,
                ),
            decreases self.attributes@.len() - i,
        {
            proof {
                assert(self.attributes@.skip(i as int).drop_first() =~= self.attributes@.skip(
                    i + 1,
                ));
            }
            if self.attributes[i].0 == needle {
                return Some(self.attributes[i].1.clone());
            }
            i = i + 1;
        }
        None
    }

    /// The element's `id` attribute, if present.
    pub fn id(&self) -> (r: Option<String>)
        ensures
            match r {
                Some(v) => spec_attr(self.attributes@, "id"@) == Some(v@),
                None => spec_attr(self.attributes@, "id"@) is None,
            },
    {
        self.attr("id")
    }

    /// The element's class tokens: its `class` attribute split at spaces.
    pub fn classes(&self) -> (r: Vec<String>)
        ensures
            r@.len() == spec_classes(*self).len(),
        forall|k: int|
            0 <= k < r@.len() ==> #[trigger] r@[k]@ == spec_classes(*self)[k],
    {
        match self.attr("class") {
            None => Vec::new(),
            Some(cs) => split_spaces(&cs),
        }
    }

    /// Whether `token` is one of the element's class tokens.
    pub fn has_class(&self, token: &String) -> (r: bool)
        ensures
            r == spec_classes(*self).contains(token@),
    {
        let cls = self.classes();
        let mut i: usize = 0;
        while i < cls.len()
            invariant
                i <= cls@.len(),
                cls@.len() == spec_classes(*self).len(),
                forall|k: int| 0 <= k < cls@.len() ==> #[trigger] cls@[k]@ == spec_classes(*self)[k],
                forall|k: int| 0 <= k < i ==> spec_classes(*self)[k] != token@,
            decreases cls@.len() - i,
        {
            if cls[i] == *token {
                return true;
            }
            i = i + 1;
        }
        false
    }
}

/// Split a string at spaces into its maximal non-space runs.
fn split_spaces(s: &String) -> (r: Vec<String>)
    ensures
        r@.len() == spec_tokens(s@).len(),
        forall|k: int| 0 <= k < r@.len() ==> #[trigger] r@[k]@ == spec_tokens(s@)[k],
{
    let st = s.as_str();
    let n = st.unicode_len();
    let mut out: Vec<String> = Vec::new();
    // The current token is `st[start..i]`; there is none when `start == i`.
    let mut start: usize = 0;
    let mut i: usize = 0;
    while i < n
        invariant
            start <= i <= n,
            n == st@.len(),
            st@ == s@,
            start < i <==> (i > 0 && st@[i as int - 1] != ' '),
            spec_tokens(st@.take(i as int)) == if start == i {
                views(out@)
            } else {
                views(out@).push(st@.subrange(start as int, i as int))
            },
        decreases n - i,
    {
        let c = st.get_char(i);
        proof {
            assert(st@.take(i + 1).drop_last() =~= st@.take(i as int));
        }
        if c == ' ' {
            if start < i {
                let ghost out0 = out@;
                let tok = String::from_str(st.substring_char(start, i));
                out.push(tok);
                proof {
                    assert(views(out@) =~= views(out0).push(st@.subrange(
                        start as int,
                        i as int,
                    )));
                }
            }
            start = i + 1;
        } else {
            proof {
                let full = spec_tokens(st@.take(i + 1));
                if start < i {
                    assert(full =~~= views(out@).push(st@.subrange(start as int, i + 1)));
                } else {
                    assert(st@.subrange(i as int, i + 1) =~= seq![st@[i as int]]);
                    assert(full =~~= views(out@).push(st@.subrange(start as int, i + 1)));
                }
            }
        }
        i = i + 1;
    }
    proof {
        assert(st@.take(n as int) =~= st@);
    }
    if start < n {
        let ghost out0 = out@;
        let tok = String::from_str(st.substring_char(start, n));
        out.push(tok);
        proof {
            assert(views(out@) =~= views(out0).push(st@.subrange(start as int, n as int)));
        }
    }
    out
}

/// The character sequences denoted by a sequence of strings.
pub open spec fn views(v: Seq<String>) -> Seq<Seq<char>> {
    v.map_values(|s: String| s@)
}

/// The height of an element tree.
pub open spec fn nheight(n: Node) -> nat
    decreases n,
{
    1 + nheight_seq(n.children@)
}

pub open spec fn nheight_seq(cs: Seq<Node>) -> nat
    decreases cs,
{
    if cs.len() == 0 {
        0
    } else if nheight(cs[0]) >= nheight_seq(cs.drop_first()) {
        nheight(cs[0])
    } else {
        nheight_seq(cs.drop_first())
    }
}

proof fn lemma_nheight_elem(cs: Seq<Node>, i: int)
    requires
        0 <= i < cs.len(),
    ensures
        nheight(cs[i]) <= nheight_seq(cs),
    decreases i,
{
    if i > 0 {
        lemma_nheight_elem(cs.drop_first(), i - 1);
        assert(cs.drop_first()[i - 1] == cs[i]);
    }
}

/// The preorder traversal of a tree: each node paired with its depth,
/// parents before children, children in document order.
pub open spec fn spec_outline(n: Node, d: int) -> Seq<(int, Node)>
    decreases n,
{
    seq![(d, n)] + spec_outline_seq(n.children@, d + 1)
}

pub open spec fn spec_outline_seq(cs: Seq<Node>, d: int) -> Seq<(int, Node)>
    decreases cs,
{
    if cs.len() == 0 {
        Seq::empty()
    } else {
        spec_outline(cs[0], d) + spec_outline_seq(cs.drop_first(), d)
    }
}

proof fn lemma_outline_seq_take(cs: Seq<Node>, d: int, i: int)
    requires
        0 <= i < cs.len(),
    ensures
        spec_outline_seq(cs.take(i + 1), d) == spec_outline_seq(cs.take(i), d) + spec_outline(
            cs[i],
            d,
        ),
    decreases i,
{
    if i == 0 {
        assert(cs.take(1).len() == 1);
        assert(cs.take(1)[0] == cs[0]);
        assert(cs.take(1).drop_first() =~= Seq::empty());
        assert(cs.take(0) =~= Seq::empty());
        assert(spec_outline_seq(cs.take(1), d) =~= spec_outline_seq(cs.take(0), d) + spec_outline(
            cs[0],
            d,
        ));
    } else {
        lemma_outline_seq_take(cs.drop_first(), d, i - 1);
        assert(cs.take(i + 1)[0] == cs[0]);
        assert(cs.take(i + 1).drop_first() =~= cs.drop_first().take(i));
        assert(cs.take(i).drop_first() =~= cs.drop_first().take(i - 1));
        assert(cs.drop_first()[i - 1] == cs[i]);
        assert(spec_outline_seq(cs.take(i + 1), d) =~= spec_outline_seq(cs.take(i), d)
            + spec_outline(cs[i], d));
    }
}

/// The rows list the traversal's nodes with the right depths.
pub open spec fn rows_match(rows: Seq<(u32, &Node)>, s: Seq<(int, Node)>) -> bool {
    &&& rows.len() == s.len()
    &&& forall|k: int|
        0 <= k < s.len() ==> (#[trigger] rows[k]).0 == s[k].0 && *rows[k].1 == s[k].1
}

proof fn lemma_rows_match_concat(a: Seq<(u32, &Node)>, b: Seq<(u32, &Node)>, s: Seq<(int, Node)>, t: Seq<(int, Node)>)
    requires
        rows_match(a, s),
        rows_match(b, t),
    ensures
        rows_match(a + b, s + t),
{
    assert forall|k: int|
        0 <= k < (s + t).len() implies (#[trigger] (a + b)[k]).0 == (s + t)[k].0 && *(a + b)[k].1
        == (s + t)[k].1 by {
        if k < s.len() {
            assert((a + b)[k] == a[k]);
        } else {
            assert((a + b)[k] == b[k - s.len()]);
        }
    }
}

/// A read-only preorder visit of the tree: each node with its depth,
/// ready for printing or other inspection.
pub fn outline<'a>(root: &'a Node) -> (r: Vec<(u32, &'a Node)>)
    requires
        nheight(*root) <= 1000000,
    ensures
        rows_match(r@, spec_outline(*root, 0)),
{
    outline_from(root, 0)
}

fn outline_from<'a>(node: &'a Node, depth: u32) -> (r: Vec<(u32, &'a Node)>)
    requires
        depth + nheight(*node) <= 1000001,
    ensures
        rows_match(r@, spec_outline(*node, depth as int)),
    decreases *node,
{
    let mut out: Vec<(u32, &'a Node)> = Vec::new();
    out.push((depth, node));
    proof {
        assert(node.children@.take(0) =~= Seq::empty());
        assert(out@ =~= seq![(depth, node)] + Seq::<(u32, &Node)>::empty());
        assert(rows_match(
            out@,
            seq![(depth as int, *node)] + spec_outline_seq(node.children@.take(0), depth + 1),
        ));
    }
    let mut i: usize = 0;
    while i < node.children.len()
        invariant
            i <= node.children@.len(),
            depth + nheight(*node) <= 1000001,
            rows_match(
                out@,
                seq![(depth as int, *node)] + spec_outline_seq(
                    node.children@.take(i as int),
                    depth + 1,
                ),
            ),
        decreases node.children@.len() - i,
    {
        proof {
            lemma_nheight_elem(node.children@, i as int);
        }
        let mut rows = outline_from(&node.children[i], depth + 1);
        let ghost pre = out@;
        let ghost rs = rows@;
        out.append(&mut rows);
        i = i + 1;
        proof {
            lemma_outline_seq_take(node.children@, depth + 1, i - 1);
            lemma_rows_match_concat(
                pre,
                rs,
                seq![(depth as int, *node)] + spec_outline_seq(
                    node.children@.take(i - 1),
                    depth + 1,
                ),
                spec_outline(node.children@[i - 1], depth + 1),
            );
            assert((seq![(depth as int, *node)] + spec_outline_seq(
                node.children@.take(i - 1),
                depth + 1,
            )) + spec_outline(node.children@[i - 1], depth + 1) =~= seq![(depth as int, *node)]
                + spec_outline_seq(node.children@.take(i as int), depth + 1));
        }
    }
    proof {
        assert(node.children@.take(node.children@.len() as int) =~= node.children@);
    }
    out
}

} // verus!
