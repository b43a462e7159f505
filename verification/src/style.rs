//! Style resolver: selector matching and the cascade.
//!
//! For each element the resolver collects the rules whose selector set
//! matches it and merges their declarations in precedence order: higher
//! specificity wins, and among equal specificities the rule declared
//! later in the stylesheet wins. The result is one property map per
//! element-tree node; text nodes get an empty map.

use vstd::prelude::*;

use crate::css::Rule;
use crate::css::Selector;
use crate::css::SimpleSelector;
use crate::css::Specificity;
use crate::css::Stylesheet;
use crate::css::Value;
use crate::css::spec_lex_le;
use crate::css::spec_of;
use crate::css::spec_specificity;
use crate::css::specificity_ge;
use crate::dom::ElementData;
use crate::dom::Node;
use crate::dom::NodeType;
use crate::dom::spec_attr;
use crate::dom::spec_classes;

verus! {

/// A node with associated style data.
pub struct StyledNode<'a> {
    pub node: &'a Node,
    pub specified_values: Vec<(String, Value)>,
    pub children: Vec<StyledNode<'a>>,
}

/// Layout participation of a node. Only `DisplayNone` is acted on by
/// layout: every other classification takes part in block layout.
#[derive(Clone, Copy, Debug, PartialEq, Eq, Structural)]
pub enum Display {
    Horizontal,
    Vertical,
    DisplayNone,
}

/// A simple selector matches an element iff each stated constraint
/// holds: the tag name is absent or equal, the id is absent or equal to
/// the element's `id` attribute, and every required class is among the
/// element's class tokens.
pub open spec fn spec_simple_matches(e: ElementData, s: SimpleSelector) -> bool {
    &&& match s.tag_name {
        Some(t) => t@ == e.tag_name@,
        None => true,
    }
    &&& match s.id {
        Some(i) => spec_attr(e.attributes@, "id"@) == Some(i@),
        None => true,
    }
    &&& forall|k: int|
        0 <= k < s.class@.len() ==> spec_classes(e).contains(#[trigger] s.class@[k]@)
}

pub open spec fn spec_sel_matches(e: ElementData, sel: Selector) -> bool {
    match sel {
        Selector::Simple(s) => spec_simple_matches(e, s),
    }
}

/// The specificity of the first matching selector of a rule, if any
/// selector matches. All selectors of one rule share the rule's
/// declarations, so the first match decides the rule's precedence.
pub open spec fn spec_rule_match(e: ElementData, sels: Seq<Selector>) -> Option<(int, int, int)>
    decreases sels.len(),
{
    if sels.len() == 0 {
        None
    } else if spec_sel_matches(e, sels[0]) {
        Some(spec_specificity(sels[0]))
    } else {
        spec_rule_match(e, sels.drop_first())
    }
}

/// The specificity a matched rule contributes.
pub open spec fn spec_rule_spec(e: ElementData, r: Rule) -> (int, int, int) {
    match spec_rule_match(e, r.selectors@) {
        Some(s) => s,
        None => (0, 0, 0),
    }
}

/// Declaration `j` of rule `i` declares property `p` for element `e`.
pub open spec fn is_candidate(e: ElementData, sheet: Stylesheet, i: int, j: int, p: Seq<char>) -> bool {
    &&& 0 <= i < sheet.rules@.len()
    &&& spec_rule_match(e, sheet.rules@[i].selectors@) is Some
    &&& 0 <= j < sheet.rules@[i].declarations@.len()
    &&& sheet.rules@[i].declarations@[j].name@ == p
}

/// Precedence order on candidate declarations: specificity first, then
/// rule position in the stylesheet, then declaration position in the
/// rule; later entries win ties.
pub open spec fn key_le(
    e: ElementData,
    sheet: Stylesheet,
    i1: int,
    j1: int,
    i2: int,
    j2: int,
) -> bool {
    let s1 = spec_rule_spec(e, sheet.rules@[i1]);
    let s2 = spec_rule_spec(e, sheet.rules@[i2]);
    if s1 == s2 {
        i1 < i2 || (i1 == i2 && j1 <= j2)
    } else {
        spec_lex_le(s1, s2)
    }
}

/// Declaration `(i, j)` is the highest-precedence declaration of its
/// property among all matching rules.
pub open spec fn is_winner(e: ElementData, sheet: Stylesheet, i: int, j: int) -> bool {
    let p = sheet.rules@[i].declarations@[j].name@;
    &&& is_candidate(e, sheet, i, j, p)
    &&& forall|i2: int, j2: int|
        is_candidate(e, sheet, i2, j2, p) ==> #[trigger] key_le(e, sheet, i2, j2, i, j)
}

/// First-match lookup in a property list.
pub open spec fn spec_map_get(m: Seq<(String, Value)>, name: Seq<char>) -> Option<Value>
    decreases m.len(),
{
    if m.len() == 0 {
        None
    } else if m[0].0@ == name {
        Some(m[0].1)
    } else {
        spec_map_get(m.drop_first(), name)
    }
}

/// Property names occur at most once.
pub open spec fn unique_names(m: Seq<(String, Value)>) -> bool {
    forall|k1: int, k2: int| 0 <= k1 < k2 < m.len() ==> m[k1].0@ != m[k2].0@
}

/// The property list `m` is the result of cascading `sheet` over `e`:
/// its names are unique, a property is present iff some matching rule
/// declares it, and each present property holds the value of the
/// highest-precedence declaration.
pub open spec fn cascade_ok(m: Seq<(String, Value)>, e: ElementData, sheet: Stylesheet) -> bool {
    &&& unique_names(m)
    &&& forall|p: Seq<char>|
        (#[trigger] spec_map_get(m, p)) is Some <==> exists|i: int, j: int| is_candidate(e, sheet, i, j, p)
    &&& forall|i: int, j: int|
        #[trigger] is_winner(e, sheet, i, j) ==> spec_map_get(
            m,
            sheet.rules@[i].declarations@[j].name@,
        ) == Some(sheet.rules@[i].declarations@[j].value)
}

/// The specified value of a property on a styled node, if any.
pub open spec fn spec_value(sn: StyledNode, name: Seq<char>) -> Option<Value> {
    spec_map_get(sn.specified_values@, name)
}

/// The specified value of `name`, else of `fallback`, else `default`.
pub open spec fn spec_lookup(
    sn: StyledNode,
    name: Seq<char>,
    fallback: Seq<char>,
    default: Value,
) -> Value {
    match spec_value(sn, name) {
        Some(v) => v,
        None => match spec_value(sn, fallback) {
            Some(v) => v,
            None => default,
        },
    }
}

/// Layout participation: a `display: none` keyword excludes the node;
/// a `horizontal` keyword selects the unused horizontal classification;
/// everything else participates as an ordinary (vertical) block.
pub open spec fn spec_display(sn: StyledNode) -> Display {
    match spec_value(sn, "display"@) {
        Some(v) => match v {
            Value::Keyword(s) => if s@ == "none"@ {
                Display::DisplayNone
            } else if s@ == "horizontal"@ {
                Display::Horizontal
            } else {
                Display::Vertical
            },
            _ => Display::Vertical,
        },
        None => Display::Vertical,
    }
}

impl<'a> StyledNode<'a> {
    /// Return the specified value of a property if it exists, otherwise `None`.
    pub fn value(&self, name: &str) -> (r: Option<Value>)
        ensures
            r == spec_value(*self, name@),
    {
        let needle = String::from_str(name);
        let mut i: usize = 0;
        proof {
            assert(self.specified_values@.skip(0) =~= self.specified_values@);
        }
        while i < self.specified_values.len()
            invariant
                i <= self.specified_values@.len(),
                needle@ == name@,
                spec_map_get(self.specified_values@, name@) == spec_map_get(
                    self.specified_values@.skip(i as int),
                    name@,
                ),
            decreases self.specified_values@.len() - i,
        {
            proof {
                assert(self.specified_values@.skip(i as int).drop_first()
                    =~= self.specified_values@.skip(i + 1));
            }
            if self.specified_values[i].0 == needle {
                return Some(self.specified_values[i].1.clone());
            }
            i = i + 1;
        }
        None
    }

    /// Return the specified value of property `name`, or property
    /// `fallback_name` if that doesn't exist, or value `default` if
    /// neither does.
    pub fn lookup(&self, name: &str, fallback_name: &str, default: &Value) -> (r: Value)
        ensures
            r == spec_lookup(*self, name@, fallback_name@, *default),
    {
        match self.value(name) {
            Some(v) => v,
            None => match self.value(fallback_name) {
                Some(v) => v,
                None => default.clone(),
            },
        }
    }

    /// The value of the `display` property (defaults to vertical).
    pub fn display(&self) -> (r: Display)
        ensures
            r == spec_display(*self),
    {
        match self.value("display") {
            Some(v) => match v {
                Value::Keyword(s) => {
                    let none_kw = String::from_str("none");
                    let horizontal_kw = String::from_str("horizontal");
                    if s == none_kw {
                        Display::DisplayNone
                    } else if s == horizontal_kw {
                        Display::Horizontal
                    } else {
                        Display::Vertical
                    }
                },
                _ => Display::Vertical,
            },
            None => Display::Vertical,
        }
    }
}

/// The styled tree mirrors the element tree node for node: element
/// nodes carry their cascaded property map, text nodes an empty one.
pub open spec fn spec_styled(sn: StyledNode, n: Node, sheet: Stylesheet) -> bool
    decreases n,
{
    &&& *sn.node == n
    &&& match n.node_type {
        NodeType::Element(e) => cascade_ok(sn.specified_values@, e, sheet),
        NodeType::Text(_) => sn.specified_values@.len() == 0,
    }
    &&& sn.children@.len() == n.children@.len()
    &&& forall|k: int|
        0 <= k < n.children@.len() ==> spec_styled(
            #[trigger] sn.children@[k],
            n.children@[k],
            sheet,
        )
}

/// Apply a stylesheet to an entire element tree, returning a styled
/// node tree with the same shape.
pub fn style_tree<'a>(root: &'a Node, stylesheet: &'a Stylesheet) -> (r: StyledNode<'a>)
    ensures
        spec_styled(r, *root, *stylesheet),
    decreases *root,
{
    let specified = match &root.node_type {
        NodeType::Element(e) => specified_values(e, stylesheet),
        NodeType::Text(_) => Vec::new(),
    };
    let mut children: Vec<StyledNode<'a>> = Vec::new();
    let mut i: usize = 0;
    while i < root.children.len()
        invariant
            i <= root.children@.len(),
            children@.len() == i,
            forall|k: int|
                0 <= k < i ==> spec_styled(
                    #[trigger] children@[k],
                    root.children@[k],
                    *stylesheet,
                ),
        decreases root.children@.len() - i,
    {
        let c = style_tree(&root.children[i], stylesheet);
        children.push(c);
        i = i + 1;
    }
    StyledNode { node: root, specified_values: specified, children }
}

pub fn matches(elem: &ElementData, selector: &Selector) -> (r: bool)
    ensures
        r == spec_sel_matches(*elem, *selector),
{
    match selector {
        Selector::Simple(simple_selector) => matches_simple_selector(elem, simple_selector),
    }
}

pub fn matches_simple_selector(elem: &ElementData, selector: &SimpleSelector) -> (r: bool)
    ensures
        r == spec_simple_matches(*elem, *selector),
{
    // Check type selector
    match &selector.tag_name {
        Some(name) => {
            if !(*name == elem.tag_name) {
                return false;
            }
        },
        None => {},
    }
    // Check ID selector
    match &selector.id {
        Some(id_sel) => {
            match elem.id() {
                Some(id_elem) => {
                    if !(id_elem == *id_sel) {
                        return false;
                    }
                },
                None => {
                    return false;
                },
            }
        },
        None => {},
    }
    // Check class selectors
    let mut k: usize = 0;
    while k < selector.class.len()
        invariant
            k <= selector.class@.len(),
            forall|k2: int|
                0 <= k2 < k ==> spec_classes(*elem).contains(#[trigger] selector.class@[k2]@),
        decreases selector.class@.len() - k,
    {
        if !elem.has_class(&selector.class[k]) {
            return false;
        }
        k = k + 1;
    }
    true
}

/// If the rule matches the element, return the specificity of its first
/// matching selector.
pub fn match_rule(elem: &ElementData, rule: &Rule) -> (r: Option<Specificity>)
    ensures
        match r {
            Some(s) => spec_rule_match(*elem, rule.selectors@) == Some(spec_of(s)),
            None => spec_rule_match(*elem, rule.selectors@) is None,
        },
{
    let mut i: usize = 0;
    proof {
        assert(rule.selectors@.skip(0) =~= rule.selectors@);
    }
    while i < rule.selectors.len()
        invariant
            i <= rule.selectors@.len(),
            spec_rule_match(*elem, rule.selectors@) == spec_rule_match(
                *elem,
                rule.selectors@.skip(i as int),
            ),
            forall|k: int| 0 <= k < i ==> !spec_sel_matches(*elem, rule.selectors@[k]),
        decreases rule.selectors@.len() - i,
    {
        proof {
            assert(rule.selectors@.skip(i as int).drop_first() =~= rule.selectors@.skip(i + 1));
        }
        if matches(elem, &rule.selectors[i]) {
            return Some(rule.selectors[i].specificity());
        }
        i = i + 1;
    }
    None
}

/// Find all rules that match the element, as (specificity, rule index)
/// pairs in stylesheet order.
pub fn matching_rules(elem: &ElementData, stylesheet: &Stylesheet) -> (r: Vec<(Specificity, usize)>)
    ensures
        forall|k: int|
            0 <= k < r@.len() ==> {
                let i = #[trigger] r@[k].1 as int;
                &&& 0 <= i < stylesheet.rules@.len()
                &&& spec_rule_match(*elem, stylesheet.rules@[i].selectors@) == Some(
                    spec_of(r@[k].0),
                )
            },
        forall|k1: int, k2: int| 0 <= k1 < k2 < r@.len() ==> r@[k1].1 < r@[k2].1,
        forall|i: int|
            0 <= i < stylesheet.rules@.len() && spec_rule_match(
                *elem,
                #[trigger] stylesheet.rules@[i].selectors@,
            ) is Some ==> exists|k: int| 0 <= k < r@.len() && #[trigger] r@[k].1 == i,
{
    let mut out: Vec<(Specificity, usize)> = Vec::new();
    let mut i: usize = 0;
    while i < stylesheet.rules.len()
        invariant
            i <= stylesheet.rules@.len(),
            forall|k: int|
                0 <= k < out@.len() ==> {
                    let ri = #[trigger] out@[k].1 as int;
                    &&& 0 <= ri < i
                    &&& spec_rule_match(*elem, stylesheet.rules@[ri].selectors@) == Some(
                        spec_of(out@[k].0),
                    )
                },
            forall|k1: int, k2: int| 0 <= k1 < k2 < out@.len() ==> out@[k1].1 < out@[k2].1,
            forall|i2: int|
                0 <= i2 < i && spec_rule_match(
                    *elem,
                    #[trigger] stylesheet.rules@[i2].selectors@,
                ) is Some ==> exists|k: int| 0 <= k < out@.len() && #[trigger] out@[k].1 == i2,
        decreases stylesheet.rules@.len() - i,
    {
        match match_rule(elem, &stylesheet.rules[i]) {
            Some(s) => {
                let ghost out0 = out@;
                let ghost n0 = out@.len() as int;
                out.push((s, i));
                proof {
                    assert(out@[n0].1 == i);
                    assert forall|i2: int|
                        0 <= i2 < i + 1 && spec_rule_match(
                            *elem,
                            #[trigger] stylesheet.rules@[i2].selectors@,
                        ) is Some implies exists|k: int|
                        0 <= k < out@.len() && #[trigger] out@[k].1 == i2 by {
                        if i2 < i {
                            let k = choose|k: int| 0 <= k < out0.len() && #[trigger] out0[k].1 == i2;
                            assert(out@[k].1 == i2);
                        } else {
                            assert(out@[n0].1 == i2);
                        }
                    }
                }
            },
            None => {},
        }
        i = i + 1;
    }
    out
}

/// Pair order on (rule index, declaration index) positions.
pub open spec fn before(i: int, j: int, bi: int, bj: int) -> bool {
    i < bi || (i == bi && j < bj)
}

/// Some matching rule declares `p` at a position preceding `(bi, bj)`.
pub open spec fn covered(e: ElementData, sheet: Stylesheet, bi: int, bj: int, p: Seq<char>) -> bool {
    exists|i: int, j: int| #[trigger] is_candidate(e, sheet, i, j, p) && before(i, j, bi, bj)
}

/// An interim cascade entry: the value and specificity of the
/// highest-precedence declaration of `name` seen before `(bi, bj)`.
pub open spec fn entry_ok(
    e: ElementData,
    sheet: Stylesheet,
    name: Seq<char>,
    val: Value,
    sp: (int, int, int),
    bi: int,
    bj: int,
) -> bool {
    exists|i: int, j: int|
        {
            &&& #[trigger] is_candidate(e, sheet, i, j, name)
            &&& before(i, j, bi, bj)
            &&& sheet.rules@[i].declarations@[j].value == val
            &&& spec_rule_spec(e, sheet.rules@[i]) == sp
            &&& forall|i2: int, j2: int|
                is_candidate(e, sheet, i2, j2, name) && before(i2, j2, bi, bj) ==> #[trigger] key_le(
                    e,
                    sheet,
                    i2,
                    j2,
                    i,
                    j,
                )
        }
}

/// Some interim entry carries the name `p`.
pub open spec fn has_name(vals: Seq<(String, Value, Specificity)>, p: Seq<char>) -> bool {
    exists|k: int| 0 <= k < vals.len() && #[trigger] vals[k].0@ == p
}

/// The interim entry list is a correct cascade of every declaration
/// preceding `(bi, bj)`.
pub open spec fn state_ok(
    vals: Seq<(String, Value, Specificity)>,
    e: ElementData,
    sheet: Stylesheet,
    bi: int,
    bj: int,
) -> bool {
    &&& forall|k1: int, k2: int| 0 <= k1 < k2 < vals.len() ==> vals[k1].0@ != vals[k2].0@
    &&& forall|k: int|
        0 <= k < vals.len() ==> entry_ok(
            e,
            sheet,
            (#[trigger] vals[k]).0@,
            vals[k].1,
            spec_of(vals[k].2),
            bi,
            bj,
        )
    &&& forall|p: Seq<char>| #[trigger] covered(e, sheet, bi, bj, p) <==> has_name(vals, p)
}

fn find_entry(values: &Vec<(String, Value, Specificity)>, name: &String) -> (r: Option<usize>)
    ensures
        match r {
            Some(pos) => pos < values@.len() && values@[pos as int].0@ == name@,
            None => forall|k: int| 0 <= k < values@.len() ==> values@[k].0@ != name@,
        },
{
    let mut k: usize = 0;
    while k < values.len()
        invariant
            k <= values@.len(),
            forall|k2: int| 0 <= k2 < k ==> values@[k2].0@ != name@,
        decreases values@.len() - k,
    {
        if values[k].0 == *name {
            return Some(k);
        }
        k = k + 1;
    }
    None
}

/// Apply all matching rules to the element, returning the specified
/// property values after the cascade.
pub fn specified_values(elem: &ElementData, stylesheet: &Stylesheet) -> (r: Vec<(String, Value)>)
    ensures
        cascade_ok(r@, *elem, *stylesheet),
{
    let matched = matching_rules(elem, stylesheet);
    let nrules = stylesheet.rules.len();
    let mut values: Vec<(String, Value, Specificity)> = Vec::new();
    let mut m: usize = 0;
    proof {
        let bi0: int = if 0 < matched@.len() {
            matched@[0].1 as int
        } else {
            nrules as int
        };
        assert forall|p: Seq<char>| #[trigger]
            covered(*elem, *stylesheet, bi0, 0, p) implies has_name(values@, p) by {
            let (i, j) = choose|i: int, j: int| #[trigger]
                is_candidate(*elem, *stylesheet, i, j, p) && before(i, j, bi0, 0);
            assert(exists|k: int| 0 <= k < matched@.len() && #[trigger] matched@[k].1 == i);
            let k = choose|k: int| 0 <= k < matched@.len() && #[trigger] matched@[k].1 == i;
            assert(matched@[0].1 <= matched@[k].1) by {
                if k > 0 {
                    assert(matched@[0].1 < matched@[k].1);
                }
            }
            assert(false);
        }
    }
    while m < matched.len()
        invariant
            m <= matched@.len(),
            nrules == stylesheet.rules@.len(),
            forall|k: int|
                0 <= k < matched@.len() ==> {
                    let i = #[trigger] matched@[k].1 as int;
                    &&& 0 <= i < stylesheet.rules@.len()
                    &&& spec_rule_match(*elem, stylesheet.rules@[i].selectors@) == Some(
                        spec_of(matched@[k].0),
                    )
                },
            forall|k1: int, k2: int| 0 <= k1 < k2 < matched@.len() ==> matched@[k1].1 < matched@[k2].1,
            forall|i: int|
                0 <= i < stylesheet.rules@.len() && spec_rule_match(
                    *elem,
                    #[trigger] stylesheet.rules@[i].selectors@,
                ) is Some ==> exists|k: int| 0 <= k < matched@.len() && #[trigger] matched@[k].1 == i,
            state_ok(
                values@,
                *elem,
                *stylesheet,
                if m < matched@.len() {
                    matched@[m as int].1 as int
                } else {
                    nrules as int
                },
                0,
            ),
        decreases matched@.len() - m,
    {
        let (sp, ri) = matched[m];
        let rule = &stylesheet.rules[ri];
        let ghost rii = ri as int;
        let mut j: usize = 0;
        while j < rule.declarations.len()
            invariant
                j <= rule.declarations@.len(),
                nrules == stylesheet.rules@.len(),
                0 <= rii < stylesheet.rules@.len(),
                rule == &stylesheet.rules@[rii],
                spec_rule_match(*elem, stylesheet.rules@[rii].selectors@) == Some(spec_of(sp)),
                state_ok(values@, *elem, *stylesheet, rii, j as int),
            decreases rule.declarations@.len() - j,
        {
            let d = &rule.declarations[j];
            let ghost jj = j as int;
            let ghost vals0 = values@;
            proof {
                assert(is_candidate(*elem, *stylesheet, rii, jj, d.name@));
                assert(spec_rule_spec(*elem, stylesheet.rules@[rii]) == spec_of(sp));
            }
            match find_entry(&values, &d.name) {
                Some(pos) => {
                    if specificity_ge(sp, values[pos].2) {
                        let _ = values.remove(pos);
                        values.push((d.name.clone(), d.value.clone(), sp));
                        proof {
                            lemma_step_push(
                                vals0,
                                values@,
                                *elem,
                                *stylesheet,
                                rii,
                                jj,
                                true,
                                pos as int,
                                sp,
                            );
                        }
                    } else {
                        proof {
                            lemma_step_keep(vals0, *elem, *stylesheet, rii, jj, pos as int, spec_of(sp));
                        }
                    }
                },
                None => {
                    values.push((d.name.clone(), d.value.clone(), sp));
                    proof {
                        lemma_step_push(vals0, values@, *elem, *stylesheet, rii, jj, false, 0, sp);
                    }
                },
            }
            j = j + 1;
        }
        m = m + 1;
        proof {
            let bi2: int = if m < matched@.len() {
                matched@[m as int].1 as int
            } else {
                nrules as int
            };
            lemma_advance_rule(values@, *elem, *stylesheet, matched@, m as int, rii, bi2);
        }
    }
    let mut out: Vec<(String, Value)> = Vec::new();
    let mut k: usize = 0;
    while k < values.len()
        invariant
            k <= values@.len(),
            out@.len() == k,
            forall|k2: int|
                0 <= k2 < k ==> #[trigger] out@[k2] == (values@[k2].0, values@[k2].1),
        decreases values@.len() - k,
    {
        out.push((values[k].0.clone(), values[k].1.clone()));
        k = k + 1;
    }
    proof {
        lemma_final_cascade(values@, out@, *elem, *stylesheet);
    }
    out
}

/// Cascade override: when exactly two matching rules declare a
/// property and one has strictly higher specificity, that rule's last
/// declaration of the property decides the final value, regardless of
/// which of the two rules comes first in the stylesheet.
pub proof fn lemma_cascade_override(
    m: Seq<(String, Value)>,
    e: ElementData,
    sheet: Stylesheet,
    i1: int,
    j1: int,
    i2: int,
    j2: int,
    p: Seq<char>,
)
    requires
        cascade_ok(m, e, sheet),
        is_candidate(e, sheet, i1, j1, p),
        is_candidate(e, sheet, i2, j2, p),
        forall|i: int, j: int| #[trigger] is_candidate(e, sheet, i, j, p) ==> i == i1 || i == i2,
        forall|j: int| #[trigger] is_candidate(e, sheet, i2, j, p) ==> j <= j2,
        spec_lex_le(spec_rule_spec(e, sheet.rules@[i1]), spec_rule_spec(e, sheet.rules@[i2])),
        spec_rule_spec(e, sheet.rules@[i1]) != spec_rule_spec(e, sheet.rules@[i2]),
    ensures
        spec_map_get(m, p) == Some(sheet.rules@[i2].declarations@[j2].value),
{
    assert(is_winner(e, sheet, i2, j2)) by {
        assert forall|ia: int, ja: int|
            is_candidate(e, sheet, ia, ja, p) implies #[trigger] key_le(
            e,
            sheet,
            ia,
            ja,
            i2,
            j2,
        ) by {
            if ia == i2 {
                assert(ja <= j2);
            } else {
                assert(ia == i1);
            }
        }
    }
}

/// Stable tie-break: when exactly two matching rules of equal
/// specificity declare a property, the rule declared later in the
/// stylesheet decides the final value.
pub proof fn lemma_stable_tie_break(
    m: Seq<(String, Value)>,
    e: ElementData,
    sheet: Stylesheet,
    i1: int,
    j1: int,
    i2: int,
    j2: int,
    p: Seq<char>,
)
    requires
        cascade_ok(m, e, sheet),
        is_candidate(e, sheet, i1, j1, p),
        is_candidate(e, sheet, i2, j2, p),
        forall|i: int, j: int| #[trigger] is_candidate(e, sheet, i, j, p) ==> i == i1 || i == i2,
        forall|j: int| #[trigger] is_candidate(e, sheet, i2, j, p) ==> j <= j2,
        i1 < i2,
        spec_rule_spec(e, sheet.rules@[i1]) == spec_rule_spec(e, sheet.rules@[i2]),
    ensures
        spec_map_get(m, p) == Some(sheet.rules@[i2].declarations@[j2].value),
{
    assert(is_winner(e, sheet, i2, j2)) by {
        assert forall|ia: int, ja: int|
            is_candidate(e, sheet, ia, ja, p) implies #[trigger] key_le(
            e,
            sheet,
            ia,
            ja,
            i2,
            j2,
        ) by {
            if ia == i2 {
                assert(ja <= j2);
            } else {
                assert(ia == i1);
            }
        }
    }
}

/// Totality and transitivity facts about the precedence order follow
/// from `spec_lex_le` being a total order on integer triples.
proof fn lemma_key_le_trans(
    e: ElementData,
    sheet: Stylesheet,
    i1: int,
    j1: int,
    i2: int,
    j2: int,
    i3: int,
    j3: int,
)
    requires
        key_le(e, sheet, i1, j1, i2, j2),
        key_le(e, sheet, i2, j2, i3, j3),
    ensures
        key_le(e, sheet, i1, j1, i3, j3),
{
}

proof fn lemma_step_keep(
    vals: Seq<(String, Value, Specificity)>,
    e: ElementData,
    sheet: Stylesheet,
    ri: int,
    jj: int,
    pos: int,
    spn: (int, int, int),
)
    requires
        state_ok(vals, e, sheet, ri, jj),
        is_candidate(e, sheet, ri, jj, sheet.rules@[ri].declarations@[jj].name@),
        spec_rule_spec(e, sheet.rules@[ri]) == spn,
        0 <= pos < vals.len(),
        vals[pos].0@ == sheet.rules@[ri].declarations@[jj].name@,
        !spec_lex_le(spec_of(vals[pos].2), spn),
    ensures
        state_ok(vals, e, sheet, ri, jj + 1),
{
    let p = sheet.rules@[ri].declarations@[jj].name@;
    assert forall|k: int| 0 <= k < vals.len() implies entry_ok(
        e,
        sheet,
        (#[trigger] vals[k]).0@,
        vals[k].1,
        spec_of(vals[k].2),
        ri,
        jj + 1,
    ) by {
        let q = vals[k].0@;
        assert(entry_ok(e, sheet, q, vals[k].1, spec_of(vals[k].2), ri, jj));
        let (io, jo) = choose|io: int, jo: int|
            {
                &&& #[trigger] is_candidate(e, sheet, io, jo, q)
                &&& before(io, jo, ri, jj)
                &&& sheet.rules@[io].declarations@[jo].value == vals[k].1
                &&& spec_rule_spec(e, sheet.rules@[io]) == spec_of(vals[k].2)
                &&& forall|i2: int, j2: int|
                    is_candidate(e, sheet, i2, j2, q) && before(i2, j2, ri, jj)
                        ==> #[trigger] key_le(e, sheet, i2, j2, io, jo)
            };
        assert forall|i2: int, j2: int|
            is_candidate(e, sheet, i2, j2, q) && before(i2, j2, ri, jj + 1) implies #[trigger] key_le(
            e,
            sheet,
            i2,
            j2,
            io,
            jo,
        ) by {
            if i2 == ri && j2 == jj {
                // the freshly processed declaration: only relevant when it
                // names q, i.e. when this is the entry at `pos`
                assert(q == p);
                assert(k == pos);
                assert(spec_rule_spec(e, sheet.rules@[io]) == spec_of(vals[pos].2));
                assert(key_le(e, sheet, ri, jj, io, jo));
            }
        }
    }
    assert forall|p2: Seq<char>| #[trigger]
        covered(e, sheet, ri, jj + 1, p2) implies has_name(vals, p2) by {
        let (i, j) = choose|i: int, j: int| #[trigger]
            is_candidate(e, sheet, i, j, p2) && before(i, j, ri, jj + 1);
        if i == ri && j == jj {
            assert(vals[pos].0@ == p2);
        } else {
            assert(covered(e, sheet, ri, jj, p2));
        }
    }
    assert forall|p2: Seq<char>| has_name(vals, p2) implies #[trigger] covered(
        e,
        sheet,
        ri,
        jj + 1,
        p2,
    ) by {
        assert(covered(e, sheet, ri, jj, p2));
        let (i, j) = choose|i: int, j: int| #[trigger]
            is_candidate(e, sheet, i, j, p2) && before(i, j, ri, jj);
        assert(before(i, j, ri, jj + 1));
    }
}

/// After processing declaration `(ri, jj)`, the freshly pushed entry is
/// the cascade maximum for its name up to `(ri, jj + 1)`, and all other
/// entries keep their maxima.
proof fn lemma_step_push(
    vals0: Seq<(String, Value, Specificity)>,
    vals1: Seq<(String, Value, Specificity)>,
    e: ElementData,
    sheet: Stylesheet,
    ri: int,
    jj: int,
    removed: bool,
    pos: int,
    spx: Specificity,
)
    requires
        state_ok(vals0, e, sheet, ri, jj),
        is_candidate(e, sheet, ri, jj, sheet.rules@[ri].declarations@[jj].name@),
        spec_rule_spec(e, sheet.rules@[ri]) == spec_of(spx),
        removed ==> 0 <= pos < vals0.len() && vals0[pos].0@
            == sheet.rules@[ri].declarations@[jj].name@ && spec_lex_le(
            spec_of(vals0[pos].2),
            spec_of(spx),
        ),
        !removed ==> forall|k: int|
            0 <= k < vals0.len() ==> (#[trigger] vals0[k]).0@ != sheet.rules@[
                ri
            ].declarations@[jj].name@,
        vals1 == (if removed {
            vals0.remove(pos)
        } else {
            vals0
        }).push(
            (
                sheet.rules@[ri].declarations@[jj].name,
                sheet.rules@[ri].declarations@[jj].value,
                spx,
            ),
        ),
    ensures
        state_ok(vals1, e, sheet, ri, jj + 1),
{
    let p = sheet.rules@[ri].declarations@[jj].name@;
    let mid = if removed {
        vals0.remove(pos)
    } else {
        vals0
    };
    let n1 = vals1.len() - 1;
    assert forall|k: int| 0 <= k < n1 implies exists|k0: int|
        0 <= k0 < vals0.len() && k0 != (if removed {
            pos
        } else {
            -1
        }) && #[trigger] vals1[k] == vals0[k0] by {
        if removed {
            if k < pos {
                assert(vals1[k] == vals0[k]);
            } else {
                assert(vals1[k] == vals0[k + 1]);
            }
        } else {
            assert(vals1[k] == vals0[k]);
        }
    }
    // names other than `p` keep their entries; `p`'s entry is the new last
    assert forall|k: int| 0 <= k < n1 implies (#[trigger] vals1[k]).0@ != p by {
        let k0 = choose|k0: int|
            0 <= k0 < vals0.len() && k0 != (if removed {
                pos
            } else {
                -1
            }) && #[trigger] vals1[k] == vals0[k0];
        if removed {
            assert(vals0[k0].0@ != vals0[pos].0@);
        }
    }
    // uniqueness
    assert forall|k1: int, k2: int| 0 <= k1 < k2 < vals1.len() implies vals1[k1].0@
        != vals1[k2].0@ by {
        if k2 < n1 {
            let k10 = choose|k0: int|
                0 <= k0 < vals0.len() && k0 != (if removed {
                    pos
                } else {
                    -1
                }) && #[trigger] vals1[k1] == vals0[k0];
            let k20 = choose|k0: int|
                0 <= k0 < vals0.len() && k0 != (if removed {
                    pos
                } else {
                    -1
                }) && #[trigger] vals1[k2] == vals0[k0];
            if removed {
                if k1 < pos {
                    assert(vals1[k1] == vals0[k1]);
                } else {
                    assert(vals1[k1] == vals0[k1 + 1]);
                }
                if k2 < pos {
                    assert(vals1[k2] == vals0[k2]);
                } else {
                    assert(vals1[k2] == vals0[k2 + 1]);
                }
            }
        }
    }
    // each surviving entry keeps its maximum under the widened bound
    assert forall|k: int| 0 <= k < vals1.len() implies entry_ok(
        e,
        sheet,
        (#[trigger] vals1[k]).0@,
        vals1[k].1,
        spec_of(vals1[k].2),
        ri,
        jj + 1,
    ) by {
        if k < n1 {
            let q = vals1[k].0@;
            let k0 = choose|k0: int|
                0 <= k0 < vals0.len() && k0 != (if removed {
                    pos
                } else {
                    -1
                }) && #[trigger] vals1[k] == vals0[k0];
            assert(entry_ok(e, sheet, q, vals0[k0].1, spec_of(vals0[k0].2), ri, jj));
            let (io, jo) = choose|io: int, jo: int|
                {
                    &&& #[trigger] is_candidate(e, sheet, io, jo, q)
                    &&& before(io, jo, ri, jj)
                    &&& sheet.rules@[io].declarations@[jo].value == vals0[k0].1
                    &&& spec_rule_spec(e, sheet.rules@[io]) == spec_of(vals0[k0].2)
                    &&& forall|i2: int, j2: int|
                        is_candidate(e, sheet, i2, j2, q) && before(i2, j2, ri, jj)
                            ==> #[trigger] key_le(e, sheet, i2, j2, io, jo)
                };
            assert forall|i2: int, j2: int|
                is_candidate(e, sheet, i2, j2, q) && before(i2, j2, ri, jj + 1) implies #[trigger] key_le(
                e,
                sheet,
                i2,
                j2,
                io,
                jo,
            ) by {
                if i2 == ri && j2 == jj {
                    assert(q == p);
                    assert(false);
                }
            }
        } else {
            // the new entry: its witness is (ri, jj) itself
            assert forall|i2: int, j2: int|
                is_candidate(e, sheet, i2, j2, p) && before(i2, j2, ri, jj + 1) implies #[trigger] key_le(
                e,
                sheet,
                i2,
                j2,
                ri,
                jj,
            ) by {
                if !(i2 == ri && j2 == jj) {
                    assert(before(i2, j2, ri, jj));
                    assert(covered(e, sheet, ri, jj, p));
                    assert(has_name(vals0, p));
                    let kp = choose|kp: int| 0 <= kp < vals0.len() && #[trigger] vals0[kp].0@ == p;
                    assert(removed && kp == pos);
                    assert(entry_ok(e, sheet, p, vals0[pos].1, spec_of(vals0[pos].2), ri, jj));
                    let (io, jo) = choose|io: int, jo: int|
                        {
                            &&& #[trigger] is_candidate(e, sheet, io, jo, p)
                            &&& before(io, jo, ri, jj)
                            &&& sheet.rules@[io].declarations@[jo].value == vals0[pos].1
                            &&& spec_rule_spec(e, sheet.rules@[io]) == spec_of(vals0[pos].2)
                            &&& forall|i3: int, j3: int|
                                is_candidate(e, sheet, i3, j3, p) && before(i3, j3, ri, jj)
                                    ==> #[trigger] key_le(e, sheet, i3, j3, io, jo)
                        };
                    assert(key_le(e, sheet, i2, j2, io, jo));
                    assert(key_le(e, sheet, io, jo, ri, jj));
                    lemma_key_le_trans(e, sheet, i2, j2, io, jo, ri, jj);
                }
            }
            assert(is_candidate(e, sheet, ri, jj, p));
            assert(before(ri, jj, ri, jj + 1));
            assert(entry_ok(e, sheet, p, vals1[k].1, spec_of(vals1[k].2), ri, jj + 1));
        }
    }
    // domain: exactly the old names plus `p`
    assert forall|p2: Seq<char>| #[trigger]
        covered(e, sheet, ri, jj + 1, p2) implies has_name(vals1, p2) by {
        let (i, j) = choose|i: int, j: int| #[trigger]
            is_candidate(e, sheet, i, j, p2) && before(i, j, ri, jj + 1);
        if i == ri && j == jj {
            assert(vals1[n1].0@ == p2);
        } else {
            assert(covered(e, sheet, ri, jj, p2));
            assert(has_name(vals0, p2));
            if p2 == p {
                assert(vals1[n1].0@ == p2);
            } else {
                let kp = choose|kp: int| 0 <= kp < vals0.len() && #[trigger] vals0[kp].0@ == p2;
                if removed {
                    assert(kp != pos);
                    if kp < pos {
                        assert(vals1[kp] == vals0[kp]);
                        assert(vals1[kp].0@ == p2);
                    } else {
                        assert(vals1[kp - 1] == vals0[kp]);
                        assert(vals1[kp - 1].0@ == p2);
                    }
                } else {
                    assert(vals1[kp].0@ == p2);
                }
            }
        }
    }
    assert forall|p2: Seq<char>| has_name(vals1, p2) implies #[trigger] covered(
        e,
        sheet,
        ri,
        jj + 1,
        p2,
    ) by {
        let k = choose|k: int| 0 <= k < vals1.len() && #[trigger] vals1[k].0@ == p2;
        if k == n1 {
            assert(is_candidate(e, sheet, ri, jj, p2));
            assert(before(ri, jj, ri, jj + 1));
        } else {
            let k0 = choose|k0: int|
                0 <= k0 < vals0.len() && k0 != (if removed {
                    pos
                } else {
                    -1
                }) && #[trigger] vals1[k] == vals0[k0];
            assert(has_name(vals0, p2));
            assert(covered(e, sheet, ri, jj, p2));
            let (i, j) = choose|i: int, j: int| #[trigger]
                is_candidate(e, sheet, i, j, p2) && before(i, j, ri, jj);
            assert(before(i, j, ri, jj + 1));
        }
    }
}

/// Moving from the end of one matched rule's declarations to the start
/// of the next matched rule changes no processed-candidate set: the
/// rules in between match nothing.
proof fn lemma_advance_rule(
    vals: Seq<(String, Value, Specificity)>,
    e: ElementData,
    sheet: Stylesheet,
    matched: Seq<(Specificity, usize)>,
    m: int,
    ri: int,
    bi2: int,
)
    requires
        state_ok(vals, e, sheet, ri, sheet.rules@[ri].declarations@.len() as int),
        0 <= ri < sheet.rules@.len(),
        1 <= m <= matched.len(),
        matched[m - 1].1 == ri,
        forall|k: int|
            0 <= k < matched.len() ==> 0 <= (#[trigger] matched[k].1 as int) < sheet.rules@.len(),
        forall|k1: int, k2: int| 0 <= k1 < k2 < matched.len() ==> matched[k1].1 < matched[k2].1,
        forall|i: int|
            0 <= i < sheet.rules@.len() && spec_rule_match(
                e,
                #[trigger] sheet.rules@[i].selectors@,
            ) is Some ==> exists|k: int| 0 <= k < matched.len() && #[trigger] matched[k].1 == i,
        bi2 == if m < matched.len() {
            matched[m].1 as int
        } else {
            sheet.rules@.len() as int
        },
    ensures
        state_ok(vals, e, sheet, bi2, 0),
{
    let dl = sheet.rules@[ri].declarations@.len() as int;
    assert(ri < bi2) by {
        if m < matched.len() {
            assert(matched[m - 1].1 < matched[m].1);
        }
    }
    // candidate positions below the new bound are exactly those below the old
    assert forall|i: int, j: int, p: Seq<char>|
        #[trigger] is_candidate(e, sheet, i, j, p) implies (before(i, j, bi2, 0) <==> before(
        i,
        j,
        ri,
        dl,
    )) by {
        if before(i, j, bi2, 0) {
            let k = choose|k: int| 0 <= k < matched.len() && #[trigger] matched[k].1 == i;
            if i > ri {
                assert(k >= m) by {
                    if k < m - 1 {
                        assert(matched[k].1 < matched[m - 1].1);
                    }
                }
                assert(m < matched.len());
                assert(matched[m].1 <= matched[k].1) by {
                    if m < k {
                        assert(matched[m].1 < matched[k].1);
                    }
                }
                assert(false);
            }
        }
    }
    assert forall|k: int| 0 <= k < vals.len() implies entry_ok(
        e,
        sheet,
        (#[trigger] vals[k]).0@,
        vals[k].1,
        spec_of(vals[k].2),
        bi2,
        0,
    ) by {
        let q = vals[k].0@;
        assert(entry_ok(e, sheet, q, vals[k].1, spec_of(vals[k].2), ri, dl));
        let (io, jo) = choose|io: int, jo: int|
            {
                &&& #[trigger] is_candidate(e, sheet, io, jo, q)
                &&& before(io, jo, ri, dl)
                &&& sheet.rules@[io].declarations@[jo].value == vals[k].1
                &&& spec_rule_spec(e, sheet.rules@[io]) == spec_of(vals[k].2)
                &&& forall|i2: int, j2: int|
                    is_candidate(e, sheet, i2, j2, q) && before(i2, j2, ri, dl)
                        ==> #[trigger] key_le(e, sheet, i2, j2, io, jo)
            };
        assert(before(io, jo, bi2, 0));
        assert forall|i2: int, j2: int|
            is_candidate(e, sheet, i2, j2, q) && before(i2, j2, bi2, 0) implies #[trigger] key_le(
            e,
            sheet,
            i2,
            j2,
            io,
            jo,
        ) by {
            assert(before(i2, j2, ri, dl));
        }
    }
    assert forall|p2: Seq<char>| #[trigger] covered(e, sheet, bi2, 0, p2) implies has_name(
        vals,
        p2,
    ) by {
        let (i, j) = choose|i: int, j: int| #[trigger]
            is_candidate(e, sheet, i, j, p2) && before(i, j, bi2, 0);
        assert(covered(e, sheet, ri, dl, p2));
    }
    assert forall|p2: Seq<char>| has_name(vals, p2) implies #[trigger] covered(
        e,
        sheet,
        bi2,
        0,
        p2,
    ) by {
        assert(covered(e, sheet, ri, dl, p2));
        let (i, j) = choose|i: int, j: int| #[trigger]
            is_candidate(e, sheet, i, j, p2) && before(i, j, ri, dl);
        assert(before(i, j, bi2, 0));
    }
}

/// First-match lookup in a list with unique names finds an entry iff
/// one carries the name, and then yields that entry's value.
proof fn lemma_map_get_unique(m: Seq<(String, Value)>, p: Seq<char>)
    requires
        unique_names(m),
    ensures
        spec_map_get(m, p) is Some <==> exists|k: int| 0 <= k < m.len() && #[trigger] m[k].0@ == p,
        forall|k: int|
            0 <= k < m.len() && #[trigger] m[k].0@ == p ==> spec_map_get(m, p) == Some(m[k].1),
    decreases m.len(),
{
    if m.len() > 0 {
        assert(unique_names(m.drop_first())) by {
            assert forall|k1: int, k2: int|
                0 <= k1 < k2 < m.drop_first().len() implies m.drop_first()[k1].0@
                != m.drop_first()[k2].0@ by {
                assert(m.drop_first()[k1] == m[k1 + 1]);
                assert(m.drop_first()[k2] == m[k2 + 1]);
            }
        }
        lemma_map_get_unique(m.drop_first(), p);
        if m[0].0@ == p {
            assert(exists|k: int| 0 <= k < m.len() && #[trigger] m[k].0@ == p);
            assert forall|k: int| 0 <= k < m.len() && #[trigger] m[k].0@ == p implies spec_map_get(
                m,
                p,
            ) == Some(m[k].1) by {
                if k > 0 {
                    assert(m[0].0@ != m[k].0@);
                }
            }
        } else {
            if spec_map_get(m, p) is Some {
                let k = choose|k: int|
                    0 <= k < m.drop_first().len() && #[trigger] m.drop_first()[k].0@ == p;
                assert(m[k + 1].0@ == p);
            }
            if exists|k: int| 0 <= k < m.len() && #[trigger] m[k].0@ == p {
                let k = choose|k: int| 0 <= k < m.len() && #[trigger] m[k].0@ == p;
                assert(m.drop_first()[k - 1].0@ == p);
            }
            assert forall|k: int| 0 <= k < m.len() && #[trigger] m[k].0@ == p implies spec_map_get(
                m,
                p,
            ) == Some(m[k].1) by {
                assert(m.drop_first()[k - 1].0@ == p);
                assert(spec_map_get(m.drop_first(), p) == Some(m.drop_first()[k - 1].1));
            }
        }
    }
}

/// The fully processed entry list, stripped of its working
/// specificities, satisfies the cascade contract.
proof fn lemma_final_cascade(
    vals: Seq<(String, Value, Specificity)>,
    out: Seq<(String, Value)>,
    e: ElementData,
    sheet: Stylesheet,
)
    requires
        state_ok(vals, e, sheet, sheet.rules@.len() as int, 0),
        out.len() == vals.len(),
        forall|k: int| 0 <= k < out.len() ==> #[trigger] out[k] == (vals[k].0, vals[k].1),
    ensures
        cascade_ok(out, e, sheet),
{
    let nr = sheet.rules@.len() as int;
    assert(unique_names(out));
    assert forall|p: Seq<char>| (#[trigger] spec_map_get(out, p)) is Some implies exists|
        i: int,
        j: int,
    | is_candidate(e, sheet, i, j, p) by {
        lemma_map_get_unique(out, p);
        let k = choose|k: int| 0 <= k < out.len() && #[trigger] out[k].0@ == p;
        assert(vals[k].0@ == p);
        assert(has_name(vals, p));
        assert(covered(e, sheet, nr, 0, p));
        let (i, j) = choose|i: int, j: int| #[trigger]
            is_candidate(e, sheet, i, j, p) && before(i, j, nr, 0);
    }
    assert forall|p: Seq<char>| (exists|i: int, j: int| is_candidate(e, sheet, i, j, p)) implies (
    #[trigger] spec_map_get(out, p)) is Some by {
        let (i, j) = choose|i: int, j: int| #[trigger] is_candidate(e, sheet, i, j, p);
        assert(before(i, j, nr, 0));
        assert(covered(e, sheet, nr, 0, p));
        assert(has_name(vals, p));
        let k = choose|k: int| 0 <= k < vals.len() && #[trigger] vals[k].0@ == p;
        assert(out[k].0@ == p);
        lemma_map_get_unique(out, p);
    }
    assert forall|i: int, j: int| #[trigger] is_winner(e, sheet, i, j) implies spec_map_get(
        out,
        sheet.rules@[i].declarations@[j].name@,
    ) == Some(sheet.rules@[i].declarations@[j].value) by {
        let p = sheet.rules@[i].declarations@[j].name@;
        assert(is_candidate(e, sheet, i, j, p));
        assert(before(i, j, nr, 0));
        assert(covered(e, sheet, nr, 0, p));
        assert(has_name(vals, p));
        let k = choose|k: int| 0 <= k < vals.len() && #[trigger] vals[k].0@ == p;
        assert(entry_ok(e, sheet, p, vals[k].1, spec_of(vals[k].2), nr, 0));
        let (io, jo) = choose|io: int, jo: int|
            {
                &&& #[trigger] is_candidate(e, sheet, io, jo, p)
                &&& before(io, jo, nr, 0)
                &&& sheet.rules@[io].declarations@[jo].value == vals[k].1
                &&& spec_rule_spec(e, sheet.rules@[io]) == spec_of(vals[k].2)
                &&& forall|i2: int, j2: int|
                    is_candidate(e, sheet, i2, j2, p) && before(i2, j2, nr, 0)
                        ==> #[trigger] key_le(e, sheet, i2, j2, io, jo)
            };
        assert(key_le(e, sheet, i, j, io, jo));
        assert(key_le(e, sheet, io, jo, i, j));
        assert(io == i && jo == j);
        assert(out[k].0@ == p);
        assert(out[k].1 == sheet.rules@[i].declarations@[j].value);
        lemma_map_get_unique(out, p);
    }
}


/// The height of a styled tree.
pub open spec fn sheight(n: StyledNode) -> nat
    decreases n,
{
    1 + sheight_seq(n.children@)
}

pub open spec fn sheight_seq(cs: Seq<StyledNode>) -> nat
    decreases cs,
{
    if cs.len() == 0 {
        0
    } else if sheight(cs[0]) >= sheight_seq(cs.drop_first()) {
        sheight(cs[0])
    } else {
        sheight_seq(cs.drop_first())
    }
}

proof fn lemma_sheight_elem(cs: Seq<StyledNode>, i: int)
    requires
        0 <= i < cs.len(),
    ensures
        sheight(cs[i]) <= sheight_seq(cs),
    decreases i,
{
    if i > 0 {
        lemma_sheight_elem(cs.drop_first(), i - 1);
        assert(cs.drop_first()[i - 1] == cs[i]);
    }
}

/// The preorder traversal of a styled tree: each node with its depth.
pub open spec fn spec_outline(n: StyledNode, d: int) -> Seq<(int, StyledNode)>
    decreases n,
{
    seq![(d, n)] + spec_outline_seq(n.children@, d + 1)
}

pub open spec fn spec_outline_seq(cs: Seq<StyledNode>, d: int) -> Seq<(int, StyledNode)>
    decreases cs,
{
    if cs.len() == 0 {
        Seq::empty()
    } else {
        spec_outline(cs[0], d) + spec_outline_seq(cs.drop_first(), d)
    }
}

proof fn lemma_outline_seq_take(cs: Seq<StyledNode>, d: int, i: int)
    requires
        0 <= i < cs.len(),
    ensures
        spec_outline_seq(cs.take(i + 1), d) == spec_outline_seq(cs.take(i), d) + spec_outline(
            cs[i],
            d,
        ),
    decreases i,
{
    if i == 0 {
        assert(cs.take(1).len() == 1);
        assert(cs.take(1)[0] == cs[0]);
        assert(cs.take(1).drop_first() =~= Seq::empty());
        assert(cs.take(0) =~= Seq::empty());
        assert(spec_outline_seq(cs.take(1), d) =~= spec_outline_seq(cs.take(0), d) + spec_outline(
            cs[0],
            d,
        ));
    } else {
        lemma_outline_seq_take(cs.drop_first(), d, i - 1);
        assert(cs.take(i + 1)[0] == cs[0]);
        assert(cs.take(i + 1).drop_first() =~= cs.drop_first().take(i));
        assert(cs.take(i).drop_first() =~= cs.drop_first().take(i - 1));
        assert(cs.drop_first()[i - 1] == cs[i]);
        assert(spec_outline_seq(cs.take(i + 1), d) =~= spec_outline_seq(cs.take(i), d)
            + spec_outline(cs[i], d));
    }
}

/// The rows list the traversal's nodes with the right depths.
pub open spec fn rows_match(rows: Seq<(u32, &StyledNode)>, s: Seq<(int, StyledNode)>) -> bool {
    &&& rows.len() == s.len()
    &&& forall|k: int|
        0 <= k < s.len() ==> (#[trigger] rows[k]).0 == s[k].0 && *rows[k].1 == s[k].1
}

proof fn lemma_rows_match_concat(
    a: Seq<(u32, &StyledNode)>,
    b: Seq<(u32, &StyledNode)>,
    s: Seq<(int, StyledNode)>,
    t: Seq<(int, StyledNode)>,
)
    requires
        rows_match(a, s),
        rows_match(b, t),
    ensures
        rows_match(a + b, s + t),
{
    assert forall|k: int|
        0 <= k < (s + t).len() implies (#[trigger] (a + b)[k]).0 == (s + t)[k].0 && *(a + b)[k].1
        == (s + t)[k].1 by {
        if k < s.len() {
            assert((a + b)[k] == a[k]);
        } else {
            assert((a + b)[k] == b[k - s.len()]);
        }
    }
}

/// A read-only preorder visit of a styled tree: each node with its
/// depth, ready for printing or other inspection.
pub fn outline<'a, 'b>(root: &'b StyledNode<'a>) -> (r: Vec<(u32, &'b StyledNode<'a>)>)
    requires
        sheight(*root) <= 1000000,
    ensures
        rows_match(r@, spec_outline(*root, 0)),
{
    outline_from(root, 0)
}

fn outline_from<'a, 'b>(node: &'b StyledNode<'a>, depth: u32) -> (r: Vec<(
    u32,
    &'b StyledNode<'a>,
)>)
    requires
        depth + sheight(*node) <= 1000001,
    ensures
        rows_match(r@, spec_outline(*node, depth as int)),
    decreases *node,
{
    let mut out: Vec<(u32, &'b StyledNode<'a>)> = Vec::new();
    out.push((depth, node));
    proof {
        assert(node.children@.take(0) =~= Seq::empty());
        assert(out@ =~= seq![(depth, node)] + Seq::<(u32, &StyledNode)>::empty());
        assert(rows_match(
            out@,
            seq![(depth as int, *node)] + spec_outline_seq(node.children@.take(0), depth + 1),
        ));
    }
    let mut i: usize = 0;
    while i < node.children.len()
        invariant
            i <= node.children@.len(),
            depth + sheight(*node) <= 1000001,
            rows_match(
                out@,
                seq![(depth as int, *node)] + spec_outline_seq(
                    node.children@.take(i as int),
                    depth + 1,
                ),
            ),
        decreases node.children@.len() - i,
    {
        proof {
            lemma_sheight_elem(node.children@, i as int);
        }
        let mut rows = outline_from(&node.children[i], depth + 1);
        let ghost pre = out@;
        let ghost rs = rows@;
        out.append(&mut rows);
        i = i + 1;
        proof {
            lemma_outline_seq_take(node.children@, depth + 1, i - 1);
            lemma_rows_match_concat(
                pre,
                rs,
                seq![(depth as int, *node)] + spec_outline_seq(
                    node.children@.take(i - 1),
                    depth + 1,
                ),
                spec_outline(node.children@[i - 1], depth + 1),
            );
            assert((seq![(depth as int, *node)] + spec_outline_seq(
                node.children@.take(i - 1),
                depth + 1,
            )) + spec_outline(node.children@[i - 1], depth + 1) =~= seq![(depth as int, *node)]
                + spec_outline_seq(node.children@.take(i as int), depth + 1));
        }
    }
    proof {
        assert(node.children@.take(node.children@.len() as int) =~= node.children@);
    }
    out
}

} // verus!
