use pareidolia::css::Color;
use pareidolia::css::Declaration;
use pareidolia::css::Rule;
use pareidolia::css::Selector;
use pareidolia::css::SimpleSelector;
use pareidolia::css::Stylesheet;
use pareidolia::css::Unit;
use pareidolia::css::Value;
use pareidolia::dom::elem;
use pareidolia::dom::outline;
use pareidolia::dom::text;
use pareidolia::dom::Node;
use pareidolia::dom::NodeType;
use pareidolia::layout::layout_tree;
use pareidolia::layout::Dimensions;
use pareidolia::layout::LayoutBox;
use pareidolia::painting::build_display_list;
use pareidolia::painting::DisplayCommand;
use pareidolia::style::matches_simple_selector;
use pareidolia::style::specified_values;
use pareidolia::style::style_tree;
use pareidolia::style::Display;

fn attrs(pairs: &[(&str, &str)]) -> Vec<(String, String)> {
    pairs.iter().map(|(k, v)| (k.to_string(), v.to_string())).collect()
}

fn simple(tag: Option<&str>, id: Option<&str>, classes: &[&str]) -> SimpleSelector {
    SimpleSelector {
        tag_name: tag.map(|t| t.to_string()),
        id: id.map(|i| i.to_string()),
        class: classes.iter().map(|c| c.to_string()).collect(),
    }
}

fn rule(sel: SimpleSelector, decls: Vec<(&str, Value)>) -> Rule {
    Rule {
        selectors: vec![Selector::Simple(sel)],
        declarations: decls
            .into_iter()
            .map(|(n, v)| Declaration { name: n.to_string(), value: v })
            .collect(),
    }
}

fn px(n: i64) -> Value {
    Value::Length(n, Unit::Px)
}

fn keyword(s: &str) -> Value {
    Value::Keyword(s.to_string())
}

fn get(map: &[(String, Value)], name: &str) -> Option<Value> {
    map.iter().find(|(n, _)| n == name).map(|(_, v)| v.clone())
}

fn viewport(w: i64, h: i64) -> Dimensions {
    let mut d: Dimensions = Default::default();
    d.content.width = w;
    d.content.height = h;
    d
}

fn value_eq(a: &Value, b: &Value) -> bool {
    match (a, b) {
        (Value::Keyword(x), Value::Keyword(y)) => x == y,
        (Value::Length(x, Unit::Px), Value::Length(y, Unit::Px)) => x == y,
        (Value::ColorValue(x), Value::ColorValue(y)) => x == y,
        _ => false,
    }
}

#[test]
fn specificity_of_tag_id_and_class_selectors() {
    // selector div#main has specificity (1, 0, 1)
    let s = Selector::Simple(simple(Some("div"), Some("main"), &[]));
    assert_eq!(s.specificity(), (1, 0, 1));
    // selector .main has specificity (0, 1, 0)
    let s = Selector::Simple(simple(None, None, &["main"]));
    assert_eq!(s.specificity(), (0, 1, 0));
}

#[test]
fn id_selector_wins_even_if_declared_first() {
    // the id rule comes first in the stylesheet, the class rule second;
    // the id rule's higher specificity still decides the property
    let sheet = Stylesheet {
        rules: vec![
            rule(simple(Some("div"), Some("main"), &[]), vec![("height", px(400))]),
            rule(simple(None, None, &["main"]), vec![("height", px(9))]),
        ],
    };
    let root = elem(
        "div".to_string(),
        attrs(&[("id", "main"), ("class", "main")]),
        Vec::new(),
    );
    let styled = style_tree(&root, &sheet);
    let v = styled.value("height").unwrap();
    assert!(value_eq(&v, &px(400)));
}

#[test]
fn equal_specificity_later_rule_wins() {
    let sheet = Stylesheet {
        rules: vec![
            rule(simple(Some("p"), None, &[]), vec![("width", px(1))]),
            rule(simple(Some("p"), None, &[]), vec![("width", px(2))]),
        ],
    };
    let root = elem("p".to_string(), attrs(&[]), Vec::new());
    let styled = style_tree(&root, &sheet);
    assert!(value_eq(&styled.value("width").unwrap(), &px(2)));
}

#[test]
fn higher_specificity_wins_regardless_of_order() {
    // class rule first, tag rule second: the class rule still wins
    let sheet = Stylesheet {
        rules: vec![
            rule(simple(None, None, &["wide"]), vec![("width", px(100))]),
            rule(simple(Some("p"), None, &[]), vec![("width", px(7))]),
        ],
    };
    let root = elem("p".to_string(), attrs(&[("class", "wide")]), Vec::new());
    let styled = style_tree(&root, &sheet);
    assert!(value_eq(&styled.value("width").unwrap(), &px(100)));
}

#[test]
fn selector_matches_iff_each_constraint_holds() {
    let e = match elem(
        "div".to_string(),
        attrs(&[("id", "main"), ("class", "a b")]),
        Vec::new(),
    )
    .node_type
    {
        NodeType::Element(e) => e,
        _ => unreachable!(),
    };
    // all constraints hold
    assert!(matches_simple_selector(&e, &simple(Some("div"), Some("main"), &["a", "b"])));
    // a failing tag, id or class constraint blocks the match
    assert!(!matches_simple_selector(&e, &simple(Some("p"), Some("main"), &["a"])));
    assert!(!matches_simple_selector(&e, &simple(Some("div"), Some("other"), &["a"])));
    assert!(!matches_simple_selector(&e, &simple(Some("div"), Some("main"), &["c"])));
    // omitting a constraint makes it a wildcard on that axis
    assert!(matches_simple_selector(&e, &simple(None, Some("main"), &["b"])));
    assert!(matches_simple_selector(&e, &simple(Some("div"), None, &[])));
    assert!(matches_simple_selector(&e, &simple(None, None, &[])));
    let sel = Selector::Simple(simple(None, None, &["a", "b"]));
    assert!(pareidolia::style::matches(&e, &sel));
}

#[test]
fn class_attribute_is_a_space_separated_token_set() {
    let e = match elem(
        "div".to_string(),
        attrs(&[("class", "  one  two three ")]),
        Vec::new(),
    )
    .node_type
    {
        NodeType::Element(e) => e,
        _ => unreachable!(),
    };
    let cls = e.classes();
    assert_eq!(cls, vec!["one".to_string(), "two".to_string(), "three".to_string()]);
    assert!(e.has_class(&"two".to_string()));
    assert!(!e.has_class(&"four".to_string()));
}

#[test]
fn text_nodes_get_an_empty_property_map() {
    let sheet = pareidolia::css::example();
    let root = elem(
        "html".to_string(),
        attrs(&[]),
        vec![text("hello".to_string())],
    );
    let styled = style_tree(&root, &sheet);
    assert!(styled.children[0].specified_values.is_empty());
    assert!(styled.children[0].value("background").is_none());
}

#[test]
fn lookup_falls_back_to_shorthand_then_default() {
    let sheet = Stylesheet {
        rules: vec![rule(simple(Some("p"), None, &[]), vec![("border-width", px(3))])],
    };
    let root = elem("p".to_string(), attrs(&[]), Vec::new());
    let styled = style_tree(&root, &sheet);
    let zero = px(0);
    assert!(value_eq(&styled.lookup("border-left-width", "border-width", &zero), &px(3)));
    assert!(value_eq(&styled.lookup("padding-left", "padding", &zero), &px(0)));
}

#[test]
fn display_none_and_default() {
    let sheet = Stylesheet {
        rules: vec![rule(simple(Some("aside"), None, &[]), vec![("display", keyword("none"))])],
    };
    let root = elem("div".to_string(), attrs(&[]), Vec::new());
    assert_eq!(style_tree(&root, &sheet).display(), Display::Vertical);
    let hidden = elem("aside".to_string(), attrs(&[]), Vec::new());
    assert_eq!(style_tree(&hidden, &sheet).display(), Display::DisplayNone);
}

#[test]
fn to_px_of_values() {
    assert_eq!(px(42).to_px(), 42);
    assert_eq!(keyword("auto").to_px(), 0);
    assert_eq!(
        Value::ColorValue(Color { r: 1, g: 2, b: 3, a: 4 }).to_px(),
        0
    );
}

#[test]
fn both_auto_borders_split_the_underflow_evenly() {
    // containing block content width 800; explicit width 400px; both
    // borders auto; no padding: underflow 400, 200px to each border
    let sheet = Stylesheet {
        rules: vec![rule(
            simple(Some("div"), None, &[]),
            vec![
                ("width", px(400)),
                ("border-left-width", keyword("auto")),
                ("border-right-width", keyword("auto")),
            ],
        )],
    };
    let root = elem("div".to_string(), attrs(&[]), Vec::new());
    let styled = style_tree(&root, &sheet);
    let lb = layout_tree(&styled, viewport(800, 600));
    assert_eq!(lb.dimensions.content.width, 400);
    assert_eq!(lb.dimensions.border.left, 200);
    assert_eq!(lb.dimensions.border.right, 200);
}

#[test]
fn width_defaults_to_fill_the_containing_block() {
    let sheet = Stylesheet { rules: Vec::new() };
    let root = elem("div".to_string(), attrs(&[]), Vec::new());
    let styled = style_tree(&root, &sheet);
    let lb = layout_tree(&styled, viewport(800, 600));
    assert_eq!(lb.dimensions.content.width, 800);
    assert_eq!(lb.dimensions.content.x, 0);
    assert_eq!(lb.dimensions.content.y, 0);
}

#[test]
fn over_constrained_width_pushes_remainder_into_border_right() {
    // width 700 + border-left 100 + border-right 100 exceeds 800:
    // border-right absorbs the underflow of -100, keeping the sums equal
    let sheet = Stylesheet {
        rules: vec![rule(
            simple(Some("div"), None, &[]),
            vec![
                ("width", px(700)),
                ("border-left-width", px(100)),
                ("border-right-width", px(100)),
            ],
        )],
    };
    let root = elem("div".to_string(), attrs(&[]), Vec::new());
    let styled = style_tree(&root, &sheet);
    let lb = layout_tree(&styled, viewport(800, 600));
    let d = lb.dimensions;
    assert_eq!(d.content.width, 700);
    assert_eq!(d.border.left, 100);
    assert_eq!(d.border.right, 0);
    // width conservation
    assert_eq!(
        d.border.left + d.padding.left + d.content.width + d.padding.right + d.border.right,
        800
    );
}

#[test]
fn negative_underflow_clamps_width_to_zero() {
    // the paddings alone exceed the containing block: width is clamped
    // to zero and border-right absorbs the deficit
    let sheet = Stylesheet {
        rules: vec![rule(
            simple(Some("div"), None, &[]),
            vec![("padding-left", px(20)), ("padding-right", px(30))],
        )],
    };
    let root = elem("div".to_string(), attrs(&[]), Vec::new());
    let styled = style_tree(&root, &sheet);
    let lb = layout_tree(&styled, viewport(10, 600));
    let d = lb.dimensions;
    assert_eq!(d.content.width, 0);
    assert_eq!(d.border.right, -40);
    assert_eq!(
        d.border.left + d.padding.left + d.content.width + d.padding.right + d.border.right,
        10
    );
}

#[test]
fn siblings_stack_vertically() {
    let sheet = Stylesheet {
        rules: vec![
            rule(simple(Some("p"), None, &[]), vec![("height", px(50))]),
            rule(
                simple(Some("q"), None, &[]),
                vec![("height", px(30)), ("padding-top", px(5)), ("border-bottom-width", px(2))],
            ),
        ],
    };
    let root = elem(
        "div".to_string(),
        attrs(&[]),
        vec![
            elem("p".to_string(), attrs(&[]), Vec::new()),
            elem("q".to_string(), attrs(&[]), Vec::new()),
            elem("p".to_string(), attrs(&[]), Vec::new()),
        ],
    );
    let styled = style_tree(&root, &sheet);
    let lb = layout_tree(&styled, viewport(800, 600));
    assert_eq!(lb.children.len(), 3);
    // first sibling at the parent's content origin
    assert_eq!(lb.children[0].dimensions.content.y, 0);
    // second sibling below the first one's border box, plus its own
    // padding-top
    assert_eq!(lb.children[1].dimensions.content.y, 50 + 5);
    // third sibling below both: 50 + (30 + 5 + 2) border box heights
    assert_eq!(lb.children[2].dimensions.content.y, 50 + 37);
    // the parent's height accumulates all three border boxes
    assert_eq!(lb.dimensions.content.height, 50 + 37 + 50);
}

#[test]
fn explicit_height_overrides_children() {
    let sheet = Stylesheet {
        rules: vec![
            rule(simple(Some("div"), None, &[]), vec![("height", px(400))]),
            rule(simple(Some("p"), None, &[]), vec![("height", px(50))]),
        ],
    };
    let root = elem(
        "div".to_string(),
        attrs(&[]),
        vec![
            elem("p".to_string(), attrs(&[]), Vec::new()),
            elem("p".to_string(), attrs(&[]), Vec::new()),
        ],
    );
    let styled = style_tree(&root, &sheet);
    let lb = layout_tree(&styled, viewport(800, 600));
    // the children sum to 100, but the explicit 400px height wins
    assert_eq!(lb.dimensions.content.height, 400);
}

#[test]
fn display_none_excludes_the_subtree() {
    let sheet = Stylesheet {
        rules: vec![rule(simple(Some("aside"), None, &[]), vec![("display", keyword("none"))])],
    };
    let root = elem(
        "div".to_string(),
        attrs(&[]),
        vec![
            elem("aside".to_string(), attrs(&[]), Vec::new()),
            elem("p".to_string(), attrs(&[]), Vec::new()),
        ],
    );
    let styled = style_tree(&root, &sheet);
    let lb = layout_tree(&styled, viewport(800, 600));
    assert_eq!(lb.children.len(), 1);
}

#[test]
fn nested_widths_follow_the_parent() {
    let sheet = Stylesheet {
        rules: vec![rule(
            simple(Some("div"), None, &[]),
            vec![("width", px(400)), ("padding-left", px(10))],
        )],
    };
    let root = elem(
        "div".to_string(),
        attrs(&[]),
        vec![elem("p".to_string(), attrs(&[]), Vec::new())],
    );
    let styled = style_tree(&root, &sheet);
    let lb = layout_tree(&styled, viewport(800, 600));
    // the child's auto width fills the parent's 400px content box
    assert_eq!(lb.children[0].dimensions.content.width, 400);
    // and starts at the parent's content x (10px of padding)
    assert_eq!(lb.children[0].dimensions.content.x, 10);
}

#[test]
fn cascade_of_example_stylesheet() {
    let sheet = pareidolia::css::example();
    assert_eq!(sheet.rules.len(), 3);
    let e = match elem("div".to_string(), attrs(&[("id", "main")]), Vec::new()).node_type {
        NodeType::Element(e) => e,
        _ => unreachable!(),
    };
    let values = specified_values(&e, &sheet);
    assert!(value_eq(&get(&values, "height").unwrap(), &px(400)));
    assert!(value_eq(
        &get(&values, "color").unwrap(),
        &Value::ColorValue(Color { r: 0, g: 0, b: 255, a: 255 }),
    ));
    assert!(get(&values, "background").is_none());
}

#[test]
fn later_declaration_in_same_rule_wins() {
    let sheet = Stylesheet {
        rules: vec![rule(
            simple(Some("p"), None, &[]),
            vec![("width", px(1)), ("width", px(2))],
        )],
    };
    let root = elem("p".to_string(), attrs(&[]), Vec::new());
    let styled = style_tree(&root, &sheet);
    assert!(value_eq(&styled.value("width").unwrap(), &px(2)));
}

#[test]
fn outline_visits_nodes_in_preorder_with_depths() {
    let root = elem(
        "html".to_string(),
        attrs(&[]),
        vec![
            elem(
                "div".to_string(),
                attrs(&[]),
                vec![text("inner".to_string())],
            ),
            elem("p".to_string(), attrs(&[]), Vec::new()),
        ],
    );
    let rows = outline(&root);
    let depths: Vec<u32> = rows.iter().map(|(d, _)| *d).collect();
    assert_eq!(depths, vec![0, 1, 2, 1]);
    let tags: Vec<String> = rows
        .iter()
        .map(|(_, n)| match &n.node_type {
            NodeType::Element(e) => e.tag_name.clone(),
            NodeType::Text(t) => t.clone(),
        })
        .collect();
    assert_eq!(
        tags,
        vec!["html".to_string(), "div".to_string(), "inner".to_string(), "p".to_string()]
    );
}

fn solid(cmd: &DisplayCommand) -> (Color, pareidolia::layout::Rect) {
    match cmd {
        DisplayCommand::SolidColor(c, r) => (*c, *r),
    }
}

#[test]
fn display_list_paints_background_and_borders() {
    let white = Color { r: 255, g: 255, b: 255, a: 255 };
    let black = Color { r: 0, g: 0, b: 0, a: 255 };
    let sheet = Stylesheet {
        rules: vec![rule(
            simple(Some("div"), None, &[]),
            vec![
                ("background", Value::ColorValue(white)),
                ("border-color", Value::ColorValue(black)),
                ("border-width", px(5)),
                ("width", px(100)),
                ("height", px(40)),
            ],
        )],
    };
    let root = elem("div".to_string(), attrs(&[]), Vec::new());
    let styled = style_tree(&root, &sheet);
    let lb: LayoutBox = layout_tree(&styled, viewport(200, 200));
    let list = build_display_list(&lb);
    // one background rectangle and four border strips
    assert_eq!(list.len(), 5);
    let (c0, r0) = solid(&list[0]);
    assert_eq!(c0, white);
    // explicit width plus explicit borders is over-constrained:
    // border-right absorbs the 90px underflow (5 + 90), so the border
    // box spans the whole 200px containing block
    assert_eq!(r0.x, 0);
    assert_eq!(r0.y, 0);
    assert_eq!(r0.width, 200);
    assert_eq!(r0.height, 50);
    // left border strip
    let (c1, r1) = solid(&list[1]);
    assert_eq!(c1, black);
    assert_eq!((r1.x, r1.y, r1.width, r1.height), (0, 0, 5, 50));
    // right border strip: 95px wide after absorbing the underflow
    let (_, r2) = solid(&list[2]);
    assert_eq!((r2.x, r2.y, r2.width, r2.height), (105, 0, 95, 50));
}

#[test]
fn anonymous_free_tree_has_one_box_per_participating_node() {
    let sheet = Stylesheet { rules: Vec::new() };
    let root = elem(
        "html".to_string(),
        attrs(&[]),
        vec![elem(
            "div".to_string(),
            attrs(&[]),
            vec![elem("p".to_string(), attrs(&[]), Vec::new())],
        )],
    );
    let styled = style_tree(&root, &sheet);
    let lb = layout_tree(&styled, viewport(800, 600));
    assert_eq!(lb.children.len(), 1);
    assert_eq!(lb.children[0].children.len(), 1);
}
