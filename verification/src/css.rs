//! Stylesheet data model: rules, selectors, declarations and property values.
//!
//! Lengths are integer pixel counts; the only unit is `Px`.

use vstd::prelude::*;

verus! {

#[derive(Clone, Copy, Debug, PartialEq, Eq, Structural)]
pub enum Unit {
    Px,
}

#[derive(Clone, Copy, Debug, PartialEq, Eq, Structural)]
pub struct Color {
    pub r: u8,
    pub g: u8,
    pub b: u8,
    pub a: u8,
}

/// A property value: a keyword, a pixel length, or a color.
pub enum Value {
    Keyword(String),
    Length(i64, Unit),
    ColorValue(Color),
}

impl Clone for Value {
    fn clone(&self) -> (r: Value)
        ensures
            r == *self,
    {
        match self {
            Value::Keyword(s) => Value::Keyword(s.clone()),
            Value::Length(n, u) => Value::Length(*n, *u),
            Value::ColorValue(c) => Value::ColorValue(*c),
        }
    }
}

/// The pixel size of a length value; every other value counts as zero.
pub open spec fn spec_px(v: Value) -> int {
    match v {
        Value::Length(n, _) => n as int,
        _ => 0,
    }
}

/// Whether a value is the keyword `auto`.
pub open spec fn spec_is_auto(v: Value) -> bool {
    match v {
        Value::Keyword(s) => s@ == "auto"@,
        _ => false,
    }
}

impl Value {
    /// Return the size of a length in px, or zero for non-lengths.
    pub fn to_px(&self) -> (r: i64)
        ensures
            r == spec_px(*self),
    {
        match self {
            Value::Length(n, Unit::Px) => *n,
            _ => 0,
        }
    }

    /// Whether this value is the keyword `auto`.
    pub fn is_auto(&self) -> (r: bool)
        ensures
            r == spec_is_auto(*self),
    {
        match self {
            Value::Keyword(s) => {
                let auto = String::from_str("auto");
                *s == auto
            },
            _ => false,
        }
    }
}

/// A simple selector: optional tag name, optional id, zero or more
/// required class names.
pub struct SimpleSelector {
    pub tag_name: Option<String>,
    pub id: Option<String>,
    pub class: Vec<String>,
}

pub enum Selector {
    Simple(SimpleSelector),
}

pub struct Declaration {
    pub name: String,
    pub value: Value,
}

pub struct Rule {
    pub selectors: Vec<Selector>,
    pub declarations: Vec<Declaration>,
}

pub struct Stylesheet {
    pub rules: Vec<Rule>,
}

/// Specificity of a selector: (id count, class count, tag count).
pub type Specificity = (usize, usize, usize);

/// Specificity as a triple of mathematical integers.
pub open spec fn spec_specificity(s: Selector) -> (int, int, int) {
    match s {
        Selector::Simple(sim) => (
            if sim.id is Some {
                1int
            } else {
                0int
            },
            sim.class@.len() as int,
            if sim.tag_name is Some {
                1int
            } else {
                0int
            },
        ),
    }
}

/// Lexicographic order on specificity triples: id count first, then
/// class count, then tag count.
pub open spec fn spec_lex_le(a: (int, int, int), b: (int, int, int)) -> bool {
    a.0 < b.0 || (a.0 == b.0 && (a.1 < b.1 || (a.1 == b.1 && a.2 <= b.2)))
}

/// The integer triple denoted by an executable specificity value.
pub open spec fn spec_of(s: Specificity) -> (int, int, int) {
    (s.0 as int, s.1 as int, s.2 as int)
}

impl Selector {
    pub fn specificity(&self) -> (r: Specificity)
        ensures
            spec_of(r) == spec_specificity(*self),
    {
        match self {
            Selector::Simple(simple) => {
                let a: usize = if simple.id.is_some() {
                    1
                } else {
                    0
                };
                let b: usize = simple.class.len();
                let c: usize = if simple.tag_name.is_some() {
                    1
                } else {
                    0
                };
                (a, b, c)
            },
        }
    }
}

/// The demo stylesheet: a white `html` background, a blue 400px-high
/// `div#main` and a red 250px-high `div#second`.
pub open spec fn is_example(r: Stylesheet) -> bool {
    &&& r.rules@.len() == 3
    &&& r.rules@[0].selectors@.len() == 1
    &&& is_tag_id_selector(r.rules@[0].selectors@[0], Some("html"@), None)
    &&& r.rules@[0].declarations@.len() == 1
    &&& r.rules@[0].declarations@[0].name@ == "background"@
    &&& r.rules@[0].declarations@[0].value == Value::ColorValue(
        Color { r: 255, g: 255, b: 255, a: 255 },
    )
    &&& r.rules@[1].selectors@.len() == 1
    &&& is_tag_id_selector(r.rules@[1].selectors@[0], Some("div"@), Some("main"@))
    &&& r.rules@[1].declarations@.len() == 2
    &&& r.rules@[1].declarations@[0].name@ == "color"@
    &&& r.rules@[1].declarations@[0].value == Value::ColorValue(Color { r: 0, g: 0, b: 255, a: 255 })
    &&& r.rules@[1].declarations@[1].name@ == "height"@
    &&& r.rules@[1].declarations@[1].value == Value::Length(400, Unit::Px)
    &&& r.rules@[2].selectors@.len() == 1
    &&& is_tag_id_selector(r.rules@[2].selectors@[0], Some("div"@), Some("second"@))
    &&& r.rules@[2].declarations@.len() == 2
    &&& r.rules@[2].declarations@[0].name@ == "color"@
    &&& r.rules@[2].declarations@[0].value == Value::ColorValue(Color { r: 255, g: 0, b: 0, a: 255 })
    &&& r.rules@[2].declarations@[1].name@ == "height"@
    &&& r.rules@[2].declarations@[1].value == Value::Length(250, Unit::Px)
}

/// A simple selector with the given tag and id constraints and no
/// class constraints.
pub open spec fn is_tag_id_selector(s: Selector, tag: Option<Seq<char>>, id: Option<Seq<char>>) -> bool {
    match s {
        Selector::Simple(sim) => {
            &&& match (sim.tag_name, tag) {
                (Some(t), Some(tv)) => t@ == tv,
                (None, None) => true,
                _ => false,
            }
            &&& match (sim.id, id) {
                (Some(i), Some(iv)) => i@ == iv,
                (None, None) => true,
                _ => false,
            }
            &&& sim.class@.len() == 0
        },
    }
}

/// A small hard-coded stylesheet for rendering without a stylesheet
/// source: rules for `html`, `div#main` and `div#second`.
pub fn example() -> (r: Stylesheet)
    ensures
        is_example(r),
{
    // html rules
    let mut html_selects: Vec<Selector> = Vec::new();
    html_selects.push(
        Selector::Simple(
            SimpleSelector {
                tag_name: Some(String::from_str("html")),
                id: None,
                class: Vec::new(),
            },
        ),
    );
    let mut html_decls: Vec<Declaration> = Vec::new();
    html_decls.push(
        Declaration {
            name: String::from_str("background"),
            value: Value::ColorValue(Color { r: 255, g: 255, b: 255, a: 255 }),
        },
    );
    // div main rules
    let mut main_selects: Vec<Selector> = Vec::new();
    main_selects.push(
        Selector::Simple(
            SimpleSelector {
                tag_name: Some(String::from_str("div")),
                id: Some(String::from_str("main")),
                class: Vec::new(),
            },
        ),
    );
    let mut main_decls: Vec<Declaration> = Vec::new();
    main_decls.push(
        Declaration {
            name: String::from_str("color"),
            value: Value::ColorValue(Color { r: 0, g: 0, b: 255, a: 255 }),
        },
    );
    main_decls.push(
        Declaration { name: String::from_str("height"), value: Value::Length(400, Unit::Px) },
    );
    // div second rules
    let mut second_selects: Vec<Selector> = Vec::new();
    second_selects.push(
        Selector::Simple(
            SimpleSelector {
                tag_name: Some(String::from_str("div")),
                id: Some(String::from_str("second")),
                class: Vec::new(),
            },
        ),
    );
    let mut second_decls: Vec<Declaration> = Vec::new();
    second_decls.push(
        Declaration {
            name: String::from_str("color"),
            value: Value::ColorValue(Color { r: 255, g: 0, b: 0, a: 255 }),
        },
    );
    second_decls.push(
        Declaration { name: String::from_str("height"), value: Value::Length(250, Unit::Px) },
    );
    // Create the stylesheet from the rules
    let mut rules: Vec<Rule> = Vec::new();
    rules.push(Rule { selectors: html_selects, declarations: html_decls });
    rules.push(Rule { selectors: main_selects, declarations: main_decls });
    rules.push(Rule { selectors: second_selects, declarations: second_decls });
    Stylesheet { rules }
}

/// `a` is at least `b` in the lexicographic specificity order.
pub fn specificity_ge(a: Specificity, b: Specificity) -> (r: bool)
    ensures
        r == spec_lex_le(spec_of(b), spec_of(a)),
{
    if b.0 < a.0 {
        true
    } else if b.0 == a.0 {
        if b.1 < a.1 {
            true
        } else if b.1 == a.1 {
            b.2 <= a.2
        } else {
            false
        }
    } else {
        false
    }
}

} // verus!
