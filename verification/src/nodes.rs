//! The syntax nodes the parser produces. Every node owns its string
//! contents outright: reconstructed text generally differs from the
//! input span it was read from, so nothing borrows back into the
//! lexer's input.
use vstd::prelude::*;

verus! {

/// One item of a comma-separated selector list: the reconstructed,
/// trimmed selector text. It never contains the separating comma, and
/// leading and trailing whitespace are stripped.
#[derive(Debug)]
pub struct Selector(pub String);

impl View for Selector {
    type V = Seq<char>;

    open spec fn view(&self) -> Seq<char> {
        self.0@
    }
}

/// The identifier naming a declaration's left-hand side.
#[derive(Debug)]
pub struct Property(pub String);

impl View for Property {
    type V = Seq<char>;

    open spec fn view(&self) -> Seq<char> {
        self.0@
    }
}

/// The reconstructed, trimmed right-hand side of a declaration, or a
/// standalone value expression. Every block opener the re-serializer
/// emitted has its matching closer appended before the value is returned.
#[derive(Debug)]
pub struct Value(pub String);

impl View for Value {
    type V = Seq<char>;

    open spec fn view(&self) -> Seq<char> {
        self.0@
    }
}

/// Exactly one property paired with exactly one value; immutable after
/// construction.
#[derive(Debug)]
pub struct Declaration(pub Property, pub Value);

/// The mathematical content of a [`Declaration`].
pub ghost struct DeclV {
    pub property: Seq<char>,
    pub value: Seq<char>,
}

impl View for Declaration {
    type V = DeclV;

    open spec fn view(&self) -> DeclV {
        DeclV { property: self.0@, value: self.1@ }
    }
}

/// One rule: an ordered selector list plus one declaration block, in
/// source order.
#[derive(Debug)]
pub struct Rule {
    pub selectors: Vec<Selector>,
    pub declaration_block: Vec<Declaration>,
}

/// The mathematical content of a [`Rule`].
pub ghost struct RuleV {
    pub selectors: Seq<Seq<char>>,
    pub declaration_block: Seq<DeclV>,
}

impl View for Rule {
    type V = RuleV;

    open spec fn view(&self) -> RuleV {
        RuleV {
            selectors: self.selectors@.map_values(|s: Selector| s@),
            declaration_block: self.declaration_block@.map_values(|d: Declaration| d@),
        }
    }
}

/// An at-rule: `@identifier condition { statements }`. An extension
/// point: the parser does not yet produce it.
#[derive(Debug)]
pub struct AtRule {
    pub identifier: String,
    pub condition: String,
    pub statements: Vec<Statement>,
}

/// One statement of a stylesheet: a rule or an at-rule.
#[derive(Debug)]
pub enum Statement {
    Rule(Option<Rule>),
    AtRule(Option<AtRule>),
}

/// An ordered sequence of statements. An extension point: the parser
/// does not yet produce it.
#[derive(Debug)]
pub struct Stylesheet {
    pub statements: Vec<Statement>,
}

/// A function-call value: a name applied to arguments. Part of a typed
/// value tree that refines the flat textual [`Value`]; an extension
/// point, not yet produced by the parser.
#[derive(Debug)]
pub struct FunctionCall {
    pub name: String,
    pub arguments: Vec<Value2>,
}

/// A typed value: a keyword that appears literally (such as `auto`), a
/// quoted literal, a numeric value, or a function call. An extension
/// point, not yet produced by the parser.
#[derive(Debug)]
pub enum Value2 {
    /// Keyword values (such as `auto`, `disc`), which appear literally,
    /// without quotes.
    Keyword(String),
    Literal(String),
    Numeric,
    Functional(FunctionCall),
}

} // verus!
