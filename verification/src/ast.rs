use vstd::prelude::*;

verus! {

/// A byte range of the source.
#[derive(Clone, Copy, PartialEq, Eq, Debug, Structural)]
pub struct Span {
    pub start: usize,
    pub end: usize,
}

/// A node with the span of source it was parsed from.
pub struct Loc<T> {
    pub inner: T,
    pub span: Span,
}

/// A name as the lexer reports it (a raw `r#` prefix stripped).
pub struct Identifier(pub String);

pub enum PathSegment {
    Named(Loc<Identifier>),
    /// A segment the compiler generates for an `impl` block; prints as
    /// `impl#<n>`.
    Impl(u64),
    /// Prints as `if#true`.
    IfT,
    /// Prints as `if#false`.
    IfF,
}

pub struct Path(pub Vec<PathSegment>);

pub enum Visibility {
    Implicit,
    Public,
    AtLib,
    AtSelf,
    AtSuper,
    AtSuperSuper,
}

pub enum TypeExpression {
    TypeSpec(Box<Loc<TypeSpec>>),
    Bool(bool),
    /// An integer literal; its text comes from the source.
    Integer,
    StringLiteral(String),
    ConstGeneric(Box<Loc<Expression>>),
}

pub enum NamedTurbofish {
    Short(Loc<Identifier>),
    Full(Loc<Identifier>, Loc<TypeExpression>),
}

pub enum TurbofishInner {
    Named(Vec<Loc<NamedTurbofish>>),
    Positional(Vec<Loc<TypeExpression>>),
}

pub enum TypeSpec {
    Tuple(Vec<Loc<TypeExpression>>),
    Array { inner: Box<Loc<TypeExpression>>, size: Box<Loc<TypeExpression>> },
    Named(Loc<Path>, Option<Loc<Vec<Loc<TypeExpression>>>>),
    Inverted(Box<Loc<TypeExpression>>),
    CopyView(Box<Loc<TypeExpression>>),
    Impl(Vec<Loc<TraitSpec>>),
    Wildcard,
}

/// A named argument in a type pattern: `field: pat`, or `field` shorthand.
pub struct NamedPatternArgument(pub Loc<Identifier>, pub Option<Loc<Pattern>>);

pub enum ArgumentPattern {
    Named(Vec<NamedPatternArgument>),
    Positional(Vec<Loc<Pattern>>),
}

pub enum Pattern {
    /// An integer literal; its text comes from the source.
    Integer,
    Bool(bool),
    Bound(Loc<Identifier>, Box<Loc<Pattern>>),
    Path { wire: bool, path: Loc<Path> },
    Tuple(Vec<Loc<Pattern>>),
    Array(Vec<Loc<Pattern>>),
    Type(Loc<Path>, Loc<ArgumentPattern>),
}

pub enum NamedArgument {
    Full(Loc<Identifier>, Loc<Expression>),
    Short(Loc<Identifier>),
}

pub enum ArgumentList {
    Positional(Vec<Loc<Expression>>),
    Named(Vec<NamedArgument>),
}

pub enum Inequality {
    Eq,
    Neq,
    Lt,
    Leq,
    Gt,
    Geq,
}

pub enum WhereClause {
    GenericInt {
        target: Loc<Path>,
        kind: Inequality,
        expression: Loc<Expression>,
        if_unsatisfied: Option<String>,
    },
    TraitBounds { target: Loc<Path>, traits: Vec<Loc<TraitSpec>> },
}

pub struct AssocType {
    pub name: Loc<Identifier>,
    pub type_params: Option<Loc<Vec<Loc<TypeParam>>>>,
}

pub enum BinaryOperator {
    Add,
    Sub,
    Mul,
    Div,
    Mod,
    Eq,
    Neq,
    Lt,
    Gt,
    Le,
    Ge,
    LogicalAnd,
    LogicalOr,
    LogicalXor,
    LeftShift,
    RightShift,
    ArithmeticRightShift,
    BitwiseAnd,
    BitwiseOr,
    BitwiseXor,
    WrappingAdd,
    WrappingSub,
    WrappingMul,
    WrappingLeftShift,
    WrappingRightShift,
}

pub enum UnaryOperator {
    Sub,
    Not,
    BitwiseNot,
    WrappingSub,
    Dereference,
    Reference,
}

pub enum PipelineStageReference {
    Relative(Loc<TypeExpression>),
    Absolute(Loc<Identifier>),
}

pub enum CallKind {
    Function,
    Entity,
    Pipeline(Loc<TypeExpression>),
}

pub enum BitLiteral {
    Low,
    High,
    HighImp,
}

/// An array literal element with an optional `'label`.
pub struct ArrayElement(pub Option<Loc<Identifier>>, pub Loc<Expression>);

/// A match arm: pattern, optional guard, and value.
pub struct MatchArm(pub Loc<Pattern>, pub Option<Loc<Expression>>, pub Loc<Expression>);

pub enum Expression {
    Identifier(Loc<Path>),
    /// An integer literal: the span of its token, and whether its value
    /// is negative (the parser folds a unary `-` into the value).
    IntLiteral { token: Span, negative: bool },
    BoolLiteral(bool),
    StrLiteral(String),
    TriLiteral(BitLiteral),
    ArrayLiteral(Vec<ArrayElement>),
    ArrayShorthandLiteral(Box<Loc<Expression>>, Box<Loc<Expression>>),
    Index(Box<Loc<Expression>>, Box<Loc<Expression>>),
    RangeIndex {
        target: Box<Loc<Expression>>,
        start: Option<Box<Loc<Expression>>>,
        end: Option<Box<Loc<Expression>>>,
    },
    Parenthesized(Box<Loc<Expression>>),
    TupleLiteral(Vec<Loc<Expression>>),
    /// `x.0` (or the deprecated `x#0`): the target and the span of the
    /// index token.
    TupleIndex { target: Box<Loc<Expression>>, index: Span },
    FieldAccess(Box<Loc<Expression>>, Loc<Identifier>),
    TypeCast(Box<Loc<Expression>>, Loc<TypeExpression>),
    Lambda { unit_kind: Loc<UnitKind>, args: Loc<Vec<Loc<Pattern>>>, body: Box<Loc<Block>> },
    Call {
        kind: CallKind,
        callee: Loc<Path>,
        args: Loc<ArgumentList>,
        turbofish: Option<Loc<TurbofishInner>>,
    },
    MethodCall {
        target: Box<Loc<Expression>>,
        name: Loc<Identifier>,
        args: Loc<ArgumentList>,
        kind: CallKind,
        turbofish: Option<Loc<TurbofishInner>>,
    },
    MacroCall,
    If { cond: Box<Loc<Expression>>, on_true: Box<Loc<Expression>>, on_false: Box<Loc<Expression>> },
    TypeLevelIf {
        cond: Box<Loc<Expression>>,
        on_true: Box<Loc<Expression>>,
        on_false: Box<Loc<Expression>>,
    },
    Match { expression: Box<Loc<Expression>>, branches: Loc<Vec<MatchArm>>, if_let: bool },
    UnaryOperator(UnaryOperator, Box<Loc<Expression>>),
    BinaryOperator(Box<Loc<Expression>>, BinaryOperator, Box<Loc<Expression>>),
    Block(Box<Block>),
    Unsafe(Box<Loc<Block>>),
    PipelineReference { stage: PipelineStageReference, name: Loc<Identifier> },
    LabelAccess { label: Loc<Path>, field: Loc<Identifier> },
    StageValid,
    StageReady,
    StaticUnreachable,
    /// An expression the parser recovered around; the number identifies
    /// the diagnostic it embedded, which the caller keeps.
    Incomplete(usize),
}

pub struct Block {
    pub statements: Vec<Loc<Statement>>,
    pub result: Option<Loc<Expression>>,
}

pub struct Binding {
    pub pattern: Loc<Pattern>,
    pub ty: Option<Loc<TypeSpec>>,
    pub value: Loc<Expression>,
    pub attrs: AttributeList,
}

pub enum Statement {
    Label(Loc<Identifier>),
    Declaration(Vec<Loc<Identifier>>),
    Binding(Binding),
    Expression(Loc<Expression>, AttributeList),
    PipelineRegMarker(Option<Loc<TypeExpression>>, Option<Loc<Expression>>),
    Register(Loc<Register>),
    SetValue { target: Loc<Expression>, value: Loc<Expression> },
    Assert(Loc<Expression>),
    Type(Loc<TypeDeclaration>),
}

pub enum TypeParam {
    TypeName {
        name: Loc<Identifier>,
        traits: Vec<Loc<TraitSpec>>,
        default: Option<Loc<TypeExpression>>,
    },
    TypeWithMeta { meta: Loc<Identifier>, name: Loc<Identifier>, default: Option<Loc<TypeExpression>> },
}

/// One `key` or `key = "value"` entry of `#[verilog_attrs(..)]`.
pub struct VerilogAttr(pub Loc<Identifier>, pub Option<String>);

pub enum Attribute {
    SpadecParenSugar,
    VerilogAttrs { entries: Vec<VerilogAttr> },
    Optimize { passes: Vec<String> },
    Deprecated { since: Option<String>, note: Option<String> },
    NoMangle { all: bool },
    Fsm { state: Option<Loc<Identifier>> },
    Documentation { content: String },
    SurferTranslator(String),
    Inline,
}

pub struct AttributeList(pub Vec<Loc<Attribute>>);

/// The `self` parameter: its attributes (spanning the keyword), and
/// whether it is `wire` and `&`.
pub struct SelfParameter(pub Loc<AttributeList>, pub bool, pub bool);

/// A parameter: attributes, the span of a `wire` marker, name, and type.
pub struct Parameter(pub AttributeList, pub Option<Span>, pub Loc<Identifier>, pub Loc<TypeSpec>);

pub struct ParameterList {
    pub self_: Option<SelfParameter>,
    pub args: Vec<Parameter>,
}

pub enum UnitKind {
    Function,
    Entity,
    Pipeline(Loc<TypeExpression>),
}

pub struct UnitHead {
    pub visibility: Loc<Visibility>,
    pub unsafe_token: bool,
    pub extern_token: bool,
    pub attributes: AttributeList,
    pub unit_kind: Loc<UnitKind>,
    pub name: Loc<Identifier>,
    pub inputs: Loc<ParameterList>,
    pub output_type: Option<Loc<TypeSpec>>,
    pub type_params: Option<Loc<Vec<Loc<TypeParam>>>>,
    pub where_clauses: Vec<WhereClause>,
}

pub struct Unit {
    pub head: UnitHead,
    pub body: Option<Loc<Expression>>,
}

/// A register's reset: condition and value.
pub struct Reset(pub Loc<Expression>, pub Loc<Expression>);

pub struct Register {
    pub pattern: Loc<Pattern>,
    pub clock: Loc<Expression>,
    pub reset: Option<Reset>,
    pub initial: Option<Loc<Expression>>,
    pub value: Loc<Expression>,
    pub value_type: Option<Loc<TypeSpec>>,
    pub attributes: AttributeList,
}

/// A macro definition; it prints verbatim from its span.
pub struct MacroDef {
    pub visibility: Loc<Visibility>,
    pub attributes: AttributeList,
}

pub struct TraitDef {
    pub visibility: Loc<Visibility>,
    pub name: Loc<Identifier>,
    pub type_params: Option<Loc<Vec<Loc<TypeParam>>>>,
    pub subtraits: Vec<Loc<TraitSpec>>,
    pub where_clauses: Vec<WhereClause>,
    pub attributes: AttributeList,
    pub assoc_types: Vec<Loc<AssocType>>,
    pub methods: Vec<Loc<UnitHead>>,
}

pub struct TraitSpec {
    pub path: Loc<Path>,
    pub type_params: Option<Loc<Vec<Loc<TypeExpression>>>>,
    pub paren_syntax: bool,
}

pub struct ImplBlock {
    pub trait_: Option<Loc<TraitSpec>>,
    pub type_params: Option<Loc<Vec<Loc<TypeParam>>>>,
    pub where_clauses: Vec<WhereClause>,
    pub target: Loc<TypeSpec>,
    pub assoc_types: Vec<Loc<TypeDeclaration>>,
    pub units: Vec<Loc<Unit>>,
}

pub struct Enum {
    pub attributes: AttributeList,
    pub name: Loc<Identifier>,
    pub variants: Vec<EnumVariant>,
}

pub struct EnumVariant {
    pub attributes: AttributeList,
    pub name: Loc<Identifier>,
    pub args: Option<Loc<ParameterList>>,
}

pub struct Struct {
    pub attributes: AttributeList,
    pub name: Loc<Identifier>,
    pub members: Loc<ParameterList>,
}

pub struct TypeAlias {
    pub attributes: AttributeList,
    pub name: Loc<Identifier>,
    pub type_spec: Loc<TypeSpec>,
}

pub enum TypeDeclKind {
    Enum(Loc<Enum>),
    Struct(Loc<Struct>),
    Alias(Loc<TypeAlias>),
}

pub struct TypeDeclaration {
    pub visibility: Loc<Visibility>,
    pub name: Loc<Identifier>,
    pub kind: TypeDeclKind,
    pub generic_args: Option<Loc<Vec<Loc<TypeParam>>>>,
}

pub struct UseStatement {
    pub visibility: Loc<Visibility>,
    pub path: Loc<Path>,
    pub alias: Option<Loc<Identifier>>,
}

pub enum Item {
    Unit(Loc<Unit>),
    MacroDef(Loc<MacroDef>),
    TraitDef(Loc<TraitDef>),
    Type(Loc<TypeDeclaration>),
    ExternalMod(Loc<ExternalMod>),
    Module(Loc<Module>),
    Use(AttributeList, Loc<Vec<UseStatement>>),
    ImplBlock(Loc<ImplBlock>),
}

pub struct ExternalMod {
    pub visibility: Loc<Visibility>,
    pub name: Loc<Identifier>,
    pub attributes: AttributeList,
}

pub struct Module {
    pub visibility: Loc<Visibility>,
    pub name: Loc<Identifier>,
    pub body: Loc<ModuleBody>,
    pub attributes: AttributeList,
}

pub struct ModuleBody {
    pub members: Vec<Item>,
    pub documentation: Vec<String>,
}

} // verus!
