use vstd::prelude::*;

use crate::ast::{
    ArgumentList, ArgumentPattern, ArrayElement, AssocType, Block, CallKind, EnumVariant,
    Expression, Item, Loc, MatchArm, ModuleBody, NamedArgument, NamedPatternArgument,
    NamedTurbofish, Parameter, ParameterList, Pattern, PipelineStageReference, Statement, TraitSpec,
    TurbofishInner, TypeDeclKind, TypeDeclaration, TypeExpression, TypeParam, TypeSpec,
    UnaryOperator, Unit, UnitHead, UnitKind, UseStatement, Visibility, WhereClause,
};

verus! {

// Which trees the document builder can format: those that hold no
// construct it reports as unsupported (`static_unreachable!`, a
// visibility the parser never produces, malformed `if let` or
// parenthesized trait bounds, an empty `use` list) and no expression the
// parser could not complete. `src` is the source the spans refer to: a
// byte-string literal (`b"..."`) prints from it verbatim, so what the
// parser made of its contents does not matter.

/// Whether `start..end` of `src` is a byte-string literal, `b"...`.
pub open spec fn byte_string(src: Seq<u8>, start: int, end: int) -> bool {
    &&& 0 <= start <= end <= src.len()
    &&& vstd::utf8::is_char_boundary(src, end)
    &&& vstd::utf8::is_char_boundary(src.subrange(0, end), start)
    &&& end - start >= 2
    &&& src[start] == 98
    &&& src[start + 1] == 34
}

pub open spec fn visibility_ok(visibility: Loc<Visibility>) -> bool {
    !(visibility.inner is AtSuperSuper)
}

pub open spec fn expression_ok(src: Seq<u8>, e: Loc<Expression>) -> bool
    decreases e, 1int,
{
    match e.inner {
        Expression::ArrayLiteral(elements) => byte_string(src, e.span.start as int, e.span.end as int)
            || array_elements_ok(src, elements@, elements@.len() as int),
        Expression::ArrayShorthandLiteral(element, amount) => expression_ok(src, *element)
            && expression_ok(src, *amount),
        Expression::Index(_, _) => false,
        Expression::RangeIndex { target, start, end } => {
            &&& expression_ok(src, *target)
            &&& (start matches Some(s) ==> expression_ok(src, *s))
            &&& (end matches Some(x) ==> expression_ok(src, *x))
        },
        Expression::Parenthesized(inner) => expression_ok(src, *inner),
        Expression::TupleLiteral(items) => expressions_ok(src, items@, items@.len() as int),
        Expression::TupleIndex { target, .. } => expression_ok(src, *target),
        Expression::FieldAccess(parent, _) => expression_ok(src, *parent),
        Expression::TypeCast(target, ty) => expression_ok(src, *target) && type_expression_ok(src, ty),
        Expression::Lambda { unit_kind, args, body } => {
            &&& unit_kind_ok(src, unit_kind)
            &&& patterns_ok(src, args.inner@, args.inner@.len() as int)
            &&& if body.inner.statements@.len() == 0 && body.inner.result is Some {
                match body.inner.result {
                    Some(result) => expression_ok(src, result),
                    None => true,
                }
            } else {
                block_ok(src, body.inner)
            }
        },
        Expression::Call { kind, args, turbofish, .. } => {
            &&& call_kind_ok(src, kind)
            &&& (turbofish matches Some(t) ==> turbofish_ok(src, t))
            &&& argument_list_ok(src, args)
        },
        Expression::MethodCall { target, args, kind, turbofish, .. } => {
            &&& expression_ok(src, *target)
            &&& call_kind_ok(src, kind)
            &&& (turbofish matches Some(t) ==> turbofish_ok(src, t))
            &&& argument_list_ok(src, args)
        },
        Expression::If { cond, on_true, on_false } => expression_ok(src, *cond) && expression_ok(
            src,
            *on_true,
        ) && expression_ok(src, *on_false),
        Expression::TypeLevelIf { .. } => gen_if_ok(src, e),
        Expression::Match { expression, branches, if_let } => if if_let {
            &&& branches.inner@.len() == 2
            &&& branches.inner@[0].1 is None
            &&& branches.inner@[1].1 is None
            &&& pattern_ok(src, branches.inner@[0].0)
            &&& expression_ok(src, *expression)
            &&& expression_ok(src, branches.inner@[0].2)
            &&& expression_ok(src, branches.inner@[1].2)
        } else {
            expression_ok(src, *expression) && match_arms_ok(
                src,
                branches.inner@,
                branches.inner@.len() as int,
            )
        },
        Expression::UnaryOperator(_, inner) => expression_ok(src, *inner),
        Expression::BinaryOperator(left, _, right) => expression_ok(src, *left) && expression_ok(
            src,
            *right,
        ),
        Expression::Block(block) => block_ok(src, *block),
        Expression::Unsafe(block) => block_ok(src, block.inner),
        Expression::PipelineReference { stage, .. } => match stage {
            PipelineStageReference::Absolute(_) => true,
            PipelineStageReference::Relative(offset) => match offset.inner {
                TypeExpression::ConstGeneric(offset_expression) => match offset_expression.inner {
                    Expression::UnaryOperator(UnaryOperator::Sub, negated) => expression_ok(
                        src,
                        *negated,
                    ),
                    _ => expression_ok(src, *offset_expression),
                },
                _ => false,
            },
        },
        Expression::StaticUnreachable => false,
        Expression::Incomplete(_) => false,
        _ => true,
    }
}

pub open spec fn gen_if_ok(src: Seq<u8>, e: Loc<Expression>) -> bool
    decreases e, 0int,
{
    match e.inner {
        Expression::TypeLevelIf { cond, on_true, on_false } => {
            &&& expression_ok(src, *cond)
            &&& expression_ok(src, *on_true)
            &&& match on_false.inner {
                Expression::Block(block) => (block.statements@.len() == 0 && block.result is None)
                    || block_ok(src, *block),
                Expression::TypeLevelIf { .. } => gen_if_ok(src, *on_false),
                _ => expression_ok(src, *on_false),
            }
        },
        _ => false,
    }
}

pub open spec fn expressions_ok(src: Seq<u8>, s: Seq<Loc<Expression>>, n: int) -> bool
    decreases s, n,
{
    n <= 0 || (expressions_ok(src, s, n - 1) && (n - 1 < s.len() ==> expression_ok(src, s[n - 1])))
}

pub open spec fn array_elements_ok(src: Seq<u8>, s: Seq<ArrayElement>, n: int) -> bool
    decreases s, n,
{
    n <= 0 || (array_elements_ok(src, s, n - 1) && (n - 1 < s.len() ==> expression_ok(
        src,
        s[n - 1].1,
    )))
}

pub open spec fn match_arms_ok(src: Seq<u8>, s: Seq<MatchArm>, n: int) -> bool
    decreases s, n,
{
    n <= 0 || (match_arms_ok(src, s, n - 1) && (n - 1 < s.len() ==> {
        &&& pattern_ok(src, s[n - 1].0)
        &&& (s[n - 1].1 matches Some(guard) ==> expression_ok(src, guard))
        &&& expression_ok(src, s[n - 1].2)
    }))
}

pub open spec fn call_kind_ok(src: Seq<u8>, kind: CallKind) -> bool
    decreases kind, 0int,
{
    match kind {
        CallKind::Pipeline(latency) => type_expression_ok(src, latency),
        _ => true,
    }
}

pub open spec fn unit_kind_ok(src: Seq<u8>, kind: Loc<UnitKind>) -> bool
    decreases kind, 0int,
{
    match kind.inner {
        UnitKind::Pipeline(depth) => type_expression_ok(src, depth),
        _ => true,
    }
}

pub open spec fn block_ok(src: Seq<u8>, block: Block) -> bool
    decreases block, 0int,
{
    &&& statements_ok(src, block.statements@, block.statements@.len() as int)
    &&& (block.result matches Some(result) ==> expression_ok(src, result))
}

pub open spec fn statements_ok(src: Seq<u8>, s: Seq<Loc<Statement>>, n: int) -> bool
    decreases s, n,
{
    n <= 0 || (statements_ok(src, s, n - 1) && (n - 1 < s.len() ==> statement_ok(src, s[n - 1])))
}

pub open spec fn statement_ok(src: Seq<u8>, statement: Loc<Statement>) -> bool
    decreases statement, 0int,
{
    match statement.inner {
        Statement::Binding(binding) => {
            &&& pattern_ok(src, binding.pattern)
            &&& (binding.ty matches Some(ty) ==> type_spec_ok(src, ty))
            &&& expression_ok(src, binding.value)
        },
        Statement::PipelineRegMarker(count, condition) => {
            &&& (condition matches Some(c) ==> expression_ok(src, c))
            &&& (count matches Some(c) ==> type_expression_ok(src, c))
        },
        Statement::Register(register) => {
            &&& expression_ok(src, register.inner.clock)
            &&& pattern_ok(src, register.inner.pattern)
            &&& (register.inner.value_type matches Some(ty) ==> type_spec_ok(src, ty))
            &&& (register.inner.reset matches Some(reset) ==> expression_ok(src, reset.0)
                && expression_ok(src, reset.1))
            &&& (register.inner.initial matches Some(initial) ==> expression_ok(src, initial))
            &&& expression_ok(src, register.inner.value)
        },
        Statement::SetValue { target, value } => expression_ok(src, target) && expression_ok(
            src,
            value,
        ),
        Statement::Assert(_) => false,
        Statement::Expression(expression, _) => expression_ok(src, expression),
        Statement::Type(declaration) => type_declaration_ok(src, declaration),
        _ => true,
    }
}

pub open spec fn pattern_ok(src: Seq<u8>, pattern: Loc<Pattern>) -> bool
    decreases pattern, 0int,
{
    match pattern.inner {
        Pattern::Bound(_, inner) => pattern_ok(src, *inner),
        Pattern::Tuple(elements) => patterns_ok(src, elements@, elements@.len() as int),
        Pattern::Array(elements) => patterns_ok(src, elements@, elements@.len() as int),
        Pattern::Type(_, arguments) => argument_pattern_ok(src, arguments),
        _ => true,
    }
}

pub open spec fn patterns_ok(src: Seq<u8>, s: Seq<Loc<Pattern>>, n: int) -> bool
    decreases s, n,
{
    n <= 0 || (patterns_ok(src, s, n - 1) && (n - 1 < s.len() ==> pattern_ok(src, s[n - 1])))
}

pub open spec fn argument_pattern_ok(src: Seq<u8>, arguments: Loc<ArgumentPattern>) -> bool
    decreases arguments, 0int,
{
    match arguments.inner {
        ArgumentPattern::Named(named) => named_pattern_arguments_ok(src, named@, named@.len() as int),
        ArgumentPattern::Positional(positional) => patterns_ok(
            src,
            positional@,
            positional@.len() as int,
        ),
    }
}

pub open spec fn named_pattern_arguments_ok(src: Seq<u8>, s: Seq<NamedPatternArgument>, n: int) -> bool
    decreases s, n,
{
    n <= 0 || (named_pattern_arguments_ok(src, s, n - 1) && (n - 1 < s.len() ==> (s[n - 1].1 matches Some(
        p,
    ) ==> pattern_ok(src, p))))
}

pub open spec fn type_expression_ok(src: Seq<u8>, te: Loc<TypeExpression>) -> bool
    decreases te, 0int,
{
    match te.inner {
        TypeExpression::TypeSpec(spec) => type_spec_ok(src, *spec),
        TypeExpression::ConstGeneric(expression) => expression_ok(src, *expression),
        _ => true,
    }
}

pub open spec fn type_expressions_ok(src: Seq<u8>, s: Seq<Loc<TypeExpression>>, n: int) -> bool
    decreases s, n,
{
    n <= 0 || (type_expressions_ok(src, s, n - 1) && (n - 1 < s.len() ==> type_expression_ok(
        src,
        s[n - 1],
    )))
}

pub open spec fn type_spec_ok(src: Seq<u8>, ts: Loc<TypeSpec>) -> bool
    decreases ts, 0int,
{
    match ts.inner {
        TypeSpec::Tuple(elements) => type_expressions_ok(src, elements@, elements@.len() as int),
        TypeSpec::Array { inner, size } => type_expression_ok(src, *inner) && type_expression_ok(
            src,
            *size,
        ),
        TypeSpec::Named(_, params) => params matches Some(p) ==> type_expressions_ok(
            src,
            p.inner@,
            p.inner@.len() as int,
        ),
        TypeSpec::Inverted(inner) => type_expression_ok(src, *inner),
        TypeSpec::CopyView(inner) => type_expression_ok(src, *inner),
        TypeSpec::Impl(traits) => trait_specs_ok(src, traits@, traits@.len() as int),
        TypeSpec::Wildcard => true,
    }
}

pub open spec fn trait_specs_ok(src: Seq<u8>, s: Seq<Loc<TraitSpec>>, n: int) -> bool
    decreases s, n,
{
    n <= 0 || (trait_specs_ok(src, s, n - 1) && (n - 1 < s.len() ==> trait_spec_ok(src, s[n - 1])))
}

pub open spec fn trait_spec_ok(src: Seq<u8>, ts: Loc<TraitSpec>) -> bool
    decreases ts, 0int,
{
    if ts.inner.paren_syntax {
        match ts.inner.type_params {
            None => false,
            Some(params) => {
                let v = params.inner@;
                &&& v.len() >= 2
                &&& match v[v.len() - 2].inner {
                    TypeExpression::TypeSpec(args_spec) => match args_spec.inner {
                        TypeSpec::Tuple(argument_types) => {
                            &&& type_expressions_ok(src, v, v.len() - 2)
                            &&& type_expressions_ok(
                                src,
                                argument_types@,
                                argument_types@.len() as int,
                            )
                            &&& type_expression_ok(src, v[v.len() - 1])
                        },
                        _ => false,
                    },
                    _ => false,
                }
            },
        }
    } else {
        ts.inner.type_params matches Some(params) ==> type_expressions_ok(
            src,
            params.inner@,
            params.inner@.len() as int,
        )
    }
}

pub open spec fn type_param_ok(src: Seq<u8>, tp: Loc<TypeParam>) -> bool
    decreases tp, 0int,
{
    match tp.inner {
        TypeParam::TypeName { traits, default, .. } => {
            &&& trait_specs_ok(src, traits@, traits@.len() as int)
            &&& (default matches Some(d) ==> type_expression_ok(src, d))
        },
        TypeParam::TypeWithMeta { default, .. } => default matches Some(d) ==> type_expression_ok(
            src,
            d,
        ),
    }
}

pub open spec fn type_params_ok(src: Seq<u8>, s: Seq<Loc<TypeParam>>, n: int) -> bool
    decreases s, n,
{
    n <= 0 || (type_params_ok(src, s, n - 1) && (n - 1 < s.len() ==> type_param_ok(src, s[n - 1])))
}

pub open spec fn optional_type_params_ok(src: Seq<u8>, params: Option<Loc<Vec<Loc<TypeParam>>>>) -> bool
    decreases params, 0int,
{
    params matches Some(p) ==> type_params_ok(src, p.inner@, p.inner@.len() as int)
}

pub open spec fn turbofish_ok(src: Seq<u8>, turbofish: Loc<TurbofishInner>) -> bool
    decreases turbofish, 0int,
{
    match turbofish.inner {
        TurbofishInner::Named(arguments) => named_turbofish_ok(
            src,
            arguments@,
            arguments@.len() as int,
        ),
        TurbofishInner::Positional(arguments) => type_expressions_ok(
            src,
            arguments@,
            arguments@.len() as int,
        ),
    }
}

pub open spec fn named_turbofish_ok(src: Seq<u8>, s: Seq<Loc<NamedTurbofish>>, n: int) -> bool
    decreases s, n,
{
    n <= 0 || (named_turbofish_ok(src, s, n - 1) && (n - 1 < s.len() ==> (s[n - 1].inner matches NamedTurbofish::Full(
        _,
        value,
    ) ==> type_expression_ok(src, value))))
}

pub open spec fn argument_list_ok(src: Seq<u8>, arguments: Loc<ArgumentList>) -> bool
    decreases arguments, 0int,
{
    match arguments.inner {
        ArgumentList::Positional(positional) => expressions_ok(
            src,
            positional@,
            positional@.len() as int,
        ),
        ArgumentList::Named(named) => named_arguments_ok(src, named@, named@.len() as int),
    }
}

pub open spec fn named_arguments_ok(src: Seq<u8>, s: Seq<NamedArgument>, n: int) -> bool
    decreases s, n,
{
    n <= 0 || (named_arguments_ok(src, s, n - 1) && (n - 1 < s.len() ==> (s[n - 1] matches NamedArgument::Full(
        _,
        value,
    ) ==> expression_ok(src, value))))
}

pub open spec fn where_clauses_ok(src: Seq<u8>, s: Seq<WhereClause>, n: int) -> bool
    decreases s, n,
{
    n <= 0 || (where_clauses_ok(src, s, n - 1) && (n - 1 < s.len() ==> match s[n - 1] {
        WhereClause::TraitBounds { traits, .. } => trait_specs_ok(src, traits@, traits@.len() as int),
        WhereClause::GenericInt { expression, .. } => expression_ok(src, expression),
    }))
}

pub open spec fn type_declaration_ok(src: Seq<u8>, declaration: Loc<TypeDeclaration>) -> bool
    decreases declaration, 0int,
{
    &&& visibility_ok(declaration.inner.visibility)
    &&& optional_type_params_ok(src, declaration.inner.generic_args)
    &&& match declaration.inner.kind {
        TypeDeclKind::Enum(enum_decl) => enum_variants_ok(
            src,
            enum_decl.inner.variants@,
            enum_decl.inner.variants@.len() as int,
        ),
        TypeDeclKind::Struct(struct_decl) => parameter_list_ok(src, struct_decl.inner.members),
        TypeDeclKind::Alias(alias) => type_spec_ok(src, alias.inner.type_spec),
    }
}

pub open spec fn enum_variants_ok(src: Seq<u8>, s: Seq<EnumVariant>, n: int) -> bool
    decreases s, n,
{
    n <= 0 || (enum_variants_ok(src, s, n - 1) && (n - 1 < s.len() ==> (s[n - 1].args matches Some(
        args,
    ) ==> parameter_list_ok(src, args))))
}

pub open spec fn parameter_list_ok(src: Seq<u8>, parameters: Loc<ParameterList>) -> bool
    decreases parameters, 0int,
{
    parameters_ok(src, parameters.inner.args@, parameters.inner.args@.len() as int)
}

pub open spec fn parameters_ok(src: Seq<u8>, s: Seq<Parameter>, n: int) -> bool
    decreases s, n,
{
    n <= 0 || (parameters_ok(src, s, n - 1) && (n - 1 < s.len() ==> type_spec_ok(src, s[n - 1].3)))
}

pub open spec fn unit_head_ok(src: Seq<u8>, head: UnitHead) -> bool {
    &&& visibility_ok(head.visibility)
    &&& unit_kind_ok(src, head.unit_kind)
    &&& optional_type_params_ok(src, head.type_params)
    &&& parameter_list_ok(src, head.inputs)
    &&& (head.output_type matches Some(output) ==> type_spec_ok(src, output))
    &&& where_clauses_ok(src, head.where_clauses@, head.where_clauses@.len() as int)
}

pub open spec fn unit_ok(src: Seq<u8>, unit: Loc<Unit>) -> bool {
    &&& unit_head_ok(src, unit.inner.head)
    &&& (unit.inner.body matches Some(body) ==> expression_ok(src, body))
}

pub open spec fn use_ok(uses: Loc<Vec<UseStatement>>) -> bool {
    uses.inner@.len() > 0 && visibility_ok(uses.inner@[0].visibility)
}

pub open spec fn item_ok(src: Seq<u8>, item: Item) -> bool
    decreases item, 0int,
{
    match item {
        Item::Unit(unit) => unit_ok(src, unit),
        Item::MacroDef(macro_def) => visibility_ok(macro_def.inner.visibility),
        Item::TraitDef(trait_def) => {
            &&& visibility_ok(trait_def.inner.visibility)
            &&& optional_type_params_ok(src, trait_def.inner.type_params)
            &&& trait_specs_ok(
                src,
                trait_def.inner.subtraits@,
                trait_def.inner.subtraits@.len() as int,
            )
            &&& where_clauses_ok(
                src,
                trait_def.inner.where_clauses@,
                trait_def.inner.where_clauses@.len() as int,
            )
            &&& assoc_types_ok(
                src,
                trait_def.inner.assoc_types@,
                trait_def.inner.assoc_types@.len() as int,
            )
            &&& unit_heads_ok(src, trait_def.inner.methods@, trait_def.inner.methods@.len() as int)
        },
        Item::Type(declaration) => type_declaration_ok(src, declaration),
        Item::ExternalMod(external) => visibility_ok(external.inner.visibility),
        Item::Module(module) => visibility_ok(module.inner.visibility) && module_body_ok(
            src,
            module.inner.body,
        ),
        Item::Use(_, uses) => use_ok(uses),
        Item::ImplBlock(block) => {
            &&& optional_type_params_ok(src, block.inner.type_params)
            &&& (block.inner.trait_ matches Some(t) ==> trait_spec_ok(src, t))
            &&& type_spec_ok(src, block.inner.target)
            &&& where_clauses_ok(
                src,
                block.inner.where_clauses@,
                block.inner.where_clauses@.len() as int,
            )
            &&& type_declarations_ok(
                src,
                block.inner.assoc_types@,
                block.inner.assoc_types@.len() as int,
            )
            &&& units_ok(src, block.inner.units@, block.inner.units@.len() as int)
        },
    }
}

pub open spec fn assoc_types_ok(src: Seq<u8>, s: Seq<Loc<AssocType>>, n: int) -> bool
    decreases n,
{
    n <= 0 || (assoc_types_ok(src, s, n - 1) && (n - 1 < s.len() ==> optional_type_params_ok(
        src,
        s[n - 1].inner.type_params,
    )))
}

pub open spec fn unit_heads_ok(src: Seq<u8>, s: Seq<Loc<UnitHead>>, n: int) -> bool
    decreases n,
{
    n <= 0 || (unit_heads_ok(src, s, n - 1) && (n - 1 < s.len() ==> unit_head_ok(src, s[n - 1].inner)))
}

pub open spec fn type_declarations_ok(src: Seq<u8>, s: Seq<Loc<TypeDeclaration>>, n: int) -> bool
    decreases n,
{
    n <= 0 || (type_declarations_ok(src, s, n - 1) && (n - 1 < s.len() ==> type_declaration_ok(
        src,
        s[n - 1],
    )))
}

pub open spec fn units_ok(src: Seq<u8>, s: Seq<Loc<Unit>>, n: int) -> bool
    decreases n,
{
    n <= 0 || (units_ok(src, s, n - 1) && (n - 1 < s.len() ==> unit_ok(src, s[n - 1])))
}

pub open spec fn items_ok(src: Seq<u8>, s: Seq<Item>, n: int) -> bool
    decreases s, n,
{
    n <= 0 || (items_ok(src, s, n - 1) && (n - 1 < s.len() ==> item_ok(src, s[n - 1])))
}

pub open spec fn module_body_ok(src: Seq<u8>, body: Loc<ModuleBody>) -> bool
    decreases body, 0int,
{
    items_ok(src, body.inner.members@, body.inner.members@.len() as int)
}

} // verus!
