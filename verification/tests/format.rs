use spadefmt::ast::{
    ArgumentList, AttributeList, Binding, Block, CallKind, Enum, EnumVariant, Expression,
    Identifier, Item, Loc, Module, ModuleBody, Parameter, ParameterList, Path, PathSegment,
    Pattern, Span, Statement, Struct, TypeDeclKind, TypeDeclaration, TypeSpec, Unit, UnitHead,
    UnitKind, UseStatement, Visibility,
};
use spadefmt::comment_insertion::Comment;
use spadefmt::config::{BoundedConfigUsize, Config};
use spadefmt::document_builder::{dedented_raw, BuildDiagnostic};
use spadefmt::format::{fits, into_clean_text, normalize_line_endings, DiagLevel, FormatError, Parsed};

fn loc<T>(inner: T, start: usize, end: usize) -> Loc<T> {
    Loc { inner, span: Span { start, end } }
}

fn ident(name: &str, start: usize) -> Loc<Identifier> {
    loc(Identifier(name.to_string()), start, start + name.len())
}

fn use_statement(segments: &[(&str, usize)], start: usize, end: usize) -> UseStatement {
    UseStatement {
        visibility: loc(Visibility::Implicit, start, start),
        path: loc(
            Path(
                segments
                    .iter()
                    .map(|(name, at)| PathSegment::Named(ident(name, *at)))
                    .collect(),
            ),
            start,
            end,
        ),
        alias: None,
    }
}

fn path_at(name: &str, at: usize) -> Loc<Path> {
    loc(Path(vec![PathSegment::Named(ident(name, at))]), at, at + name.len())
}

fn named_type(name: &str, at: usize) -> Loc<TypeSpec> {
    loc(TypeSpec::Named(path_at(name, at), None), at, at + name.len())
}

fn variable(name: &str, at: usize) -> Loc<Expression> {
    loc(Expression::Identifier(path_at(name, at)), at, at + name.len())
}

fn unit(name: &str, name_at: usize, start: usize, end: usize, body: Option<Loc<Expression>>) -> Item {
    Item::Unit(loc(
        Unit {
            head: UnitHead {
                visibility: loc(Visibility::Implicit, start, start),
                unsafe_token: false,
                extern_token: false,
                attributes: AttributeList(vec![]),
                unit_kind: loc(UnitKind::Function, start, start + 2),
                name: ident(name, name_at),
                inputs: loc(ParameterList { self_: None, args: vec![] }, name_at + name.len(), name_at + name.len() + 2),
                output_type: None,
                type_params: None,
                where_clauses: vec![],
            },
            body,
        },
        start,
        end,
    ))
}

fn format_with(code: &str, members: Vec<Item>, comments: Vec<Comment>, config: &Config) -> Result<String, FormatError> {
    assert!(fits(code, &comments));
    let root = loc(ModuleBody { members, documentation: vec![] }, 0, code.len());
    let parsed = Parsed::new(code.to_string(), root, comments, String::new());
    parsed.format(config).map(|formatted| formatted.text)
}

fn format(code: &str, members: Vec<Item>, comments: Vec<Comment>) -> String {
    format_with(code, members, comments, &Config::default()).unwrap()
}

#[test]
fn simple_use_prints_as_is() {
    let code = "use a::b;\n";
    let members = vec![Item::Use(
        AttributeList(vec![]),
        loc(vec![use_statement(&[("a", 4), ("b", 7)], 4, 8)], 0, 9),
    )];
    assert_eq!(format(code, members, vec![]), "use a::b;\n");
}

#[test]
fn spacing_is_normalized() {
    let code = "use   a::b ;";
    let members = vec![Item::Use(
        AttributeList(vec![]),
        loc(vec![use_statement(&[("a", 6), ("b", 9)], 6, 10)], 0, 12),
    )];
    assert_eq!(format(code, members, vec![]), "use a::b;\n");
}

#[test]
fn use_list_regroups_under_its_common_prefix() {
    let code = "use a::{bbbbbb, cccccc};";
    let members = vec![Item::Use(
        AttributeList(vec![]),
        loc(
            vec![
                use_statement(&[("a", 4), ("bbbbbb", 8)], 4, 14),
                use_statement(&[("a", 4), ("cccccc", 16)], 4, 22),
            ],
            7,
            23,
        ),
    )];
    assert_eq!(format(code, members, vec![]), "use a::{bbbbbb, cccccc};\n");
}

#[test]
fn narrow_width_breaks_the_group() {
    let code = "use a::{bbbbbb, cccccc};";
    let members = vec![Item::Use(
        AttributeList(vec![]),
        loc(
            vec![
                use_statement(&[("a", 4), ("bbbbbb", 8)], 4, 14),
                use_statement(&[("a", 4), ("cccccc", 16)], 4, 22),
            ],
            7,
            23,
        ),
    )];
    let mut config = Config::default();
    config.max_width = BoundedConfigUsize::try_from(10).unwrap();
    assert_eq!(
        format_with(code, members, vec![], &config).unwrap(),
        "use a::{\n    bbbbbb,\n    cccccc,\n};\n"
    );
}

#[test]
fn empty_function_gets_its_spaces() {
    let code = "fn f(){}";
    let body = loc(
        Expression::Block(Box::new(Block { statements: vec![], result: None })),
        6,
        8,
    );
    let members = vec![unit("f", 3, 0, 8, Some(body))];
    assert_eq!(format(code, members, vec![]), "fn f() {}\n");
}

#[test]
fn comment_above_an_item_stays_above_it() {
    let code = "// hello\nuse a::b;\n";
    let members = vec![Item::Use(
        AttributeList(vec![]),
        loc(vec![use_statement(&[("a", 13), ("b", 16)], 13, 17)], 9, 18),
    )];
    assert_eq!(
        format(code, members, vec![Comment::Line(0..8)]),
        "// hello\nuse a::b;\n"
    );
}

#[test]
fn trailing_comment_stays_on_its_line() {
    let code = "use a::b; // why\n";
    let members = vec![Item::Use(
        AttributeList(vec![]),
        loc(vec![use_statement(&[("a", 4), ("b", 7)], 4, 8)], 0, 9),
    )];
    assert_eq!(
        format(code, members, vec![Comment::Line(10..16)]),
        "use a::b; // why\n"
    );
}

#[test]
fn blank_lines_between_items_collapse_to_one() {
    let code = "use a;\n\n\n\nuse b;\n";
    let members = vec![
        Item::Use(AttributeList(vec![]), loc(vec![use_statement(&[("a", 4)], 4, 5)], 0, 6)),
        Item::Use(AttributeList(vec![]), loc(vec![use_statement(&[("b", 14)], 14, 15)], 10, 16)),
    ];
    assert_eq!(format(code, members, vec![]), "use a;\n\nuse b;\n");
}

#[test]
fn empty_input_formats_to_nothing() {
    assert_eq!(format("", vec![], vec![]), "");
    assert_eq!(format("\n\n", vec![], vec![]), "");
}

#[test]
fn comment_only_input_keeps_the_comment() {
    assert_eq!(format("// only\n", vec![], vec![Comment::Line(0..7)]), "// only\n");
}

#[test]
fn unsupported_construct_is_reported() {
    let code = "fn f() static_unreachable!()";
    let body = loc(Expression::StaticUnreachable, 7, 28);
    let members = vec![unit("f", 3, 0, 28, Some(body))];
    match format_with(code, members, vec![], &Config::default()) {
        Err(FormatError::Unsupported { diagnostics }) => {
            assert_eq!(diagnostics.len(), 1);
            assert!(matches!(diagnostics[0], BuildDiagnostic::Unsupported { .. }));
        }
        other => panic!("unexpected {:?}", other.map(|_| ())),
    }
}

#[test]
fn format_error_messages() {
    assert_eq!(FormatError::Parse { diagnostics: String::new() }.message(), "Failed to parse input");
    assert_eq!(
        FormatError::Unsupported { diagnostics: vec![] }.message(),
        "Input contains constructs spadefmt cannot format yet"
    );
    assert_eq!(FormatError::Print.message(), "Failed to print document");
}

#[test]
fn fits_rejects_spans_outside_the_code() {
    assert!(fits("abc", &vec![Comment::Line(0..3)]));
    assert!(!fits("abc", &vec![Comment::Line(0..4)]));
    assert!(!fits("é", &vec![Comment::Line(0..1)]));
}

#[test]
fn line_endings_are_normalized() {
    assert_eq!(normalize_line_endings("a\r\nb\r\n"), "a\nb\n");
    assert_eq!(normalize_line_endings("a\rb"), "a\rb");
    assert_eq!(normalize_line_endings("a\r\r\nb"), "a\r\nb");
    assert_eq!(normalize_line_endings("plain\ntext"), "plain\ntext");
}

#[test]
fn clean_text_ends_with_one_newline() {
    assert_eq!(into_clean_text("x".to_string()), "x\n");
    assert_eq!(into_clean_text("  \n ".to_string()), "");
    assert_eq!(into_clean_text(String::new()), "");
}

#[test]
fn dedented_raw_removes_common_indent() {
    assert_eq!(dedented_raw("/* a\n     b\n       c */"), "/* a\nb\n  c */");
    assert_eq!(dedented_raw("single"), "single");
    assert_eq!(dedented_raw("x\n\n    y"), "x\n\ny");
}

#[test]
fn debug_document_renders_the_tree() {
    let code = "use a;";
    let members = vec![Item::Use(AttributeList(vec![]), loc(vec![use_statement(&[("a", 4)], 4, 5)], 0, 6))];
    let root = loc(ModuleBody { members, documentation: vec![] }, 0, code.len());
    let parsed = Parsed::new(code.to_string(), root, vec![], String::new());
    let rendered = parsed.debug_document(&Config::default()).unwrap();
    assert!(rendered.contains("Text(\"use \")"), "{rendered}");
    assert!(rendered.ends_with('\n'));
}

#[test]
fn every_comment_is_placed() {
    let code = "// head\nuse a::b; // tail\n// end\n";
    let members = vec![Item::Use(
        AttributeList(vec![]),
        loc(vec![use_statement(&[("a", 12), ("b", 15)], 12, 16)], 8, 17),
    )];
    let comments = vec![Comment::Line(0..7), Comment::Line(18..25), Comment::Line(26..32)];
    assert!(fits(code, &comments));
    let root = loc(ModuleBody { members, documentation: vec![] }, 0, code.len());
    let parsed = Parsed::new(code.to_string(), root, comments, String::new());
    let formatted = parsed.format(&Config::default()).unwrap();
    assert_eq!(formatted.text, "// head\nuse a::b; // tail\n// end\n");
    assert_eq!(formatted.unclaimed_comments, 0);
}

#[test]
fn struct_members_go_one_per_line() {
    let code = "struct S{a:bool}";
    let members = loc(
        ParameterList {
            self_: None,
            args: vec![Parameter(AttributeList(vec![]), None, ident("a", 9), named_type("bool", 11))],
        },
        8,
        16,
    );
    let declaration = TypeDeclaration {
        visibility: loc(Visibility::Implicit, 0, 0),
        name: ident("S", 7),
        kind: TypeDeclKind::Struct(loc(
            Struct { attributes: AttributeList(vec![]), name: ident("S", 7), members },
            0,
            16,
        )),
        generic_args: None,
    };
    let items = vec![Item::Type(loc(declaration, 0, 16))];
    assert_eq!(format(code, items, vec![]), "struct S {\n    a: bool,\n}\n");
}

#[test]
fn enum_variants_go_one_per_line() {
    let code = "pub enum E{A,B}";
    let variant = |name: &str, at: usize| EnumVariant {
        attributes: AttributeList(vec![]),
        name: ident(name, at),
        args: None,
    };
    let declaration = TypeDeclaration {
        visibility: loc(Visibility::Public, 0, 3),
        name: ident("E", 9),
        kind: TypeDeclKind::Enum(loc(
            Enum {
                attributes: AttributeList(vec![]),
                name: ident("E", 9),
                variants: vec![variant("A", 11), variant("B", 13)],
            },
            4,
            15,
        )),
        generic_args: None,
    };
    let items = vec![Item::Type(loc(declaration, 4, 15))];
    assert_eq!(format(code, items, vec![]), "pub enum E {\n    A,\n    B,\n}\n");
}

#[test]
fn function_signature_and_body() {
    let code = "fn f(a:bool)->bool{a}";
    let body = loc(
        Expression::Block(Box::new(Block { statements: vec![], result: Some(variable("a", 19)) })),
        18,
        21,
    );
    let mut item = unit("f", 3, 0, 21, Some(body));
    if let Item::Unit(unit) = &mut item {
        unit.inner.head.inputs = loc(
            ParameterList {
                self_: None,
                args: vec![Parameter(AttributeList(vec![]), None, ident("a", 5), named_type("bool", 7))],
            },
            4,
            12,
        );
        unit.inner.head.output_type = Some(named_type("bool", 14));
    }
    assert_eq!(format(code, vec![item], vec![]), "fn f(a: bool) -> bool {\n    a\n}\n");
}

fn call_unit(code_len: usize, callee_at: usize, args_start: usize, args: Vec<Loc<Expression>>) -> Item {
    let call = loc(
        Expression::Call {
            kind: CallKind::Function,
            callee: path_at("f", callee_at),
            args: loc(ArgumentList::Positional(args), args_start, code_len),
            turbofish: None,
        },
        callee_at,
        code_len,
    );
    unit("g", 3, 0, code_len, Some(call))
}

#[test]
fn call_arguments_stay_flat_when_they_fit() {
    let code = "fn g() f(aaaa, bbbb)";
    let item = call_unit(20, 7, 8, vec![variable("aaaa", 9), variable("bbbb", 15)]);
    assert_eq!(format(code, vec![item], vec![]), "fn g() f(aaaa, bbbb)\n");
}

#[test]
fn call_arguments_break_when_too_wide() {
    let code = "fn g() f(aaaa, bbbb)";
    let item = call_unit(20, 7, 8, vec![variable("aaaa", 9), variable("bbbb", 15)]);
    let mut config = Config::default();
    config.max_width = BoundedConfigUsize::try_from(12).unwrap();
    assert_eq!(
        format_with(code, vec![item], vec![], &config).unwrap(),
        "fn g() f(\n    aaaa,\n    bbbb,\n)\n"
    );
}

#[test]
fn line_comment_inside_arguments_forces_the_break() {
    let code = "fn g() f(a, // c\nb)";
    let item = call_unit(19, 7, 8, vec![variable("a", 9), variable("b", 17)]);
    assert_eq!(
        format(code, vec![item], vec![Comment::Line(12..16)]),
        "fn g() f(\n    a, // c\n    b,\n)\n"
    );
}

#[test]
fn let_binding_in_a_block() {
    let code = "fn h() {let x = 1;}";
    let binding = Statement::Binding(Binding {
        pattern: loc(Pattern::Path { wire: false, path: path_at("x", 12) }, 12, 13),
        ty: None,
        value: loc(Expression::IntLiteral { token: Span { start: 16, end: 17 }, negative: false }, 16, 17),
        attrs: AttributeList(vec![]),
    });
    let body = loc(
        Expression::Block(Box::new(Block { statements: vec![loc(binding, 8, 18)], result: None })),
        7,
        19,
    );
    let item = unit("h", 3, 0, 19, Some(body));
    assert_eq!(format(code, vec![item], vec![]), "fn h() {\n    let x = 1;\n}\n");
}

#[test]
fn negative_literal_keeps_its_sign() {
    let code = "fn h() -5";
    let body = loc(Expression::IntLiteral { token: Span { start: 8, end: 9 }, negative: true }, 7, 9);
    let item = unit("h", 3, 0, 9, Some(body));
    assert_eq!(format(code, vec![item], vec![]), "fn h() -5\n");
}

#[test]
fn module_body_is_nested() {
    let code = "mod m{use a;}";
    let inner = Item::Use(AttributeList(vec![]), loc(vec![use_statement(&[("a", 10)], 10, 11)], 6, 12));
    let module = Module {
        visibility: loc(Visibility::Implicit, 0, 0),
        name: ident("m", 4),
        body: loc(ModuleBody { members: vec![inner], documentation: vec![] }, 5, 13),
        attributes: AttributeList(vec![]),
    };
    let items = vec![Item::Module(loc(module, 0, 13))];
    assert_eq!(format(code, items, vec![]), "mod m {\n    use a;\n}\n");
}

#[test]
fn module_docs_print_first() {
    let code = "//! top\nuse a;";
    let members = vec![Item::Use(AttributeList(vec![]), loc(vec![use_statement(&[("a", 12)], 12, 13)], 8, 14))];
    let root = loc(ModuleBody { members, documentation: vec![" top".to_string()] }, 0, code.len());
    let parsed = Parsed::new(code.to_string(), root, vec![], String::new());
    let formatted = parsed.format(&Config::default()).unwrap();
    assert_eq!(formatted.text, "//! top\n\nuse a;\n");
}

#[test]
fn parse_diagnostics_are_passed_through() {
    let code = "use a;";
    let members = vec![Item::Use(AttributeList(vec![]), loc(vec![use_statement(&[("a", 4)], 4, 5)], 0, 6))];
    let root = loc(ModuleBody { members, documentation: vec![] }, 0, code.len());
    let parsed = Parsed::new(code.to_string(), root, vec![], "warning: x".to_string());
    let formatted = parsed.format(&Config::default()).unwrap();
    assert_eq!(formatted.diagnostics, "warning: x");
    assert_eq!(formatted.text, "use a;\n");
}

#[test]
fn raw_identifier_keeps_its_prefix() {
    let code = "use r#a::b;\n";
    let path = Path(vec![
        PathSegment::Named(loc(Identifier("a".to_string()), 4, 7)),
        PathSegment::Named(ident("b", 9)),
    ]);
    let statement = UseStatement {
        visibility: loc(Visibility::Implicit, 4, 4),
        path: loc(path, 4, 10),
        alias: None,
    };
    let members = vec![Item::Use(AttributeList(vec![]), loc(vec![statement], 0, 11))];
    assert_eq!(format(code, members, vec![]), "use r#a::b;\n");
}

#[test]
fn visibility_prints_its_keyword() {
    let code = "pub(lib) use a::b;\n";
    let mut statement = use_statement(&[("a", 13), ("b", 16)], 13, 17);
    statement.visibility = loc(Visibility::AtLib, 0, 8);
    let members = vec![Item::Use(AttributeList(vec![]), loc(vec![statement], 0, 18))];
    assert_eq!(format(code, members, vec![]), "pub(lib) use a::b;\n");
}

#[test]
fn debug_prints_the_document() {
    let code = "use   a::b ;";
    let members = || {
        vec![Item::Use(
            AttributeList(vec![]),
            loc(vec![use_statement(&[("a", 6), ("b", 9)], 6, 10)], 0, 12),
        )]
    };
    let formatted = format(code, members(), vec![]);
    let root = loc(ModuleBody { members: members(), documentation: vec![] }, 0, code.len());
    let parsed = Parsed::new(code.to_string(), root, vec![], String::new());
    let debug = parsed.debug_document(&Config::default()).unwrap();
    assert!(!debug.is_empty() && debug != formatted, "{debug}");
    assert_eq!(
        spadefmt::cli::choose_mode(true, false, true, 1),
        Err(spadefmt::cli::UsageError::DebugWithWrite)
    );
}

#[test]
fn unsupported_diagnostics_are_collected() {
    let code = "fn h() {assert a; b[c]}";
    let assertion = Statement::Assert(variable("a", 15));
    let index = loc(
        Expression::Index(Box::new(variable("b", 18)), Box::new(variable("c", 20))),
        18,
        22,
    );
    let body = loc(
        Expression::Block(Box::new(Block {
            statements: vec![loc(assertion, 8, 17)],
            result: Some(index),
        })),
        7,
        23,
    );
    let item = unit("h", 3, 0, 23, Some(body));
    let Err(FormatError::Unsupported { diagnostics }) = format_with(code, vec![item], vec![], &Config::default())
    else {
        panic!("assert statements and index expressions should be reported");
    };
    let constructs: Vec<&str> = diagnostics
        .iter()
        .filter_map(|diagnostic| match diagnostic {
            BuildDiagnostic::Unsupported { construct, .. } => Some(*construct),
            _ => None,
        })
        .collect();
    for expected in ["`assert` statements", "index expressions"] {
        assert!(constructs.contains(&expected), "{constructs:?} do not mention {expected}");
    }
}

#[test]
fn parse_result_is_accepted_only_without_errors() {
    let root = || loc(ModuleBody { members: vec![], documentation: vec![] }, 0, 0);
    let warning = vec![DiagLevel::Warning];
    let error = vec![DiagLevel::Warning, DiagLevel::Error];
    assert!(Parsed::accept(String::new(), Some(root()), &warning, vec![], String::new()).is_ok());
    assert!(matches!(
        Parsed::accept(String::new(), Some(root()), &error, vec![], "bad".to_string()),
        Err(FormatError::Parse { diagnostics }) if diagnostics == "bad"
    ));
    assert!(matches!(
        Parsed::accept(String::new(), None, &vec![], vec![], String::new()),
        Err(FormatError::Parse { .. })
    ));
}

#[test]
fn dedenting_twice_changes_nothing() {
    let once = dedented_raw("/* a\n      b\n    c */");
    assert_eq!(once, "/* a\n  b\nc */");
    assert_eq!(dedented_raw(&once), once);
}
