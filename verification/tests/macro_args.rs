use proto_ecs::macro_args::{
    lex_bytes, DatagroupInput, GlobalSystemArgs, InitArgStyle, ListItem, LocalSystemArgs,
    MacroArgsError, Span, TokenKind,
};

fn text<'a>(input: &'a str, sp: Span) -> &'a str {
    &input[sp.start..sp.end]
}

fn names<'a>(input: &'a str, items: &[ListItem]) -> Vec<(&'a str, bool)> {
    items.iter().map(|i| (text(input, i.name), i.optional)).collect()
}

#[test]
fn tokens_of_a_local_system_declaration() {
    let kinds: Vec<TokenKind> = lex_bytes(b"A, deps = (B0, 1u8)\n").iter().map(|t| t.kind).collect();
    assert_eq!(
        kinds,
        vec![
            TokenKind::Ident,
            TokenKind::Comma,
            TokenKind::Ident,
            TokenKind::Eq,
            TokenKind::Open,
            TokenKind::Ident,
            TokenKind::Comma,
            TokenKind::Int,
            TokenKind::Close,
        ]
    );
}

#[test]
fn local_system_with_dependencies_and_stages() {
    let input = "Example,\n    dependencies = (DataGroup1, Optional(DataGroup2)),\n    stages = (0,1)";
    let args = LocalSystemArgs::parse(input.as_bytes()).unwrap();
    assert_eq!(text(input, args.struct_id), "Example");
    assert_eq!(names(input, &args.dependencies), vec![("DataGroup1", false), ("DataGroup2", true)]);
    assert_eq!(names(input, &args.stages), vec![("0", false), ("1", false)]);
    assert!(args.before.is_empty());
    assert!(args.after.is_empty());
}

#[test]
fn local_system_with_ordering() {
    let input = "TestMultiplier, dependencies = (TestNumberDataGroup), stages = (0), after = (TestAdder)";
    let args = LocalSystemArgs::parse(input.as_bytes()).unwrap();
    assert_eq!(names(input, &args.after), vec![("TestAdder", false)]);
    assert_eq!(names(input, &args.dependencies), vec![("TestNumberDataGroup", false)]);
}

#[test]
fn local_system_errors() {
    assert_eq!(
        LocalSystemArgs::parse(b"A, stages = (0), stages = (1)").unwrap_err(),
        MacroArgsError::DuplicatedKeyword(8)
    );
    assert_eq!(LocalSystemArgs::parse(b"A, colour = (0)").unwrap_err(), MacroArgsError::UnexpectedKeyword(2));
    assert_eq!(LocalSystemArgs::parse(b"A stages = (0)").unwrap_err(), MacroArgsError::ExpectedComma(1));
    assert_eq!(LocalSystemArgs::parse(b"A,").unwrap_err(), MacroArgsError::ExpectedIdent(2));
    assert_eq!(LocalSystemArgs::parse(b"A, stages = (0),").unwrap_err(), MacroArgsError::ExpectedIdent(8));
    assert_eq!(LocalSystemArgs::parse(b"A, stages = (x)").unwrap_err(), MacroArgsError::ExpectedInt(5));
    assert_eq!(LocalSystemArgs::parse(b"A, stages = (0 1)").unwrap_err(), MacroArgsError::ExpectedComma(6));
    assert_eq!(LocalSystemArgs::parse(b"A, stages = (0) x").unwrap_err(), MacroArgsError::UnexpectedToken(7));
    assert_eq!(
        LocalSystemArgs::parse(b"A, dependencies = (Optional B)").unwrap_err(),
        MacroArgsError::ExpectedOpen(6)
    );
}

#[test]
fn equals_sign_and_trailing_comma_inside_lists_are_optional() {
    let input = "A, stages (0, 2,)";
    let args = LocalSystemArgs::parse(input.as_bytes()).unwrap();
    assert_eq!(names(input, &args.stages), vec![("0", false), ("2", false)]);
}

#[test]
fn global_system_arguments() {
    let input = "Physics, dependencies = (Body), stages = (1), before = (Render), init_arg = Arg(PhysicsConfig), factory = make_physics,";
    let args = GlobalSystemArgs::parse(input.as_bytes()).unwrap();
    assert_eq!(text(input, args.struct_id), "Physics");
    assert_eq!(text(input, args.factory), "make_physics");
    assert_eq!(names(input, &args.before), vec![("Render", false)]);
    match args.init_style {
        InitArgStyle::Arg(sp) => assert_eq!(text(input, sp), "PhysicsConfig"),
        other => panic!("unexpected init style {:?}", other),
    }
}

#[test]
fn global_system_defaults_and_errors() {
    let input = "Audio, factory = make_audio";
    let args = GlobalSystemArgs::parse(input.as_bytes()).unwrap();
    assert!(matches!(args.init_style, InitArgStyle::NoArg));
    assert!(args.stages.is_empty());

    assert_eq!(GlobalSystemArgs::parse(b"Audio, stages = (0)").unwrap_err(), MacroArgsError::MissingFactory);
    assert_eq!(
        GlobalSystemArgs::parse(b"Audio, factory = f, init_arg = Maybe").unwrap_err(),
        MacroArgsError::UnknownInitStyle(8)
    );
    assert_eq!(
        GlobalSystemArgs::parse(b"Audio, factory = f, factory = g").unwrap_err(),
        MacroArgsError::DuplicatedKeyword(6)
    );
}

#[test]
fn datagroup_arguments() {
    let input = "Transform, factory, init_style = Arg(Transform)";
    let args = DatagroupInput::parse(input.as_bytes()).unwrap();
    assert_eq!(text(input, args.datagroup), "Transform");
    assert_eq!(text(input, args.factory), "factory");
    match args.init_style {
        InitArgStyle::Arg(sp) => assert_eq!(text(input, sp), "Transform"),
        other => panic!("unexpected init style {:?}", other),
    }

    let plain = DatagroupInput::parse(b"MyDatagroup, factory").unwrap();
    assert!(matches!(plain.init_style, InitArgStyle::NoInit));

    let optional = "Mesh, make_mesh, init_style = OptionalArg(MeshArgs)";
    match DatagroupInput::parse(optional.as_bytes()).unwrap().init_style {
        InitArgStyle::OptionalArg(sp) => assert_eq!(text(optional, sp), "MeshArgs"),
        other => panic!("unexpected init style {:?}", other),
    }
}

#[test]
fn datagroup_errors() {
    assert_eq!(DatagroupInput::parse(b"").unwrap_err(), MacroArgsError::ExpectedIdent(0));
    assert_eq!(DatagroupInput::parse(b"Dg,").unwrap_err(), MacroArgsError::ExpectedIdent(2));
    assert_eq!(DatagroupInput::parse(b"Dg, f init_style = NoArg").unwrap_err(), MacroArgsError::ExpectedComma(3));
    assert_eq!(
        DatagroupInput::parse(b"Dg, f, init_style = NoArg, init_style = NoArg").unwrap_err(),
        MacroArgsError::UnexpectedToken(7)
    );
    assert_eq!(DatagroupInput::parse(b"Dg, f, colour = NoArg").unwrap_err(), MacroArgsError::UnexpectedKeyword(4));
}

#[test]
fn reserved_words_are_no_identifiers() {
    let kinds: Vec<TokenKind> = lex_bytes(b"self Self _ fn selfish _a").iter().map(|t| t.kind).collect();
    assert_eq!(
        kinds,
        vec![
            TokenKind::Keyword,
            TokenKind::Keyword,
            TokenKind::Keyword,
            TokenKind::Keyword,
            TokenKind::Ident,
            TokenKind::Ident,
        ]
    );
    assert_eq!(LocalSystemArgs::parse(b"fn, stages = (0)").unwrap_err(), MacroArgsError::ExpectedIdent(0));
    assert_eq!(
        LocalSystemArgs::parse(b"A, before = (B, self)").unwrap_err(),
        MacroArgsError::ExpectedIdent(7)
    );
    assert_eq!(
        DatagroupInput::parse(b"Dg, factory, init_style = Arg(type)").unwrap_err(),
        MacroArgsError::ExpectedIdent(8)
    );
}

#[test]
fn raw_identifiers_and_number_literals() {
    let input = "r#type r#self 1e3 2f32 0x1f 1u8 0b12 \u{e9}_x 1_000usize";
    let kinds: Vec<TokenKind> = lex_bytes(input.as_bytes()).iter().map(|t| t.kind).collect();
    assert_eq!(
        kinds,
        vec![
            TokenKind::Ident,
            TokenKind::Keyword,
            TokenKind::Float,
            TokenKind::Float,
            TokenKind::Int,
            TokenKind::Int,
            TokenKind::Float,
            TokenKind::Ident,
            TokenKind::Int,
        ]
    );
    let raw = "r#type, stages = (0)";
    let args = LocalSystemArgs::parse(raw.as_bytes()).unwrap();
    assert_eq!(text(raw, args.struct_id), "r#type");
    assert_eq!(LocalSystemArgs::parse(b"A, stages = (1e3)").unwrap_err(), MacroArgsError::ExpectedInt(5));
    assert_eq!(LocalSystemArgs::parse(b"A, stages = (2f32)").unwrap_err(), MacroArgsError::ExpectedInt(5));
}
