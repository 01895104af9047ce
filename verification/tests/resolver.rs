use chao::analysis::resolver::build_type_table;
use chao::analysis::resolver::resolve;
use chao::analysis::resolver::Resolver;
use chao::analysis::resolver::Scope;
use chao::analysis::resolver::Type;
use chao::analysis::resolver::TypeTable;
use chao::analysis::resolver::Variable;
use chao::common::ast::Node;
use chao::common::ast::NodeKind;
use chao::common::error::ChaoError;
use chao::common::error::ErrorBase;
use chao::common::error::ErrorSeverity;
use chao::common::token::Token;
use chao::common::token::TokenKind;
use chao::frontend::lexer::lex;
use chao::frontend::parser::parse;

fn program(lines: &[&str]) -> Vec<String> {
    lines.iter().map(|l| l.to_string()).collect()
}

fn semantic<'a>(base: ErrorBase<'a>, msg: &'static str) -> ChaoError<'a> {
    ChaoError::new(base, ErrorSeverity::Error, false, msg)
}

fn int_node(val: i32) -> Node<'static> {
    Node::new(NodeKind::LiteralInt { val }, 1, 0, 1)
}

fn name_node(id: &str) -> Node<'static> {
    Node::new(NodeKind::LiteralIdent { id: id.to_string() }, 1, 0, id.len())
}

fn let_node(id: &str, val: Node<'static>) -> Node<'static> {
    Node::new(NodeKind::StmtVariable { id: id.to_string(), val: Box::new(val) }, 1, 0, 3)
}

fn assign_node(id: &str, val: Node<'static>) -> Node<'static> {
    Node::new(
        NodeKind::ExprAssignment {
            id: Box::new(name_node(id)),
            op: TokenKind::Arrow,
            val: Box::new(val),
        },
        1,
        2,
        2,
    )
}

#[test]
fn integer_plus_integer_is_integer() {
    let src = program(&["1 + 1"]);
    let (tokens, _) = lex(&src);
    let (tree, _) = parse(tokens).unwrap();
    assert_eq!(resolve(&tree), Ok(()));
    let resolver = Resolver::new();
    let sum = match &tree[0].kind {
        NodeKind::StmtExpression { expr } => expr,
        other => panic!("{:?}", other),
    };
    assert_eq!(resolver.type_res(sum), Ok(Type::Integer));
}

#[test]
fn integer_plus_string_has_no_rule() {
    let src = program(&["1 + \"a\""]);
    let (tokens, _) = lex(&src);
    let (tree, _) = parse(tokens).unwrap();
    assert_eq!(
        resolve(&tree),
        Err(vec![semantic(
            ErrorBase::IncompatibleTypes { line: 1, offset: 0 },
            "invalid types for this operator"
        )])
    );
}

#[test]
fn integer_plus_nothing_is_integer() {
    let src = program(&["let x -> 1 + nil", "x -> 2"]);
    let (tokens, _) = lex(&src);
    let (tree, _) = parse(tokens).unwrap();
    assert_eq!(resolve(&tree), Ok(()));
}

#[test]
fn minus_has_no_rule() {
    let src = program(&["1 - 1"]);
    let (tokens, _) = lex(&src);
    let (tree, _) = parse(tokens).unwrap();
    assert_eq!(
        resolve(&tree),
        Err(vec![semantic(
            ErrorBase::IncompatibleTypes { line: 1, offset: 0 },
            "invalid types for this operator"
        )])
    );
}

#[test]
fn error_in_the_left_operand_goes_first() {
    let src = program(&["  a + b"]);
    let (tokens, _) = lex(&src);
    let (tree, _) = parse(tokens).unwrap();
    assert_eq!(
        resolve(&tree),
        Err(vec![semantic(
            ErrorBase::UnknownIdentifier { line: 1, offset: 2 },
            "identifier could not be found in this scope"
        )])
    );
}

#[test]
fn literals_have_fixed_types() {
    let resolver = Resolver::new();
    let leaf = |kind: NodeKind<'static>| Node::new(kind, 1, 0, 1);
    assert_eq!(resolver.type_res(&leaf(NodeKind::LiteralInt { val: 3 })), Ok(Type::Integer));
    assert_eq!(
        resolver.type_res(&leaf(NodeKind::LiteralStr { val: "s".to_string() })),
        Ok(Type::String)
    );
    assert_eq!(
        resolver.type_res(&leaf(NodeKind::LiteralFloat { text: "1.5".to_string() })),
        Ok(Type::Float)
    );
    assert_eq!(resolver.type_res(&leaf(NodeKind::LiteralTrue)), Ok(Type::Boolean));
    assert_eq!(resolver.type_res(&leaf(NodeKind::LiteralFalse)), Ok(Type::Boolean));
    assert_eq!(resolver.type_res(&leaf(NodeKind::LiteralNil)), Ok(Type::Void));
}

#[test]
fn assignment_to_a_variable_of_the_same_type() {
    let src = program(&["let x -> 1 + 2", "x -> 3"]);
    let (tokens, _) = lex(&src);
    let (tree, _) = parse(tokens).unwrap();
    assert_eq!(resolve(&tree), Ok(()));
}

#[test]
fn assignment_to_a_constant_is_rejected() {
    let src = program(&["const y -> 5", "y -> 6"]);
    let (tokens, _) = lex(&src);
    let (tree, errors) = parse(tokens).unwrap();
    assert!(errors.is_empty());
    assert_eq!(
        resolve(&tree),
        Err(vec![semantic(
            ErrorBase::ConstantReassignment { line: 2, offset: 5 },
            "cannot reassign a constant"
        )])
    );
}

#[test]
fn assignment_of_another_type_is_rejected() {
    let src = program(&["let x -> 1", "x -> \"one\""]);
    let (tokens, _) = lex(&src);
    let (tree, _) = parse(tokens).unwrap();
    assert_eq!(
        resolve(&tree),
        Err(vec![semantic(
            ErrorBase::IncompatibleTypes { line: 2, offset: 6 },
            "cannot reassign '{}' to a different type"
        )])
    );
}

#[test]
fn assignment_to_an_unknown_name_is_rejected() {
    let src = program(&["z -> 1"]);
    let (tokens, _) = lex(&src);
    let (tree, _) = parse(tokens).unwrap();
    assert_eq!(
        resolve(&tree),
        Err(vec![semantic(
            ErrorBase::UnknownIdentifier { line: 1, offset: 5 },
            "identifier could not be found in this scope"
        )])
    );
}

#[test]
fn assignment_to_what_is_no_name_is_rejected() {
    let src = program(&["1 -> 2"]);
    let (tokens, _) = lex(&src);
    let (tree, _) = parse(tokens).unwrap();
    assert_eq!(
        resolve(&tree),
        Err(vec![semantic(
            ErrorBase::UnknownIdentifier { line: 1, offset: 5 },
            "identifier could not be found in this scope"
        )])
    );
}

#[test]
fn every_rejected_statement_is_reported() {
    let src = program(&["a -> 1", "let b -> 2", "b -> \"x\"", "1 + \"a\"", "b -> 3", "const c -> d"]);
    let (tokens, _) = lex(&src);
    let (tree, _) = parse(tokens).unwrap();
    assert_eq!(
        resolve(&tree),
        Err(vec![
            semantic(
                ErrorBase::UnknownIdentifier { line: 1, offset: 5 },
                "identifier could not be found in this scope"
            ),
            semantic(
                ErrorBase::IncompatibleTypes { line: 3, offset: 6 },
                "cannot reassign '{}' to a different type"
            ),
            semantic(
                ErrorBase::IncompatibleTypes { line: 4, offset: 0 },
                "invalid types for this operator"
            ),
            semantic(
                ErrorBase::UnknownIdentifier { line: 6, offset: 11 },
                "identifier could not be found in this scope"
            ),
        ])
    );
}

#[test]
fn rejected_declaration_binds_nothing() {
    let mut resolver = Resolver::new();
    let bad = let_node("x", name_node("missing"));
    assert!(resolver.resolve(&vec![bad]).is_err());
    assert_eq!(resolver.lookup(&"x".to_string()), None);
}

#[test]
fn invalid_node_is_an_invalid_statement() {
    let tk = Token::new(TokenKind::Plus, 0, 1, "+");
    let tree = vec![Node::invalid(tk), let_node("x", int_node(1))];
    let mut resolver = Resolver::new();
    assert_eq!(
        resolver.resolve(&tree),
        Err(vec![semantic(
            ErrorBase::InvalidStatement { token: tk },
            "this statement could not be parsed"
        )])
    );
    assert_eq!(
        resolver.lookup(&"x".to_string()),
        Some(&Variable::new("x".to_string(), Type::Integer, true))
    );
}

#[test]
fn unary_expression_has_no_rule() {
    let node = Node::new(
        NodeKind::ExprUnary { op: TokenKind::Minus, operand: Box::new(int_node(1)) },
        4,
        7,
        1,
    );
    assert_eq!(
        Resolver::new().type_res(&node),
        Err(semantic(
            ErrorBase::IncompatibleTypes { line: 4, offset: 7 },
            "invalid types for this operator"
        ))
    );
}

#[test]
fn statement_has_no_value() {
    let node = Node::new(
        NodeKind::ExprBinary {
            lhs: Box::new(Node::new(
                NodeKind::StmtVariable { id: "x".to_string(), val: Box::new(int_node(1)) },
                3,
                4,
                3,
            )),
            op: TokenKind::Plus,
            rhs: Box::new(int_node(2)),
        },
        1,
        0,
        1,
    );
    assert_eq!(
        Resolver::new().type_res(&node),
        Err(semantic(
            ErrorBase::IncompatibleTypes { line: 3, offset: 4 },
            "a statement has no value"
        ))
    );
}

#[test]
fn inner_declaration_shadows_the_outer_one() {
    let x = "x".to_string();
    let mut resolver = Resolver::new();
    assert_eq!(resolver.depth(), 1);
    assert_eq!(resolver.resolve(&vec![let_node("x", int_node(1))]), Ok(()));
    assert_eq!(resolver.lookup(&x), Some(&Variable::new("x".to_string(), Type::Integer, true)));

    resolver.enter_scope();
    assert_eq!(resolver.depth(), 2);
    assert_eq!(resolver.lookup(&x), Some(&Variable::new("x".to_string(), Type::Integer, true)));
    let inner = Node::new(
        NodeKind::StmtConstant {
            id: "x".to_string(),
            val: Box::new(Node::new(NodeKind::LiteralStr { val: "s".to_string() }, 1, 0, 1)),
        },
        1,
        0,
        5,
    );
    assert_eq!(resolver.resolve(&vec![inner]), Ok(()));
    assert_eq!(resolver.lookup(&x), Some(&Variable::new("x".to_string(), Type::String, false)));
    assert_eq!(resolver.type_res(&name_node("x")), Ok(Type::String));
    assert!(resolver.resolve(&vec![assign_node("x", int_node(2))]).is_err());

    assert!(resolver.exit_scope());
    assert_eq!(resolver.depth(), 1);
    assert_eq!(resolver.lookup(&x), Some(&Variable::new("x".to_string(), Type::Integer, true)));
    assert_eq!(resolver.type_res(&name_node("x")), Ok(Type::Integer));
    assert_eq!(resolver.resolve(&vec![assign_node("x", int_node(2))]), Ok(()));
}

#[test]
fn inner_scope_is_forgotten_when_left() {
    let mut resolver = Resolver::new();
    resolver.enter_scope();
    assert_eq!(resolver.resolve(&vec![let_node("t", int_node(1))]), Ok(()));
    assert_eq!(resolver.type_res(&name_node("t")), Ok(Type::Integer));
    assert!(resolver.exit_scope());
    assert!(resolver.type_res(&name_node("t")).is_err());
}

#[test]
fn global_scope_is_never_left() {
    let mut resolver = Resolver::new();
    assert_eq!(resolver.resolve(&vec![let_node("g", int_node(1))]), Ok(()));
    assert!(!resolver.exit_scope());
    assert_eq!(resolver.depth(), 1);
    assert_eq!(resolver.type_res(&name_node("g")), Ok(Type::Integer));
}

#[test]
fn redeclaration_in_one_scope_overwrites() {
    let src = program(&["let x -> 1", "let x -> \"s\"", "x -> \"t\""]);
    let (tokens, _) = lex(&src);
    let (tree, _) = parse(tokens).unwrap();
    assert_eq!(resolve(&tree), Ok(()));
}

#[test]
fn check_assignment_gives_the_type() {
    let mut resolver = Resolver::new();
    assert_eq!(resolver.resolve(&vec![let_node("x", int_node(1))]), Ok(()));
    assert_eq!(resolver.check_assignment(&name_node("x"), &int_node(5)), Ok(Type::Integer));
    assert!(resolver.check_assignment(&name_node("y"), &int_node(5)).is_err());
}

#[test]
fn scope_store_and_get() {
    let mut scope = Scope::new();
    let a = "a".to_string();
    let b = "b".to_string();
    assert_eq!(scope.get(&a), None);
    scope.store(a.clone(), Variable::new(a.clone(), Type::Integer, true));
    scope.store(b.clone(), Variable::new(b.clone(), Type::Void, false));
    assert_eq!(scope.get(&a), Some(&Variable::new(a.clone(), Type::Integer, true)));
    assert_eq!(scope.get(&b), Some(&Variable::new(b.clone(), Type::Void, false)));
    scope.store(a.clone(), Variable::new(a.clone(), Type::String, false));
    assert_eq!(scope.get(&a), Some(&Variable::new(a.clone(), Type::String, false)));
    assert_eq!(scope.get(&b), Some(&Variable::new(b.clone(), Type::Void, false)));
    assert_eq!(scope.get(&"c".to_string()), None);
}

#[test]
fn variable_is_what_it_is_made_of() {
    let v = Variable::new("count".to_string(), Type::Integer, true);
    assert_eq!(v.id, "count");
    assert_eq!(v.ty, Type::Integer);
    assert!(v.mutable);
}

#[test]
fn the_type_table_of_the_language() {
    let table = build_type_table();
    assert_eq!(table.get(Type::Integer, TokenKind::Plus, Type::Integer), Some(Type::Integer));
    assert_eq!(table.get(Type::Integer, TokenKind::Plus, Type::Void), Some(Type::Integer));
    assert_eq!(table.get(Type::Void, TokenKind::Plus, Type::Integer), None);
    assert_eq!(table.get(Type::Integer, TokenKind::Plus, Type::String), None);
    assert_eq!(table.get(Type::Integer, TokenKind::Minus, Type::Integer), None);
    assert_eq!(table.get(Type::String, TokenKind::Plus, Type::String), None);
}

#[test]
fn type_rules_are_inserted_not_special_cased() {
    let mut table = TypeTable::new();
    assert_eq!(table.get(Type::String, TokenKind::Plus, Type::String), None);
    table.insert(Type::String, TokenKind::Plus, Type::String, Type::String);
    table.insert(Type::Float, TokenKind::Minus, Type::Float, Type::Float);
    assert_eq!(table.get(Type::String, TokenKind::Plus, Type::String), Some(Type::String));
    table.insert(Type::String, TokenKind::Plus, Type::String, Type::Void);
    assert_eq!(table.get(Type::String, TokenKind::Plus, Type::String), Some(Type::Void));
    assert_eq!(table.get(Type::Float, TokenKind::Minus, Type::Float), Some(Type::Float));
}

#[test]
fn a_rule_more_makes_an_operation_well_typed() {
    let src = program(&["let s -> \"a\" + \"b\"", "let d -> 1 - 2"]);
    let (tokens, _) = lex(&src);
    let (tree, _) = parse(tokens).unwrap();
    assert_eq!(resolve(&tree).unwrap_err().len(), 2);
    let mut table = build_type_table();
    table.insert(Type::String, TokenKind::Plus, Type::String, Type::String);
    table.insert(Type::Integer, TokenKind::Minus, Type::Integer, Type::Integer);
    let mut resolver = Resolver::with_table(table);
    assert_eq!(resolver.resolve(&tree), Ok(()));
    assert_eq!(
        resolver.lookup(&"s".to_string()),
        Some(&Variable::new("s".to_string(), Type::String, true))
    );
}
