//! The resolver: binds names to variables and gives every expression a type.
//!
//! Scopes form a stack with the innermost scope last.  A name is looked up
//! from the innermost scope outward; a declaration writes to the innermost
//! scope.  Which operand types an operator accepts is decided by a table
//! alone: a combination without an entry is an error.  A scope and the
//! table are hash maps; the contracts speak of the maps they stand for.
//!
//! [`expr_type`] and [`resolve_node`] give the meaning of resolution over
//! mathematical values; the methods of [`Resolver`] compute them.

use std::collections::HashMap;
use vstd::hash_map::StringHashMap;
use vstd::prelude::*;
use crate::common::ast::Node;
use crate::common::ast::NodeKind;
use crate::common::ast::NodeKindView;
use crate::common::ast::NodeView;
use crate::common::error::ChaoError;
use crate::common::error::ChaoErrorView;
use crate::common::error::ErrorBase;
use crate::common::error::ErrorBaseView;
use crate::common::error::ErrorSeverity;
use crate::common::error::fault;
use crate::common::error::is_semantic;
use crate::common::token::TokenKind;

verus! {

broadcast use vstd::std_specs::hash::group_hash_axioms;

/// The types of the language.
#[derive(Debug, Clone, Copy, PartialEq, Eq, Hash, Structural)]
pub enum Type {
    Integer,
    String,
    Void,
    Float,
    Boolean,
}

/// A declared name: its type, and whether it may be assigned to.
#[derive(Debug, Clone, PartialEq, Eq, Hash)]
pub struct Variable {
    pub id: String,
    pub ty: Type,
    pub mutable: bool,
}

/// A [`Variable`] as a mathematical value.
pub struct VariableView {
    pub id: Seq<char>,
    pub ty: Type,
    pub mutable: bool,
}

impl View for Variable {
    type V = VariableView;

    open spec fn view(&self) -> VariableView {
        VariableView { id: self.id@, ty: self.ty, mutable: self.mutable }
    }
}

impl Variable {
    /// A variable with the given parts.
    pub fn new(id: String, ty: Type, mutable: bool) -> (variable: Variable)
        ensures
            variable@ == (VariableView { id: id@, ty, mutable }),
    {
        Variable { id, ty, mutable }
    }
}

/// What an operator makes of two operand types.
pub type Rules = Map<(Type, TokenKind, Type), Type>;

/// The number a type is filed under.
pub open spec fn type_code(ty: Type) -> u64 {
    match ty {
        Type::Integer => 0,
        Type::String => 1,
        Type::Void => 2,
        Type::Float => 3,
        Type::Boolean => 4,
    }
}

/// The number an operator is filed under.
pub open spec fn kind_code(kind: TokenKind) -> u64 {
    match kind {
        TokenKind::Eof => 0,
        TokenKind::LParen => 1,
        TokenKind::RParen => 2,
        TokenKind::Plus => 3,
        TokenKind::PlusEqual => 4,
        TokenKind::PlusPlus => 5,
        TokenKind::Minus => 6,
        TokenKind::MinusEqual => 7,
        TokenKind::MinusMinus => 8,
        TokenKind::Equal => 9,
        TokenKind::Arrow => 10,
        TokenKind::Semicolon => 11,
        TokenKind::LiteralString => 12,
        TokenKind::LiteralInt => 13,
        TokenKind::LiteralFloat => 14,
        TokenKind::LiteralChar => 15,
        TokenKind::Identifier => 16,
        TokenKind::True => 17,
        TokenKind::False => 18,
        TokenKind::Nil => 19,
    }
}

/// The key under which the table files `lhs op rhs`: the three numbers as
/// the digits of one, so that no two combinations share a key.
pub open spec fn rule_key(lhs: Type, op: TokenKind, rhs: Type) -> u64 {
    (type_code(lhs) * 100 + kind_code(op) * 5 + type_code(rhs)) as u64
}

/// No two combinations of operator and operand types share a key.
pub proof fn lemma_rule_key(a: (Type, TokenKind, Type), b: (Type, TokenKind, Type))
    ensures
        rule_key(a.0, a.1, a.2) == rule_key(b.0, b.1, b.2) <==> a == b,
{
}

/// The rules a map from keys to types stands for.
pub open spec fn rules_of(filed: Map<u64, Type>) -> Rules {
    Map::new(
        |k: (Type, TokenKind, Type)| filed.contains_key(rule_key(k.0, k.1, k.2)),
        |k: (Type, TokenKind, Type)| filed[rule_key(k.0, k.1, k.2)],
    )
}

/// The table of the operations that are well typed: a hash map from a
/// combination of operator and operand types, filed under its key, to the
/// type of the result.
pub struct TypeTable {
    rules: HashMap<u64, Type>,
}

impl View for TypeTable {
    type V = Rules;

    closed spec fn view(&self) -> Rules {
        rules_of(self.rules@)
    }
}

/// The number a type is filed under.
fn code_of_type(ty: Type) -> (code: u64)
    ensures
        code == type_code(ty),
{
    match ty {
        Type::Integer => 0,
        Type::String => 1,
        Type::Void => 2,
        Type::Float => 3,
        Type::Boolean => 4,
    }
}

/// The number an operator is filed under.
fn code_of_kind(kind: TokenKind) -> (code: u64)
    ensures
        code == kind_code(kind),
{
    match kind {
        TokenKind::Eof => 0,
        TokenKind::LParen => 1,
        TokenKind::RParen => 2,
        TokenKind::Plus => 3,
        TokenKind::PlusEqual => 4,
        TokenKind::PlusPlus => 5,
        TokenKind::Minus => 6,
        TokenKind::MinusEqual => 7,
        TokenKind::MinusMinus => 8,
        TokenKind::Equal => 9,
        TokenKind::Arrow => 10,
        TokenKind::Semicolon => 11,
        TokenKind::LiteralString => 12,
        TokenKind::LiteralInt => 13,
        TokenKind::LiteralFloat => 14,
        TokenKind::LiteralChar => 15,
        TokenKind::Identifier => 16,
        TokenKind::True => 17,
        TokenKind::False => 18,
        TokenKind::Nil => 19,
    }
}

/// The key under which the table files `lhs op rhs`.
fn key_of(lhs: Type, op: TokenKind, rhs: Type) -> (key: u64)
    ensures
        key == rule_key(lhs, op, rhs),
{
    code_of_type(lhs) * 100 + code_of_kind(op) * 5 + code_of_type(rhs)
}

impl TypeTable {
    /// A table without entries.
    pub fn new() -> (table: TypeTable)
        ensures
            table@ == Rules::empty(),
    {
        let table = TypeTable { rules: HashMap::new() };
        assert(table@ =~= Rules::empty());
        table
    }

    /// The type of `lhs op rhs`, if the table has an entry for it.
    pub fn get(&self, lhs: Type, op: TokenKind, rhs: Type) -> (result: Option<Type>)
        ensures
            result == if self@.contains_key((lhs, op, rhs)) {
                Some(self@[(lhs, op, rhs)])
            } else {
                None
            },
    {
        let key = key_of(lhs, op, rhs);
        match self.rules.get(&key) {
            Some(result) => Some(*result),
            None => None,
        }
    }

    /// Makes `result` the type of `lhs op rhs`, in place of any earlier entry.
    pub fn insert(&mut self, lhs: Type, op: TokenKind, rhs: Type, result: Type)
        ensures
            final(self)@ == old(self)@.insert((lhs, op, rhs), result),
    {
        let key = key_of(lhs, op, rhs);
        self.rules.insert(key, result);
        proof {
            assert forall|k: (Type, TokenKind, Type)|
                rule_key(k.0, k.1, k.2) == key <==> k == (lhs, op, rhs) by {
                lemma_rule_key(k, (lhs, op, rhs));
            }
            assert(self@ =~= old(self)@.insert((lhs, op, rhs), result));
        }
    }
}

/// The rules of the language: an integer plus an integer, or plus nothing, is an integer.
pub open spec fn default_rules() -> Rules {
    Rules::empty().insert((Type::Integer, TokenKind::Plus, Type::Integer), Type::Integer).insert(
        (Type::Integer, TokenKind::Plus, Type::Void),
        Type::Integer,
    )
}

/// The type table of the language.
pub fn build_type_table() -> (table: TypeTable)
    ensures
        table@ == default_rules(),
{
    let mut table = TypeTable::new();
    table.insert(Type::Integer, TokenKind::Plus, Type::Integer, Type::Integer);
    table.insert(Type::Integer, TokenKind::Plus, Type::Void, Type::Integer);
    table
}

/// What the names of one scope stand for.
pub type Names = Map<Seq<char>, VariableView>;

/// One lexical scope: a hash map from names to variables.
pub struct Scope {
    variables: StringHashMap<Variable>,
}

impl View for Scope {
    type V = Names;

    closed spec fn view(&self) -> Names {
        self.variables@.map_values(|v: Variable| v@)
    }
}

impl Scope {
    /// A scope that binds no name.
    pub fn new() -> (scope: Scope)
        ensures
            scope@ == Names::empty(),
    {
        let scope = Scope { variables: StringHashMap::new() };
        assert(scope@ =~= Names::empty());
        scope
    }

    /// Binds `id` to `v`, in place of any earlier binding of `id` in this scope.
    pub fn store(&mut self, id: String, v: Variable)
        ensures
            final(self)@ == old(self)@.insert(id@, v@),
    {
        self.variables.insert(id, v);
        assert(self@ =~= old(self)@.insert(id@, v@));
    }

    /// The variable `id` is bound to in this scope, if it is bound.
    pub fn get(&self, id: &String) -> (found: Option<&Variable>)
        ensures
            match found {
                Some(v) => self@.contains_key(id@) && self@[id@] == v@,
                None => !self@.contains_key(id@),
            },
    {
        self.variables.get(id.as_str())
    }
}

/// A stack of scopes, the innermost last.
pub type Scopes = Seq<Names>;

/// The variable a name stands for: its binding in the innermost scope that binds it.
pub open spec fn lookup(scopes: Scopes, name: Seq<char>) -> Option<VariableView>
    decreases scopes.len(),
{
    if scopes.len() == 0 {
        None
    } else if scopes.last().contains_key(name) {
        Some(scopes.last()[name])
    } else {
        lookup(scopes.drop_last(), name)
    }
}

/// The scopes after `variable` is declared: the innermost scope binds its
/// name to it, whatever that scope bound the name to before.
pub open spec fn declare(scopes: Scopes, variable: VariableView) -> Scopes {
    if scopes.len() == 0 {
        scopes
    } else {
        scopes.update(scopes.len() - 1, scopes.last().insert(variable.id, variable))
    }
}

/// The scopes after a block is entered.
pub open spec fn enter(scopes: Scopes) -> Scopes {
    scopes.push(Names::empty())
}

/// The scopes after a block is left.  The outermost scope is never left.
pub open spec fn leave(scopes: Scopes) -> Scopes {
    if scopes.len() > 1 {
        scopes.drop_last()
    } else {
        scopes
    }
}

/// The diagnostic for a name that no reachable scope binds.
pub open spec fn unknown(line: nat, offset: nat) -> ChaoErrorView {
    fault(
        ErrorBaseView::UnknownIdentifier { line, offset },
        "identifier could not be found in this scope"@,
    )
}

/// The diagnostic for an operation that the type table has no entry for.
pub open spec fn no_rule(line: nat, offset: nat) -> ChaoErrorView {
    fault(ErrorBaseView::IncompatibleTypes { line, offset }, "invalid types for this operator"@)
}

/// The type of a literal, or of what a name stands for.
pub open spec fn literal_type(scopes: Scopes, node: NodeView) -> Result<Type, ChaoErrorView> {
    match node.kind {
        NodeKindView::LiteralStr { .. } => Ok(Type::String),
        NodeKindView::LiteralInt { .. } => Ok(Type::Integer),
        NodeKindView::LiteralFloat { .. } => Ok(Type::Float),
        NodeKindView::LiteralTrue => Ok(Type::Boolean),
        NodeKindView::LiteralFalse => Ok(Type::Boolean),
        NodeKindView::LiteralNil => Ok(Type::Void),
        NodeKindView::LiteralIdent { id } => match lookup(scopes, id) {
            Some(variable) => Ok(variable.ty),
            None => Err(unknown(node.line, node.offset)),
        },
        NodeKindView::Invalid { tk } => Err(
            fault(
                ErrorBaseView::InvalidStatement { token: tk },
                "this statement could not be parsed"@,
            ),
        ),
        _ => Err(
            fault(
                ErrorBaseView::IncompatibleTypes { line: node.line, offset: node.offset },
                "a statement has no value"@,
            ),
        ),
    }
}

/// The type of `lhs op rhs`, given what the types of its operands are.  An
/// error in the left operand goes before one in the right; a combination
/// that the table has no entry for is an error at the left operand.
pub open spec fn binary_type(
    rules: Rules,
    lhs: NodeView,
    op: TokenKind,
    left: Result<Type, ChaoErrorView>,
    right: Result<Type, ChaoErrorView>,
) -> Result<Type, ChaoErrorView> {
    match left {
        Err(e) => Err(e),
        Ok(l) => match right {
            Err(e) => Err(e),
            Ok(r) => if rules.contains_key((l, op, r)) {
                Ok(rules[(l, op, r)])
            } else {
                Err(no_rule(lhs.line, lhs.offset))
            },
        },
    }
}

/// The type of `target -> val`, given what the type of `val` is.  The
/// target must be a name that a reachable scope binds, it must not be bound
/// as a constant, and the type of the value must be that of the variable.
/// Every diagnostic points at the value.
pub open spec fn assignment_type(
    scopes: Scopes,
    target: NodeView,
    val: NodeView,
    value: Result<Type, ChaoErrorView>,
) -> Result<Type, ChaoErrorView> {
    let bound = match target.kind {
        NodeKindView::LiteralIdent { id } => lookup(scopes, id),
        _ => None,
    };
    match bound {
        None => Err(unknown(val.line, val.offset)),
        Some(variable) => if !variable.mutable {
            Err(
                fault(
                    ErrorBaseView::ConstantReassignment { line: val.line, offset: val.offset },
                    "cannot reassign a constant"@,
                ),
            )
        } else {
            match value {
                Err(e) => Err(e),
                Ok(ty) => if ty != variable.ty {
                    Err(
                        fault(
                            ErrorBaseView::IncompatibleTypes {
                                line: val.line,
                                offset: val.offset,
                            },
                            "cannot reassign '{}' to a different type"@,
                        ),
                    )
                } else {
                    Ok(ty)
                },
            }
        },
    }
}

/// The type of an expression, or the first error met while deriving it.
pub open spec fn expr_type(scopes: Scopes, rules: Rules, node: NodeView) -> Result<
    Type,
    ChaoErrorView,
>
    decreases node,
{
    match node.kind {
        NodeKindView::ExprBinary { lhs, op, rhs } => binary_type(
            rules,
            *lhs,
            op,
            expr_type(scopes, rules, *lhs),
            expr_type(scopes, rules, *rhs),
        ),
        NodeKindView::ExprUnary { .. } => Err(no_rule(node.line, node.offset)),
        NodeKindView::ExprAssignment { id, op, val } => assignment_type(
            scopes,
            *id,
            *val,
            expr_type(scopes, rules, *val),
        ),
        _ => literal_type(scopes, node),
    }
}

/// What one statement does to the scopes, or the error that rejects it.  A
/// declaration binds its name, in the innermost scope, to a variable of
/// the type of its initial value; any other statement is checked as an
/// expression and leaves the scopes as they are.
pub open spec fn resolve_node(scopes: Scopes, rules: Rules, node: NodeView) -> Result<
    Scopes,
    ChaoErrorView,
>
    decreases node,
{
    match node.kind {
        NodeKindView::StmtConstant { id, val } => match expr_type(scopes, rules, *val) {
            Ok(ty) => Ok(declare(scopes, VariableView { id, ty, mutable: false })),
            Err(e) => Err(e),
        },
        NodeKindView::StmtVariable { id, val } => match expr_type(scopes, rules, *val) {
            Ok(ty) => Ok(declare(scopes, VariableView { id, ty, mutable: true })),
            Err(e) => Err(e),
        },
        NodeKindView::StmtExpression { expr } => resolve_node(scopes, rules, *expr),
        _ => match expr_type(scopes, rules, node) {
            Ok(_) => Ok(scopes),
            Err(e) => Err(e),
        },
    }
}

/// Scopes and diagnostics after a run of statements.
pub struct Resolution {
    pub scopes: Scopes,
    pub errors: Seq<ChaoErrorView>,
}

/// What resolving `ast` in order yields: a statement that is rejected adds
/// its error and changes no scope, and the statements after it are resolved
/// all the same.
pub open spec fn resolve_all(scopes: Scopes, rules: Rules, ast: Seq<NodeView>) -> Resolution
    decreases ast.len(),
{
    if ast.len() == 0 {
        Resolution { scopes, errors: Seq::empty() }
    } else {
        let before = resolve_all(scopes, rules, ast.drop_last());
        match resolve_node(before.scopes, rules, ast.last()) {
            Ok(after) => Resolution { scopes: after, errors: before.errors },
            Err(e) => Resolution { scopes: before.scopes, errors: before.errors.push(e) },
        }
    }
}

/// Every diagnostic is one of the resolver's.
pub open spec fn semantic(errors: Seq<ChaoErrorView>) -> bool {
    forall|k: int| 0 <= k < errors.len() ==> is_semantic(#[trigger] errors[k])
}

/// A name declared in an outer scope and declared again in a scope nested
/// in it stands for the inner variable while the inner scope lasts, and for
/// the outer variable again once the inner scope is left, which leaves the
/// outer scopes as they were.
pub proof fn lemma_shadowing(scopes: Scopes, outer: VariableView, inner: VariableView)
    requires
        scopes.len() > 0,
        outer.id == inner.id,
    ensures
        lookup(declare(scopes, outer), outer.id) == Some(outer),
        lookup(declare(enter(declare(scopes, outer)), inner), outer.id) == Some(inner),
        leave(declare(enter(declare(scopes, outer)), inner)) == declare(scopes, outer),
        lookup(leave(declare(enter(declare(scopes, outer)), inner)), outer.id) == Some(outer),
{
}

/// A declaration in an inner scope changes no outer scope, and is forgotten
/// when the inner scope is left.
pub proof fn lemma_scope_discipline(scopes: Scopes, variable: VariableView)
    requires
        scopes.len() > 0,
    ensures
        leave(declare(enter(scopes), variable)) == scopes,
        lookup(declare(scopes, variable), variable.id) == Some(variable),
        forall|name: Seq<char>|
            name != variable.id ==> lookup(declare(scopes, variable), name) == lookup(
                scopes,
                name,
            ),
{
    assert(declare(scopes, variable).drop_last() =~= scopes.drop_last());
}

/// The table alone decides an operation between well-typed operands: with
/// an entry, the operation has the type the entry gives; without one, it is
/// rejected as an operation between incompatible types, at its left operand.
pub proof fn lemma_table_decides(
    scopes: Scopes,
    rules: Rules,
    node: NodeView,
    left: Type,
    right: Type,
)
    requires
        node.kind is ExprBinary,
        expr_type(scopes, rules, *node.kind->lhs) == Ok::<Type, ChaoErrorView>(left),
        expr_type(scopes, rules, *node.kind->rhs) == Ok::<Type, ChaoErrorView>(right),
    ensures
        rules.contains_key((left, node.kind->ExprBinary_op, right)) ==> expr_type(
            scopes,
            rules,
            node,
        ) == Ok::<Type, ChaoErrorView>(rules[(left, node.kind->ExprBinary_op, right)]),
        !rules.contains_key((left, node.kind->ExprBinary_op, right)) ==> expr_type(
            scopes,
            rules,
            node,
        ) == Err::<Type, ChaoErrorView>(
            fault(
                ErrorBaseView::IncompatibleTypes {
                    line: node.kind->lhs.line,
                    offset: node.kind->lhs.offset,
                },
                "invalid types for this operator"@,
            ),
        ),
{
}

/// An error met while deriving a type is semantic.
pub proof fn lemma_expr_type(scopes: Scopes, rules: Rules, node: NodeView)
    ensures
        expr_type(scopes, rules, node) matches Err(e) ==> is_semantic(e),
    decreases node,
{
    match node.kind {
        NodeKindView::ExprBinary { lhs, op, rhs } => {
            lemma_expr_type(scopes, rules, *lhs);
            lemma_expr_type(scopes, rules, *rhs);
        },
        NodeKindView::ExprAssignment { id, op, val } => {
            lemma_expr_type(scopes, rules, *val);
        },
        _ => {},
    }
}

/// A statement opens and closes no scope, and the error that rejects it is semantic.
pub proof fn lemma_resolve_node(scopes: Scopes, rules: Rules, node: NodeView)
    ensures
        resolve_node(scopes, rules, node) matches Ok(after) ==> after.len() == scopes.len(),
        resolve_node(scopes, rules, node) matches Err(e) ==> is_semantic(e),
    decreases node,
{
    match node.kind {
        NodeKindView::StmtExpression { expr } => {
            lemma_resolve_node(scopes, rules, *expr);
        },
        NodeKindView::StmtConstant { id, val } => {
            lemma_expr_type(scopes, rules, *val);
        },
        NodeKindView::StmtVariable { id, val } => {
            lemma_expr_type(scopes, rules, *val);
        },
        _ => {
            lemma_expr_type(scopes, rules, node);
        },
    }
}

/// Resolution opens and closes no scope, and raises at most one error for
/// each statement, each of them semantic.
pub proof fn lemma_resolve_all(scopes: Scopes, rules: Rules, ast: Seq<NodeView>)
    ensures
        resolve_all(scopes, rules, ast).scopes.len() == scopes.len(),
        resolve_all(scopes, rules, ast).errors.len() <= ast.len(),
        semantic(resolve_all(scopes, rules, ast).errors),
    decreases ast.len(),
{
    if ast.len() > 0 {
        lemma_resolve_all(scopes, rules, ast.drop_last());
        lemma_resolve_node(resolve_all(scopes, rules, ast.drop_last()).scopes, rules, ast.last());
    }
}

/// The state of resolution: the stack of scopes and the type table.
pub struct Resolver {
    scopes: Vec<Scope>,
    types: TypeTable,
}

impl Resolver {
    /// The scopes as mathematical values, the innermost last.
    pub closed spec fn scopes(&self) -> Scopes {
        Seq::new(self.scopes@.len(), |i: int| self.scopes@[i]@)
    }

    /// The type table as a map.
    pub closed spec fn rules(&self) -> Rules {
        self.types@
    }

    /// There is a scope: the global scope is never closed.
    pub closed spec fn wf(&self) -> bool {
        self.scopes@.len() > 0
    }

    /// A resolver with the global scope, which binds nothing, and the
    /// language's type table.
    pub fn new() -> (resolver: Resolver)
        ensures
            resolver.wf(),
            resolver.scopes() == seq![Names::empty()],
            resolver.rules() == default_rules(),
    {
        let mut scopes: Vec<Scope> = Vec::new();
        scopes.push(Scope::new());
        let resolver = Resolver { scopes, types: build_type_table() };
        resolver
    }

    /// A resolver with the global scope, which binds nothing, and the
    /// given type table.
    pub fn with_table(types: TypeTable) -> (resolver: Resolver)
        ensures
            resolver.wf(),
            resolver.scopes() == seq![Names::empty()],
            resolver.rules() == types@,
    {
        let mut scopes: Vec<Scope> = Vec::new();
        scopes.push(Scope::new());
        let resolver = Resolver { scopes, types };
        resolver
    }

    /// How many scopes are open.
    pub fn depth(&self) -> (depth: usize)
        ensures
            depth == self.scopes().len(),
    {
        self.scopes.len()
    }

    /// Opens a scope inside the innermost one.
    pub fn enter_scope(&mut self)
        requires
            old(self).wf(),
        ensures
            final(self).wf(),
            final(self).rules() == old(self).rules(),
            final(self).scopes() == enter(old(self).scopes()),
    {
        self.scopes.push(Scope::new());
    }

    /// Closes the innermost scope and forgets what it bound.  The global
    /// scope stays: on it the call does nothing and returns `false`.
    pub fn exit_scope(&mut self) -> (left: bool)
        requires
            old(self).wf(),
        ensures
            final(self).wf(),
            final(self).rules() == old(self).rules(),
            final(self).scopes() == leave(old(self).scopes()),
            left == (old(self).scopes().len() > 1),
    {
        if self.scopes.len() > 1 {
            self.scopes.pop();
            true
        } else {
            false
        }
    }

    /// The variable a name stands for, if a reachable scope binds it.
    pub fn lookup(&self, id: &String) -> (found: Option<&Variable>)
        requires
            self.wf(),
        ensures
            match found {
                Some(v) => lookup(self.scopes(), id@) == Some(v@),
                None => lookup(self.scopes(), id@) is None,
            },
    {
        let mut i: usize = self.scopes.len();
        assert(self.scopes().take(i as int) =~= self.scopes());
        while i > 0
            invariant
                self.wf(),
                i <= self.scopes@.len(),
                lookup(self.scopes(), id@) == lookup(self.scopes().take(i as int), id@),
            decreases i,
        {
            i -= 1;
            assert(self.scopes().take(i + 1).drop_last() =~= self.scopes().take(i as int));
            match self.scopes[i].get(id) {
                Some(v) => {
                    return Some(v);
                },
                None => {},
            }
        }
        None
    }

    /// Declares `id` in the innermost scope.
    fn declare(&mut self, id: &String, ty: Type, mutable: bool)
        requires
            old(self).wf(),
        ensures
            final(self).wf(),
            final(self).rules() == old(self).rules(),
            final(self).scopes() == declare(
                old(self).scopes(),
                VariableView { id: id@, ty, mutable },
            ),
    {
        let variable = Variable::new(id.clone(), ty, mutable);
        let mut scope = match self.scopes.pop() {
            Some(scope) => scope,
            None => Scope::new(),
        };
        scope.store(id.clone(), variable);
        self.scopes.push(scope);
    }

    /// Binds `id`, as a constant, to the type of `val`.
    fn def_const_id<'a>(&mut self, id: &String, val: &Node<'a>) -> (done: Result<(), ChaoError<'a>>)
        requires
            old(self).wf(),
        ensures
            final(self).wf(),
            final(self).rules() == old(self).rules(),
            match expr_type(old(self).scopes(), old(self).rules(), val@) {
                Ok(ty) => done is Ok && final(self).scopes() == declare(
                    old(self).scopes(),
                    VariableView { id: id@, ty, mutable: false },
                ),
                Err(e) => done is Err && done->Err_0@ == e && final(self).scopes() == old(
                    self,
                ).scopes(),
            },
    {
        match self.type_res(val) {
            Ok(ty) => {
                self.declare(id, ty, false);
                Ok(())
            },
            Err(e) => Err(e),
        }
    }

    /// Binds `id`, as a variable, to the type of `val`.
    fn def_variable_id<'a>(&mut self, id: &String, val: &Node<'a>) -> (done: Result<
        (),
        ChaoError<'a>,
    >)
        requires
            old(self).wf(),
        ensures
            final(self).wf(),
            final(self).rules() == old(self).rules(),
            match expr_type(old(self).scopes(), old(self).rules(), val@) {
                Ok(ty) => done is Ok && final(self).scopes() == declare(
                    old(self).scopes(),
                    VariableView { id: id@, ty, mutable: true },
                ),
                Err(e) => done is Err && done->Err_0@ == e && final(self).scopes() == old(
                    self,
                ).scopes(),
            },
    {
        match self.type_res(val) {
            Ok(ty) => {
                self.declare(id, ty, true);
                Ok(())
            },
            Err(e) => Err(e),
        }
    }

    /// Checks the assignment of `val` to `variable` and gives its type.
    pub fn check_assignment<'a>(&self, variable: &Node<'a>, val: &Node<'a>) -> (checked: Result<
        Type,
        ChaoError<'a>,
    >)
        requires
            self.wf(),
        ensures
            match checked {
                Ok(ty) => assignment_type(
                    self.scopes(),
                    variable@,
                    val@,
                    expr_type(self.scopes(), self.rules(), val@),
                ) == Ok::<Type, ChaoErrorView>(ty),
                Err(e) => assignment_type(
                    self.scopes(),
                    variable@,
                    val@,
                    expr_type(self.scopes(), self.rules(), val@),
                ) == Err::<Type, ChaoErrorView>(e@),
            },
        decreases *val, 1int,
    {
        let line = val.line;
        let offset = val.offset;
        let bound = match &variable.kind {
            NodeKind::LiteralIdent { id } => self.lookup(id),
            _ => None,
        };
        match bound {
            None => Err(
                ChaoError::new(
                    ErrorBase::UnknownIdentifier { line, offset },
                    ErrorSeverity::Error,
                    false,
                    "identifier could not be found in this scope",
                ),
            ),
            Some(target) => {
                if !target.mutable {
                    return Err(
                        ChaoError::new(
                            ErrorBase::ConstantReassignment { line, offset },
                            ErrorSeverity::Error,
                            false,
                            "cannot reassign a constant",
                        ),
                    );
                }
                match self.type_res(val) {
                    Err(e) => Err(e),
                    Ok(ty) => {
                        if ty != target.ty {
                            Err(
                                ChaoError::new(
                                    ErrorBase::IncompatibleTypes { line, offset },
                                    ErrorSeverity::Error,
                                    false,
                                    "cannot reassign '{}' to a different type",
                                ),
                            )
                        } else {
                            Ok(ty)
                        }
                    },
                }
            },
        }
    }

    /// Derives the type of an expression.
    pub fn type_res<'a>(&self, val: &Node<'a>) -> (derived: Result<Type, ChaoError<'a>>)
        requires
            self.wf(),
        ensures
            match derived {
                Ok(ty) => expr_type(self.scopes(), self.rules(), val@) == Ok::<Type, ChaoErrorView>(
                    ty,
                ),
                Err(e) => expr_type(self.scopes(), self.rules(), val@) == Err::<
                    Type,
                    ChaoErrorView,
                >(e@),
            },
        decreases *val, 0int,
    {
        match &val.kind {
            NodeKind::LiteralStr { .. } => Ok(Type::String),
            NodeKind::LiteralInt { .. } => Ok(Type::Integer),
            NodeKind::LiteralFloat { .. } => Ok(Type::Float),
            NodeKind::LiteralTrue => Ok(Type::Boolean),
            NodeKind::LiteralFalse => Ok(Type::Boolean),
            NodeKind::LiteralNil => Ok(Type::Void),
            NodeKind::LiteralIdent { id } => match self.lookup(id) {
                Some(variable) => Ok(variable.ty),
                None => Err(
                    ChaoError::new(
                        ErrorBase::UnknownIdentifier { line: val.line, offset: val.offset },
                        ErrorSeverity::Error,
                        false,
                        "identifier could not be found in this scope",
                    ),
                ),
            },
            NodeKind::ExprBinary { lhs, op, rhs } => {
                let line = lhs.line;
                let offset = lhs.offset;
                let lhs_ty = match self.type_res(lhs) {
                    Ok(ty) => ty,
                    Err(e) => {
                        return Err(e);
                    },
                };
                let rhs_ty = match self.type_res(rhs) {
                    Ok(ty) => ty,
                    Err(e) => {
                        return Err(e);
                    },
                };
                match self.types.get(lhs_ty, *op, rhs_ty) {
                    Some(result_ty) => Ok(result_ty),
                    None => Err(
                        ChaoError::new(
                            ErrorBase::IncompatibleTypes { line, offset },
                            ErrorSeverity::Error,
                            false,
                            "invalid types for this operator",
                        ),
                    ),
                }
            },
            NodeKind::ExprUnary { .. } => Err(
                ChaoError::new(
                    ErrorBase::IncompatibleTypes { line: val.line, offset: val.offset },
                    ErrorSeverity::Error,
                    false,
                    "invalid types for this operator",
                ),
            ),
            NodeKind::ExprAssignment { id, op: _, val: value } => self.check_assignment(id, value),
            NodeKind::Invalid { tk } => Err(
                ChaoError::new(
                    ErrorBase::InvalidStatement { token: *tk },
                    ErrorSeverity::Error,
                    false,
                    "this statement could not be parsed",
                ),
            ),
            _ => Err(
                ChaoError::new(
                    ErrorBase::IncompatibleTypes { line: val.line, offset: val.offset },
                    ErrorSeverity::Error,
                    false,
                    "a statement has no value",
                ),
            ),
        }
    }

    /// Resolves one statement.
    pub fn resolve_node<'a>(&mut self, node: &Node<'a>) -> (done: Result<(), ChaoError<'a>>)
        requires
            old(self).wf(),
        ensures
            final(self).wf(),
            final(self).rules() == old(self).rules(),
            match resolve_node(old(self).scopes(), old(self).rules(), node@) {
                Ok(scopes) => done is Ok && final(self).scopes() == scopes,
                Err(e) => done is Err && done->Err_0@ == e && final(self).scopes() == old(
                    self,
                ).scopes(),
            },
        decreases *node,
    {
        match &node.kind {
            NodeKind::StmtConstant { id, val } => self.def_const_id(id, val),
            NodeKind::StmtVariable { id, val } => self.def_variable_id(id, val),
            NodeKind::StmtExpression { expr } => self.resolve_node(expr),
            _ => match self.type_res(node) {
                Ok(_) => Ok(()),
                Err(e) => Err(e),
            },
        }
    }

    /// Resolves every statement of `ast`, in order, whether or not an
    /// earlier one was rejected.  Succeeds exactly if none was rejected;
    /// otherwise hands out the error of each rejected statement, in order.
    pub fn resolve<'a>(&mut self, ast: &Vec<Node<'a>>) -> (done: Result<(), Vec<ChaoError<'a>>>)
        requires
            old(self).wf(),
        ensures
            final(self).wf(),
            final(self).rules() == old(self).rules(),
            final(self).scopes().len() == old(self).scopes().len(),
            ({
                let all = resolve_all(old(self).scopes(), old(self).rules(), ast.deep_view());
                &&& final(self).scopes() == all.scopes
                &&& match done {
                    Ok(_) => all.errors.len() == 0,
                    Err(errors) => {
                        &&& 0 < all.errors.len() <= ast@.len()
                        &&& errors.deep_view() == all.errors
                        &&& semantic(errors.deep_view())
                    },
                }
            }),
    {
        let mut errors: Vec<ChaoError<'a>> = Vec::new();
        let ghost scopes0 = self.scopes();
        let ghost rules = self.rules();
        let ghost nodes = ast.deep_view();
        let mut i: usize = 0;
        while i < ast.len()
            invariant
                self.wf(),
                self.rules() == rules,
                nodes == ast.deep_view(),
                i <= ast.len(),
                self.scopes() == resolve_all(scopes0, rules, nodes.take(i as int)).scopes,
                errors.deep_view() == resolve_all(scopes0, rules, nodes.take(i as int)).errors,
            decreases ast.len() - i,
        {
            proof {
                assert(nodes.take(i + 1).drop_last() =~= nodes.take(i as int));
            }
            match self.resolve_node(&ast[i]) {
                Ok(_) => {},
                Err(e) => {
                    errors.push(e);
                },
            }
            i += 1;
        }
        assert(nodes.take(i as int) =~= nodes);
        proof {
            lemma_resolve_all(scopes0, rules, nodes);
        }
        if errors.len() == 0 {
            Ok(())
        } else {
            Err(errors)
        }
    }
}

/// Resolves a whole program from the global scope.  Succeeds exactly if no
/// statement is rejected; otherwise hands out every error, in order.
pub fn resolve<'a>(ast: &Vec<Node<'a>>) -> (done: Result<(), Vec<ChaoError<'a>>>)
    ensures
        ({
            let all = resolve_all(seq![Names::empty()], default_rules(), ast.deep_view());
            match done {
                Ok(_) => all.errors.len() == 0,
                Err(errors) => {
                    &&& 0 < all.errors.len() <= ast@.len()
                    &&& errors.deep_view() == all.errors
                    &&& semantic(errors.deep_view())
                },
            }
        }),
{
    let mut resolver = Resolver::new();
    resolver.resolve(ast)
}

} // verus!
