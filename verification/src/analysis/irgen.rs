//! Lowering: resolved syntax trees in, three-address instructions out.
//!
//! The instructions are a flat list of bindings and stores.  The value of a
//! sum is a temporary; which sum a temporary stands for is recorded beside
//! the instructions, in the order the sums are met.  Temporaries are
//! numbered from one, each number is handed out once.
//!
//! Lowering checks nothing that resolution checks.  What it cannot lower it
//! refuses: [`lower_expr`], [`lower_stmt`] and [`lower_all`] say what is
//! lowered to what and what is refused.

use vstd::prelude::*;
use crate::common::ast::Node;
use crate::common::ast::NodeKind;
use crate::common::ast::NodeKindView;
use crate::common::ast::NodeView;
use crate::common::token::TokenKind;
use crate::common::views::lemma_deep_view_push;

verus! {

/// A value an instruction works on.
#[derive(Debug, Clone, PartialEq, Eq)]
pub enum IrValue {
    /// The temporary of the given number.
    Temp(usize),
    /// The variable of the given name.
    Identifier(String),
    /// An integer constant.
    ConstInt(i32),
}

/// An [`IrValue`] as a mathematical value.
pub enum IrValueView {
    Temp(nat),
    Identifier(Seq<char>),
    ConstInt(int),
}

impl View for IrValue {
    type V = IrValueView;

    open spec fn view(&self) -> IrValueView {
        match self {
            IrValue::Temp(number) => IrValueView::Temp(*number as nat),
            IrValue::Identifier(name) => IrValueView::Identifier(name@),
            IrValue::ConstInt(value) => IrValueView::ConstInt(*value as int),
        }
    }
}

/// An instruction.
#[allow(inconsistent_fields)]
#[derive(Debug, Clone, PartialEq, Eq)]
pub enum IrInst {
    /// Declares `id` and gives it the value `val`.
    Bind { id: String, val: IrValue },
    /// Puts `val` where `id` is.
    Store { id: IrValue, val: IrValue },
}

/// An [`IrInst`] as a mathematical value.
#[allow(inconsistent_fields)]
pub enum IrInstView {
    Bind { id: Seq<char>, val: IrValueView },
    Store { id: IrValueView, val: IrValueView },
}

impl View for IrInst {
    type V = IrInstView;

    open spec fn view(&self) -> IrInstView {
        match self {
            IrInst::Bind { id, val } => IrInstView::Bind { id: id@, val: val@ },
            IrInst::Store { id, val } => IrInstView::Store { id: id@, val: val@ },
        }
    }
}

impl DeepView for IrInst {
    type V = IrInstView;

    open spec fn deep_view(&self) -> IrInstView {
        self@
    }
}

/// The sum a temporary stands for: temporary `temp` is `lhs + rhs`.
#[derive(Debug, Clone, PartialEq, Eq)]
pub struct IrAdd {
    pub temp: usize,
    pub lhs: IrValue,
    pub rhs: IrValue,
}

/// An [`IrAdd`] as a mathematical value.
pub struct IrAddView {
    pub temp: nat,
    pub lhs: IrValueView,
    pub rhs: IrValueView,
}

impl View for IrAdd {
    type V = IrAddView;

    open spec fn view(&self) -> IrAddView {
        IrAddView { temp: self.temp as nat, lhs: self.lhs@, rhs: self.rhs@ }
    }
}

impl DeepView for IrAdd {
    type V = IrAddView;

    open spec fn deep_view(&self) -> IrAddView {
        self@
    }
}

/// Why a tree was not lowered.
#[derive(Debug, Clone, Copy, PartialEq, Eq)]
pub enum IrError {
    /// The node at this place is of a kind, or holds an operator, that
    /// lowering does not handle.
    Unsupported { line: usize, offset: usize },
    /// Every number a temporary can have is taken.
    TempsExhausted,
}

/// An [`IrError`] as a mathematical value.
pub enum IrErrorView {
    Unsupported { line: nat, offset: nat },
    TempsExhausted,
}

impl View for IrError {
    type V = IrErrorView;

    open spec fn view(&self) -> IrErrorView {
        match self {
            IrError::Unsupported { line, offset } => IrErrorView::Unsupported {
                line: *line as nat,
                offset: *offset as nat,
            },
            IrError::TempsExhausted => IrErrorView::TempsExhausted,
        }
    }
}

/// What lowering one expression yields.
pub struct Lowered {
    /// The value the expression lowers to, or why it does not.
    pub value: Result<IrValueView, IrErrorView>,
    /// The number of the temporary handed out last.
    pub temps: nat,
    /// The sums recorded on the way, in order.
    pub adds: Seq<IrAddView>,
}

/// What lowering one statement yields.
pub struct LoweredStmt {
    /// The instruction, or why the statement was not lowered.
    pub inst: Result<IrInstView, IrErrorView>,
    /// The number of the temporary handed out last.
    pub temps: nat,
    /// The sums recorded on the way, in order.
    pub adds: Seq<IrAddView>,
}

/// What lowering a program yields.
pub struct LoweredProgram {
    /// The instructions, or why the program was not lowered.
    pub insts: Result<Seq<IrInstView>, IrErrorView>,
    /// The number of the temporary handed out last.
    pub temps: nat,
    /// The sums recorded on the way, in order.
    pub adds: Seq<IrAddView>,
}

/// The refusal of the node at `line` and `offset`.
pub open spec fn unsupported(node: NodeView, temps: nat) -> Lowered {
    Lowered {
        value: Err(IrErrorView::Unsupported { line: node.line, offset: node.offset }),
        temps,
        adds: Seq::empty(),
    }
}

/// Lowers an expression when `temps` temporaries have been handed out.
///
/// An integer literal is a constant and a name is a variable.  A sum lowers
/// its left operand, then its right operand, and is the next temporary,
/// recorded as the sum of the two.  Any other expression is refused, and
/// the operands behind a refused one are not lowered.
pub open spec fn lower_expr(node: NodeView, temps: nat) -> Lowered
    decreases node,
{
    match node.kind {
        NodeKindView::LiteralIdent { id } => Lowered {
            value: Ok(IrValueView::Identifier(id)),
            temps,
            adds: Seq::empty(),
        },
        NodeKindView::LiteralInt { val } => Lowered {
            value: Ok(IrValueView::ConstInt(val)),
            temps,
            adds: Seq::empty(),
        },
        NodeKindView::ExprBinary { lhs, op, rhs } => if op != TokenKind::Plus {
            unsupported(node, temps)
        } else {
            let left = lower_expr(*lhs, temps);
            match left.value {
                Err(_) => left,
                Ok(l) => {
                    let right = lower_expr(*rhs, left.temps);
                    let adds = left.adds + right.adds;
                    match right.value {
                        Err(e) => Lowered { value: Err(e), temps: right.temps, adds },
                        Ok(r) => if right.temps >= usize::MAX {
                            Lowered {
                                value: Err(IrErrorView::TempsExhausted),
                                temps: right.temps,
                                adds,
                            }
                        } else {
                            Lowered {
                                value: Ok(IrValueView::Temp(right.temps + 1)),
                                temps: right.temps + 1,
                                adds: adds.push(
                                    IrAddView { temp: right.temps + 1, lhs: l, rhs: r },
                                ),
                            }
                        },
                    }
                },
            }
        },
        _ => unsupported(node, temps),
    }
}

/// Lowers an expression that stands as a statement.  An assignment stores
/// its lowered value where its lowered target is; any other expression is
/// no statement that can be lowered, and is refused.
pub open spec fn lower_effect(expr: NodeView, temps: nat) -> LoweredStmt {
    match expr.kind {
        NodeKindView::ExprAssignment { id, op, val } => {
            let target = lower_expr(*id, temps);
            match target.value {
                Err(e) => LoweredStmt { inst: Err(e), temps: target.temps, adds: target.adds },
                Ok(place) => {
                    let value = lower_expr(*val, target.temps);
                    LoweredStmt {
                        inst: match value.value {
                            Err(e) => Err(e),
                            Ok(v) => Ok(IrInstView::Store { id: place, val: v }),
                        },
                        temps: value.temps,
                        adds: target.adds + value.adds,
                    }
                },
            }
        },
        _ => LoweredStmt {
            inst: Err(IrErrorView::Unsupported { line: expr.line, offset: expr.offset }),
            temps,
            adds: Seq::empty(),
        },
    }
}

/// Lowers a statement when `temps` temporaries have been handed out.  A
/// declaration binds its name to its lowered value; an expression that
/// stands as a statement is lowered for its effect; any other node is
/// refused.
pub open spec fn lower_stmt(node: NodeView, temps: nat) -> LoweredStmt {
    match node.kind {
        NodeKindView::StmtConstant { id, val } => bind(id, lower_expr(*val, temps)),
        NodeKindView::StmtVariable { id, val } => bind(id, lower_expr(*val, temps)),
        NodeKindView::StmtExpression { expr } => lower_effect(*expr, temps),
        _ => LoweredStmt {
            inst: Err(IrErrorView::Unsupported { line: node.line, offset: node.offset }),
            temps,
            adds: Seq::empty(),
        },
    }
}

/// The binding of `id` to a lowered value.
pub open spec fn bind(id: Seq<char>, value: Lowered) -> LoweredStmt {
    LoweredStmt {
        inst: match value.value {
            Err(e) => Err(e),
            Ok(v) => Ok(IrInstView::Bind { id, val: v }),
        },
        temps: value.temps,
        adds: value.adds,
    }
}

/// Lowers the statements of a program in order, up to the first that is
/// refused: nothing behind it is lowered.
pub open spec fn lower_all(ast: Seq<NodeView>, temps: nat) -> LoweredProgram
    decreases ast.len(),
{
    if ast.len() == 0 {
        LoweredProgram { insts: Ok(Seq::empty()), temps, adds: Seq::empty() }
    } else {
        let before = lower_all(ast.drop_last(), temps);
        match before.insts {
            Err(_) => before,
            Ok(insts) => {
                let last = lower_stmt(ast.last(), before.temps);
                LoweredProgram {
                    insts: match last.inst {
                        Err(e) => Err(e),
                        Ok(inst) => Ok(insts.push(inst)),
                    },
                    temps: last.temps,
                    adds: before.adds + last.adds,
                }
            },
        }
    }
}

/// The sums are numbered one by one from `temps + 1` on.
pub open spec fn numbered_from(adds: Seq<IrAddView>, temps: nat) -> bool {
    forall|i: int| 0 <= i < adds.len() ==> (#[trigger] adds[i]).temp == temps + i + 1
}

/// Lowering an expression hands out each number once: the sums it records
/// are numbered one by one from the first free number, the last number
/// handed out is that of the last sum, and a temporary that is the value of
/// the expression was handed out on the way.
pub proof fn lemma_lower_expr(node: NodeView, temps: nat)
    ensures
        numbered_from(lower_expr(node, temps).adds, temps),
        lower_expr(node, temps).temps == temps + lower_expr(node, temps).adds.len(),
        lower_expr(node, temps).value matches Ok(IrValueView::Temp(t)) ==> temps < t
            <= lower_expr(node, temps).temps,
    decreases node,
{
    match node.kind {
        NodeKindView::ExprBinary { lhs, op, rhs } => {
            if op == TokenKind::Plus {
                lemma_lower_expr(*lhs, temps);
                let left = lower_expr(*lhs, temps);
                if left.value is Ok {
                    lemma_lower_expr(*rhs, left.temps);
                }
            }
        },
        _ => {},
    }
}

/// Lowering a statement hands out each number once.
pub proof fn lemma_lower_stmt(node: NodeView, temps: nat)
    ensures
        numbered_from(lower_stmt(node, temps).adds, temps),
        lower_stmt(node, temps).temps == temps + lower_stmt(node, temps).adds.len(),
{
    match node.kind {
        NodeKindView::StmtConstant { id, val } => {
            lemma_lower_expr(*val, temps);
        },
        NodeKindView::StmtVariable { id, val } => {
            lemma_lower_expr(*val, temps);
        },
        NodeKindView::StmtExpression { expr } => match expr.kind {
            NodeKindView::ExprAssignment { id, op, val } => {
                lemma_lower_expr(*id, temps);
                let target = lower_expr(*id, temps);
                if target.value is Ok {
                    lemma_lower_expr(*val, target.temps);
                }
            },
            _ => {},
        },
        _ => {},
    }
}

/// Within one compilation no temporary is used twice: the sums that
/// lowering a program records are numbered one by one from the first free
/// number, so no two of them define the same temporary, and the last
/// number handed out is that of the last sum.
pub proof fn lemma_temporaries_fresh(ast: Seq<NodeView>, temps: nat)
    ensures
        numbered_from(lower_all(ast, temps).adds, temps),
        lower_all(ast, temps).temps == temps + lower_all(ast, temps).adds.len(),
        forall|i: int, j: int|
            0 <= i < j < lower_all(ast, temps).adds.len() ==> (#[trigger] lower_all(
                ast,
                temps,
            ).adds[i]).temp < (#[trigger] lower_all(ast, temps).adds[j]).temp,
    decreases ast.len(),
{
    if ast.len() > 0 {
        lemma_temporaries_fresh(ast.drop_last(), temps);
        let before = lower_all(ast.drop_last(), temps);
        if before.insts is Ok {
            lemma_lower_stmt(ast.last(), before.temps);
        }
    }
}

/// A program that is lowered has one instruction for each of its
/// statements, and each part of it that comes first is lowered to the
/// instructions that come first.
pub proof fn lemma_lower_prefix(ast: Seq<NodeView>, temps: nat, k: int)
    requires
        lower_all(ast, temps).insts is Ok,
        0 <= k <= ast.len(),
    ensures
        lower_all(ast, temps).insts->Ok_0.len() == ast.len(),
        lower_all(ast.take(k), temps).insts == Ok::<Seq<IrInstView>, IrErrorView>(
            lower_all(ast, temps).insts->Ok_0.take(k),
        ),
    decreases ast.len(),
{
    let insts = lower_all(ast, temps).insts->Ok_0;
    if ast.len() == 0 {
        assert(ast.take(k) =~= ast);
        assert(insts.take(k) =~= insts);
    } else {
        let rest = ast.drop_last();
        let before = lower_all(rest, temps).insts->Ok_0;
        lemma_lower_prefix(rest, temps, rest.len() as int);
        if k == ast.len() {
            assert(ast.take(k) =~= ast);
            assert(insts.take(k) =~= insts);
        } else {
            lemma_lower_prefix(rest, temps, k);
            assert(rest.take(k) =~= ast.take(k));
            assert(insts.take(k) =~= before.take(k));
        }
    }
}

/// No statement is passed over: in a program that is lowered, the
/// instruction at each place is what the statement at that place lowers to
/// after the statements before it.
pub proof fn lemma_one_instruction_each(ast: Seq<NodeView>, temps: nat, k: int)
    requires
        lower_all(ast, temps).insts is Ok,
        0 <= k < ast.len(),
    ensures
        lower_all(ast, temps).insts->Ok_0.len() == ast.len(),
        lower_all(ast.take(k), temps).insts is Ok,
        lower_stmt(ast[k], lower_all(ast.take(k), temps).temps).inst == Ok::<
            IrInstView,
            IrErrorView,
        >(lower_all(ast, temps).insts->Ok_0[k]),
{
    let insts = lower_all(ast, temps).insts->Ok_0;
    let part = ast.take(k + 1);
    lemma_lower_prefix(ast, temps, k + 1);
    lemma_lower_prefix(ast, temps, k);
    assert(part.drop_last() =~= ast.take(k));
    assert(part.last() == ast[k]);
    let inst = lower_stmt(ast[k], lower_all(ast.take(k), temps).temps).inst->Ok_0;
    assert(insts.take(k).push(inst) == insts.take(k + 1));
    assert(insts.take(k + 1)[k] == insts[k]);
}

/// Once a statement is refused, the statements behind it change nothing.
pub proof fn lemma_lower_stops(ast: Seq<NodeView>, temps: nat, k: int)
    requires
        0 <= k <= ast.len(),
        lower_all(ast.take(k), temps).insts is Err,
    ensures
        lower_all(ast, temps) == lower_all(ast.take(k), temps),
    decreases ast.len() - k,
{
    if k < ast.len() {
        assert(ast.take(k + 1).drop_last() =~= ast.take(k));
        lemma_lower_stops(ast, temps, k + 1);
    } else {
        assert(ast.take(k) =~= ast);
    }
}

/// The items of `items` in the opposite order.
fn reversed<T>(items: Vec<T>) -> (out: Vec<T>)
    ensures
        out@.len() == items@.len(),
        forall|k: int| 0 <= k < out@.len() ==> out@[k] == items@[items@.len() - 1 - k],
{
    let mut items = items;
    let ghost all = items@;
    let mut out: Vec<T> = Vec::new();
    while items.len() > 0
        invariant
            items@.len() + out@.len() == all.len(),
            items@ == all.take(items@.len() as int),
            forall|k: int| 0 <= k < out@.len() ==> out@[k] == all[all.len() - 1 - k],
        decreases items@.len(),
    {
        match items.pop() {
            Some(item) => {
                out.push(item);
            },
            None => {},
        }
    }
    out
}

/// The state of one compilation: the temporaries handed out so far and the
/// sums they stand for.
pub struct IrCompiler {
    /// The number of the temporary handed out last; zero before the first.
    pub temps: usize,
    /// The sums recorded, in order.
    pub adds: Vec<IrAdd>,
}

impl IrCompiler {
    /// A compiler that has handed out no temporary.
    pub fn new() -> (compiler: IrCompiler)
        ensures
            compiler.temps == 0,
            compiler.adds@.len() == 0,
    {
        IrCompiler { temps: 0, adds: Vec::new() }
    }

    /// Hands out the next temporary.
    pub fn temp(&mut self) -> (value: IrValue)
        requires
            old(self).temps < usize::MAX,
        ensures
            final(self).temps == old(self).temps + 1,
            final(self).adds == old(self).adds,
            value == IrValue::Temp(final(self).temps),
    {
        self.temps = self.temps + 1;
        IrValue::Temp(self.temps)
    }

    /// Lowers an expression.
    pub fn expr<'a>(&mut self, node: Node<'a>) -> (value: Result<IrValue, IrError>)
        ensures
            ({
                let lowered = lower_expr(node@, old(self).temps as nat);
                &&& final(self).temps == lowered.temps
                &&& final(self).adds.deep_view() == old(self).adds.deep_view() + lowered.adds
                &&& match value {
                    Ok(v) => lowered.value == Ok::<IrValueView, IrErrorView>(v@),
                    Err(e) => lowered.value == Err::<IrValueView, IrErrorView>(e@),
                }
            }),
        decreases node,
    {
        let line = node.line;
        let offset = node.offset;
        match node.kind {
            NodeKind::LiteralIdent { id } => Ok(IrValue::Identifier(id)),
            NodeKind::LiteralInt { val } => Ok(IrValue::ConstInt(val)),
            NodeKind::ExprBinary { lhs, op, rhs } => {
                match op {
                    TokenKind::Plus => {
                        let ir_l = match self.expr(*lhs) {
                            Ok(v) => v,
                            Err(e) => {
                                return Err(e);
                            },
                        };
                        let ir_r = match self.expr(*rhs) {
                            Ok(v) => v,
                            Err(e) => {
                                return Err(e);
                            },
                        };
                        if self.temps == usize::MAX {
                            return Err(IrError::TempsExhausted);
                        }
                        let temp = self.temp();
                        let add = IrAdd { temp: self.temps, lhs: ir_l, rhs: ir_r };
                        proof {
                            lemma_deep_view_push(self.adds@, self.adds@.push(add), add);
                        }
                        self.adds.push(add);
                        Ok(temp)
                    },
                    _ => {
                        Err(IrError::Unsupported { line, offset })
                    },
                }
            },
            _ => {
                Err(IrError::Unsupported { line, offset })
            },
        }
    }

    /// Lowers an expression that stands as a statement.
    pub fn effect<'a>(&mut self, node: Node<'a>) -> (inst: Result<IrInst, IrError>)
        ensures
            ({
                let lowered = lower_effect(node@, old(self).temps as nat);
                &&& final(self).temps == lowered.temps
                &&& final(self).adds.deep_view() == old(self).adds.deep_view() + lowered.adds
                &&& match inst {
                    Ok(i) => lowered.inst == Ok::<IrInstView, IrErrorView>(i@),
                    Err(e) => lowered.inst == Err::<IrInstView, IrErrorView>(e@),
                }
            }),
    {
        let line = node.line;
        let offset = node.offset;
        match node.kind {
            NodeKind::ExprAssignment { id, op: _, val } => {
                let ir_id = match self.expr(*id) {
                    Ok(v) => v,
                    Err(e) => {
                        return Err(e);
                    },
                };
                match self.expr(*val) {
                    Ok(ir_val) => Ok(IrInst::Store { id: ir_id, val: ir_val }),
                    Err(e) => Err(e),
                }
            },
            _ => Err(IrError::Unsupported { line, offset }),
        }
    }

    /// Lowers one statement.
    pub fn statement<'a>(&mut self, node: Node<'a>) -> (inst: Result<IrInst, IrError>)
        ensures
            ({
                let lowered = lower_stmt(node@, old(self).temps as nat);
                &&& final(self).temps == lowered.temps
                &&& final(self).adds.deep_view() == old(self).adds.deep_view() + lowered.adds
                &&& match inst {
                    Ok(i) => lowered.inst == Ok::<IrInstView, IrErrorView>(i@),
                    Err(e) => lowered.inst == Err::<IrInstView, IrErrorView>(e@),
                }
            }),
    {
        let line = node.line;
        let offset = node.offset;
        match node.kind {
            NodeKind::StmtConstant { id, val } => match self.expr(*val) {
                Ok(ir_val) => Ok(IrInst::Bind { id, val: ir_val }),
                Err(e) => Err(e),
            },
            NodeKind::StmtVariable { id, val } => match self.expr(*val) {
                Ok(ir_val) => Ok(IrInst::Bind { id, val: ir_val }),
                Err(e) => Err(e),
            },
            NodeKind::StmtExpression { expr } => self.effect(*expr),
            _ => Err(IrError::Unsupported { line, offset }),
        }
    }

    /// Lowers a program: one instruction for each statement, or the reason
    /// the first statement that was refused was refused.  The sums recorded on the
    /// way are appended to `adds`, numbered one by one from the first free
    /// number.
    pub fn compile<'a>(&mut self, ast: Vec<Node<'a>>) -> (ir: Result<Vec<IrInst>, IrError>)
        ensures
            ({
                let lowered = lower_all(ast.deep_view(), old(self).temps as nat);
                &&& final(self).temps == lowered.temps
                &&& final(self).temps == old(self).temps + lowered.adds.len()
                &&& final(self).adds.deep_view() == old(self).adds.deep_view() + lowered.adds
                &&& numbered_from(lowered.adds, old(self).temps as nat)
                &&& match ir {
                    Ok(insts) => {
                        &&& lowered.insts == Ok::<Seq<IrInstView>, IrErrorView>(insts.deep_view())
                        &&& insts@.len() == ast@.len()
                    },
                    Err(e) => lowered.insts == Err::<Seq<IrInstView>, IrErrorView>(e@),
                }
            }),
    {
        let ghost adds0 = self.adds.deep_view();
        let ghost temps0 = self.temps as nat;
        let ghost nodes = ast.deep_view();
        let mut ir: Vec<IrInst> = Vec::new();
        let count = ast.len();
        let mut rest = reversed(ast);
        let mut i: usize = 0;
        proof {
            lemma_temporaries_fresh(nodes, temps0);
            assert(ir.deep_view() =~= Seq::<IrInstView>::empty());
        }
        while i < count
            invariant
                i <= count,
                count == nodes.len(),
                nodes == ast.deep_view(),
                temps0 == old(self).temps,
                adds0 == old(self).adds.deep_view(),
                rest@.len() == count - i,
                forall|k: int|
                    0 <= k < count - i ==> (#[trigger] rest@[k])@ == nodes[count - 1 - k],
                lower_all(nodes.take(i as int), temps0).insts == Ok::<
                    Seq<IrInstView>,
                    IrErrorView,
                >(ir.deep_view()),
                self.temps == lower_all(nodes.take(i as int), temps0).temps,
                self.adds.deep_view() == adds0 + lower_all(nodes.take(i as int), temps0).adds,
            decreases count - i,
        {
            let node = match rest.pop() {
                Some(node) => node,
                None => {
                    return Ok(ir);
                },
            };
            proof {
                assert(nodes.take(i + 1).drop_last() =~= nodes.take(i as int));
            }
            match self.statement(node) {
                Ok(inst) => {
                    proof {
                        lemma_deep_view_push(ir@, ir@.push(inst), inst);
                    }
                    ir.push(inst);
                },
                Err(e) => {
                    proof {
                        lemma_lower_stops(nodes, temps0, i + 1);
                        lemma_temporaries_fresh(nodes, temps0);
                    }
                    return Err(e);
                },
            }
            i += 1;
        }
        assert(nodes.take(i as int) =~= nodes);
        proof {
            lemma_lower_prefix(nodes, temps0, 0);
        }
        Ok(ir)
    }
}

/// Lowers a whole program with a compiler of its own: one instruction for
/// each statement and the sums that the temporaries in them stand for, or
/// the reason the first statement that was refused was refused.
pub fn lower<'a>(ast: Vec<Node<'a>>) -> (out: Result<(Vec<IrInst>, Vec<IrAdd>), IrError>)
    ensures
        match out {
            Ok(ir) => {
                &&& lower_all(ast.deep_view(), 0).insts == Ok::<Seq<IrInstView>, IrErrorView>(
                    ir.0.deep_view(),
                )
                &&& ir.0@.len() == ast@.len()
                &&& ir.1.deep_view() == lower_all(ast.deep_view(), 0).adds
                &&& numbered_from(ir.1.deep_view(), 0)
            },
            Err(e) => lower_all(ast.deep_view(), 0).insts == Err::<Seq<IrInstView>, IrErrorView>(
                e@,
            ),
        },
{
    let mut compiler = IrCompiler::new();
    match compiler.compile(ast) {
        Ok(insts) => Ok((insts, compiler.adds)),
        Err(e) => Err(e),
    }
}

} // verus!
