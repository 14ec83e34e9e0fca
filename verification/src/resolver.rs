//! The resolver framework and the straight-line resolver.
//!
//! A resolver is a structural pattern-matcher: given the block-level
//! control-flow graph and a candidate node, it either declines or produces a
//! [`Resolution`] that collapses one or more nodes into a single resolved
//! node.  Narrower resolvers carry a higher specificity and are attempted
//! before general catch-alls.
//!
//! The one resolver provided here, [`StraightLineResolver`], simulates the
//! virtual machine's operand stack over a single block's instructions to
//! reconstruct assignment, return and call statements and their expression
//! trees.  Its behaviour is specified against the spec-level simulation
//! [`sim_from`].

use vstd::prelude::*;

use crate::ast::{
    AssignmentOp, BinaryOp, Block, Call, Constant, Expr, MutableExpr, Statement,
};
use crate::bytecode::{Code, DataType, Instruction, PushValue};
use crate::cfg::{ControlFlowGraph, NodeRef};
use crate::error::{DecompileError, SymbolTable};
use crate::names::{NameTables, resolves};
use crate::is_sorted_member_seq;

verus! {

/// Metadata attached to a block-level graph node: the half-open
/// instruction-index range `[start, end)` the block covers, and how far its
/// resolution has come.
#[derive(Debug)]
pub struct BlockMeta {
    /// Half-open instruction-index range of the block.
    pub instr_range: (usize, usize),
    /// How far this block's resolution has come.
    pub resolve_state: ResolveState,
}

/// Whether a block has been collapsed into statements yet.
#[derive(Debug)]
pub enum ResolveState {
    Unresolved,
    Resolved(Block),
}

/// The result of a successful resolver match: removes all of the nodes
/// listed in `nodes` and creates one node encompassing all of them, with the
/// resolve state `merged_into` and the listed children and parents.
#[derive(Debug)]
pub struct Resolution {
    /// The existing nodes the match consumes.
    pub nodes: Vec<NodeRef>,
    /// The resolve state the merged node should carry.
    pub merged_into: ResolveState,
    /// The children the merged node inherits.
    pub merged_children: Vec<NodeRef>,
    /// The parents the merged node inherits.
    pub merged_parents: Vec<NodeRef>,
}

/// Spec-level mirror of a constant expression, with strings as character
/// sequences.
pub enum ConstModel {
    Undefined,
    Boolean(bool),
    Integer(i64),
    Float(u64),
    Str(Seq<char>),
}

/// Spec-level mirror of the expressions the straight-line resolver builds.
///
/// `Binary` carries exactly two operands, left then right.
pub enum ExprModel {
    Const(ConstModel),
    Ident(Seq<char>),
    Binary { op: BinaryOp, operands: Seq<ExprModel> },
    CallExpr { name: Seq<char>, arguments: Seq<ExprModel> },
}

/// Spec-level mirror of the statements the straight-line resolver emits.
pub enum StmtModel {
    Return(Option<ExprModel>),
    Assign { name: Seq<char>, value: ExprModel },
}

/// Whether a constant matches its spec-level mirror.
pub open spec fn const_matches(c: Constant, m: ConstModel) -> bool {
    match (c, m) {
        (Constant::Undefined, ConstModel::Undefined) => true,
        (Constant::Boolean(a), ConstModel::Boolean(b)) => a == b,
        (Constant::Integer(a), ConstModel::Integer(b)) => a == b,
        (Constant::Float(a), ConstModel::Float(b)) => a == b,
        (Constant::String(a), ConstModel::Str(b)) => a@ == b,
        _ => false,
    }
}

/// Whether an expression matches its spec-level mirror.
pub open spec fn expr_matches(e: Expr, m: ExprModel) -> bool
    decreases e,
{
    match (e, m) {
        (Expr::Constant(c), ExprModel::Const(cm)) => const_matches(c, cm),
        (Expr::Ident(n), ExprModel::Ident(nm)) => n@ == nm,
        (
            Expr::Binary { lhs, op, rhs },
            ExprModel::Binary { op: mop, operands },
        ) => {
            &&& op == mop
            &&& operands.len() == 2
            &&& expr_matches(*lhs, operands[0])
            &&& expr_matches(*rhs, operands[1])
        },
        (Expr::Call(call), ExprModel::CallExpr { name, arguments }) => {
            &&& *call.base matches Expr::Ident(n) && n@ == name
            &&& !call.has_new
            &&& exprs_match(call.arguments@, arguments)
        },
        _ => false,
    }
}

/// Whether a sequence of expressions matches its spec-level mirrors,
/// element by element.
pub open spec fn exprs_match(es: Seq<Expr>, ms: Seq<ExprModel>) -> bool
    decreases es,
{
    &&& es.len() == ms.len()
    &&& es.len() > 0 ==> {
        &&& exprs_match(es.drop_last(), ms.drop_last())
        &&& expr_matches(es.last(), ms.last())
    }
}

/// Whether a statement matches its spec-level mirror.
pub open spec fn stmt_matches(s: Statement, m: StmtModel) -> bool
    decreases s,
{
    match (s, m) {
        (Statement::Return(se), StmtModel::Return(me)) => match (se, me) {
            (None, None) => true,
            (Some(e), Some(em)) => expr_matches(*e, em),
            _ => false,
        },
        (
            Statement::Assignment { target, op, value },
            StmtModel::Assign { name, value: mv },
        ) => {
            &&& target matches MutableExpr::Ident(n) && n@ == name
            &&& op == AssignmentOp::Equal
            &&& expr_matches(*value, mv)
        },
        _ => false,
    }
}

/// Whether a sequence of statements matches its spec-level mirrors,
/// element by element.
pub open spec fn stmts_match(ss: Seq<Statement>, ms: Seq<StmtModel>) -> bool
    decreases ss,
{
    &&& ss.len() == ms.len()
    &&& ss.len() > 0 ==> {
        &&& stmts_match(ss.drop_last(), ms.drop_last())
        &&& stmt_matches(ss.last(), ms.last())
    }
}

/// Uppercase hexadecimal digit for a value below 16.
pub open spec fn hex_digit(d: int) -> char {
    if d == 0 {
        '0'
    } else if d == 1 {
        '1'
    } else if d == 2 {
        '2'
    } else if d == 3 {
        '3'
    } else if d == 4 {
        '4'
    } else if d == 5 {
        '5'
    } else if d == 6 {
        '6'
    } else if d == 7 {
        '7'
    } else if d == 8 {
        '8'
    } else if d == 9 {
        '9'
    } else if d == 10 {
        'A'
    } else if d == 11 {
        'B'
    } else if d == 12 {
        'C'
    } else if d == 13 {
        'D'
    } else if d == 14 {
        'E'
    } else {
        'F'
    }
}

/// Uppercase hexadecimal digits of a non-negative value, most significant
/// first, without leading zeros (a single `0` for zero).
pub open spec fn hex_digits(n: int) -> Seq<char>
    decreases n,
{
    if n < 16 {
        seq![hex_digit(n)]
    } else {
        hex_digits(n / 16).push(hex_digit(n % 16))
    }
}

/// The name synthesized for a room-instance reference with no name table:
/// `inst_` followed by the id's bits in uppercase hexadecimal.
pub open spec fn instance_ident(v: i32) -> Seq<char> {
    seq!['i', 'n', 's', 't', '_'] + hex_digits(v as u32 as int)
}

/// Whether an instruction is one of the binary operations the straight-line
/// resolver folds into a binary expression.
pub open spec fn is_binary_instr(instr: Instruction) -> bool {
    match instr {
        Instruction::Add { .. } => true,
        Instruction::And { .. } => true,
        Instruction::Divide { .. } => true,
        Instruction::Modulus { .. } => true,
        Instruction::Or { .. } => true,
        Instruction::Remainder { .. } => true,
        Instruction::ShiftLeft { .. } => true,
        Instruction::ShiftRight { .. } => true,
        Instruction::Subtract { .. } => true,
        Instruction::Xor { .. } => true,
        Instruction::Multiply { .. } => true,
        _ => false,
    }
}

/// The binary operator an instruction selects, driven by its operand
/// data-type tags: boolean-tagged and/or/xor are the logical operators and
/// otherwise the bitwise ones, and an integer-tagged divide is integer
/// division.
pub open spec fn binary_op_of(instr: Instruction) -> BinaryOp {
    match instr {
        Instruction::Add { .. } => BinaryOp::Add,
        Instruction::And { lhs: DataType::Bool, .. } => BinaryOp::And,
        Instruction::And { .. } => BinaryOp::BitAnd,
        Instruction::Divide {
            lhs: DataType::Int16 | DataType::Int32 | DataType::Int64,
            ..
        } => BinaryOp::IDiv,
        Instruction::Divide { .. } => BinaryOp::Div,
        Instruction::Modulus { .. } => BinaryOp::Rem,
        Instruction::Remainder { .. } => BinaryOp::Rem,
        Instruction::Or { lhs: DataType::Bool, .. } => BinaryOp::Or,
        Instruction::Or { .. } => BinaryOp::BitOr,
        Instruction::ShiftLeft { .. } => BinaryOp::BitShiftLeft,
        Instruction::ShiftRight { .. } => BinaryOp::BitShiftRight,
        Instruction::Subtract { .. } => BinaryOp::Sub,
        Instruction::Xor { lhs: DataType::Bool, .. } => BinaryOp::Xor,
        Instruction::Xor { .. } => BinaryOp::BitXor,
        Instruction::Multiply { .. } => BinaryOp::Mult,
        _ => BinaryOp::Add,
    }
}

/// The outcome of simulating a straight-line block's instructions, with
/// positions relative to the block's own slice.
pub enum SimOutcome {
    /// The simulation ran off the end of the slice; these statements were
    /// emitted, in order.
    Done(Seq<StmtModel>),
    /// A value was needed from an empty operand stack.
    Underflow,
    /// The instruction at this index is not one the straight-line resolver
    /// supports.
    Unsupported(int),
    /// The jump at this index leaves the block's own slice or does not move
    /// forward.
    Defect(int),
    /// The jump at this index has a byte delta that lands inside an
    /// instruction.
    Misaligned { at: int, delta: int },
    /// A name lookup failed.
    BadSymbol { table: SymbolTable, id: i32 },
}

/// The spec-level mirror of pushing one value.
pub open spec fn push_value_model(t: NameTables, value: PushValue) -> Result<
    ExprModel,
    SimOutcome,
> {
    match value {
        PushValue::Int16(v) => Ok(ExprModel::Const(ConstModel::Integer(v as i64))),
        PushValue::Int32(v) => Ok(ExprModel::Const(ConstModel::Integer(v as i64))),
        PushValue::Int64(v) => Ok(ExprModel::Const(ConstModel::Integer(v))),
        PushValue::Double(bits) => Ok(ExprModel::Const(ConstModel::Float(bits))),
        PushValue::Bool(b) => Ok(ExprModel::Const(ConstModel::Boolean(b))),
        PushValue::String(st) => Ok(ExprModel::Const(ConstModel::Str(st@))),
        PushValue::Function(id) => if resolves(t.functions@.len(), id as int) {
            Ok(ExprModel::Ident(t.functions@[id as int]@))
        } else {
            Err(SimOutcome::BadSymbol { table: SymbolTable::Functions, id })
        },
        PushValue::Variable(id) => if resolves(t.variables@.len(), id as int) {
            Ok(ExprModel::Ident(t.variables@[id as int]@))
        } else {
            Err(SimOutcome::BadSymbol { table: SymbolTable::Variables, id })
        },
    }
}

/// The table and name an asset reference resolves to, or the failed lookup.
pub open spec fn asset_model(t: NameTables, ar: crate::bytecode::AssetReference) -> Result<
    Seq<char>,
    SimOutcome,
> {
    match ar {
        crate::bytecode::AssetReference::Object(id) => table_model(
            t.game_objects@,
            SymbolTable::Objects,
            id,
        ),
        crate::bytecode::AssetReference::Sprite(id) => table_model(
            t.sprites@,
            SymbolTable::Sprites,
            id,
        ),
        crate::bytecode::AssetReference::Sound(id) => table_model(
            t.sounds@,
            SymbolTable::Sounds,
            id,
        ),
        crate::bytecode::AssetReference::Room(id) => table_model(t.rooms@, SymbolTable::Rooms, id),
        crate::bytecode::AssetReference::Path(id) => table_model(t.paths@, SymbolTable::Paths, id),
        crate::bytecode::AssetReference::Script(id) => table_model(
            t.scripts@,
            SymbolTable::Scripts,
            id,
        ),
        crate::bytecode::AssetReference::Font(id) => table_model(t.fonts@, SymbolTable::Fonts, id),
        crate::bytecode::AssetReference::Timeline(id) => table_model(
            t.timelines@,
            SymbolTable::Timelines,
            id,
        ),
        crate::bytecode::AssetReference::Shader(id) => table_model(
            t.shaders@,
            SymbolTable::Shaders,
            id,
        ),
        crate::bytecode::AssetReference::Sequence(id) => table_model(
            t.sequences@,
            SymbolTable::Sequences,
            id,
        ),
        crate::bytecode::AssetReference::AnimCurve(id) => table_model(
            t.animation_curves@,
            SymbolTable::AnimCurves,
            id,
        ),
        crate::bytecode::AssetReference::ParticleSystem(id) => table_model(
            t.particle_systems@,
            SymbolTable::ParticleSystems,
            id,
        ),
        crate::bytecode::AssetReference::Background(id) => table_model(
            t.backgrounds@,
            SymbolTable::Backgrounds,
            id,
        ),
        crate::bytecode::AssetReference::RoomInstance(v) => Ok(instance_ident(v)),
        crate::bytecode::AssetReference::Function(id) => table_model(
            t.functions@,
            SymbolTable::Functions,
            id,
        ),
    }
}

/// The name a table index resolves to, or the failed lookup.
pub open spec fn table_model(table: Seq<String>, category: SymbolTable, id: i32) -> Result<
    Seq<char>,
    SimOutcome,
> {
    if resolves(table.len(), id as int) {
        Ok(table[id as int]@)
    } else {
        Err(SimOutcome::BadSymbol { table: category, id })
    }
}

/// Simulates a last-in-first-out operand stack over a block's instruction
/// slice, from relative index `i` with the given stack and emitted
/// statements, and says how the simulation ends.
///
/// An unconditional jump is performed within the slice only: a jump to the
/// end boundary falls out of the block, a forward in-slice jump continues
/// there, and anything else is a structural defect.
pub open spec fn sim_from(
    s: Seq<Instruction>,
    t: NameTables,
    i: int,
    stack: Seq<ExprModel>,
    out: Seq<StmtModel>,
) -> SimOutcome
    decreases s.len() - i,
        when 0 <= i <= s.len()
        via sim_from_dec
{
    if i == s.len() {
        SimOutcome::Done(out)
    } else {
        let instr = s[i];
        if is_binary_instr(instr) {
            if stack.len() < 2 {
                SimOutcome::Underflow
            } else {
                let folded = ExprModel::Binary {
                    op: binary_op_of(instr),
                    operands: seq![stack[stack.len() - 2], stack[stack.len() - 1]],
                };
                sim_from(s, t, i + 1, stack.drop_last().drop_last().push(folded), out)
            }
        } else {
            match instr {
                Instruction::Push { value } => match push_value_model(t, value) {
                    Ok(e) => sim_from(s, t, i + 1, stack.push(e), out),
                    Err(bad) => bad,
                },
                Instruction::PushReference { asset_reference } => match asset_model(
                    t,
                    asset_reference,
                ) {
                    Ok(name) => sim_from(s, t, i + 1, stack.push(ExprModel::Ident(name)), out),
                    Err(bad) => bad,
                },
                Instruction::Call { function, arg_count } => {
                    if stack.len() < arg_count as int {
                        SimOutcome::Underflow
                    } else {
                        match table_model(t.functions@, SymbolTable::Functions, function) {
                            Ok(name) => {
                                let args = Seq::new(
                                    arg_count as nat,
                                    |j: int| stack[stack.len() - 1 - j],
                                );
                                let call = ExprModel::CallExpr { name, arguments: args };
                                sim_from(
                                    s,
                                    t,
                                    i + 1,
                                    stack.subrange(0, stack.len() - arg_count as int).push(call),
                                    out,
                                )
                            },
                            Err(bad) => bad,
                        }
                    }
                },
                Instruction::Exit => sim_from(
                    s,
                    t,
                    i + 1,
                    stack,
                    out.push(StmtModel::Return(None)),
                ),
                Instruction::Return => {
                    if stack.len() == 0 {
                        SimOutcome::Underflow
                    } else {
                        sim_from(
                            s,
                            t,
                            i + 1,
                            stack.drop_last(),
                            out.push(StmtModel::Return(Some(stack.last()))),
                        )
                    }
                },
                Instruction::Pop { variable, .. } => {
                    if stack.len() == 0 {
                        SimOutcome::Underflow
                    } else {
                        match table_model(t.variables@, SymbolTable::Variables, variable) {
                            Ok(name) => sim_from(
                                s,
                                t,
                                i + 1,
                                stack.drop_last(),
                                out.push(StmtModel::Assign { name, value: stack.last() }),
                            ),
                            Err(bad) => bad,
                        }
                    }
                },
                Instruction::Branch { jump_offset } => {
                    let delta = jump_offset as int * 4;
                    if delta <= 0 {
                        SimOutcome::Defect(i)
                    } else if exists|j: int|
                        i <= j <= s.len() && crate::prefix_size(s, j) == crate::prefix_size(s, i)
                            + delta {
                        let target = choose|j: int|
                            i <= j <= s.len() && crate::prefix_size(s, j) == crate::prefix_size(
                                s,
                                i,
                            ) + delta;
                        if target == s.len() {
                            SimOutcome::Done(out)
                        } else {
                            sim_from(s, t, target, stack, out)
                        }
                    } else if crate::prefix_size(s, i) + delta > crate::total_size(s) {
                        SimOutcome::Defect(i)
                    } else {
                        SimOutcome::Misaligned { at: i, delta }
                    }
                },
                Instruction::BranchIf { .. } => {
                    if stack.len() == 0 {
                        SimOutcome::Underflow
                    } else {
                        sim_from(s, t, i + 1, stack.drop_last(), out)
                    }
                },
                Instruction::BranchUnless { .. } => {
                    if stack.len() == 0 {
                        SimOutcome::Underflow
                    } else {
                        sim_from(s, t, i + 1, stack.drop_last(), out)
                    }
                },
                Instruction::Convert { .. } => sim_from(s, t, i + 1, stack, out),
                _ => SimOutcome::Unsupported(i),
            }
        }
    }
}

proof fn lemma_exprs_match_push(es: Seq<Expr>, ms: Seq<ExprModel>, e: Expr, m: ExprModel)
    requires
        exprs_match(es, ms),
        expr_matches(e, m),
    ensures
        exprs_match(es.push(e), ms.push(m)),
{
    assert(es.push(e).drop_last() =~= es);
    assert(ms.push(m).drop_last() =~= ms);
    assert(es.push(e).last() == e);
}

proof fn lemma_stmts_match_push(ss: Seq<Statement>, ms: Seq<StmtModel>, s: Statement, m: StmtModel)
    requires
        stmts_match(ss, ms),
        stmt_matches(s, m),
    ensures
        stmts_match(ss.push(s), ms.push(m)),
{
    assert(ss.push(s).drop_last() =~= ss);
    assert(ms.push(m).drop_last() =~= ms);
    assert(ss.push(s).last() == s);
}

/// Uppercase hexadecimal rendering of one digit.
fn hex_digit_str(d: u32) -> (r: &'static str)
    requires
        d < 16,
    ensures
        r@ == seq![hex_digit(d as int)],
{
    if d == 0 {
        proof {
            reveal_strlit("0");
            assert("0"@ =~= seq![hex_digit(0)]);
        }
        "0"
    } else if d == 1 {
        proof {
            reveal_strlit("1");
            assert("1"@ =~= seq![hex_digit(1)]);
        }
        "1"
    } else if d == 2 {
        proof {
            reveal_strlit("2");
            assert("2"@ =~= seq![hex_digit(2)]);
        }
        "2"
    } else if d == 3 {
        proof {
            reveal_strlit("3");
            assert("3"@ =~= seq![hex_digit(3)]);
        }
        "3"
    } else if d == 4 {
        proof {
            reveal_strlit("4");
            assert("4"@ =~= seq![hex_digit(4)]);
        }
        "4"
    } else if d == 5 {
        proof {
            reveal_strlit("5");
            assert("5"@ =~= seq![hex_digit(5)]);
        }
        "5"
    } else if d == 6 {
        proof {
            reveal_strlit("6");
            assert("6"@ =~= seq![hex_digit(6)]);
        }
        "6"
    } else if d == 7 {
        proof {
            reveal_strlit("7");
            assert("7"@ =~= seq![hex_digit(7)]);
        }
        "7"
    } else if d == 8 {
        proof {
            reveal_strlit("8");
            assert("8"@ =~= seq![hex_digit(8)]);
        }
        "8"
    } else if d == 9 {
        proof {
            reveal_strlit("9");
            assert("9"@ =~= seq![hex_digit(9)]);
        }
        "9"
    } else if d == 10 {
        proof {
            reveal_strlit("A");
            assert("A"@ =~= seq![hex_digit(10)]);
        }
        "A"
    } else if d == 11 {
        proof {
            reveal_strlit("B");
            assert("B"@ =~= seq![hex_digit(11)]);
        }
        "B"
    } else if d == 12 {
        proof {
            reveal_strlit("C");
            assert("C"@ =~= seq![hex_digit(12)]);
        }
        "C"
    } else if d == 13 {
        proof {
            reveal_strlit("D");
            assert("D"@ =~= seq![hex_digit(13)]);
        }
        "D"
    } else if d == 14 {
        proof {
            reveal_strlit("E");
            assert("E"@ =~= seq![hex_digit(14)]);
        }
        "E"
    } else {
        proof {
            reveal_strlit("F");
            assert("F"@ =~= seq![hex_digit(15)]);
        }
        "F"
    }
}

/// Appends the uppercase hexadecimal digits of `n` to a string.
fn push_hex(out: &mut String, n: u32)
    ensures
        final(out)@ == old(out)@ + hex_digits(n as int),
    decreases n,
{
    if n >= 16 {
        push_hex(out, n / 16);
        let d = hex_digit_str(n % 16);
        out.append(d);
        proof {
            assert(out@ =~= old(out)@ + hex_digits(n as int));
        }
    } else {
        let d = hex_digit_str(n);
        out.append(d);
        proof {
            assert(out@ =~= old(out)@ + hex_digits(n as int));
        }
    }
}

/// The synthesized identifier for a room-instance reference.
fn instance_name(v: i32) -> (r: String)
    ensures
        r@ == instance_ident(v),
{
    let mut name = String::new();
    name.append("inst_");
    push_hex(&mut name, v as u32);
    proof {
        reveal_strlit("inst_");
        assert("inst_"@ =~= seq!['i', 'n', 's', 't', '_']);
        assert(name@ =~= instance_ident(v));
    }
    name
}

/// An owned copy of a node-reference list.
fn copy_refs(v: &Vec<NodeRef>) -> (r: Vec<NodeRef>)
    ensures
        r@ == v@,
{
    let mut out: Vec<NodeRef> = Vec::new();
    let n = v.len();
    for i in 0..n
        invariant
            n == v@.len(),
            out@ == v@.subrange(0, i as int),
    {
        out.push(v[i]);
        proof {
            assert(out@ =~= v@.subrange(0, i + 1));
        }
    }
    proof {
        assert(v@.subrange(0, v@.len() as int) =~= v@);
    }
    out
}

#[via_fn]
proof fn sim_from_dec(
    s: Seq<Instruction>,
    t: NameTables,
    i: int,
    stack: Seq<ExprModel>,
    out: Seq<StmtModel>,
) {
    if 0 <= i < s.len() {
        match s[i] {
            Instruction::Branch { jump_offset } => {
                let delta = jump_offset as int * 4;
                if delta > 0 && exists|j: int|
                    i <= j <= s.len() && crate::prefix_size(s, j) == crate::prefix_size(s, i)
                        + delta {
                    let target = choose|j: int|
                        i <= j <= s.len() && crate::prefix_size(s, j) == crate::prefix_size(s, i)
                            + delta;
                    if target == i {
                        assert(false);
                    }
                    assert(target > i);
                }
            },
            _ => {},
        }
    }
}

/// The straight-line resolver: simulates the operand stack over a single
/// block's instructions to reconstruct assignment, return and call
/// statements and expression trees.
///
/// It is the most general resolver and acts as the terminal fallback, so
/// its specificity is the lowest-priority rank.
#[derive(Debug)]
pub struct StraightLineResolver;

impl StraightLineResolver {
    /// How specific this resolver is: the highest value stands for the
    /// least specific pattern, attempted after every narrower one.
    pub const SPECIFICITY: i16 = i16::MAX;

    /// Attempts to collapse the block at `entry` into a statement list by
    /// simulating the operand stack over exactly that block's instruction
    /// slice.
    ///
    /// Declines (`Ok(None)`) when the block spans at most one instruction:
    /// a single-instruction block is necessarily a branch or merge point
    /// needing real control-flow recognition, not a plain run.  On success
    /// the resolution consumes exactly the entry node, carries the
    /// simulated statements, and inherits the node's own children and
    /// parents unchanged.
    #[verifier::rlimit(100)]
    #[verifier::spinoff_prover]
    pub fn try_resolve(
        block_cfg: &ControlFlowGraph<BlockMeta>,
        code: &Code,
        data: &NameTables,
        entry: NodeRef,
    ) -> (r: Result<Option<Resolution>, DecompileError>)
        requires
            block_cfg.wf(),
            block_cfg.contains_spec(entry),
            block_cfg.spec_meta(entry).instr_range.0 <= block_cfg.spec_meta(entry).instr_range.1,
            block_cfg.spec_meta(entry).instr_range.1 <= code.instructions@.len(),
            crate::total_size(code.instructions@) <= u32::MAX,
        ensures
            ({
                let range = block_cfg.spec_meta(entry).instr_range;
                let s = code.instructions@.subrange(range.0 as int, range.1 as int);
                &&& range.1 - range.0 <= 1 ==> r == Ok::<Option<Resolution>, DecompileError>(None)
                &&& range.1 - range.0 > 1 ==> match sim_from(
                    s,
                    *data,
                    0,
                    Seq::empty(),
                    Seq::empty(),
                ) {
                    SimOutcome::Done(ms) => {
                        &&& r matches Ok(Some(res))
                        &&& res.nodes@ == seq![entry]
                        &&& res.merged_into matches ResolveState::Resolved(b) && stmts_match(
                            b.0@,
                            ms,
                        )
                        &&& res.merged_children@.to_set() == block_cfg.spec_children(entry)
                        &&& res.merged_children@.no_duplicates()
                        &&& res.merged_parents@.to_set() == block_cfg.spec_parents(entry)
                        &&& res.merged_parents@.no_duplicates()
                    },
                    SimOutcome::Underflow => r == Err::<Option<Resolution>, DecompileError>(
                        DecompileError::StackUnderflow { block: entry },
                    ),
                    SimOutcome::Unsupported(k) => r == Err::<Option<Resolution>, DecompileError>(
                        DecompileError::UnsupportedConstruct {
                            block: entry,
                            index: (range.0 + k) as usize,
                        },
                    ),
                    SimOutcome::Defect(k) => r == Err::<Option<Resolution>, DecompileError>(
                        DecompileError::StructuralDefect {
                            block: entry,
                            index: (range.0 + k) as usize,
                        },
                    ),
                    SimOutcome::Misaligned { at, delta } => {
                        &&& r matches Err(DecompileError::Offset { stage, error })
                        &&& stage == crate::error::Stage::Resolution
                        &&& crate::byte_to_index_outcome(
                            s.subrange(at, s.len() as int),
                            delta,
                            Err(error),
                        )
                    },
                    SimOutcome::BadSymbol { table, id } => r == Err::<
                        Option<Resolution>,
                        DecompileError,
                    >(DecompileError::UnresolvedSymbol { table, id }),
                }
            }),
    {
        let meta = block_cfg.meta_of(entry);
        let start = meta.instr_range.0;
        let end = meta.instr_range.1;
        if end - start <= 1 {
            return Ok(None);
        }
        let code_slice = &code.instructions[start..end];
        let ghost s = code_slice@;
        proof {
            crate::lemma_prefix_size_subrange(
                code.instructions@,
                start as int,
                end as int,
                (end - start) as int,
            );
            crate::lemma_prefix_size_mono(code.instructions@, 0, start as int);
            crate::lemma_prefix_size_mono(code.instructions@, end as int, code.instructions@.len() as int);
        }
        let ghost overall = sim_from(s, *data, 0, Seq::<ExprModel>::empty(), Seq::<
            StmtModel,
        >::empty());

        let mut out: Vec<Statement> = Vec::new();
        let mut stack: Vec<Expr> = Vec::new();
        let ghost mut m_stack: Seq<ExprModel> = Seq::empty();
        let ghost mut m_out: Seq<StmtModel> = Seq::empty();
        let mut i: usize = 0;

        while i < code_slice.len()
            invariant
                i <= s.len(),
                s == code_slice@,
                s.len() == end - start,
                start <= end <= code.instructions@.len(),
                s == code.instructions@.subrange(start as int, end as int),
                crate::total_size(s) <= u32::MAX,
                block_cfg.wf(),
                block_cfg.contains_spec(entry),
                start == block_cfg.spec_meta(entry).instr_range.0,
                end == block_cfg.spec_meta(entry).instr_range.1,
                end - start > 1,
                overall == sim_from(s, *data, 0, Seq::<ExprModel>::empty(), Seq::<
                    StmtModel,
                >::empty()),
                exprs_match(stack@, m_stack),
                stmts_match(out@, m_out),
                sim_from(s, *data, i as int, m_stack, m_out) == overall,
            ensures
                overall == SimOutcome::Done(m_out),
                stmts_match(out@, m_out),
            decreases s.len() - i,
        {
            let instr = &code_slice[i];
            match instr {
                Instruction::Add { .. }
                | Instruction::And { .. }
                | Instruction::Divide { .. }
                | Instruction::Modulus { .. }
                | Instruction::Or { .. }
                | Instruction::Remainder { .. }
                | Instruction::ShiftLeft { .. }
                | Instruction::ShiftRight { .. }
                | Instruction::Subtract { .. }
                | Instruction::Xor { .. }
                | Instruction::Multiply { .. } => {
                    if stack.len() < 2 {
                        proof {
                            assert(m_stack.len() < 2);
                            assert(overall == SimOutcome::Underflow);
                        }
                        return Err(DecompileError::StackUnderflow { block: entry });
                    }
                    let ghost orig = stack@;
                    let rhs = match stack.pop() {
                        Some(v) => v,
                        None => vstd::pervasive::unreached(),
                    };
                    let lhs = match stack.pop() {
                        Some(v) => v,
                        None => vstd::pervasive::unreached(),
                    };
                    let ghost m_rhs = m_stack.last();
                    let ghost m_lhs = m_stack.drop_last().last();
                    let op = binary_op_for(instr);
                    let folded = Expr::Binary { lhs: Box::new(lhs), op, rhs: Box::new(rhs) };
                    let ghost m_folded = ExprModel::Binary {
                        op: binary_op_of(s[i as int]),
                        operands: seq![m_lhs, m_rhs],
                    };
                    proof {
                        assert(expr_matches(rhs, m_rhs));
                        assert(exprs_match(orig.drop_last(), m_stack.drop_last()));
                        assert(expr_matches(lhs, m_lhs));
                        assert(exprs_match(stack@, m_stack.drop_last().drop_last()));
                        assert(expr_matches(folded, m_folded));
                        lemma_exprs_match_push(
                            stack@,
                            m_stack.drop_last().drop_last(),
                            folded,
                            m_folded,
                        );
                        m_stack = m_stack.drop_last().drop_last().push(m_folded);
                    }
                    stack.push(folded);
                    i = i + 1;
                },
                Instruction::Push { value } => {
                    let pushed: Expr = match value {
                        PushValue::Int16(v) => Expr::Constant(Constant::Integer(*v as i64)),
                        PushValue::Int32(v) => Expr::Constant(Constant::Integer(*v as i64)),
                        PushValue::Int64(v) => Expr::Constant(Constant::Integer(*v)),
                        PushValue::Double(bits) => Expr::Constant(Constant::Float(*bits)),
                        PushValue::Bool(b) => Expr::Constant(Constant::Boolean(*b)),
                        PushValue::String(st) => Expr::Constant(Constant::String(st.clone())),
                        PushValue::Function(id) => {
                            match crate::names::resolve_name(
                                &data.functions,
                                SymbolTable::Functions,
                                *id,
                            ) {
                                Ok(n) => Expr::Ident(n),
                                Err(e) => {
                                    return Err(e);
                                },
                            }
                        },
                        PushValue::Variable(id) => {
                            match crate::names::resolve_name(
                                &data.variables,
                                SymbolTable::Variables,
                                *id,
                            ) {
                                Ok(n) => Expr::Ident(n),
                                Err(e) => {
                                    return Err(e);
                                },
                            }
                        },
                    };
                    proof {
                        let m = push_value_model(*data, s[i as int]->Push_value)->Ok_0;
                        assert(expr_matches(pushed, m));
                        lemma_exprs_match_push(stack@, m_stack, pushed, m);
                        m_stack = m_stack.push(m);
                    }
                    stack.push(pushed);
                    i = i + 1;
                },
                Instruction::PushReference { asset_reference } => {
                    let name: String = match asset_reference {
                        crate::bytecode::AssetReference::Object(id) => {
                            match crate::names::resolve_name(
                                &data.game_objects,
                                SymbolTable::Objects,
                                *id,
                            ) {
                                Ok(n) => n,
                                Err(e) => {
                                    return Err(e);
                                },
                            }
                        },
                        crate::bytecode::AssetReference::Sprite(id) => {
                            match crate::names::resolve_name(
                                &data.sprites,
                                SymbolTable::Sprites,
                                *id,
                            ) {
                                Ok(n) => n,
                                Err(e) => {
                                    return Err(e);
                                },
                            }
                        },
                        crate::bytecode::AssetReference::Sound(id) => {
                            match crate::names::resolve_name(
                                &data.sounds,
                                SymbolTable::Sounds,
                                *id,
                            ) {
                                Ok(n) => n,
                                Err(e) => {
                                    return Err(e);
                                },
                            }
                        },
                        crate::bytecode::AssetReference::Room(id) => {
                            match crate::names::resolve_name(&data.rooms, SymbolTable::Rooms, *id) {
                                Ok(n) => n,
                                Err(e) => {
                                    return Err(e);
                                },
                            }
                        },
                        crate::bytecode::AssetReference::Path(id) => {
                            match crate::names::resolve_name(&data.paths, SymbolTable::Paths, *id) {
                                Ok(n) => n,
                                Err(e) => {
                                    return Err(e);
                                },
                            }
                        },
                        crate::bytecode::AssetReference::Script(id) => {
                            match crate::names::resolve_name(
                                &data.scripts,
                                SymbolTable::Scripts,
                                *id,
                            ) {
                                Ok(n) => n,
                                Err(e) => {
                                    return Err(e);
                                },
                            }
                        },
                        crate::bytecode::AssetReference::Font(id) => {
                            match crate::names::resolve_name(&data.fonts, SymbolTable::Fonts, *id) {
                                Ok(n) => n,
                                Err(e) => {
                                    return Err(e);
                                },
                            }
                        },
                        crate::bytecode::AssetReference::Timeline(id) => {
                            match crate::names::resolve_name(
                                &data.timelines,
                                SymbolTable::Timelines,
                                *id,
                            ) {
                                Ok(n) => n,
                                Err(e) => {
                                    return Err(e);
                                },
                            }
                        },
                        crate::bytecode::AssetReference::Shader(id) => {
                            match crate::names::resolve_name(
                                &data.shaders,
                                SymbolTable::Shaders,
                                *id,
                            ) {
                                Ok(n) => n,
                                Err(e) => {
                                    return Err(e);
                                },
                            }
                        },
                        crate::bytecode::AssetReference::Sequence(id) => {
                            match crate::names::resolve_name(
                                &data.sequences,
                                SymbolTable::Sequences,
                                *id,
                            ) {
                                Ok(n) => n,
                                Err(e) => {
                                    return Err(e);
                                },
                            }
                        },
                        crate::bytecode::AssetReference::AnimCurve(id) => {
                            match crate::names::resolve_name(
                                &data.animation_curves,
                                SymbolTable::AnimCurves,
                                *id,
                            ) {
                                Ok(n) => n,
                                Err(e) => {
                                    return Err(e);
                                },
                            }
                        },
                        crate::bytecode::AssetReference::ParticleSystem(id) => {
                            match crate::names::resolve_name(
                                &data.particle_systems,
                                SymbolTable::ParticleSystems,
                                *id,
                            ) {
                                Ok(n) => n,
                                Err(e) => {
                                    return Err(e);
                                },
                            }
                        },
                        crate::bytecode::AssetReference::Background(id) => {
                            match crate::names::resolve_name(
                                &data.backgrounds,
                                SymbolTable::Backgrounds,
                                *id,
                            ) {
                                Ok(n) => n,
                                Err(e) => {
                                    return Err(e);
                                },
                            }
                        },
                        crate::bytecode::AssetReference::RoomInstance(v) => instance_name(*v),
                        crate::bytecode::AssetReference::Function(id) => {
                            match crate::names::resolve_name(
                                &data.functions,
                                SymbolTable::Functions,
                                *id,
                            ) {
                                Ok(n) => n,
                                Err(e) => {
                                    return Err(e);
                                },
                            }
                        },
                    };
                    let pushed = Expr::Ident(name);
                    proof {
                        let m = ExprModel::Ident(
                            asset_model(*data, s[i as int]->PushReference_asset_reference)->Ok_0,
                        );
                        assert(expr_matches(pushed, m));
                        lemma_exprs_match_push(stack@, m_stack, pushed, m);
                        m_stack = m_stack.push(m);
                    }
                    stack.push(pushed);
                    i = i + 1;
                },
                Instruction::Call { function, arg_count } => {
                    let count = *arg_count as usize;
                    if stack.len() < count {
                        return Err(DecompileError::StackUnderflow { block: entry });
                    }
                    let name = match crate::names::resolve_name(
                        &data.functions,
                        SymbolTable::Functions,
                        *function,
                    ) {
                        Ok(n) => n,
                        Err(e) => {
                            return Err(e);
                        },
                    };
                    let ghost m_stack0 = m_stack;
                    let mut args: Vec<Expr> = Vec::new();
                    let ghost mut m_args: Seq<ExprModel> = Seq::empty();
                    let mut j: usize = 0;
                    while j < count
                        invariant
                            j <= count,
                            count <= m_stack0.len(),
                            stack@.len() == m_stack.len(),
                            exprs_match(stack@, m_stack),
                            exprs_match(args@, m_args),
                            m_stack == m_stack0.subrange(0, m_stack0.len() - j as int),
                            m_args =~= Seq::new(
                                j as nat,
                                |q: int| m_stack0[m_stack0.len() - 1 - q],
                            ),
                        decreases count - j,
                    {
                        let v = match stack.pop() {
                            Some(v) => v,
                            None => {
                                return Err(DecompileError::StackUnderflow { block: entry });
                            },
                        };
                        proof {
                            let m = m_stack.last();
                            lemma_exprs_match_push(args@, m_args, v, m);
                            m_args = m_args.push(m);
                            m_stack = m_stack.drop_last();
                            assert(m_stack =~= m_stack0.subrange(
                                0,
                                m_stack0.len() - (j + 1) as int,
                            ));
                            assert(m_args =~= Seq::new(
                                (j + 1) as nat,
                                |q: int| m_stack0[m_stack0.len() - 1 - q],
                            ));
                        }
                        args.push(v);
                        j = j + 1;
                    }
                    let called = Expr::Call(Call {
                        base: Box::new(Expr::Ident(name)),
                        arguments: args,
                        has_new: false,
                    });
                    proof {
                        let m_name = table_model(
                            data.functions@,
                            SymbolTable::Functions,
                            s[i as int]->Call_function,
                        )->Ok_0;
                        let m_call = ExprModel::CallExpr { name: m_name, arguments: m_args };
                        assert(expr_matches(called, m_call));
                        lemma_exprs_match_push(stack@, m_stack, called, m_call);
                        m_stack = m_stack.push(m_call);
                    }
                    stack.push(called);
                    i = i + 1;
                },
                Instruction::Exit => {
                    let stmt = Statement::Return(None);
                    proof {
                        let m = StmtModel::Return(None);
                        assert(stmt_matches(stmt, m));
                        lemma_stmts_match_push(out@, m_out, stmt, m);
                        m_out = m_out.push(m);
                    }
                    out.push(stmt);
                    i = i + 1;
                },
                Instruction::Return => {
                    let val = match stack.pop() {
                        Some(v) => v,
                        None => {
                            return Err(DecompileError::StackUnderflow { block: entry });
                        },
                    };
                    let stmt = Statement::Return(Some(Box::new(val)));
                    proof {
                        let m = StmtModel::Return(Some(m_stack.last()));
                        assert(stmt_matches(stmt, m));
                        lemma_stmts_match_push(out@, m_out, stmt, m);
                        m_out = m_out.push(m);
                        m_stack = m_stack.drop_last();
                    }
                    out.push(stmt);
                    i = i + 1;
                },
                Instruction::Pop { variable, .. } => {
                    let val = match stack.pop() {
                        Some(v) => v,
                        None => {
                            return Err(DecompileError::StackUnderflow { block: entry });
                        },
                    };
                    let name = match crate::names::resolve_name(
                        &data.variables,
                        SymbolTable::Variables,
                        *variable,
                    ) {
                        Ok(n) => n,
                        Err(e) => {
                            return Err(e);
                        },
                    };
                    let stmt = Statement::Assignment {
                        target: MutableExpr::Ident(name),
                        op: AssignmentOp::Equal,
                        value: Box::new(val),
                    };
                    proof {
                        let m_name = table_model(
                            data.variables@,
                            SymbolTable::Variables,
                            s[i as int]->Pop_variable,
                        )->Ok_0;
                        let m = StmtModel::Assign { name: m_name, value: m_stack.last() };
                        assert(stmt_matches(stmt, m));
                        lemma_stmts_match_push(out@, m_out, stmt, m);
                        m_out = m_out.push(m);
                        m_stack = m_stack.drop_last();
                    }
                    out.push(stmt);
                    i = i + 1;
                },
                Instruction::Branch { jump_offset } => {
                    let jo = *jump_offset;
                    if jo <= 0 {
                        return Err(
                            DecompileError::StructuralDefect { block: entry, index: start + i },
                        );
                    }
                    let ghost delta = jo as int * 4;
                    let tail = &code_slice[i..code_slice.len()];
                    proof {
                        crate::lemma_prefix_size_subrange(
                            s,
                            i as int,
                            s.len() as int,
                            s.len() - i as int,
                        );
                        crate::lemma_prefix_size_mono(s, 0, i as int);
                        crate::lemma_prefix_size_mono(s, i as int, s.len() as int);
                    }
                    let remaining = crate::code_byte_length(tail);
                    let delta64 = (jo as u64) * 4;
                    if delta64 > remaining as u64 {
                        proof {
                            assert forall|j: int|
                                i as int <= j <= s.len() implies crate::prefix_size(s, j)
                                != crate::prefix_size(s, i as int) + delta by {
                                crate::lemma_prefix_size_mono(s, j, s.len() as int);
                            }
                        }
                        return Err(
                            DecompileError::StructuralDefect { block: entry, index: start + i },
                        );
                    }
                    let delta32 = delta64 as u32;
                    match crate::get_index_from_bytes(tail, delta32) {
                        Ok(j) => {
                            proof {
                                crate::lemma_prefix_size_subrange(
                                    s,
                                    i as int,
                                    s.len() as int,
                                    j as int,
                                );
                                assert(crate::prefix_size(s, i + j as int) == crate::prefix_size(
                                    s,
                                    i as int,
                                ) + delta);
                                let target = choose|q: int|
                                    i as int <= q <= s.len() && crate::prefix_size(s, q)
                                        == crate::prefix_size(s, i as int) + delta;
                                crate::lemma_boundary_unique(s, target, i + j as int);
                            }
                            let t = i + j;
                            if t == code_slice.len() {
                                break ;
                            }
                            i = t;
                        },
                        Err(e) => {
                            proof {
                                assert(e is Misaligned) by {
                                    crate::lemma_prefix_size_subrange(
                                        s,
                                        i as int,
                                        s.len() as int,
                                        s.len() - i as int,
                                    );
                                }
                                assert forall|q: int|
                                    i as int <= q <= s.len() implies crate::prefix_size(s, q)
                                    != crate::prefix_size(s, i as int) + delta by {
                                    crate::lemma_prefix_size_subrange(
                                        s,
                                        i as int,
                                        s.len() as int,
                                        q - i as int,
                                    );
                                }
                            }
                            return Err(
                                DecompileError::Offset {
                                    stage: crate::error::Stage::Resolution,
                                    error: e,
                                },
                            );
                        },
                    }
                },
                Instruction::BranchIf { .. } | Instruction::BranchUnless { .. } => {
                    match stack.pop() {
                        Some(_) => {},
                        None => {
                            return Err(DecompileError::StackUnderflow { block: entry });
                        },
                    }
                    proof {
                        m_stack = m_stack.drop_last();
                    }
                    i = i + 1;
                },
                Instruction::Convert { .. } => {
                    i = i + 1;
                },
                _ => {
                    return Err(
                        DecompileError::UnsupportedConstruct { block: entry, index: start + i },
                    );
                },
            }
        }
        let block = Block(out);
        let children = copy_refs(block_cfg.children_of(entry));
        let parents = copy_refs(block_cfg.parents_of(entry));
        let resolution = Resolution {
            nodes: vec![entry],
            merged_into: ResolveState::Resolved(block),
            merged_children: children,
            merged_parents: parents,
        };
        proof {
            assert(resolution.nodes@ =~= seq![entry]);
        }
        Ok(Some(resolution))
    }
}

/// The binary operator selected by a binary instruction, from its operand
/// data-type tags.
fn binary_op_for(instr: &Instruction) -> (r: BinaryOp)
    requires
        is_binary_instr(*instr),
    ensures
        r == binary_op_of(*instr),
{
    match instr {
        Instruction::Add { .. } => BinaryOp::Add,
        Instruction::And { lhs: DataType::Bool, .. } => BinaryOp::And,
        Instruction::And { .. } => BinaryOp::BitAnd,
        Instruction::Divide { lhs: DataType::Int16, .. } => BinaryOp::IDiv,
        Instruction::Divide { lhs: DataType::Int32, .. } => BinaryOp::IDiv,
        Instruction::Divide { lhs: DataType::Int64, .. } => BinaryOp::IDiv,
        Instruction::Divide { .. } => BinaryOp::Div,
        Instruction::Modulus { .. } => BinaryOp::Rem,
        Instruction::Remainder { .. } => BinaryOp::Rem,
        Instruction::Or { lhs: DataType::Bool, .. } => BinaryOp::Or,
        Instruction::Or { .. } => BinaryOp::BitOr,
        Instruction::ShiftLeft { .. } => BinaryOp::BitShiftLeft,
        Instruction::ShiftRight { .. } => BinaryOp::BitShiftRight,
        Instruction::Subtract { .. } => BinaryOp::Sub,
        Instruction::Xor { lhs: DataType::Bool, .. } => BinaryOp::Xor,
        Instruction::Xor { .. } => BinaryOp::BitXor,
        Instruction::Multiply { .. } => BinaryOp::Mult,
        _ => BinaryOp::Add,
    }
}


/// How many of the members listed from position `k` on are still
/// unresolved.
pub open spec fn count_unresolved_from(
    cfg: ControlFlowGraph<BlockMeta>,
    m: Seq<NodeRef>,
    k: int,
) -> nat
    decreases m.len() - k,
    when 0 <= k <= m.len()
{
    if k >= m.len() {
        0
    } else {
        count_unresolved_from(cfg, m, k + 1) + if cfg.contains_spec(m[k])
            && cfg.spec_meta(m[k]).resolve_state is Unresolved {
            1nat
        } else {
            0nat
        }
    }
}

proof fn lemma_count_unresolved_frame(
    cfg0: ControlFlowGraph<BlockMeta>,
    cfg: ControlFlowGraph<BlockMeta>,
    m: Seq<NodeRef>,
    k: int,
)
    requires
        0 <= k <= m.len(),
        forall|j: int|
            k <= j < m.len() ==> (cfg.contains_spec(#[trigger] m[j]) <==> cfg0.contains_spec(
                m[j],
            )) && (cfg0.contains_spec(m[j]) ==> (cfg.spec_meta(m[j]).resolve_state is Unresolved
                <==> cfg0.spec_meta(m[j]).resolve_state is Unresolved)),
    ensures
        count_unresolved_from(cfg, m, k) == count_unresolved_from(cfg0, m, k),
    decreases m.len() - k,
{
    if k < m.len() {
        lemma_count_unresolved_frame(cfg0, cfg, m, k + 1);
    }
}

proof fn lemma_count_unresolved_flip(
    cfg0: ControlFlowGraph<BlockMeta>,
    cfg: ControlFlowGraph<BlockMeta>,
    m: Seq<NodeRef>,
    k: int,
    n: NodeRef,
)
    requires
        0 <= k <= m.len(),
        m.no_duplicates(),
        exists|j: int| k <= j < m.len() && m[j] == n,
        cfg0.contains_spec(n),
        cfg.contains_spec(n),
        cfg0.spec_meta(n).resolve_state is Unresolved,
        !(cfg.spec_meta(n).resolve_state is Unresolved),
        forall|x: NodeRef|
            x != n ==> (cfg.contains_spec(x) <==> cfg0.contains_spec(x)) && (cfg0.contains_spec(
                x,
            ) ==> cfg.spec_meta(x) == cfg0.spec_meta(x)),
    ensures
        count_unresolved_from(cfg, m, k) + 1 == count_unresolved_from(cfg0, m, k),
    decreases m.len() - k,
{
    if m[k] == n {
        assert forall|j: int|
            k + 1 <= j < m.len() implies (cfg.contains_spec(#[trigger] m[j])
                <==> cfg0.contains_spec(m[j])) && (cfg0.contains_spec(m[j]) ==> (cfg.spec_meta(
            m[j]).resolve_state is Unresolved <==> cfg0.spec_meta(m[j]).resolve_state
            is Unresolved)) by {
            assert(m[j] != n);
        }
        lemma_count_unresolved_frame(cfg0, cfg, m, k + 1);
    } else {
        let j = choose|j: int| k <= j < m.len() && m[j] == n;
        assert(j != k);
        lemma_count_unresolved_flip(cfg0, cfg, m, k + 1, n);
    }
}

proof fn lemma_count_unresolved_zero(
    cfg: ControlFlowGraph<BlockMeta>,
    m: Seq<NodeRef>,
    k: int,
    n: NodeRef,
)
    requires
        0 <= k <= m.len(),
        count_unresolved_from(cfg, m, k) == 0,
        exists|j: int| k <= j < m.len() && m[j] == n,
        cfg.contains_spec(n),
    ensures
        !(cfg.spec_meta(n).resolve_state is Unresolved),
    decreases m.len() - k,
{
    if m[k] == n {
    } else {
        let j = choose|j: int| k <= j < m.len() && m[j] == n;
        assert(j != k);
        lemma_count_unresolved_zero(cfg, m, k + 1, n);
    }
}

proof fn lemma_count_unresolved_pos(
    cfg: ControlFlowGraph<BlockMeta>,
    m: Seq<NodeRef>,
    k: int,
    n: NodeRef,
)
    requires
        0 <= k <= m.len(),
        exists|j: int| k <= j < m.len() && m[j] == n,
        cfg.contains_spec(n),
        cfg.spec_meta(n).resolve_state is Unresolved,
    ensures
        count_unresolved_from(cfg, m, k) >= 1,
    decreases m.len() - k,
{
    if m[k] == n {
    } else {
        let j = choose|j: int| k <= j < m.len() && m[j] == n;
        assert(j != k);
        lemma_count_unresolved_pos(cfg, m, k + 1, n);
    }
}

proof fn lemma_count_unresolved_nonzero(cfg: ControlFlowGraph<BlockMeta>, m: Seq<NodeRef>, k: int)
    requires
        0 <= k <= m.len(),
        count_unresolved_from(cfg, m, k) > 0,
    ensures
        exists|j: int|
            k <= j < m.len() && cfg.contains_spec(#[trigger] m[j]) && cfg.spec_meta(
                m[j],
            ).resolve_state is Unresolved,
    decreases m.len() - k,
{
    if cfg.contains_spec(m[k]) && cfg.spec_meta(m[k]).resolve_state is Unresolved {
    } else {
        lemma_count_unresolved_nonzero(cfg, m, k + 1);
    }
}



/// Whether a block's metadata carries a resolution that matches the
/// straight-line simulation of its own instruction range: the block spans
/// more than one instruction, the simulation runs to completion, and the
/// stored statements mirror it.
pub open spec fn resolved_matches_sim(s: Seq<Instruction>, t: NameTables, meta: BlockMeta) -> bool {
    let start = meta.instr_range.0 as int;
    let end = meta.instr_range.1 as int;
    let slice = s.subrange(start, end);
    &&& end - start > 1
    &&& meta.resolve_state matches ResolveState::Resolved(b) && (sim_from(
        slice,
        t,
        0,
        Seq::empty(),
        Seq::empty(),
    ) matches SimOutcome::Done(ms) && stmts_match(b.0@, ms))
}

/// Whether `e` is exactly the error the straight-line resolver assigns to
/// the block `entry` spanning `[start, end)`: the simulation of that slice
/// fails, and `e` reports that failure.
pub open spec fn resolve_failure(
    s: Seq<Instruction>,
    t: NameTables,
    entry: NodeRef,
    start: int,
    end: int,
    e: DecompileError,
) -> bool {
    let slice = s.subrange(start, end);
    &&& end - start > 1
    &&& match sim_from(slice, t, 0, Seq::empty(), Seq::empty()) {
        SimOutcome::Done(_) => false,
        SimOutcome::Underflow => e == DecompileError::StackUnderflow { block: entry },
        SimOutcome::Unsupported(k) => e == DecompileError::UnsupportedConstruct {
            block: entry,
            index: (start + k) as usize,
        },
        SimOutcome::Defect(k) => e == DecompileError::StructuralDefect {
            block: entry,
            index: (start + k) as usize,
        },
        SimOutcome::Misaligned { at, delta } => {
            &&& e matches DecompileError::Offset { stage, error }
            &&& e->Offset_stage == crate::error::Stage::Resolution
            &&& crate::byte_to_index_outcome(
                slice.subrange(at, slice.len() as int),
                delta,
                Err(e->Offset_error),
            )
        },
        SimOutcome::BadSymbol { table, id } => e == DecompileError::UnresolvedSymbol { table, id },
    }
}

/// Drives the resolvers over the block graph: repeatedly scans the
/// remaining nodes, applies the first matching resolver, performs the
/// rewrite its resolution describes, and repeats until the graph has
/// been reduced to a single fully resolved node (success) or no resolver
/// matches any remaining node, the no-progress fixed point, which is
/// reported as an incomplete decompilation rather than looping on.
///
/// The straight-line resolver consumes exactly its entry node and inherits
/// its edges unchanged, so performing its rewrite amounts to replacing that
/// node's metadata in place; a resolver that merged several nodes would
/// remove the consumed nodes and insert the merged one instead.
///
/// Every node it resolves ends up matching the straight-line simulation of
/// its own instruction range; on failure, either some still-unresolved
/// block's simulation genuinely fails with exactly the returned error, or
/// the no-progress fixed point was reached: every remaining unresolved
/// block spans at most one instruction, and the graph has not reduced to a
/// single resolved node.
pub fn resolve_graph(
    cfg: &mut ControlFlowGraph<BlockMeta>,
    code: &Code,
    data: &NameTables,
) -> (r: Result<(), DecompileError>)
    requires
        old(cfg).wf(),
        crate::total_size(code.instructions@) <= u32::MAX,
        forall|n: NodeRef| #[trigger]
            old(cfg).contains_spec(n) ==> old(cfg).spec_meta(n).instr_range.0 <= old(
                cfg,
            ).spec_meta(n).instr_range.1 <= code.instructions@.len(),
    ensures
        final(cfg).wf(),
        forall|n: NodeRef| final(cfg).contains_spec(n) <==> old(cfg).contains_spec(n),
        forall|n: NodeRef| #[trigger]
            final(cfg).contains_spec(n) ==> final(cfg).spec_meta(n).instr_range == old(
                cfg,
            ).spec_meta(n).instr_range,
        forall|n: NodeRef| #[trigger]
            final(cfg).contains_spec(n) ==> (final(cfg).spec_meta(n) == old(cfg).spec_meta(n)
                || resolved_matches_sim(code.instructions@, *data, final(cfg).spec_meta(n))),
        r is Ok ==> final(cfg).spec_len() == 1 && exists|n: NodeRef|
            #[trigger] final(cfg).contains_spec(n) && final(cfg).spec_meta(
                n,
            ).resolve_state is Resolved,
        r matches Err(e) ==> {
            ||| exists|n: NodeRef|
                #[trigger] final(cfg).contains_spec(n) && final(cfg).spec_meta(
                    n,
                ).resolve_state is Unresolved && resolve_failure(
                    code.instructions@,
                    *data,
                    n,
                    final(cfg).spec_meta(n).instr_range.0 as int,
                    final(cfg).spec_meta(n).instr_range.1 as int,
                    e,
                )
            ||| {
                &&& forall|n: NodeRef|
                    #[trigger] final(cfg).contains_spec(n) && final(cfg).spec_meta(
                        n,
                    ).resolve_state is Unresolved ==> final(cfg).spec_meta(n).instr_range.1
                        - final(cfg).spec_meta(n).instr_range.0 <= 1
                &&& (final(cfg).spec_len() != 1 || exists|n: NodeRef|
                    #[trigger] final(cfg).contains_spec(n) && final(cfg).spec_meta(
                        n,
                    ).resolve_state is Unresolved)
            }
        },
{
    let ghost s = code.instructions@;
    let members = cfg.iter();
    let mut unresolved: usize = 0;
    let count = members.len();
    let ghost m = members@;
    for i in 0..count
        invariant
            count == m.len(),
            members@ == m,
            *cfg == *old(cfg),
            cfg.wf(),
            is_sorted_member_seq(*cfg, m),
            unresolved as int + count_unresolved_from(*cfg, m, i as int) == count_unresolved_from(
                *cfg,
                m,
                0,
            ),
            unresolved <= i,
    {
        let node = members[i];
        proof {
            assert(m.contains(m[i as int]));
        }
        let meta = cfg.meta_of(node);
        if matches!(meta.resolve_state, ResolveState::Unresolved) {
            unresolved = unresolved + 1;
        }
    }
    proof {
        assert(is_sorted_member_seq(*cfg, m));
        assert(is_sorted_member_seq(*cfg, crate::sorted_members(*cfg)));
        crate::lemma_sorted_seq_unique(m, crate::sorted_members(*cfg));
    }
    loop
        invariant
            cfg.wf(),
            crate::total_size(s) <= u32::MAX,
            s == code.instructions@,
            unresolved as int == count_unresolved_from(*cfg, crate::sorted_members(*cfg), 0),
            forall|n: NodeRef| cfg.contains_spec(n) <==> old(cfg).contains_spec(n),
            forall|n: NodeRef| #[trigger]
                cfg.contains_spec(n) ==> cfg.spec_meta(n).instr_range == old(cfg).spec_meta(
                    n,
                ).instr_range,
            forall|n: NodeRef| #[trigger]
                cfg.contains_spec(n) ==> cfg.spec_meta(n).instr_range.0 <= cfg.spec_meta(
                    n,
                ).instr_range.1 <= s.len(),
            forall|n: NodeRef| #[trigger]
                cfg.contains_spec(n) ==> (cfg.spec_meta(n) == old(cfg).spec_meta(n)
                    || resolved_matches_sim(s, *data, cfg.spec_meta(n))),
        decreases unresolved,
    {
        let nodes = cfg.iter();
        let ghost mn = nodes@;
        proof {
            assert(is_sorted_member_seq(*cfg, mn));
            assert(is_sorted_member_seq(*cfg, crate::sorted_members(*cfg)));
            crate::lemma_sorted_seq_unique(mn, crate::sorted_members(*cfg));
        }
        let n_nodes = nodes.len();
        let mut applied = false;
        let mut j: usize = 0;
        while j < n_nodes && !applied
            invariant
                n_nodes == mn.len(),
                nodes@ == mn,
                n_nodes == cfg.spec_len(),
                j <= n_nodes,
                cfg.wf(),
                crate::total_size(s) <= u32::MAX,
                s == code.instructions@,
                is_sorted_member_seq(*cfg, mn),
                mn == crate::sorted_members(*cfg),
                !applied ==> unresolved as int == count_unresolved_from(*cfg, mn, 0),
                applied ==> unresolved as int == count_unresolved_from(*cfg, mn, 0) + 1
                    && unresolved >= 1,
                forall|n: NodeRef| cfg.contains_spec(n) <==> old(cfg).contains_spec(n),
                forall|n: NodeRef| #[trigger]
                    cfg.contains_spec(n) ==> cfg.spec_meta(n).instr_range == old(cfg).spec_meta(
                        n,
                    ).instr_range,
                forall|n: NodeRef| #[trigger]
                    cfg.contains_spec(n) ==> cfg.spec_meta(n).instr_range.0 <= cfg.spec_meta(
                        n,
                    ).instr_range.1 <= s.len(),
                forall|n: NodeRef| #[trigger]
                    cfg.contains_spec(n) ==> (cfg.spec_meta(n) == old(cfg).spec_meta(n)
                        || resolved_matches_sim(s, *data, cfg.spec_meta(n))),
                !applied ==> forall|k: int|
                    0 <= k < j ==> {
                        let meta = cfg.spec_meta(#[trigger] mn[k]);
                        meta.resolve_state is Resolved || meta.instr_range.1 - meta.instr_range.0
                            <= 1
                    },
            decreases n_nodes - j,
        {
            let node = nodes[j];
            proof {
                assert(mn.contains(mn[j as int]));
            }
            let is_unresolved = matches!(
                cfg.meta_of(node).resolve_state,
                ResolveState::Unresolved,
            );
            if is_unresolved {
                let a = cfg.meta_of(node).instr_range.0;
                let b = cfg.meta_of(node).instr_range.1;
                let ghost cfg0 = *cfg;
                match StraightLineResolver::try_resolve(cfg, code, data, node) {
                    Ok(Some(res)) => {
                        cfg.insert_parentless(
                            node,
                            BlockMeta { instr_range: (a, b), resolve_state: res.merged_into },
                        );
                        applied = true;
                        proof {
                            assert(res.merged_into is Resolved);
                            assert(!(cfg.spec_meta(node).resolve_state is Unresolved));
                            assert(b - a > 1);
                            assert(resolved_matches_sim(s, *data, cfg.spec_meta(node)));
                            assert forall|x: NodeRef|
                                x != node implies (cfg.contains_spec(x) <==> cfg0.contains_spec(
                                x,
                            )) && (cfg0.contains_spec(x) ==> cfg.spec_meta(x) == cfg0.spec_meta(
                                x,
                            )) by {}
                            lemma_count_unresolved_flip(cfg0, *cfg, mn, 0, node);
                            assert(is_sorted_member_seq(*cfg, mn));
                            assert(is_sorted_member_seq(*cfg, crate::sorted_members(*cfg)));
                            crate::lemma_sorted_seq_unique(mn, crate::sorted_members(*cfg));
                            lemma_count_unresolved_pos(cfg0, mn, 0, node);
                        }
                    },
                    Ok(None) => {},
                    Err(e) => {
                        proof {
                            assert(!(b - a <= 1));
                            assert(resolve_failure(s, *data, node, a as int, b as int, e));
                        }
                        return Err(e);
                    },
                }
            }
            j = j + 1;
        }
        if applied {
            unresolved = unresolved - 1;
        } else {
            if n_nodes == 1 && unresolved == 0 {
                let root = nodes[0];
                proof {
                    assert(mn.contains(mn[0]));
                    assert(cfg.contains_spec(root));
                    lemma_count_unresolved_zero(*cfg, mn, 0, root);
                    assert(cfg.spec_meta(root).resolve_state is Resolved);
                    assert(cfg.spec_len() == 1);
                    assert(cfg.contains_spec(root) && cfg.spec_meta(
                        root,
                    ).resolve_state is Resolved);
                }
                return Ok(());
            }
            // the no-progress fixed point: nothing matched in a full scan
            let blamed = if n_nodes > 0 {
                nodes[0]
            } else {
                NodeRef(0)
            };
            let idx = if n_nodes > 0 {
                cfg.meta_of(blamed).instr_range.0
            } else {
                0
            };
            proof {
                assert forall|n: NodeRef|
                    #[trigger] cfg.contains_spec(n) && cfg.spec_meta(
                        n,
                    ).resolve_state is Unresolved implies cfg.spec_meta(n).instr_range.1
                    - cfg.spec_meta(n).instr_range.0 <= 1 by {
                    assert(mn.contains(n));
                    let k = choose|k: int| 0 <= k < mn.len() && mn[k] == n;
                    assert(cfg.spec_meta(mn[k]).resolve_state is Resolved || cfg.spec_meta(
                        mn[k],
                    ).instr_range.1 - cfg.spec_meta(mn[k]).instr_range.0 <= 1);
                }
                if cfg.spec_len() == 1 {
                    assert(unresolved > 0);
                    lemma_count_unresolved_nonzero(*cfg, mn, 0);
                }
            }
            return Err(DecompileError::UnsupportedConstruct { block: blamed, index: idx });
        }
    }
}


} // verus!
