//! End-to-end and component tests for the decompiler library.

use libgmldc::ast::{BinaryOp, Constant, Expr, Statement};
use libgmldc::bytecode::{AssetReference, Code, DataType, Instruction, PushValue};
use libgmldc::cfg::{ControlFlowGraph, NodeRef};
use libgmldc::error::{DecompileError, OffsetError, Stage, SymbolTable};
use libgmldc::names::{resolve_name, NameTables};
use libgmldc::resolver::{resolve_graph, BlockMeta, ResolveState, StraightLineResolver};
use libgmldc::{
    code_byte_length, create_instr_cfg_from_code, decompile_one, get_code_of_block,
    get_index_from_byte_offset, get_index_from_bytes, instr_cfg_to_block_cfg, resolve_jump,
};

fn push_i64(v: i64) -> Instruction {
    Instruction::Push { value: PushValue::Int64(v) }
}

fn push_bool(v: bool) -> Instruction {
    Instruction::Push { value: PushValue::Bool(v) }
}

fn code_of(instructions: Vec<Instruction>) -> Code {
    Code { name: String::from("code1"), instructions, execution_offset: 0 }
}

/// A stream of sizes 4, 12 and 4 bytes; total 20.
fn mixed_stream() -> Vec<Instruction> {
    vec![
        Instruction::Push { value: PushValue::Int16(1) },
        push_i64(2),
        Instruction::Return,
    ]
}

#[test]
fn total_length_resolves_one_past_last() {
    let instrs = mixed_stream();
    assert_eq!(code_byte_length(&instrs), 20);
    assert_eq!(get_index_from_bytes(&instrs, 20), Ok(3));
}

#[test]
fn larger_than_total_fails_out_of_range() {
    let instrs = mixed_stream();
    assert_eq!(
        get_index_from_bytes(&instrs, 24),
        Err(OffsetError::OutOfRange { byte_offset: 24, byte_length: 20 })
    );
    assert_eq!(
        get_index_from_bytes(&instrs, 21),
        Err(OffsetError::OutOfRange { byte_offset: 21, byte_length: 20 })
    );
}

#[test]
fn misaligned_offset_reports_first_boundary_past_it() {
    let instrs = mixed_stream();
    assert_eq!(
        get_index_from_bytes(&instrs, 6),
        Err(OffsetError::Misaligned { byte_offset: 6, reached: 16 })
    );
}

#[test]
fn boundaries_resolve_to_their_index() {
    let instrs = mixed_stream();
    assert_eq!(get_index_from_bytes(&instrs, 0), Ok(0));
    assert_eq!(get_index_from_bytes(&instrs, 4), Ok(1));
    assert_eq!(get_index_from_bytes(&instrs, 16), Ok(2));
}

#[test]
fn zero_relative_offset_is_identity() {
    let instrs = mixed_stream();
    for i in 0..=instrs.len() {
        assert_eq!(get_index_from_byte_offset(&instrs, i, 0), Ok(i));
    }
}

#[test]
fn relative_offsets_resolve_both_directions() {
    let instrs = mixed_stream();
    assert_eq!(get_index_from_byte_offset(&instrs, 0, 4), Ok(1));
    assert_eq!(get_index_from_byte_offset(&instrs, 0, 16), Ok(2));
    assert_eq!(get_index_from_byte_offset(&instrs, 2, -16), Ok(0));
    assert_eq!(get_index_from_byte_offset(&instrs, 2, -12), Ok(1));
    assert_eq!(
        get_index_from_byte_offset(&instrs, 2, -4),
        Err(OffsetError::Misaligned { byte_offset: 12, reached: 16 })
    );
}

#[test]
fn negative_offset_before_start_underflows() {
    let instrs = mixed_stream();
    assert_eq!(
        get_index_from_byte_offset(&instrs, 0, -4),
        Err(OffsetError::Underflow { base: 0, offset: -4 })
    );
    assert_eq!(
        get_index_from_byte_offset(&instrs, 2, -20),
        Err(OffsetError::Underflow { base: 16, offset: -20 })
    );
}

#[test]
fn resolve_jump_is_word_scaled() {
    let instrs = vec![Instruction::Branch { jump_offset: 1 }, push_i64(0), Instruction::Exit];
    // one word forward from the branch lands on the push
    assert_eq!(resolve_jump(&instrs, 0, 1), Ok(1));
    // four words forward is the stream's total length: one past the exit
    assert_eq!(resolve_jump(&instrs, 0, 5), Ok(3));
}

#[test]
fn straight_line_block_resolves_add_and_return() {
    let code = code_of(vec![
        push_i64(256),
        push_i64(256),
        Instruction::Add { lhs: DataType::Int64, rhs: DataType::Int64 },
        Instruction::Return,
    ]);
    let data = NameTables::default();
    let mut cfg: ControlFlowGraph<BlockMeta> = ControlFlowGraph::new_rootless();
    cfg.insert_parentless(
        NodeRef(0),
        BlockMeta { instr_range: (0, 4), resolve_state: ResolveState::Unresolved },
    );
    let res = StraightLineResolver::try_resolve(&cfg, &code, &data, NodeRef(0))
        .expect("no failure")
        .expect("resolves");
    assert_eq!(res.nodes, vec![NodeRef(0)]);
    let block = match res.merged_into {
        ResolveState::Resolved(b) => b,
        ResolveState::Unresolved => panic!("block must be resolved"),
    };
    assert_eq!(block.0.len(), 1);
    match &block.0[0] {
        Statement::Return(Some(e)) => match &**e {
            Expr::Binary { lhs, op, rhs } => {
                assert_eq!(*op, BinaryOp::Add);
                assert!(matches!(&**lhs, Expr::Constant(Constant::Integer(256))));
                assert!(matches!(&**rhs, Expr::Constant(Constant::Integer(256))));
            },
            other => panic!("expected a binary expression, got {:?}", other),
        },
        other => panic!("expected a return statement, got {:?}", other),
    }
}

#[test]
fn single_instruction_block_is_declined() {
    let code = code_of(vec![Instruction::Exit, Instruction::Exit]);
    let data = NameTables::default();
    let mut cfg: ControlFlowGraph<BlockMeta> = ControlFlowGraph::new_rootless();
    cfg.insert_parentless(
        NodeRef(0),
        BlockMeta { instr_range: (0, 1), resolve_state: ResolveState::Unresolved },
    );
    cfg.insert_parentless(
        NodeRef(1),
        BlockMeta { instr_range: (1, 1), resolve_state: ResolveState::Unresolved },
    );
    assert!(matches!(
        StraightLineResolver::try_resolve(&cfg, &code, &data, NodeRef(0)),
        Ok(None)
    ));
    assert!(matches!(
        StraightLineResolver::try_resolve(&cfg, &code, &data, NodeRef(1)),
        Ok(None)
    ));
}

#[test]
fn pop_to_variable_on_empty_stack_underflows_naming_the_block() {
    let code = code_of(vec![
        Instruction::Convert { from: DataType::Int32, to: DataType::Variable },
        Instruction::Pop { variable: 0, type1: DataType::Variable, type2: DataType::Variable },
    ]);
    let mut data = NameTables::default();
    data.variables.push(String::from("x"));
    let mut cfg: ControlFlowGraph<BlockMeta> = ControlFlowGraph::new_rootless();
    cfg.insert_parentless(
        NodeRef(7),
        BlockMeta { instr_range: (0, 2), resolve_state: ResolveState::Unresolved },
    );
    assert!(matches!(
        StraightLineResolver::try_resolve(&cfg, &code, &data, NodeRef(7)),
        Err(DecompileError::StackUnderflow { block: NodeRef(7) })
    ));
}

#[test]
fn unresolved_symbol_reports_table_and_id() {
    let code = code_of(vec![
        Instruction::Push { value: PushValue::Function(5) },
        Instruction::Return,
    ]);
    let data = NameTables::default();
    let mut cfg: ControlFlowGraph<BlockMeta> = ControlFlowGraph::new_rootless();
    cfg.insert_parentless(
        NodeRef(0),
        BlockMeta { instr_range: (0, 2), resolve_state: ResolveState::Unresolved },
    );
    assert!(matches!(
        StraightLineResolver::try_resolve(&cfg, &code, &data, NodeRef(0)),
        Err(DecompileError::UnresolvedSymbol { table: SymbolTable::Functions, id: 5 })
    ));
}

#[test]
fn room_instance_reference_synthesizes_hex_name() {
    let code = code_of(vec![
        Instruction::PushReference { asset_reference: AssetReference::RoomInstance(255) },
        Instruction::Return,
    ]);
    let data = NameTables::default();
    let mut cfg: ControlFlowGraph<BlockMeta> = ControlFlowGraph::new_rootless();
    cfg.insert_parentless(
        NodeRef(0),
        BlockMeta { instr_range: (0, 2), resolve_state: ResolveState::Unresolved },
    );
    let res = StraightLineResolver::try_resolve(&cfg, &code, &data, NodeRef(0))
        .expect("no failure")
        .expect("resolves");
    let block = match res.merged_into {
        ResolveState::Resolved(b) => b,
        ResolveState::Unresolved => panic!("block must be resolved"),
    };
    match &block.0[0] {
        Statement::Return(Some(e)) => match &**e {
            Expr::Ident(name) => assert_eq!(name, "inst_FF"),
            other => panic!("expected an identifier, got {:?}", other),
        },
        other => panic!("expected a return statement, got {:?}", other),
    }
}

#[test]
fn self_loop_records_edge_without_reexpansion() {
    let code = code_of(vec![push_bool(false), Instruction::BranchIf { jump_offset: -2 }]);
    let cfg = create_instr_cfg_from_code(&code).expect("builds");
    assert_eq!(cfg.len(), 2);
    assert!(cfg.has(NodeRef(0)));
    assert!(cfg.has(NodeRef(1)));
    assert!(!cfg.has(NodeRef(2)));
    assert!(cfg.children_of(NodeRef(0)).contains(&NodeRef(1)));
    assert!(cfg.children_of(NodeRef(1)).contains(&NodeRef(0)));
    assert!(cfg.parents_of(NodeRef(0)).contains(&NodeRef(1)));
    assert!(cfg.parents_of(NodeRef(1)).contains(&NodeRef(0)));
}

#[test]
fn terminal_entry_keeps_unreachable_tail_out() {
    let code = code_of(vec![
        Instruction::Exit,
        Instruction::BranchIf { jump_offset: -1 },
        Instruction::Exit,
        Instruction::Exit,
        Instruction::Exit,
    ]);
    let cfg = create_instr_cfg_from_code(&code).expect("builds");
    assert_eq!(cfg.len(), 1);
    assert!(cfg.has(NodeRef(0)));
    for i in 1..5 {
        assert!(!cfg.has(NodeRef(i)));
    }
    assert!(cfg.children_of(NodeRef(0)).is_empty());
}

#[test]
fn misaligned_jump_aborts_the_build() {
    let code = code_of(vec![Instruction::Branch { jump_offset: 2 }, push_i64(0)]);
    assert_eq!(
        create_instr_cfg_from_code(&code),
        Err(DecompileError::Offset {
            stage: Stage::CfgConstruction,
            error: OffsetError::Misaligned { byte_offset: 8, reached: 16 },
        })
    );
}

#[test]
fn edge_sets_stay_symmetric_across_insert_and_remove() {
    let mut g: ControlFlowGraph<u32> = ControlFlowGraph::new_rootless();
    g.insert(NodeRef(0), NodeRef(0), 10);
    g.insert(NodeRef(0), NodeRef(1), 11);
    g.insert(NodeRef(1), NodeRef(2), 12);
    g.insert(NodeRef(1), NodeRef(0), 10);
    g.insert(NodeRef(2), NodeRef(2), 12);
    assert_eq!(g.len(), 3);
    for a in 0..3 {
        for b in 0..3 {
            let fwd = g.children_of(NodeRef(a)).contains(&NodeRef(b));
            let bwd = g.parents_of(NodeRef(b)).contains(&NodeRef(a));
            assert_eq!(fwd, bwd, "edge {}->{} must be recorded symmetrically", a, b);
        }
    }
    g.remove(NodeRef(1));
    assert_eq!(g.len(), 2);
    assert!(!g.has(NodeRef(1)));
    assert!(!g.children_of(NodeRef(0)).contains(&NodeRef(1)));
    assert!(!g.parents_of(NodeRef(0)).contains(&NodeRef(1)));
    for a in [0usize, 2] {
        for b in [0usize, 2] {
            let fwd = g.children_of(NodeRef(a)).contains(&NodeRef(b));
            let bwd = g.parents_of(NodeRef(b)).contains(&NodeRef(a));
            assert_eq!(fwd, bwd);
        }
    }
    // the self-looping node can be removed too
    g.remove(NodeRef(2));
    assert_eq!(g.len(), 1);
    assert!(g.has(NodeRef(0)));
}

#[test]
fn meta_is_set_and_overwritten() {
    let mut g: ControlFlowGraph<u32> = ControlFlowGraph::new_rootless();
    g.insert(NodeRef(0), NodeRef(4), 40);
    assert_eq!(*g.meta_of(NodeRef(4)), 40);
    g.insert_parentless(NodeRef(4), 41);
    assert_eq!(*g.meta_of(NodeRef(4)), 41);
    assert_eq!(g.iter(), vec![NodeRef(4)]);
}

#[test]
fn partitioner_splits_at_the_branch() {
    // push true | branch-if -2 / fall through | push, push, add, convert, return
    let code = code_of(vec![
        push_bool(true),
        Instruction::BranchIf { jump_offset: -2 },
        push_i64(256),
        push_i64(256),
        Instruction::Add { lhs: DataType::Int64, rhs: DataType::Int64 },
        Instruction::Convert { from: DataType::Int64, to: DataType::Variable },
        Instruction::Return,
    ]);
    let icfg = create_instr_cfg_from_code(&code).expect("builds");
    let bcfg = instr_cfg_to_block_cfg(&code, icfg);
    assert_eq!(bcfg.len(), 2);
    assert_eq!(bcfg.meta_of(NodeRef(0)).instr_range, (0, 2));
    assert_eq!(bcfg.meta_of(NodeRef(1)).instr_range, (2, 7));
    // the conditional branch loops back into its own block and falls through
    assert!(bcfg.children_of(NodeRef(0)).contains(&NodeRef(0)));
    assert!(bcfg.children_of(NodeRef(0)).contains(&NodeRef(1)));
    let slice = get_code_of_block(bcfg.meta_of(NodeRef(1)), &code);
    assert_eq!(slice.len(), 5);
}

#[test]
fn decompile_one_emits_blocks_in_order() {
    let code = code_of(vec![
        push_bool(true),
        Instruction::BranchIf { jump_offset: -2 },
        push_i64(256),
        push_i64(256),
        Instruction::Add { lhs: DataType::Int64, rhs: DataType::Int64 },
        Instruction::Convert { from: DataType::Int64, to: DataType::Variable },
        Instruction::Return,
    ]);
    let data = NameTables::default();
    let blocks = decompile_one(&code, &data).expect("decompiles");
    assert_eq!(blocks.len(), 2);
    // the condition block pushes and discards, emitting nothing
    assert!(blocks[0].0.is_empty());
    assert!(matches!(&blocks[1].0[..], [Statement::Return(Some(_))]));
}

#[test]
fn decompile_one_propagates_symbol_failures() {
    let code = code_of(vec![
        Instruction::Push { value: PushValue::Variable(3) },
        Instruction::Return,
    ]);
    let data = NameTables::default();
    assert!(matches!(
        decompile_one(&code, &data),
        Err(DecompileError::UnresolvedSymbol { table: SymbolTable::Variables, id: 3 })
    ));
}

#[test]
fn resolver_loop_reduces_single_block_code() {
    let code = code_of(vec![push_i64(1), Instruction::Return]);
    let data = NameTables::default();
    let icfg = create_instr_cfg_from_code(&code).expect("builds");
    let mut bcfg = instr_cfg_to_block_cfg(&code, icfg);
    assert_eq!(bcfg.len(), 1);
    resolve_graph(&mut bcfg, &code, &data).expect("reduces to one resolved node");
    let members = bcfg.iter();
    assert_eq!(members.len(), 1);
    assert!(matches!(
        bcfg.meta_of(members[0]).resolve_state,
        ResolveState::Resolved(_)
    ));
}

#[test]
fn resolver_loop_reports_the_stuck_fixed_point() {
    let code = code_of(vec![
        push_bool(true),
        Instruction::BranchIf { jump_offset: -2 },
        push_i64(1),
        Instruction::Return,
    ]);
    let data = NameTables::default();
    let icfg = create_instr_cfg_from_code(&code).expect("builds");
    let mut bcfg = instr_cfg_to_block_cfg(&code, icfg);
    assert_eq!(bcfg.len(), 2);
    // with only the straight-line resolver, two blocks can never merge
    assert!(matches!(
        resolve_graph(&mut bcfg, &code, &data),
        Err(DecompileError::UnsupportedConstruct { .. })
    ));
}

#[test]
fn name_lookup_succeeds_exactly_in_range() {
    let table = vec![String::from("alpha"), String::from("beta")];
    assert_eq!(resolve_name(&table, SymbolTable::Functions, 1), Ok(String::from("beta")));
    assert_eq!(
        resolve_name(&table, SymbolTable::Functions, 2),
        Err(DecompileError::UnresolvedSymbol { table: SymbolTable::Functions, id: 2 })
    );
    assert_eq!(
        resolve_name(&table, SymbolTable::Functions, -1),
        Err(DecompileError::UnresolvedSymbol { table: SymbolTable::Functions, id: -1 })
    );
}

#[test]
fn unsupported_instruction_is_reported_with_its_index() {
    let code = code_of(vec![
        push_i64(1),
        Instruction::PopSwap { is_array: false },
        Instruction::Return,
    ]);
    let data = NameTables::default();
    let mut cfg: ControlFlowGraph<BlockMeta> = ControlFlowGraph::new_rootless();
    cfg.insert_parentless(
        NodeRef(0),
        BlockMeta { instr_range: (0, 3), resolve_state: ResolveState::Unresolved },
    );
    assert!(matches!(
        StraightLineResolver::try_resolve(&cfg, &code, &data, NodeRef(0)),
        Err(DecompileError::UnsupportedConstruct { block: NodeRef(0), index: 1 })
    ));
}

#[test]
fn backward_jump_inside_a_block_is_a_structural_defect() {
    let code = code_of(vec![push_i64(1), Instruction::Branch { jump_offset: -3 }]);
    let data = NameTables::default();
    let mut cfg: ControlFlowGraph<BlockMeta> = ControlFlowGraph::new_rootless();
    cfg.insert_parentless(
        NodeRef(0),
        BlockMeta { instr_range: (0, 2), resolve_state: ResolveState::Unresolved },
    );
    assert!(matches!(
        StraightLineResolver::try_resolve(&cfg, &code, &data, NodeRef(0)),
        Err(DecompileError::StructuralDefect { block: NodeRef(0), index: 1 })
    ));
}

#[test]
fn call_collects_arguments_in_pop_order() {
    let code = code_of(vec![
        push_i64(1),
        push_i64(2),
        Instruction::Call { function: 0, arg_count: 2 },
        Instruction::Return,
    ]);
    let mut data = NameTables::default();
    data.functions.push(String::from("f"));
    let mut cfg: ControlFlowGraph<BlockMeta> = ControlFlowGraph::new_rootless();
    cfg.insert_parentless(
        NodeRef(0),
        BlockMeta { instr_range: (0, 4), resolve_state: ResolveState::Unresolved },
    );
    let res = StraightLineResolver::try_resolve(&cfg, &code, &data, NodeRef(0))
        .expect("no failure")
        .expect("resolves");
    let block = match res.merged_into {
        ResolveState::Resolved(b) => b,
        ResolveState::Unresolved => panic!("block must be resolved"),
    };
    match &block.0[0] {
        Statement::Return(Some(e)) => match &**e {
            Expr::Call(call) => {
                assert!(matches!(&*call.base, Expr::Ident(n) if n == "f"));
                assert!(!call.has_new);
                // popped order: the last push comes first
                assert!(matches!(
                    &call.arguments[..],
                    [Expr::Constant(Constant::Integer(2)), Expr::Constant(Constant::Integer(1))]
                ));
            },
            other => panic!("expected a call, got {:?}", other),
        },
        other => panic!("expected a return statement, got {:?}", other),
    }
}

#[test]
fn misaligned_block_jump_is_wrapped_with_the_resolution_stage() {
    // the jump's two-word delta lands inside the 12-byte push that follows
    let code = code_of(vec![Instruction::Branch { jump_offset: 2 }, push_i64(0)]);
    let data = NameTables::default();
    let mut cfg: ControlFlowGraph<BlockMeta> = ControlFlowGraph::new_rootless();
    cfg.insert_parentless(
        NodeRef(0),
        BlockMeta { instr_range: (0, 2), resolve_state: ResolveState::Unresolved },
    );
    assert!(matches!(
        StraightLineResolver::try_resolve(&cfg, &code, &data, NodeRef(0)),
        Err(DecompileError::Offset {
            stage: Stage::Resolution,
            error: OffsetError::Misaligned { byte_offset: 8, reached: 16 },
        })
    ));
}

#[test]
fn resolver_loop_reports_the_failing_block_error() {
    // a single block whose simulation fails on a missing function name
    let code = code_of(vec![
        Instruction::Push { value: PushValue::Function(5) },
        Instruction::Return,
    ]);
    let data = NameTables::default();
    let icfg = create_instr_cfg_from_code(&code).expect("builds");
    let mut bcfg = instr_cfg_to_block_cfg(&code, icfg);
    assert_eq!(bcfg.len(), 1);
    assert!(matches!(
        resolve_graph(&mut bcfg, &code, &data),
        Err(DecompileError::UnresolvedSymbol { table: SymbolTable::Functions, id: 5 })
    ));
}
